//! Rows of `width` words stored one after another in a flat vector, and
//! the row operations that elimination, back substitution and queries make
//! on them.
use vstd::prelude::*;

use crate::gf2::{
    band, bit, eval, fits, is_zero_row, lemma_band_single, lemma_band_xor, lemma_band_zero,
    lemma_bit_facts, lemma_combine_len, lemma_combine_linear, lemma_combine_none,
    lemma_combine_single, lemma_row_xor_algebra, lemma_tz128, row_xor, rows_wf, trailing_zeros_u128,
    zero_row,
};

verus! {

/// The first `n` rows of `width` words of a flat vector.
pub open spec fn rows_of(flat: Seq<u64>, width: nat, n: nat) -> Seq<Seq<u64>> {
    Seq::new(n, |i: int| flat.subrange(i * width, i * width + width))
}

/// Row `i` of a flat vector lies inside it, and rows do not overlap.
pub proof fn lemma_row_bounds(i: int, j: int, k: int, width: int, n: int)
    requires
        0 <= i < n,
        0 <= k,
        0 <= width,
        0 <= j < n,
    ensures
        0 <= i * width,
        i * width + width <= n * width,
        j < i ==> j * width + width <= i * width,
        j > i ==> i * width + width <= j * width,
        k < width ==> 0 <= i * width + k < n * width,
{
    assert(0 <= i * width) by (nonlinear_arith)
        requires
            0 <= i,
            0 <= width,
    ;
    assert(i * width + width <= n * width) by (nonlinear_arith)
        requires
            i < n,
            0 <= width,
    ;
    assert(j < i ==> j * width + width <= i * width) by (nonlinear_arith)
        requires
            0 <= width,
    ;
    assert(j > i ==> i * width + width <= j * width) by (nonlinear_arith)
        requires
            0 <= width,
    ;
}

/// The rows of a flat vector of zeros are zero rows.
pub proof fn lemma_rows_of_zero(flat: Seq<u64>, width: nat, n: nat)
    requires
        flat.len() == n * width,
        forall|p: int| 0 <= p < flat.len() ==> flat[p] == 0u64,
    ensures
        rows_of(flat, width, n) == Seq::new(n, |i: int| zero_row(width)),
        rows_wf(rows_of(flat, width, n), width),
{
    assert forall|i: int| 0 <= i < n implies #[trigger] rows_of(flat, width, n)[i] == zero_row(width) by {
        if width > 0 {
            lemma_row_bounds(i, 0, 0, width as int, n as int);
        } else {
            assert(i * width == 0) by (nonlinear_arith)
                requires
                    width == 0,
            ;
        }
        assert(rows_of(flat, width, n)[i] =~= zero_row(width));
    }
    assert(rows_of(flat, width, n) =~= Seq::new(n, |i: int| zero_row(width)));
}

/// Rows of a flat vector of the right length have `width` words.
pub proof fn lemma_rows_of_wf(flat: Seq<u64>, width: nat, n: nat)
    requires
        flat.len() == n * width,
    ensures
        rows_wf(rows_of(flat, width, n), width),
{
    assert forall|i: int| 0 <= i < n implies (#[trigger] rows_of(flat, width, n)[i]).len() == width by {
        if width > 0 {
            lemma_row_bounds(i, 0, 0, width as int, n as int);
        } else {
            assert(i * width == 0) by (nonlinear_arith)
                requires
                    width == 0,
            ;
        }
    }
}

/// Overwrites row `i` of `flat` with `src`.
pub fn copy_row_into(flat: &mut Vec<u64>, i: usize, width: usize, n: usize, src: &Vec<u64>)
    requires
        i < n,
        src.len() == width,
        old(flat).len() == n * width,
    ensures
        final(flat).len() == n * width,
        rows_of(final(flat)@, width as nat, n as nat) == rows_of(old(flat)@, width as nat, n as nat).update(
            i as int,
            src@,
        ),
{
    proof {
        lemma_row_bounds(i as int, 0, 0, width as int, n as int);
    }
    let base = i * width;
    let mut k: usize = 0;
    while k < width
        invariant
            k <= width,
            base == i * width,
            base + width <= n * width,
            flat.len() == n * width,
            src.len() == width,
            forall|p: int|
                0 <= p < flat.len() ==> #[trigger] flat@[p] == if base <= p < base + k {
                    src@[p - base]
                } else {
                    old(flat)@[p]
                },
        decreases width - k,
    {
        flat.set(base + k, src[k]);
        k = k + 1;
    }
    proof {
        let old_rows = rows_of(old(flat)@, width as nat, n as nat);
        let new_rows = rows_of(flat@, width as nat, n as nat);
        assert forall|j: int| 0 <= j < n implies #[trigger] new_rows[j] == old_rows.update(i as int, src@)[j] by {
            lemma_row_bounds(i as int, j, 0, width as int, n as int);
            lemma_row_bounds(j, i as int, 0, width as int, n as int);
            if j == i {
                assert(new_rows[j] =~= src@);
            } else {
                assert(new_rows[j] =~= old_rows[j]);
            }
        }
        assert(new_rows =~= old_rows.update(i as int, src@));
    }
}

/// Copies row `i` of `flat` into `dst`.
pub fn copy_row_out(dst: &mut Vec<u64>, flat: &[u64], i: usize, width: usize, n: usize)
    requires
        i < n,
        old(dst).len() == width,
        flat.len() == n * width,
    ensures
        final(dst)@ == rows_of(flat@, width as nat, n as nat)[i as int],
{
    proof {
        lemma_row_bounds(i as int, 0, 0, width as int, n as int);
    }
    let base = i * width;
    let mut k: usize = 0;
    while k < width
        invariant
            k <= width,
            base == i * width,
            base + width <= flat.len(),
            dst.len() == width,
            forall|q: int| 0 <= q < k ==> #[trigger] dst@[q] == flat@[base + q],
        decreases width - k,
    {
        dst.set(k, flat[base + k]);
        k = k + 1;
    }
    assert(dst@ =~= rows_of(flat@, width as nat, n as nat)[i as int]);
}

/// XORs row `i` of `flat` into `dst`.
pub fn xor_row_from(dst: &mut Vec<u64>, flat: &[u64], i: usize, width: usize, n: usize)
    requires
        i < n,
        old(dst).len() == width,
        flat.len() == n * width,
    ensures
        final(dst)@ == row_xor(old(dst)@, rows_of(flat@, width as nat, n as nat)[i as int]),
{
    proof {
        lemma_row_bounds(i as int, 0, 0, width as int, n as int);
    }
    let base = i * width;
    let mut k: usize = 0;
    while k < width
        invariant
            k <= width,
            base == i * width,
            base + width <= flat.len(),
            dst.len() == width,
            forall|q: int|
                0 <= q < width ==> #[trigger] dst@[q] == if q < k {
                    old(dst)@[q] ^ flat@[base + q]
                } else {
                    old(dst)@[q]
                },
        decreases width - k,
    {
        let v = dst[k] ^ flat[base + k];
        dst.set(k, v);
        k = k + 1;
    }
    assert(dst@ =~= row_xor(old(dst)@, rows_of(flat@, width as nat, n as nat)[i as int]));
}

/// Every word of `row` is zero.
pub fn all_zero(row: &Vec<u64>) -> (res: bool)
    ensures
        res == is_zero_row(row@),
{
    let mut k: usize = 0;
    while k < row.len()
        invariant
            k <= row.len(),
            forall|q: int| 0 <= q < k ==> row@[q] == 0u64,
        decreases row.len() - k,
    {
        if row[k] != 0 {
            return false;
        }
        k = k + 1;
    }
    true
}

/// XORs into `acc` the rows of `flat` that `coeff`, placed at `start`,
/// selects, visiting its set bits from the lowest.
pub fn xor_rows_selected(
    flat: &[u64],
    width: usize,
    n: usize,
    start: usize,
    coeff: u128,
    acc: &mut Vec<u64>,
)
    requires
        flat.len() == n * width,
        old(acc).len() == width,
        fits(n as int, start as int, coeff),
    ensures
        final(acc)@ == row_xor(
            old(acc)@,
            eval(rows_of(flat@, width as nat, n as nat), band(n as nat, start as int, coeff), width as nat),
        ),
{
    let ghost rows = rows_of(flat@, width as nat, n as nat);
    let ghost w = width as nat;
    proof {
        lemma_rows_of_wf(flat@, w, n as nat);
        lemma_bit_facts(coeff, coeff, 0, 0);
        lemma_band_zero(n as nat, start as int);
        lemma_combine_none(rows, band(n as nat, start as int, 0), n as int, w);
        lemma_row_xor_algebra(old(acc)@, old(acc)@, old(acc)@);
    }
    let mut mask = coeff;
    proof {
        lemma_bit_facts(coeff, coeff, 0, 0);
        lemma_loop_start(coeff);
    }
    while mask != 0
        invariant
            flat.len() == n * width,
            acc.len() == width,
            old(acc)@.len() == width,
            w == width as nat,
            rows == rows_of(flat@, width as nat, n as nat),
            rows_wf(rows, w),
            fits(n as int, start as int, coeff),
            mask & coeff == mask,
            acc@ == row_xor(old(acc)@, eval(rows, band(n as nat, start as int, coeff ^ mask), w)),
        decreases mask,
    {
        proof {
            lemma_tz128(mask);
        }
        let b = trailing_zeros_u128(mask) as u128;
        let ghost done = coeff ^ mask;
        let ghost old_mask = mask;
        proof {
            lemma_lowest_bit_step(coeff, mask, b);
            assert(bit(coeff, b as int));
        }
        let row_index = start + b as usize;
        if row_index < n {
            xor_row_from(acc, flat, row_index, width, n);
        }
        mask = mask & (mask - 1);
        proof {
            let sel = band(n as nat, start as int, 1u128 << b);
            let e_done = eval(rows, band(n as nat, start as int, done), w);
            assert(coeff ^ mask == done ^ (1u128 << b));
            lemma_band_xor(n as nat, start as int, done, 1u128 << b);
            lemma_combine_linear(rows, band(n as nat, start as int, done), sel, n as int, w);
            lemma_band_single(n as nat, start as int, b);
            lemma_combine_single(rows, sel, row_index as int, n as int, w);
            lemma_combine_len(rows, band(n as nat, start as int, done), n as int, w);
            lemma_combine_len(rows, sel, n as int, w);
            let e_sel = eval(rows, sel, w);
            lemma_row_xor_algebra(old(acc)@, e_done, e_sel);
        }
    }
    proof {
        lemma_loop_start(coeff);
    }
}

/// At the start nothing is handled: `coeff ^ coeff` is zero.
proof fn lemma_loop_start(coeff: u128)
    by (bit_vector)
    ensures
        coeff & coeff == coeff,
        coeff ^ coeff == 0u128,
        coeff ^ 0u128 == coeff,
{
}

/// One step of the loop over set bits: bit `b`, the lowest of `mask`, is a
/// bit of `coeff`; clearing it keeps `mask` within `coeff`, makes it
/// smaller, and adds bit `b` to the handled bits `coeff ^ mask`.
proof fn lemma_lowest_bit_step(coeff: u128, mask: u128, b: u128)
    by (bit_vector)
    requires
        b < 128,
        (mask >> b) & 1u128 == 1u128,
        mask << ((128 - b) as u128) == 0u128,
        mask & coeff == mask,
    ensures
        mask >= 1,
        (coeff >> b) & 1u128 == 1u128,
        (mask & ((mask - 1) as u128)) & coeff == mask & ((mask - 1) as u128),
        mask & ((mask - 1) as u128) < mask,
        coeff ^ (mask & ((mask - 1) as u128)) == (coeff ^ mask) ^ (1u128 << b),
{
}

} // verus!
