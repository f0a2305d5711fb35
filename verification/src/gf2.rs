//! Rows of fingerprint words and their XOR combinations: the algebra over
//! GF(2) in which a filter's equations are stated and solved.
use vstd::prelude::*;
use vstd::std_specs::bits::{u64_trailing_zeros, axiom_u64_trailing_zeros};

verus! {

/// Word-wise XOR of two rows.
pub open spec fn row_xor(a: Seq<u64>, b: Seq<u64>) -> Seq<u64> {
    Seq::new(a.len(), |k: int| a[k] ^ b[k])
}

/// A row of `n` zero words.
pub open spec fn zero_row(n: nat) -> Seq<u64> {
    Seq::new(n, |k: int| 0u64)
}

pub open spec fn is_zero_row(a: Seq<u64>) -> bool {
    forall|k: int| 0 <= k < a.len() ==> a[k] == 0
}

/// The row with its last word cut down to `mask`.
pub open spec fn mask_last(a: Seq<u64>, mask: u64) -> Seq<u64> {
    a.update(a.len() - 1, a[a.len() - 1] & mask)
}

/// The last word of `a` has no bit outside `mask`.
pub open spec fn last_masked(a: Seq<u64>, mask: u64) -> bool {
    a.len() >= 1 && a[a.len() - 1] & mask == a[a.len() - 1]
}

/// Every row has `width` words.
pub open spec fn rows_wf(rows: Seq<Seq<u64>>, width: nat) -> bool {
    forall|i: int| 0 <= i < rows.len() ==> (#[trigger] rows[i]).len() == width
}

/// Every row has its last word within `mask`.
pub open spec fn rows_masked(rows: Seq<Seq<u64>>, mask: u64) -> bool {
    forall|i: int| 0 <= i < rows.len() ==> last_masked(#[trigger] rows[i], mask)
}

/// Position-wise sum over GF(2) of two selections.
pub open spec fn sel_xor(u: Seq<bool>, v: Seq<bool>) -> Seq<bool> {
    Seq::new(u.len(), |p: int| u[p] != v[p])
}

/// XOR of the rows selected by `v` among the first `n` positions.
pub open spec fn combine(rows: Seq<Seq<u64>>, v: Seq<bool>, n: int, width: nat) -> Seq<u64>
    decreases n,
{
    if n <= 0 {
        zero_row(width)
    } else if v[n - 1] {
        row_xor(combine(rows, v, n - 1, width), rows[n - 1])
    } else {
        combine(rows, v, n - 1, width)
    }
}

/// XOR of all the rows selected by `v`.
pub open spec fn eval(rows: Seq<Seq<u64>>, v: Seq<bool>, width: nat) -> Seq<u64> {
    combine(rows, v, v.len() as int, width)
}

/// The laws of XOR on words.
pub proof fn lemma_word_xor_facts()
    by (bit_vector)
    ensures
        forall|x: u64, y: u64, z: u64| #[trigger] ((x ^ y) ^ z) == x ^ (y ^ z),
        forall|x: u64, y: u64| #[trigger] (x ^ y) == y ^ x,
        forall|x: u64| #[trigger] (x ^ 0) == x,
        forall|x: u64| #[trigger] (x ^ x) == 0,
{
}

/// The regroupings of three words that the linearity proof uses.
pub proof fn lemma_xor3(a: u64, b: u64, c: u64)
    by (bit_vector)
    ensures
        (a ^ c) ^ b == (a ^ b) ^ c,
        a ^ (b ^ c) == (a ^ b) ^ c,
        (a ^ c) ^ (b ^ c) == a ^ b,
{
}

/// A word XOR with both operands within `mask` stays within it.
pub proof fn lemma_xor_within_mask(x: u64, y: u64, mask: u64)
    by (bit_vector)
    ensures
        (x & mask == x && y & mask == y) ==> (x ^ y) & mask == x ^ y,
        0u64 & mask == 0u64,
{
}

/// XOR of rows is associative and commutative, has the zero row as unit
/// and every row as its own inverse.
pub proof fn lemma_row_xor_algebra(a: Seq<u64>, b: Seq<u64>, c: Seq<u64>)
    requires
        a.len() == b.len(),
        b.len() == c.len(),
    ensures
        row_xor(row_xor(a, b), c) == row_xor(a, row_xor(b, c)),
        row_xor(a, b) == row_xor(b, a),
        row_xor(a, zero_row(a.len())) == a,
        row_xor(zero_row(a.len()), a) == a,
        row_xor(a, a) == zero_row(a.len()),
        row_xor(row_xor(a, b), b) == a,
{
    lemma_word_xor_facts();
    assert(row_xor(row_xor(a, b), c) =~= row_xor(a, row_xor(b, c)));
    assert(row_xor(a, b) =~= row_xor(b, a));
    assert(row_xor(a, zero_row(a.len())) =~= a);
    assert(row_xor(zero_row(a.len()), a) =~= a);
    assert(row_xor(a, a) =~= zero_row(a.len()));
    assert forall|k: int| 0 <= k < a.len() implies #[trigger] row_xor(row_xor(a, b), b)[k]
        == a[k] by {
        lemma_xor3(a[k], 0, b[k]);
    }
    assert(row_xor(row_xor(a, b), b) =~= a);
}

pub proof fn lemma_combine_len(rows: Seq<Seq<u64>>, v: Seq<bool>, n: int, width: nat)
    requires
        n <= rows.len(),
        n <= v.len(),
        rows_wf(rows, width),
    ensures
        combine(rows, v, n, width).len() == width,
    decreases n,
{
    if n > 0 {
        lemma_combine_len(rows, v, n - 1, width);
    }
}

/// Combination is linear: selecting `u ⊕ v` gives the XOR of the two
/// combinations.
pub proof fn lemma_combine_linear(
    rows: Seq<Seq<u64>>,
    u: Seq<bool>,
    v: Seq<bool>,
    n: int,
    width: nat,
)
    requires
        n <= rows.len(),
        n <= u.len(),
        u.len() == v.len(),
        rows_wf(rows, width),
    ensures
        combine(rows, sel_xor(u, v), n, width) == row_xor(
            combine(rows, u, n, width),
            combine(rows, v, n, width),
        ),
    decreases n,
{
    let uv = sel_xor(u, v);
    if n <= 0 {
        lemma_row_xor_algebra(zero_row(width), zero_row(width), zero_row(width));
    } else {
        lemma_combine_linear(rows, u, v, n - 1, width);
        lemma_combine_len(rows, u, n - 1, width);
        lemma_combine_len(rows, v, n - 1, width);
        lemma_combine_len(rows, uv, n - 1, width);
        let cu = combine(rows, u, n - 1, width);
        let cv = combine(rows, v, n - 1, width);
        let r = rows[n - 1];
        lemma_word_xor_facts();
        let lhs = combine(rows, uv, n, width);
        let rhs = row_xor(combine(rows, u, n, width), combine(rows, v, n, width));
        assert forall|k: int| 0 <= k < width implies #[trigger] lhs[k] == rhs[k] by {
            lemma_xor3(cu[k], cv[k], r[k]);
        }
        assert(lhs =~= rhs);
    }
}

/// Rows that are not selected do not matter.
pub proof fn lemma_combine_frame(
    rows1: Seq<Seq<u64>>,
    rows2: Seq<Seq<u64>>,
    v: Seq<bool>,
    n: int,
    width: nat,
)
    requires
        n <= rows1.len(),
        n <= rows2.len(),
        n <= v.len(),
        forall|p: int| 0 <= p < n && v[p] ==> rows1[p] == rows2[p],
    ensures
        combine(rows1, v, n, width) == combine(rows2, v, n, width),
    decreases n,
{
    if n > 0 {
        lemma_combine_frame(rows1, rows2, v, n - 1, width);
    }
}

/// Selecting nothing gives the zero row.
pub proof fn lemma_combine_none(rows: Seq<Seq<u64>>, v: Seq<bool>, n: int, width: nat)
    requires
        n <= v.len(),
        forall|p: int| 0 <= p < n ==> !v[p],
    ensures
        combine(rows, v, n, width) == zero_row(width),
    decreases n,
{
    if n > 0 {
        lemma_combine_none(rows, v, n - 1, width);
    }
}

/// Selecting one position gives its row.
pub proof fn lemma_combine_single(rows: Seq<Seq<u64>>, v: Seq<bool>, q: int, n: int, width: nat)
    requires
        n <= rows.len(),
        n <= v.len(),
        0 <= q,
        rows_wf(rows, width),
        forall|p: int| 0 <= p < n && p != q ==> !v[p],
        q < n ==> v[q],
    ensures
        combine(rows, v, n, width) == (if q < n {
            rows[q]
        } else {
            zero_row(width)
        }),
    decreases n,
{
    if n > 0 {
        if q == n - 1 {
            lemma_combine_none(rows, v, n - 1, width);
            lemma_row_xor_algebra(rows[q], rows[q], rows[q]);
        } else {
            lemma_combine_single(rows, v, q, n - 1, width);
        }
    }
}

/// A combination of rows whose last word lies within `mask` has its last
/// word within `mask`.
pub proof fn lemma_combine_masked(
    rows: Seq<Seq<u64>>,
    v: Seq<bool>,
    n: int,
    width: nat,
    mask: u64,
)
    requires
        n <= rows.len(),
        n <= v.len(),
        width >= 1,
        rows_wf(rows, width),
        forall|p: int| 0 <= p < n && v[p] ==> last_masked(#[trigger] rows[p], mask),
    ensures
        last_masked(combine(rows, v, n, width), mask),
    decreases n,
{
    if n > 0 {
        lemma_combine_masked(rows, v, n - 1, width, mask);
        lemma_combine_len(rows, v, n - 1, width);
        if v[n - 1] {
            lemma_xor_within_mask(
                combine(rows, v, n - 1, width)[width - 1],
                rows[n - 1][width - 1],
                mask,
            );
        }
    } else {
        lemma_xor_within_mask(0, 0, mask);
    }
}

/// XOR of two rows with their last words within `mask`.
pub proof fn lemma_xor_masked(a: Seq<u64>, b: Seq<u64>, mask: u64)
    requires
        a.len() == b.len(),
        last_masked(a, mask),
        last_masked(b, mask),
    ensures
        last_masked(row_xor(a, b), mask),
        mask_last(row_xor(a, b), mask) == row_xor(a, b),
{
    lemma_xor_within_mask(a[a.len() - 1], b[b.len() - 1], mask);
    assert(mask_last(row_xor(a, b), mask) =~= row_xor(a, b));
}

/// Bit `j` of a coefficient word.
pub open spec fn bit(c: u128, j: int) -> bool {
    0 <= j < 128 && (c >> (j as u128)) & 1 == 1
}

/// The number of trailing zero bits of a coefficient word (128 for zero),
/// counted on its low half and, where that is zero, on its high half.
pub open spec fn tz128(x: u128) -> int {
    let lo = x as u64;
    if lo != 0 {
        u64_trailing_zeros(lo) as int
    } else {
        64 + u64_trailing_zeros((x >> 64u128) as u64) as int
    }
}

/// Bits below `t` of a word whose low `t` bits are shifted out by
/// `128 - t` are clear.
proof fn lemma_low_bits_clear(x: u128, t: u128, j: u128)
    by (bit_vector)
    requires
        t <= 128,
        j < t,
        x << ((128 - t) as u128) == 0,
    ensures
        (x >> j) & 1 == 0,
{
}

/// The lowest set bit of a word whose low half is nonzero lies in that half.
proof fn lemma_low_half(x: u128, t: u64)
    by (bit_vector)
    requires
        t < 64,
        ((x as u64) >> t) & 1 == 1,
        (x as u64) << ((64 - t) as u64) == 0,
    ensures
        (x >> (t as u128)) & 1 == 1,
        x << ((128 - t) as u128) == 0,
{
}

/// The lowest set bit of a nonzero word whose low half is zero lies in the
/// high half.
proof fn lemma_high_half(x: u128, t: u64)
    by (bit_vector)
    requires
        t < 64,
        x as u64 == 0,
        (((x >> 64u128) as u64) >> t) & 1 == 1,
        ((x >> 64u128) as u64) << ((64 - t) as u64) == 0,
    ensures
        (x >> ((64 + t) as u128)) & 1 == 1,
        x << ((64 - t) as u128) == 0,
{
}

/// A nonzero word with a zero low half has a nonzero high half.
proof fn lemma_halves_nonzero(x: u128)
    by (bit_vector)
    requires
        x != 0,
        x as u64 == 0,
    ensures
        (x >> 64u128) as u64 != 0,
{
}

/// What the trailing-zero count of a nonzero word gives: bit `tz128(x)`
/// is set, and every bit below it is clear.
pub proof fn lemma_tz128(x: u128)
    requires
        x != 0,
    ensures
        0 <= tz128(x) < 128,
        (x >> (tz128(x) as u128)) & 1 == 1,
        x << ((128 - tz128(x)) as u128) == 0,
        forall|j: u128| 0 <= j < tz128(x) ==> #[trigger] (x >> j) & 1u128 == 0u128,
{
    let lo = x as u64;
    let hi = (x >> 64u128) as u64;
    axiom_u64_trailing_zeros(lo);
    axiom_u64_trailing_zeros(hi);
    if lo != 0 {
        let t = u64_trailing_zeros(lo) as u64;
        lemma_low_half(x, t);
    } else {
        lemma_halves_nonzero(x);
        let t = u64_trailing_zeros(hi) as u64;
        lemma_high_half(x, t);
    }
    let t = tz128(x);
    assert forall|j: u128| 0 <= j < tz128(x) implies #[trigger] (x >> j) & 1u128 == 0u128 by {
        lemma_low_bits_clear(x, t as u128, j);
    }
}

/// The number of trailing zero bits of a coefficient word.
pub fn trailing_zeros_u128(x: u128) -> (t: u32)
    ensures
        t as int == tz128(x),
{
    let lo = x as u64;
    proof {
        axiom_u64_trailing_zeros(lo);
        axiom_u64_trailing_zeros((x >> 64u128) as u64);
    }
    if lo != 0 {
        lo.trailing_zeros()
    } else {
        let hi = (x >> 64u128) as u64;
        64 + hi.trailing_zeros()
    }
}

/// The positions among `0..m` that a coefficient word placed at `start`
/// selects: position `p` iff bit `p - start` is set.
pub open spec fn band(m: nat, start: int, c: u128) -> Seq<bool> {
    Seq::new(m, |p: int| bit(c, p - start))
}

/// Every set bit of `c`, placed at `start`, lands below `m`.
pub open spec fn fits(m: int, start: int, c: u128) -> bool {
    forall|j: int| #[trigger] bit(c, j) ==> start + j < m
}

/// The single-bit facts the band lemmas rest on.
pub proof fn lemma_bit_facts(c1: u128, c2: u128, t: u128, k: u128)
    by (bit_vector)
    requires
        t < 128,
        k < 128,
    ensures
        (((c1 ^ c2) >> k) & 1 == 1) == (((c1 >> k) & 1 == 1) != ((c2 >> k) & 1 == 1)),
        k + t < 128 ==> ((c1 >> t) >> k) & 1 == (c1 >> (k + t)) & 1,
        k + t >= 128 ==> ((c1 >> t) >> k) & 1 == 0,
        (0u128 >> k) & 1 == 0,
        (((1u128 << t) >> k) & 1 == 1) == (k == t),
        ((c1 & !1u128) >> 0u128) & 1 == 0,
        (c1 >> 0u128) & 1 == 1 ==> c1 == (c1 & !1u128) ^ 1u128,
        (c1 & !1u128) >> k & 1 == 1 ==> (c1 >> k) & 1 == 1,
        (c1 ^ c2) ^ c2 == c1,
        c1 ^ c1 == 0,
{
}

/// Placing the XOR of two words selects the sum of their selections.
pub proof fn lemma_band_xor(m: nat, start: int, c1: u128, c2: u128)
    ensures
        band(m, start, c1 ^ c2) == sel_xor(band(m, start, c1), band(m, start, c2)),
{
    assert forall|p: int| 0 <= p < m implies #[trigger] band(m, start, c1 ^ c2)[p] == sel_xor(
        band(m, start, c1),
        band(m, start, c2),
    )[p] by {
        let j = p - start;
        if 0 <= j < 128 {
            lemma_bit_facts(c1, c2, 0, j as u128);
        }
    }
    assert(band(m, start, c1 ^ c2) =~= sel_xor(band(m, start, c1), band(m, start, c2)));
}

/// A word whose low `t` bits are clear selects the same positions as the
/// word shifted right by `t` and placed `t` further on.
pub proof fn lemma_band_shift(m: nat, start: int, c: u128, t: u128)
    requires
        t < 128,
        forall|j: u128| 0 <= j < t ==> #[trigger] (c >> j) & 1u128 == 0u128,
    ensures
        band(m, start, c) == band(m, start + t, c >> t),
{
    assert forall|p: int| 0 <= p < m implies #[trigger] band(m, start, c)[p] == band(
        m,
        start + t,
        c >> t,
    )[p] by {
        let j = p - start;
        if 0 <= j < t {
            assert((c >> (j as u128)) & 1u128 == 0u128);
        } else if t <= j < 128 + t && j - t < 128 {
            lemma_bit_facts(c, c, t, (j - t) as u128);
        }
    }
    assert(band(m, start, c) =~= band(m, start + t, c >> t));
}

/// The zero word selects nothing.
pub proof fn lemma_band_zero(m: nat, start: int)
    ensures
        forall|p: int| 0 <= p < m ==> !(#[trigger] band(m, start, 0)[p]),
{
    assert forall|p: int| 0 <= p < m implies !(#[trigger] band(m, start, 0)[p]) by {
        let j = p - start;
        if 0 <= j < 128 {
            lemma_bit_facts(0, 0, 0, j as u128);
        }
    }
}

/// A single bit `b` selects the one position `start + b`.
pub proof fn lemma_band_single(m: nat, start: int, b: u128)
    requires
        b < 128,
    ensures
        forall|p: int| 0 <= p < m ==> (#[trigger] band(m, start, 1u128 << b)[p] <==> p == start + b),
{
    assert forall|p: int| 0 <= p < m implies (#[trigger] band(m, start, 1u128 << b)[p] <==> p
        == start + b) by {
        let j = p - start;
        if 0 <= j < 128 {
            lemma_bit_facts(0, 0, b, j as u128);
        }
    }
}

/// A word with bit 0 set is its upper bits plus the unit at `start`; the
/// upper bits select only positions after `start`.
pub proof fn lemma_band_split_low(m: nat, start: int, c: u128)
    requires
        (c >> 0u128) & 1 == 1,
    ensures
        c == (c & !1u128) ^ 1u128,
        band(m, start, c) == sel_xor(band(m, start, c & !1u128), band(m, start, 1u128)),
        forall|p: int| 0 <= p < m && p <= start ==> !(#[trigger] band(m, start, c & !1u128)[p]),
        forall|p: int| 0 <= p < m ==> (#[trigger] band(m, start, 1u128)[p] <==> p == start),
{
    lemma_bit_facts(c, c, 0, 0);
    lemma_band_xor(m, start, c & !1u128, 1u128);
    assert(1u128 == 1u128 << 0u128) by (bit_vector);
    lemma_band_single(m, start, 0);
}

/// The set bits of an XOR come from one of the operands.
pub proof fn lemma_fits_xor(m: int, start: int, c1: u128, c2: u128)
    requires
        fits(m, start, c1),
        fits(m, start, c2),
    ensures
        fits(m, start, c1 ^ c2),
{
    assert forall|j: int| #[trigger] bit(c1 ^ c2, j) implies start + j < m by {
        lemma_bit_facts(c1, c2, 0, j as u128);
        assert(bit(c1, j) || bit(c2, j));
    }
}

/// Shifting right by `t` and moving the start by `t` keeps every bit in place.
pub proof fn lemma_fits_shift(m: int, start: int, c: u128, t: u128)
    requires
        fits(m, start, c),
        t < 128,
    ensures
        fits(m, start + t, c >> t),
{
    assert forall|j: int| #[trigger] bit(c >> t, j) implies start + t + j < m by {
        lemma_bit_facts(c, c, t, j as u128);
        assert(bit(c, j + t));
    }
}

/// Any combination of zero rows is the zero row.
pub proof fn lemma_combine_zero_rows(rows: Seq<Seq<u64>>, v: Seq<bool>, n: int, width: nat)
    requires
        n <= rows.len(),
        n <= v.len(),
        forall|p: int| 0 <= p < n ==> #[trigger] rows[p] == zero_row(width),
    ensures
        combine(rows, v, n, width) == zero_row(width),
    decreases n,
{
    if n > 0 {
        lemma_combine_zero_rows(rows, v, n - 1, width);
        lemma_row_xor_algebra(zero_row(width), zero_row(width), zero_row(width));
    }
}

} // verus!
