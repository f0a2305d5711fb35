//! The banded linear system a filter is built from: how one key's equation
//! is folded in by elimination, how the stored rows are solved by back
//! substitution, and why the solution satisfies every key.
use vstd::prelude::*;

use crate::gf2::{
    band, bit, eval, lemma_tz128, tz128, fits, is_zero_row, last_masked, lemma_band_shift, lemma_band_xor,
    lemma_band_zero, lemma_bit_facts, lemma_combine_frame, lemma_combine_len, lemma_combine_linear, lemma_combine_masked,
    lemma_combine_none, lemma_combine_single, lemma_combine_zero_rows, lemma_band_split_low, lemma_xor_within_mask,
    lemma_fits_shift, lemma_fits_xor, lemma_row_xor_algebra, lemma_xor_masked,
    mask_last, row_xor, rows_masked, rows_wf, zero_row,
};

verus! {

/// One key's equation: the XOR of the solution rows selected by `coeff`
/// placed at `start` must equal `rhs`.
pub struct KeyEquation {
    pub start: int,
    pub coeff: u128,
    pub rhs: Seq<u64>,
}

/// The rows stored so far by elimination: position `i` holds a pivot row
/// (`coeff[i]` with bit 0 set, placed at `i`, and `rhs[i]`) iff
/// `occupied[i]`.
pub struct BandSystem {
    pub occupied: Seq<bool>,
    pub coeff: Seq<u128>,
    pub rhs: Seq<Seq<u64>>,
}

/// What folding one equation into a system gives.
pub enum Insertion {
    /// The equation, reduced, became a new pivot row.
    Stored(BandSystem),
    /// The equation reduced to `0 = 0`.
    Redundant,
    /// The equation reduced to `0 = b` with `b` nonzero, at this row.
    Failed(int),
}

/// `z` satisfies the equation `(start, c) = b`.
pub open spec fn satisfies(z: Seq<Seq<u64>>, m: nat, width: nat, start: int, c: u128, b: Seq<u64>) -> bool {
    eval(z, band(m, start, c), width) == b
}

/// `z` satisfies the key's equation.
pub open spec fn satisfies_key(z: Seq<Seq<u64>>, m: nat, width: nat, e: KeyEquation) -> bool {
    satisfies(z, m, width, e.start, e.coeff, e.rhs)
}

/// `z` satisfies the equations of keys `lo..hi`.
pub open spec fn satisfies_keys(
    z: Seq<Seq<u64>>,
    m: nat,
    width: nat,
    eqs: Seq<KeyEquation>,
    lo: int,
    hi: int,
) -> bool {
    forall|k: int| lo <= k < hi ==> #[trigger] satisfies_key(z, m, width, eqs[k])
}

/// `z` is a candidate solution: `m` rows of `width` words.
pub open spec fn solution_shape(z: Seq<Seq<u64>>, m: nat, width: nat) -> bool {
    z.len() == m && rows_wf(z, width)
}

/// A key's equation as hashing produces it: its band starts inside the
/// matrix, has bit 0 set and ends below `m`; its right-hand side has
/// `width` words and its last word lies within `mask`.
pub open spec fn key_wf(e: KeyEquation, m: nat, width: nat, mask: u64) -> bool {
    &&& 0 <= e.start < m
    &&& bit(e.coeff, 0)
    &&& fits(m as int, e.start, e.coeff)
    &&& e.rhs.len() == width
    &&& last_masked(e.rhs, mask)
}

pub open spec fn keys_wf(eqs: Seq<KeyEquation>, m: nat, width: nat, mask: u64) -> bool {
    forall|k: int| 0 <= k < eqs.len() ==> key_wf(#[trigger] eqs[k], m, width, mask)
}

/// Some candidate solution satisfies the equations of keys `lo..hi`.
pub open spec fn keys_consistent(eqs: Seq<KeyEquation>, m: nat, width: nat, lo: int, hi: int) -> bool {
    exists|z: Seq<Seq<u64>>| solution_shape(z, m, width) && satisfies_keys(z, m, width, eqs, lo, hi)
}

impl BandSystem {
    pub open spec fn m(self) -> nat {
        self.occupied.len()
    }

    /// No row stored yet.
    pub open spec fn empty(m: nat, width: nat) -> BandSystem {
        BandSystem {
            occupied: Seq::new(m, |i: int| false),
            coeff: Seq::new(m, |i: int| 0u128),
            rhs: Seq::new(m, |i: int| zero_row(width)),
        }
    }

    /// Every stored row is a pivot row that ends below `m`, and every
    /// right-hand side has `width` words with its last word within `mask`.
    pub open spec fn wf(self, width: nat, mask: u64) -> bool {
        &&& self.coeff.len() == self.m()
        &&& self.rhs.len() == self.m()
        &&& width >= 1
        &&& rows_wf(self.rhs, width)
        &&& rows_masked(self.rhs, mask)
        &&& forall|i: int|
            0 <= i < self.m() && #[trigger] self.occupied[i] ==> bit(self.coeff[i], 0) && fits(
                self.m() as int,
                i,
                self.coeff[i],
            )
    }

    /// `z` satisfies stored row `p`.
    pub open spec fn row_holds(self, z: Seq<Seq<u64>>, p: int, width: nat) -> bool {
        satisfies(z, self.m(), width, p, self.coeff[p], self.rhs[p])
    }

    /// `z` satisfies every stored row.
    pub open spec fn holds(self, z: Seq<Seq<u64>>, width: nat) -> bool {
        forall|p: int| 0 <= p < self.m() && self.occupied[p] ==> #[trigger] self.row_holds(z, p, width)
    }

    /// Folds the equation `(i, c) = b` into the system: while position `i`
    /// holds a row, XOR that row in and move to the lowest remaining bit.
    /// (The branches that give `Failed(i)` without reaching `0 = b` cannot
    /// be taken by a pivoted equation that fits below `m`.)
    pub open spec fn insert(self, i: int, c: u128, b: Seq<u64>) -> Insertion
        decreases self.m() - i,
    {
        if i < 0 || i >= self.m() {
            Insertion::Failed(i)
        } else if !self.occupied[i] {
            Insertion::Stored(
                BandSystem {
                    occupied: self.occupied.update(i, true),
                    coeff: self.coeff.update(i, c),
                    rhs: self.rhs.update(i, b),
                },
            )
        } else {
            let c2 = c ^ self.coeff[i];
            let b2 = row_xor(b, self.rhs[i]);
            if c2 == 0 {
                if is_zero_row(b2) {
                    Insertion::Redundant
                } else {
                    Insertion::Failed(i)
                }
            } else {
                let t = tz128(c2);
                if t == 0 || i + t >= self.m() {
                    Insertion::Failed(i)
                } else {
                    self.insert(i + t, c2 >> (t as u128), b2)
                }
            }
        }
    }

    /// Folds the equations of keys `k..` in order; the first that reduces
    /// to `0 = b` with `b` nonzero stops it with `Err((key, row))`.
    pub open spec fn eliminate(self, eqs: Seq<KeyEquation>, k: int) -> Result<BandSystem, (int, int)>
        decreases eqs.len() - k,
    {
        if k < 0 || k >= eqs.len() {
            Ok(self)
        } else {
            match self.insert(eqs[k].start, eqs[k].coeff, eqs[k].rhs) {
                Insertion::Stored(s) => s.eliminate(eqs, k + 1),
                Insertion::Redundant => self.eliminate(eqs, k + 1),
                Insertion::Failed(row) => Err((k, row)),
            }
        }
    }

    /// Back substitution from the top row down to row `i`: an unoccupied
    /// row is zero, an occupied row is its right-hand side XOR the rows
    /// above it that its coefficient selects, with the last word masked.
    pub open spec fn solve_from(self, i: int, width: nat, mask: u64) -> Seq<Seq<u64>>
        decreases self.m() - i,
    {
        if i >= self.m() {
            Seq::new(self.m(), |q: int| zero_row(width))
        } else {
            let z = self.solve_from(i + 1, width, mask);
            if self.occupied[i] {
                z.update(
                    i,
                    mask_last(
                        row_xor(self.rhs[i], eval(z, band(self.m(), i, self.coeff[i] & !1u128), width)),
                        mask,
                    ),
                )
            } else {
                z
            }
        }
    }

    /// The solution back substitution produces.
    pub open spec fn solution(self, width: nat, mask: u64) -> Seq<Seq<u64>> {
        self.solve_from(0, width, mask)
    }
}

/// Reducing a pivoted equation by the pivot row at the same position
/// clears bit 0; the lowest remaining bit `t` lies below `m`, and shifting
/// by it gives a pivoted equation placed `t` further on that selects the
/// same positions.
pub proof fn lemma_reduce_step(m: nat, i: int, c: u128, ci: u128)
    requires
        bit(c, 0),
        bit(ci, 0),
        fits(m as int, i, c),
        fits(m as int, i, ci),
        c ^ ci != 0,
    ensures
        ({
            let c2 = c ^ ci;
            let t = tz128(c2);
            &&& 1 <= t < 128
            &&& i + t < m
            &&& bit(c2 >> (t as u128), 0)
            &&& fits(m as int, i + t, c2 >> (t as u128))
            &&& band(m, i, c2) == band(m, i + t, c2 >> (t as u128))
            &&& fits(m as int, i, c2)
        }),
{
    let c2 = c ^ ci;
    lemma_tz128(c2);
    let t = tz128(c2);
    lemma_bit_facts(c, ci, 0, 0);
    assert(t != 0) by {
        if t == 0 {
            assert((c2 >> 0u128) & 1u128 == 1u128);
        }
    }
    lemma_fits_xor(m as int, i, c, ci);
    assert(bit(c2, t));
    lemma_band_shift(m, i, c2, t as u128);
    lemma_fits_shift(m as int, i, c2, t as u128);
    lemma_bit_facts(c2, c2, t as u128, 0);
}

/// One step of elimination keeps the system well formed, and a candidate
/// solution satisfies the new system iff it satisfies the old one and the
/// inserted equation; a redundant equation follows from the system, a
/// failing one contradicts it.
pub proof fn lemma_insert(
    sys: BandSystem,
    i: int,
    c: u128,
    b: Seq<u64>,
    width: nat,
    mask: u64,
    z: Seq<Seq<u64>>,
)
    requires
        sys.wf(width, mask),
        0 <= i < sys.m(),
        bit(c, 0),
        fits(sys.m() as int, i, c),
        b.len() == width,
        last_masked(b, mask),
        solution_shape(z, sys.m(), width),
    ensures
        match sys.insert(i, c, b) {
            Insertion::Stored(s2) => {
                &&& s2.wf(width, mask)
                &&& s2.m() == sys.m()
                &&& (s2.holds(z, width) <==> sys.holds(z, width) && satisfies(
                    z,
                    sys.m(),
                    width,
                    i,
                    c,
                    b,
                ))
            },
            Insertion::Redundant => sys.holds(z, width) ==> satisfies(z, sys.m(), width, i, c, b),
            Insertion::Failed(row) => {
                &&& 0 <= row < sys.m()
                &&& (sys.holds(z, width) ==> !satisfies(z, sys.m(), width, i, c, b))
            },
        },
    decreases sys.m() - i,
{
    let m = sys.m();
    if !sys.occupied[i] {
        let s2 = BandSystem {
            occupied: sys.occupied.update(i, true),
            coeff: sys.coeff.update(i, c),
            rhs: sys.rhs.update(i, b),
        };
        assert(s2.wf(width, mask));
        if s2.holds(z, width) {
            assert(s2.row_holds(z, i, width));
            assert forall|p: int| 0 <= p < m && sys.occupied[p] implies #[trigger] sys.row_holds(z, p, width) by {
                assert(s2.row_holds(z, p, width));
            }
        }
        if sys.holds(z, width) && satisfies(z, m, width, i, c, b) {
            assert forall|p: int| 0 <= p < m && s2.occupied[p] implies #[trigger] s2.row_holds(z, p, width) by {
                if p != i {
                    assert(sys.row_holds(z, p, width));
                }
            }
        }
    } else {
        let ci = sys.coeff[i];
        let bi = sys.rhs[i];
        let c2 = c ^ ci;
        let b2 = row_xor(b, bi);
        // c = c2 ^ ci, so the equation is the reduced one plus row i.
        lemma_bit_facts(c, ci, 0, 0);
        assert(c == c2 ^ ci);
        lemma_band_xor(m, i, c2, ci);
        lemma_combine_linear(z, band(m, i, c2), band(m, i, ci), m as int, width);
        lemma_combine_len(z, band(m, i, c2), m as int, width);
        lemma_combine_len(z, band(m, i, ci), m as int, width);
        let e2 = eval(z, band(m, i, c2), width);
        let ei = eval(z, band(m, i, ci), width);
        assert(eval(z, band(m, i, c), width) == row_xor(e2, ei));
        lemma_row_xor_algebra(e2, ei, bi);
        lemma_row_xor_algebra(b, bi, bi);
        lemma_row_xor_algebra(b2, bi, bi);
        // Under row i: the equation holds iff the reduced one does.
        assert(sys.holds(z, width) ==> (satisfies(z, m, width, i, c, b) <==> satisfies(z, m, width, i, c2, b2))) by {
            if sys.holds(z, width) {
                assert(sys.row_holds(z, i, width));
                assert(ei == bi);
                if satisfies(z, m, width, i, c, b) {
                    assert(row_xor(row_xor(e2, bi), bi) == e2);
                }
                if satisfies(z, m, width, i, c2, b2) {
                    assert(row_xor(row_xor(b, bi), bi) == b);
                }
            }
        }
        lemma_xor_masked(b, bi, mask);
        lemma_fits_xor(m as int, i, c, ci);
        if c2 == 0 {
            lemma_band_zero(m, i);
            lemma_combine_none(z, band(m, i, 0), m as int, width);
            if is_zero_row(b2) {
                assert(b2 =~= zero_row(width));
            } else {
                assert(e2 == zero_row(width));
                assert(e2 != b2) by {
                    let k = choose|k: int| 0 <= k < b2.len() && b2[k] != 0;
                    assert(e2[k] == 0);
                }
            }
        } else {
            lemma_reduce_step(m, i, c, ci);
            let t = tz128(c2);
            let c3 = c2 >> (t as u128);
            assert(satisfies(z, m, width, i, c2, b2) == satisfies(z, m, width, i + t, c3, b2));
            lemma_insert(sys, i + t, c3, b2, width, mask, z);
        }
    }
}

/// Eliminating keys `k..` keeps the system well formed; on success the
/// final system holds iff the first one holds together with those keys;
/// on failure at key `kf` the keys `k..kf` and the first system rule key
/// `kf` out.
pub proof fn lemma_eliminate(
    sys: BandSystem,
    eqs: Seq<KeyEquation>,
    k: int,
    width: nat,
    mask: u64,
    z: Seq<Seq<u64>>,
)
    requires
        sys.wf(width, mask),
        keys_wf(eqs, sys.m(), width, mask),
        0 <= k <= eqs.len(),
        solution_shape(z, sys.m(), width),
    ensures
        match sys.eliminate(eqs, k) {
            Ok(s) => {
                &&& s.wf(width, mask)
                &&& s.m() == sys.m()
                &&& (s.holds(z, width) <==> sys.holds(z, width) && satisfies_keys(
                    z,
                    sys.m(),
                    width,
                    eqs,
                    k,
                    eqs.len() as int,
                ))
            },
            Err((kf, row)) => {
                &&& k <= kf < eqs.len()
                &&& 0 <= row < sys.m()
                &&& (sys.holds(z, width) && satisfies_keys(z, sys.m(), width, eqs, k, kf)
                    ==> !satisfies_key(z, sys.m(), width, eqs[kf]))
                &&& sys.eliminate(eqs.take(kf), k) is Ok
            },
        },
    decreases eqs.len() - k,
{
    let m = sys.m();
    if k < eqs.len() {
        let e = eqs[k];
        assert(key_wf(e, m, width, mask));
        lemma_insert(sys, e.start, e.coeff, e.rhs, width, mask, z);
        match sys.insert(e.start, e.coeff, e.rhs) {
            Insertion::Stored(s2) => {
                lemma_eliminate(s2, eqs, k + 1, width, mask, z);
                match s2.eliminate(eqs, k + 1) {
                    Ok(s) => {
                        if satisfies_keys(z, m, width, eqs, k + 1, eqs.len() as int) && satisfies_key(z, m, width, e) {
                            assert forall|j: int| k <= j < eqs.len() implies #[trigger] satisfies_key(z, m, width, eqs[j]) by {
                                if j > k {
                                    assert(satisfies_key(z, m, width, eqs[j]));
                                }
                            }
                        }
                        if satisfies_keys(z, m, width, eqs, k, eqs.len() as int) {
                            assert(satisfies_key(z, m, width, eqs[k]));
                        }
                    },
                    Err((kf, row)) => {
                        if sys.holds(z, width) && satisfies_keys(z, m, width, eqs, k, kf) {
                            assert(satisfies_key(z, m, width, eqs[k]));
                        }
                        lemma_eliminate_take(s2, eqs, k + 1, kf);
                        assert(eqs.take(kf)[k] == eqs[k]);
                    },
                }
            },
            Insertion::Redundant => {
                lemma_eliminate(sys, eqs, k + 1, width, mask, z);
                match sys.eliminate(eqs, k + 1) {
                    Ok(s) => {
                        if s.holds(z, width) {
                            assert forall|j: int| k <= j < eqs.len() implies #[trigger] satisfies_key(z, m, width, eqs[j]) by {
                                if j > k {
                                    assert(satisfies_key(z, m, width, eqs[j]));
                                }
                            }
                        }
                    },
                    Err((kf, row)) => {
                        lemma_eliminate_take(sys, eqs, k + 1, kf);
                        assert(eqs.take(kf)[k] == eqs[k]);
                    },
                }
            },
            Insertion::Failed(row) => {
                assert(eqs.take(k).len() == k);
            },
        }
    }
}

/// Running elimination on the keys before a key `kf` gives what running it
/// on all the keys gives up to `kf`.
pub proof fn lemma_eliminate_take(sys: BandSystem, eqs: Seq<KeyEquation>, k: int, kf: int)
    requires
        0 <= k <= kf < eqs.len(),
        sys.eliminate(eqs, k) matches Err((f, _)) && f == kf,
    ensures
        sys.eliminate(eqs.take(kf), k) is Ok,
    decreases kf - k,
{
    let pre = eqs.take(kf);
    if k < kf {
        assert(pre[k] == eqs[k]);
        match sys.insert(eqs[k].start, eqs[k].coeff, eqs[k].rhs) {
            Insertion::Stored(s2) => {
                lemma_eliminate_take(s2, eqs, k + 1, kf);
            },
            Insertion::Redundant => {
                lemma_eliminate_take(sys, eqs, k + 1, kf);
            },
            Insertion::Failed(_) => {},
        }
    }
}

/// Back substitution from row `i` up: the rows have the solution's shape,
/// their last words lie within `mask`, and every stored row at or above
/// `i` holds.
pub proof fn lemma_solve_from(sys: BandSystem, i: int, width: nat, mask: u64)
    requires
        sys.wf(width, mask),
        0 <= i <= sys.m(),
    ensures
        solution_shape(sys.solve_from(i, width, mask), sys.m(), width),
        rows_masked(sys.solve_from(i, width, mask), mask),
        forall|p: int|
            i <= p < sys.m() && sys.occupied[p] ==> #[trigger] sys.row_holds(
                sys.solve_from(i, width, mask),
                p,
                width,
            ),
    decreases sys.m() - i,
{
    let m = sys.m();
    if i >= m {
        let z = sys.solve_from(i, width, mask);
        lemma_xor_within_mask(0, 0, mask);
        assert(rows_masked(z, mask));
    } else {
        lemma_solve_from(sys, i + 1, width, mask);
        let z = sys.solve_from(i + 1, width, mask);
        if sys.occupied[i] {
            let c = sys.coeff[i];
            let bi = sys.rhs[i];
            let upper = band(m, i, c & !1u128);
            let e = eval(z, upper, width);
            lemma_combine_len(z, upper, m as int, width);
            lemma_combine_masked(z, upper, m as int, width, mask);
            lemma_xor_masked(bi, e, mask);
            let row = row_xor(bi, e);
            let z2 = z.update(i, row);
            assert(sys.solve_from(i, width, mask) == z2);
            assert(rows_masked(z2, mask));
            lemma_band_split_low(m, i, c);
            // Rows above i keep holding: none of them selects row i.
            assert forall|p: int| i < p < m && sys.occupied[p] implies #[trigger] sys.row_holds(z2, p, width) by {
                assert(sys.row_holds(z, p, width));
                lemma_combine_frame(z, z2, band(m, p, sys.coeff[p]), m as int, width);
            }
            // Row i: its upper bits select rows above i, its bit 0 selects row i.
            lemma_combine_frame(z, z2, upper, m as int, width);
            lemma_combine_linear(z2, upper, band(m, i, 1u128), m as int, width);
            lemma_combine_single(z2, band(m, i, 1u128), i, m as int, width);
            lemma_row_xor_algebra(row, e, e);
            lemma_row_xor_algebra(bi, e, e);
            assert(eval(z2, band(m, i, c), width) == row_xor(e, row));
            assert(sys.row_holds(z2, i, width));
        }
    }
}

/// The solution back substitution produces satisfies every stored row.
pub proof fn lemma_solution_holds(sys: BandSystem, width: nat, mask: u64)
    requires
        sys.wf(width, mask),
    ensures
        solution_shape(sys.solution(width, mask), sys.m(), width),
        rows_masked(sys.solution(width, mask), mask),
        sys.holds(sys.solution(width, mask), width),
{
    lemma_solve_from(sys, 0, width, mask);
}

/// The empty system is well formed and every candidate satisfies it.
pub proof fn lemma_empty_wf(m: nat, width: nat, mask: u64, z: Seq<Seq<u64>>)
    requires
        width >= 1,
    ensures
        BandSystem::empty(m, width).wf(width, mask),
        BandSystem::empty(m, width).holds(z, width),
        BandSystem::empty(m, width).m() == m,
{
    lemma_xor_within_mask(0, 0, mask);
    let e = BandSystem::empty(m, width);
    assert(rows_wf(e.rhs, width));
    assert(rows_masked(e.rhs, mask));
}

/// When elimination succeeds, back substitution solves every key's
/// equation.
pub proof fn lemma_eliminate_ok_solves(eqs: Seq<KeyEquation>, m: nat, width: nat, mask: u64)
    requires
        width >= 1,
        keys_wf(eqs, m, width, mask),
        BandSystem::empty(m, width).eliminate(eqs, 0) is Ok,
    ensures
        BandSystem::empty(m, width).eliminate(eqs, 0) matches Ok(s) && solution_shape(
            s.solution(width, mask),
            m,
            width,
        ) && satisfies_keys(s.solution(width, mask), m, width, eqs, 0, eqs.len() as int) && rows_masked(
            s.solution(width, mask),
            mask,
        ),
{
    let e = BandSystem::empty(m, width);
    let s = e.eliminate(eqs, 0)->Ok_0;
    lemma_empty_wf(m, width, mask, e.rhs);
    lemma_eliminate(e, eqs, 0, width, mask, e.rhs);
    let z = s.solution(width, mask);
    lemma_solution_holds(s, width, mask);
    lemma_empty_wf(m, width, mask, z);
    lemma_eliminate(e, eqs, 0, width, mask, z);
}

/// When elimination fails at key `kf`, the keys before it have a common
/// solution and the keys up to it have none.
pub proof fn lemma_eliminate_err_inconsistent(eqs: Seq<KeyEquation>, m: nat, width: nat, mask: u64)
    requires
        width >= 1,
        keys_wf(eqs, m, width, mask),
        BandSystem::empty(m, width).eliminate(eqs, 0) is Err,
    ensures
        BandSystem::empty(m, width).eliminate(eqs, 0) matches Err((kf, row)) && 0 <= kf < eqs.len()
            && 0 <= row < m && keys_consistent(eqs, m, width, 0, kf) && !keys_consistent(
            eqs,
            m,
            width,
            0,
            kf + 1,
        ),
{
    let e = BandSystem::empty(m, width);
    let (kf, row) = e.eliminate(eqs, 0)->Err_0;
    lemma_empty_wf(m, width, mask, e.rhs);
    lemma_eliminate(e, eqs, 0, width, mask, e.rhs);
    // Keys 0..kf: eliminating them alone succeeds, so they are solved.
    let pre = eqs.take(kf);
    assert(keys_wf(pre, m, width, mask));
    lemma_eliminate_ok_solves(pre, m, width, mask);
    let s = e.eliminate(pre, 0)->Ok_0;
    let z = s.solution(width, mask);
    assert forall|k: int| 0 <= k < kf implies #[trigger] satisfies_key(z, m, width, eqs[k]) by {
        assert(pre[k] == eqs[k]);
        assert(satisfies_key(z, m, width, pre[k]));
    }
    assert(satisfies_keys(z, m, width, eqs, 0, kf));
    // Keys 0..=kf: any candidate satisfying the first kf breaks key kf.
    assert forall|z2: Seq<Seq<u64>>| solution_shape(z2, m, width) implies !satisfies_keys(
        z2,
        m,
        width,
        eqs,
        0,
        kf + 1,
    ) by {
        lemma_empty_wf(m, width, mask, z2);
        lemma_eliminate(e, eqs, 0, width, mask, z2);
        if satisfies_keys(z2, m, width, eqs, 0, kf + 1) {
            assert(satisfies_keys(z2, m, width, eqs, 0, kf));
            assert(satisfies_key(z2, m, width, eqs[kf]));
        }
    }
}

/// Equations whose right-hand sides are all zero never fail: the zero
/// candidate satisfies every one of them.
pub proof fn lemma_eliminate_zero_rhs_ok(eqs: Seq<KeyEquation>, m: nat, width: nat, mask: u64)
    requires
        width >= 1,
        keys_wf(eqs, m, width, mask),
        forall|k: int| 0 <= k < eqs.len() ==> (#[trigger] eqs[k]).rhs == zero_row(width),
    ensures
        BandSystem::empty(m, width).eliminate(eqs, 0) is Ok,
{
    let e = BandSystem::empty(m, width);
    let z = Seq::new(m, |i: int| zero_row(width));
    lemma_empty_wf(m, width, mask, z);
    lemma_eliminate(e, eqs, 0, width, mask, z);
    assert forall|k: int| 0 <= k < eqs.len() implies #[trigger] satisfies_key(z, m, width, eqs[k]) by {
        lemma_combine_zero_rows(z, band(m, eqs[k].start, eqs[k].coeff), m as int, width);
    }
    if e.eliminate(eqs, 0) is Err {
        let (kf, row) = e.eliminate(eqs, 0)->Err_0;
        assert(satisfies_keys(z, m, width, eqs, 0, kf));
        assert(satisfies_key(z, m, width, eqs[kf]));
    }
}

/// Running elimination on the keys up to and including the failing key
/// `kf` fails there too, at the same row.
pub proof fn lemma_eliminate_take_fail(sys: BandSystem, eqs: Seq<KeyEquation>, k: int, kf: int, row: int)
    requires
        0 <= k <= kf < eqs.len(),
        sys.eliminate(eqs, k) == Err::<BandSystem, (int, int)>((kf, row)),
    ensures
        sys.eliminate(eqs.take(kf + 1), k) == Err::<BandSystem, (int, int)>((kf, row)),
    decreases kf - k,
{
    let pre = eqs.take(kf + 1);
    assert(pre[k] == eqs[k]);
    match sys.insert(eqs[k].start, eqs[k].coeff, eqs[k].rhs) {
        Insertion::Stored(s2) => {
            lemma_eliminate_err_index(s2, eqs, k + 1);
            lemma_eliminate_take_fail(s2, eqs, k + 1, kf, row);
        },
        Insertion::Redundant => {
            lemma_eliminate_err_index(sys, eqs, k + 1);
            lemma_eliminate_take_fail(sys, eqs, k + 1, kf, row);
        },
        Insertion::Failed(_) => {},
    }
}

/// Elimination of keys `k..` can only fail at one of those keys.
pub proof fn lemma_eliminate_err_index(sys: BandSystem, eqs: Seq<KeyEquation>, k: int)
    requires
        0 <= k,
    ensures
        sys.eliminate(eqs, k) matches Err((f, _)) ==> k <= f < eqs.len(),
    decreases eqs.len() - k,
{
    if k < eqs.len() {
        match sys.insert(eqs[k].start, eqs[k].coeff, eqs[k].rhs) {
            Insertion::Stored(s2) => {
                lemma_eliminate_err_index(s2, eqs, k + 1);
            },
            Insertion::Redundant => {
                lemma_eliminate_err_index(sys, eqs, k + 1);
            },
            Insertion::Failed(_) => {},
        }
    }
}

/// Every array of the system has one entry per position.
pub open spec fn shaped(s: BandSystem) -> bool {
    s.coeff.len() == s.m() && s.rhs.len() == s.m()
}

/// `s2` keeps every row stored in `s1`.
pub open spec fn extends(s1: BandSystem, s2: BandSystem) -> bool {
    &&& s2.m() == s1.m()
    &&& forall|i: int|
        0 <= i < s1.m() && #[trigger] s1.occupied[i] ==> s2.occupied[i] && s2.coeff[i] == s1.coeff[i]
            && s2.rhs[i] == s1.rhs[i]
}

/// Folding an equation into a system that already holds every row its
/// first folding met, or stored, reduces it to `0 = 0`: the same steps are
/// taken, and the row it was stored as cancels it.
proof fn lemma_insert_again(s1: BandSystem, s2: BandSystem, i: int, c: u128, b: Seq<u64>)
    requires
        shaped(s1),
        extends(s1, s2),
        s1.insert(i, c, b) is Redundant || (s1.insert(i, c, b) matches Insertion::Stored(s) && extends(s, s2)),
    ensures
        s2.insert(i, c, b) is Redundant,
    decreases s1.m() - i,
{
    if 0 <= i < s1.m() {
        if !s1.occupied[i] {
            let s = s1.insert(i, c, b)->Stored_0;
            assert(s.occupied[i]);
            lemma_bit_facts(c, c, 0, 0);
            lemma_row_xor_algebra(b, b, b);
            assert(is_zero_row(row_xor(b, b)));
        } else {
            let c2 = c ^ s1.coeff[i];
            let b2 = row_xor(b, s1.rhs[i]);
            if c2 != 0 {
                let t = tz128(c2);
                if !(t == 0 || i + t >= s1.m()) {
                    lemma_insert_again(s1, s2, i + t, c2 >> (t as u128), b2);
                }
            }
        }
    }
}

/// Storing a row keeps every row stored before.
proof fn lemma_insert_extends(sys: BandSystem, i: int, c: u128, b: Seq<u64>)
    requires
        shaped(sys),
        sys.insert(i, c, b) is Stored,
    ensures
        extends(sys, sys.insert(i, c, b)->Stored_0),
        shaped(sys.insert(i, c, b)->Stored_0),
    decreases sys.m() - i,
{
    if 0 <= i < sys.m() && sys.occupied[i] {
        let c2 = c ^ sys.coeff[i];
        let b2 = row_xor(b, sys.rhs[i]);
        let t = tz128(c2);
        lemma_insert_extends(sys, i + t, c2 >> (t as u128), b2);
    }
}

/// When elimination of keys `k..` succeeds, the final system keeps every
/// row of the first, and folding any of those keys into it again reduces
/// to `0 = 0`.
proof fn lemma_eliminate_absorbs(sys: BandSystem, eqs: Seq<KeyEquation>, k: int)
    requires
        shaped(sys),
        0 <= k <= eqs.len(),
        sys.eliminate(eqs, k) is Ok,
    ensures
        extends(sys, sys.eliminate(eqs, k)->Ok_0),
        forall|j: int|
            k <= j < eqs.len() ==> (#[trigger] sys.eliminate(eqs, k)->Ok_0.insert(
                eqs[j].start,
                eqs[j].coeff,
                eqs[j].rhs,
            )) is Redundant,
    decreases eqs.len() - k,
{
    if k < eqs.len() {
        let f = sys.eliminate(eqs, k)->Ok_0;
        match sys.insert(eqs[k].start, eqs[k].coeff, eqs[k].rhs) {
            Insertion::Stored(s2) => {
                lemma_insert_extends(sys, eqs[k].start, eqs[k].coeff, eqs[k].rhs);
                lemma_eliminate_absorbs(s2, eqs, k + 1);
                lemma_insert_again(sys, f, eqs[k].start, eqs[k].coeff, eqs[k].rhs);
            },
            Insertion::Redundant => {
                lemma_eliminate_absorbs(sys, eqs, k + 1);
                lemma_insert_again(sys, f, eqs[k].start, eqs[k].coeff, eqs[k].rhs);
            },
            Insertion::Failed(_) => {},
        }
    }
}

/// Elimination over the keys followed by one more equation runs as over
/// the keys, then folds that equation in.
proof fn lemma_eliminate_push(sys: BandSystem, eqs: Seq<KeyEquation>, e: KeyEquation, k: int)
    requires
        0 <= k <= eqs.len(),
    ensures
        sys.eliminate(eqs.push(e), k) == match sys.eliminate(eqs, k) {
            Ok(f) => match f.insert(e.start, e.coeff, e.rhs) {
                Insertion::Stored(s) => Ok(s),
                Insertion::Redundant => Ok(f),
                Insertion::Failed(row) => Err((eqs.len() as int, row)),
            },
            Err(x) => Err(x),
        },
    decreases eqs.len() - k,
{
    let eqs2 = eqs.push(e);
    if k < eqs.len() {
        assert(eqs2[k] == eqs[k]);
        match sys.insert(eqs[k].start, eqs[k].coeff, eqs[k].rhs) {
            Insertion::Stored(s2) => {
                lemma_eliminate_push(s2, eqs, e, k + 1);
            },
            Insertion::Redundant => {
                lemma_eliminate_push(sys, eqs, e, k + 1);
            },
            Insertion::Failed(_) => {},
        }
    } else {
        assert(eqs2[k] == e);
        match sys.insert(e.start, e.coeff, e.rhs) {
            Insertion::Stored(s2) => {
                assert(s2.eliminate(eqs2, k + 1) == Ok::<BandSystem, (int, int)>(s2));
            },
            Insertion::Redundant => {
                assert(sys.eliminate(eqs2, k + 1) == Ok::<BandSystem, (int, int)>(sys));
            },
            Insertion::Failed(_) => {},
        }
    }
}

/// Eliminating the keys followed by a copy of one of them gives what
/// eliminating the keys gives: the copy reduces to `0 = 0`.
pub proof fn lemma_eliminate_repeat(sys: BandSystem, eqs: Seq<KeyEquation>, j: int)
    requires
        shaped(sys),
        0 <= j < eqs.len(),
    ensures
        sys.eliminate(eqs.push(eqs[j]), 0) == sys.eliminate(eqs, 0),
{
    lemma_eliminate_push(sys, eqs, eqs[j], 0);
    if sys.eliminate(eqs, 0) is Ok {
        lemma_eliminate_absorbs(sys, eqs, 0);
    }
}

} // verus!
