//! Building a filter: each attempt folds the keys' equations into a band
//! by elimination and solves it by back substitution; attempts are
//! reseeded, and the matrix grown, until one succeeds or the limits are met.
use vstd::prelude::*;

use crate::error::{BuildError, ConstructionFailure};
use crate::gf2::{
    band, bit, eval, fits, last_masked, lemma_bit_facts, mask_last, row_xor, trailing_zeros_u128, zero_row,
};
use crate::filter::{FilterModel, RibbonFilter};
use crate::hashing::{
    derive_attempt_seed, eq_coeff, eq_fingerprint, eq_start, hash64, lemma_key_equation_wf,
    spec_attempt_seed, standard_equation_w64,
};
use core::hash::{BuildHasher, Hash};
use crate::params::{Mode, Params};
use crate::rows::{
    all_zero, copy_row_into, copy_row_out, lemma_rows_of_zero, rows_of,
    xor_row_from, xor_rows_selected,
};
use crate::system::{
    keys_wf, lemma_insert, lemma_reduce_step, BandSystem, Insertion, KeyEquation,
};

verus! {

/// Query workspace: a fingerprint and an accumulator of one row each, so
/// that repeated queries allocate nothing.
#[derive(Debug, Clone)]
pub struct Scratch {
    pub(crate) fingerprint: Vec<u64>,
    pub(crate) acc: Vec<u64>,
}

impl Scratch {
    /// Both buffers hold `n` words.
    pub closed spec fn fits_width(&self, n: nat) -> bool {
        self.fingerprint@.len() == n && self.acc@.len() == n
    }

    /// The fingerprint buffer's words.
    pub closed spec fn model_fingerprint(&self) -> Seq<u64> {
        self.fingerprint@
    }

    /// The accumulator buffer's words.
    pub closed spec fn model_acc(&self) -> Seq<u64> {
        self.acc@
    }

    /// What `fits_width` says, for the query code of this crate.
    pub(crate) proof fn lemma_fits_width(&self, n: nat)
        ensures
            self.fits_width(n) <==> (self.fingerprint@.len() == n && self.acc@.len() == n),
    {
    }

    pub(crate) fn new(stride_words: usize) -> (s: Self)
        ensures
            s.fits_width(stride_words as nat),
            s.model_fingerprint() == zero_row(stride_words as nat),
            s.model_acc() == zero_row(stride_words as nat),
    {
        let s = Scratch { fingerprint: vec![0u64; stride_words], acc: vec![0u64; stride_words] };
        assert(s.fingerprint@ =~= zero_row(stride_words as nat));
        assert(s.acc@ =~= zero_row(stride_words as nat));
        s
    }

    /// Zeroes both buffers, keeping their lengths.
    pub(crate) fn reset(&mut self)
        ensures
            final(self).fingerprint@ == zero_row(old(self).fingerprint@.len()),
            final(self).acc@ == zero_row(old(self).acc@.len()),
    {
        let n = self.fingerprint.len();
        let mut k: usize = 0;
        while k < n
            invariant
                k <= n,
                n == old(self).fingerprint@.len(),
                self.acc@ == old(self).acc@,
                self.fingerprint@.len() == n,
                forall|q: int| 0 <= q < k ==> self.fingerprint@[q] == 0u64,
            decreases n - k,
        {
            self.fingerprint.set(k, 0);
            k = k + 1;
        }
        assert(self.fingerprint@ =~= zero_row(old(self).fingerprint@.len()));
        let n2 = self.acc.len();
        let mut k2: usize = 0;
        while k2 < n2
            invariant
                k2 <= n2,
                n2 == old(self).acc@.len(),
                self.fingerprint@ == zero_row(old(self).fingerprint@.len()),
                self.acc@.len() == n2,
                forall|q: int| 0 <= q < k2 ==> self.acc@[q] == 0u64,
            decreases n2 - k2,
        {
            self.acc.set(k2, 0);
            k2 = k2 + 1;
        }
        assert(self.acc@ =~= zero_row(old(self).acc@.len()));
    }
}

/// The equations of the keys hashed to `hashes`, for a matrix of `m` rows
/// and the attempt seed `seed`.
pub open spec fn key_equations(p: Params, hashes: Seq<u64>, m: nat, seed: u64) -> Seq<KeyEquation> {
    Seq::new(
        hashes.len(),
        |k: int|
            KeyEquation {
                start: eq_start(hashes[k], seed, m, p.w as nat),
                coeff: eq_coeff(hashes[k], seed, p.w as nat),
                rhs: eq_fingerprint(
                    hashes[k],
                    seed,
                    p.w as nat,
                    p.mode,
                    p.spec_fingerprint_words(),
                    p.spec_last_word_mask(),
                ),
            },
    )
}

/// What one attempt at `m` rows with seed `seed` gives: the rows of the
/// solution, or the key and row at which elimination failed.
#[verifier::opaque]
pub open spec fn spec_solve(p: Params, hashes: Seq<u64>, m: nat, seed: u64) -> Result<
    Seq<Seq<u64>>,
    ConstructionFailure,
> {
    let width = p.spec_fingerprint_words();
    match BandSystem::empty(m, width).eliminate(key_equations(p, hashes, m, seed), 0) {
        Ok(sys) => Ok(sys.solution(width, p.spec_last_word_mask())),
        Err((k, row)) => Err(
            ConstructionFailure::InconsistentEquation { key_index: k as usize, row_index: row as usize },
        ),
    }
}

/// The system held by the three arrays of elimination.
pub open spec fn band_of(occupied: Seq<bool>, coeff: Seq<u128>, rhs: Seq<u64>, width: nat) -> BandSystem {
    BandSystem { occupied, coeff, rhs: rows_of(rhs, width, occupied.len()) }
}

/// One construction attempt at `m` rows with seed `seed`: elimination of
/// every key's equation, then back substitution. On success the flat
/// solution has `m` rows of `fingerprint_words` words.
fn solve_band(p: &Params, hashes: &[u64], m: usize, seed: u64) -> (res: Result<
    Vec<u64>,
    ConstructionFailure,
>)
    requires
        1 <= p.w <= 128,
        p.w <= m,
        p.r >= 1,
        m * p.spec_fingerprint_words() <= usize::MAX,
    ensures
        match (res, spec_solve(*p, hashes@, m as nat, seed)) {
            (Ok(z), Ok(rows)) => z@.len() == m * p.spec_fingerprint_words() && rows_of(
                z@,
                p.spec_fingerprint_words(),
                m as nat,
            ) == rows,
            (Err(e), Err(f)) => e == f,
            _ => false,
        },
{
    proof {
        reveal(spec_solve);
    }
    let stride = p.fingerprint_words();
    let fp_last_mask = p.fingerprint_last_word_mask();
    let w = p.w;
    let mode = p.mode;
    let ghost width = stride as nat;
    let ghost eqs = key_equations(*p, hashes@, m as nat, seed);
    let ghost sys0 = BandSystem::empty(m as nat, width);

    let mut occupied: Vec<bool> = vec![false; m];
    let mut coeff: Vec<u128> = vec![0u128; m];
    let mut rhs: Vec<u64> = vec![0u64; m * stride];
    let mut key_fp: Vec<u64> = vec![0u64; stride];
    proof {
        assert(occupied@ =~= sys0.occupied);
        assert(coeff@ =~= sys0.coeff);
        lemma_rows_of_zero(rhs@, width, m as nat);
        lemma_bit_facts(0, 0, 0, 0);
        assert(band_of(occupied@, coeff@, rhs@, width) =~= sys0);
        crate::gf2::lemma_xor_within_mask(0, 0, fp_last_mask);
        assert(sys0.wf(width, fp_last_mask));
        assert(crate::system::solution_shape(sys0.rhs, m as nat, width));
        assert forall|k: int| 0 <= k < eqs.len() implies crate::system::key_wf(
            #[trigger] eqs[k],
            m as nat,
            width,
            fp_last_mask,
        ) by {
            lemma_key_equation_wf(hashes@[k], seed, m as nat, w as nat, mode, width, fp_last_mask);
        }
    }

    let n = hashes.len();
    let mut key_index: usize = 0;
    while key_index < n
        invariant
            n == hashes.len(),
            key_index <= n,
            stride == width,
            width >= 1,
            w == p.w,
            mode == p.mode,
            1 <= w <= 128,
            w <= m,
            fp_last_mask == p.spec_last_word_mask(),
            width == p.spec_fingerprint_words(),
            eqs == key_equations(*p, hashes@, m as nat, seed),
            keys_wf(eqs, m as nat, width, fp_last_mask),
            crate::system::solution_shape(sys0.rhs, m as nat, width),
            sys0 == BandSystem::empty(m as nat, width),
            occupied.len() == m,
            coeff.len() == m,
            rhs.len() == m * stride,
            key_fp.len() == stride,
            band_of(occupied@, coeff@, rhs@, width).wf(width, fp_last_mask),
            sys0.eliminate(eqs, 0) == band_of(occupied@, coeff@, rhs@, width).eliminate(
                eqs,
                key_index as int,
            ),
        decreases n - key_index,
    {
        let ghost cur = band_of(occupied@, coeff@, rhs@, width);
        let eq = standard_equation_w64(hashes[key_index], seed, m, w, mode, &mut key_fp, fp_last_mask);
        let mut i = eq.start;
        let mut c = eq.coeff;
        let mut b = key_fp.clone();
        proof {
            assert(b@ =~= key_fp@);
            assert(eqs[key_index as int] == KeyEquation { start: i as int, coeff: c, rhs: b@ });
            assert(crate::system::key_wf(eqs[key_index as int], m as nat, width, fp_last_mask));
        }
        let ghost target = cur.insert(i as int, c, b@);
        let mut stored = false;
        loop
            invariant_except_break
                !stored,
                cur == band_of(occupied@, coeff@, rhs@, width),
                i < m,
                bit(c, 0),
                fits(m as int, i as int, c),
                b@.len() == width,
                last_masked(b@, fp_last_mask),
                target == cur.insert(i as int, c, b@),
            invariant
                stride == width,
                width >= 1,
                key_index < n,
                n == hashes.len(),
                eqs == key_equations(*p, hashes@, m as nat, seed),
                target == cur.insert(
                    eqs[key_index as int].start,
                    eqs[key_index as int].coeff,
                    eqs[key_index as int].rhs,
                ),
                sys0.eliminate(eqs, 0) == cur.eliminate(eqs, key_index as int),
                sys0 == BandSystem::empty(m as nat, width),
                fp_last_mask == p.spec_last_word_mask(),
                width == p.spec_fingerprint_words(),
                occupied.len() == m,
                coeff.len() == m,
                rhs.len() == m * stride,
                cur.wf(width, fp_last_mask),
            ensures
                stored ==> target == Insertion::Stored(band_of(occupied@, coeff@, rhs@, width)),
                !stored ==> target == Insertion::Redundant && cur == band_of(occupied@, coeff@, rhs@, width),
            decreases m - i,
        {
            if !occupied[i] {
                occupied.set(i, true);
                coeff.set(i, c);
                copy_row_into(&mut rhs, i, stride, m, &b);
                stored = true;
                proof {
                    let s2 = band_of(occupied@, coeff@, rhs@, width);
                    assert(s2.occupied =~= cur.occupied.update(i as int, true));
                    assert(s2.coeff =~= cur.coeff.update(i as int, c));
                }
                break;
            }
            let ci = coeff[i];
            let ghost old_c = c;
            let ghost old_b = b@;
            proof {
                assert(cur.occupied[i as int]);
            }
            c = c ^ ci;
            xor_row_from(&mut b, rhs.as_slice(), i, stride, m);
            if c == 0 {
                if all_zero(&b) {
                    break;
                }
                proof {
                    assert(target == Insertion::Failed(i as int));
                    assert(cur.eliminate(eqs, key_index as int) == Err::<BandSystem, (int, int)>(
                        (key_index as int, i as int),
                    ));
                    reveal(spec_solve);
                }
                return Err(ConstructionFailure::InconsistentEquation { key_index, row_index: i });
            }
            proof {
                lemma_reduce_step(m as nat, i as int, old_c, ci);
                crate::gf2::lemma_xor_masked(old_b, cur.rhs[i as int], fp_last_mask);
            }
            let shift = trailing_zeros_u128(c) as usize;
            i = i + shift;
            c = c >> (shift as u128);
        }
        proof {
            let e = eqs[key_index as int];
            lemma_insert(cur, e.start, e.coeff, e.rhs, width, fp_last_mask, sys0.rhs);
        }
        key_index = key_index + 1;
    }

    // Back substitution, from the top row down.
    let ghost sys = band_of(occupied@, coeff@, rhs@, width);
    let mut z: Vec<u64> = vec![0u64; m * stride];
    let mut acc: Vec<u64> = vec![0u64; stride];
    proof {
        lemma_rows_of_zero(z@, width, m as nat);
        assert(rows_of(z@, width, m as nat) =~= sys.solve_from(m as int, width, fp_last_mask));
    }
    let mut row = m;
    while row > 0
        invariant
            row <= m,
            stride == width,
            width >= 1,
            occupied.len() == m,
            coeff.len() == m,
            rhs.len() == m * stride,
            z.len() == m * stride,
            acc.len() == stride,
            sys == band_of(occupied@, coeff@, rhs@, width),
            sys.wf(width, fp_last_mask),
            rows_of(z@, width, m as nat) == sys.solve_from(row as int, width, fp_last_mask),
        decreases row,
    {
        let i = row - 1;
        if occupied[i] {
            let ci = coeff[i];
            let upper = ci & !1u128;
            proof {
                assert(sys.occupied[i as int]);
                assert forall|j: int| #[trigger] bit(upper, j) implies i + j < m by {
                    lemma_bit_facts(ci, ci, 0, j as u128);
                    assert(bit(ci, j));
                }
            }
            copy_row_out(&mut acc, rhs.as_slice(), i, stride, m);
            xor_rows_selected(z.as_slice(), stride, m, i, upper, &mut acc);
            let last = acc[stride - 1] & fp_last_mask;
            acc.set(stride - 1, last);
            let ghost zrows = rows_of(z@, width, m as nat);
            proof {
                assert(acc@ =~= mask_last(
                    row_xor(sys.rhs[i as int], eval(zrows, band(m as nat, i as int, upper), width)),
                    fp_last_mask,
                ));
            }
            copy_row_into(&mut z, i, stride, m, &acc);
        }
        row = i;
    }
    Ok(z)
}

/// `ceil(m * (w + 1) / w)`: the size after one growth round.
pub open spec fn grow(m: nat, w: nat) -> nat {
    if (m * (w + 1)) % w == 0 {
        (m * (w + 1)) / w
    } else {
        (m * (w + 1)) / w + 1
    }
}

/// Growing never shrinks.
pub proof fn lemma_grow_monotone(m: nat, w: nat)
    requires
        w >= 1,
    ensures
        grow(m, w) >= m,
{
    assert((m * (w + 1)) / w >= m) by (nonlinear_arith)
        requires
            w >= 1,
    ;
}

/// Every size an attempt may use, from `m` through `k` growth rounds,
/// fits the machine: the flat solution fits a bit-vector and each growth
/// product fits a `usize`.
pub open spec fn sizes_fit(m: nat, w: nat, words: nat, k: nat) -> bool
    decreases k,
{
    &&& m * words * 64 <= usize::MAX / 8
    &&& (k > 0 ==> m * (w + 1) <= usize::MAX && sizes_fit(grow(m, w), w, words, (k - 1) as nat))
}

/// What building with `p` needs: bands of at most 128 positions (the
/// widest supported), an attempt counter that fits a `usize`, and every size that
/// growth may reach fitting as `sizes_fit` says.
pub open spec fn build_fits(p: Params) -> bool {
    &&& p.w <= 128
    &&& (p.grow_limit + 1) * p.retry_limit <= usize::MAX
    &&& sizes_fit(
        p.m as nat,
        p.w as nat,
        p.spec_fingerprint_words(),
        if p.mode == Mode::Homogeneous {
            0
        } else {
            p.grow_limit as nat
        },
    )
}

/// Whether building with the valid parameters `p` fits the machine as
/// `build_fits` says; callers test this before `build`.
pub fn fits_machine(p: &Params) -> (res: bool)
    requires
        p.valid(),
    ensures
        res == build_fits(*p),
{
    if p.w > 128 {
        return false;
    }
    match p.grow_limit.checked_add(1) {
        None => {
            proof {
                assert((p.grow_limit + 1) * p.retry_limit > usize::MAX) by (nonlinear_arith)
                    requires
                        p.grow_limit + 1 > usize::MAX,
                        p.retry_limit >= 1,
                ;
            }
            return false;
        },
        Some(rounds) => match rounds.checked_mul(p.retry_limit) {
            None => {
                return false;
            },
            Some(_) => {},
        },
    }
    let words = p.fingerprint_words();
    let w = p.w;
    let total: usize = if p.mode == Mode::Homogeneous {
        0
    } else {
        p.grow_limit
    };
    let ghost target = sizes_fit(p.m as nat, w as nat, words as nat, total as nat);
    let mut m = p.m;
    let mut k = total;
    assert(build_fits(*p) == target);
    loop
        invariant
            1 <= w <= 128,
            build_fits(*p) == target,
            target == sizes_fit(m as nat, w as nat, words as nat, k as nat),
        decreases k,
    {
        let fits_bits = match m.checked_mul(words) {
            None => false,
            Some(len) => match len.checked_mul(64) {
                None => false,
                Some(bits) => bits <= usize::MAX / 8,
            },
        };
        if !fits_bits {
            proof {
                assert(m * words * 64 > usize::MAX / 8) by (nonlinear_arith)
                    requires
                        m * words > usize::MAX || (m * words) * 64 > usize::MAX || (m * words) * 64
                            > usize::MAX / 8,
                ;
            }
            return false;
        }
        if k == 0 {
            return true;
        }
        let product = match m.checked_mul(w + 1) {
            None => {
                return false;
            },
            Some(v) => v,
        };
        let q = product / w;
        proof {
            assert(product % w != 0 ==> q < usize::MAX) by (nonlinear_arith)
                requires
                    q == product / w,
                    w >= 1,
                    product <= usize::MAX,
            ;
        }
        m = if product % w == 0 {
            q
        } else {
            q + 1
        };
        k = k - 1;
    }
}

/// The index of retry `r` at growth round `g`: `g` in the high 32 bits.
pub open spec fn attempt_index(g: nat, r: nat) -> u64 {
    ((g as u64) << 32u64) | (r as u64)
}

/// The error reported when every attempt failed.
pub open spec fn exhausted(m: nat, attempts: nat, last: Option<ConstructionFailure>) -> Result<
    FilterModel,
    BuildError,
> {
    Err(
        BuildError::ConstructionFailed {
            final_m: m as usize,
            attempts: attempts as usize,
            last_failure: match last {
                Some(f) => f,
                None => ConstructionFailure::InconsistentEquation { key_index: 0, row_index: 0 },
            },
        },
    )
}

/// The attempts from retry `r` of growth round `g` on, at size `m`, after
/// `attempts` attempts of which the last failed with `last`: the first
/// attempt that succeeds gives the filter, with `m` and the attempt's seed
/// in its parameters. In homogeneous mode the first attempt decides.
pub open spec fn run_attempts(
    p: Params,
    hashes: Seq<u64>,
    g: nat,
    r: nat,
    m: nat,
    attempts: nat,
    last: Option<ConstructionFailure>,
) -> Result<FilterModel, BuildError>
    decreases p.grow_limit - g, p.retry_limit - r,
{
    if g > p.grow_limit {
        exhausted(m, attempts, last)
    } else if r >= p.retry_limit {
        if p.mode == Mode::Homogeneous || g >= p.grow_limit {
            exhausted(m, attempts, last)
        } else {
            run_attempts(p, hashes, g + 1, 0, grow(m, p.w as nat), attempts, last)
        }
    } else {
        let seed = spec_attempt_seed(p.seed, attempt_index(g, r));
        match spec_solve(p, hashes, m, seed) {
            Ok(rows) => Ok(FilterModel { params: Params { m: m as usize, seed, ..p }, rows }),
            Err(f) => if p.mode == Mode::Homogeneous {
                exhausted(m, attempts + 1, Some(f))
            } else {
                run_attempts(p, hashes, g, r + 1, m, attempts + 1, Some(f))
            },
        }
    }
}

/// What building with `p` from the keys hashed to `hashes` gives.
pub open spec fn spec_build(p: Params, hashes: Seq<u64>) -> Result<FilterModel, BuildError> {
    match p.spec_validate() {
        Err(e) => Err(BuildError::InvalidParams(e)),
        Ok(_) => run_attempts(p, hashes, 0, 0, p.m as nat, 0, None),
    }
}

/// A built filter, or error, is the one `expected` describes.
pub open spec fn build_matches<S>(res: Result<RibbonFilter<S>, BuildError>, expected: Result<FilterModel, BuildError>) -> bool {
    match (res, expected) {
        (Ok(f), Ok(fm)) => f.model() == fm,
        (Err(e), Err(e2)) => e == e2,
        _ => false,
    }
}

/// Builds filters from key sets with fixed parameters and hasher.
#[derive(Debug)]
pub struct RibbonBuilder<S> {
    params: Params,
    build_hasher: S,
}

impl<S: Clone> Clone for RibbonBuilder<S> {
    fn clone(&self) -> (res: Self)
        ensures
            res.model_params() == self.model_params(),
            cloned(self.model_hasher(), res.model_hasher()),
    {
        proof {
            use_type_invariant(self);
        }
        RibbonBuilder { params: self.params, build_hasher: self.build_hasher.clone() }
    }
}

impl<S> RibbonBuilder<S> {
    #[verifier::type_invariant]
    spec fn inv(self) -> bool {
        self.params.valid()
    }

    pub closed spec fn model_params(self) -> Params {
        self.params
    }

    pub closed spec fn model_hasher(self) -> S {
        self.build_hasher
    }

    /// A builder for valid parameters; invalid ones are refused with the
    /// reason `validate` gives.
    pub fn new(params: Params, build_hasher: S) -> (res: Result<Self, BuildError>)
        ensures
            match res {
                Ok(b) => params.valid() && b.model_params() == params && b.model_hasher()
                    == build_hasher,
                Err(e) => params.spec_validate() matches Err(pe) && e == BuildError::InvalidParams(pe),
            },
    {
        match params.validate() {
            Err(e) => Err(BuildError::InvalidParams(e)),
            Ok(()) => Ok(RibbonBuilder { params, build_hasher }),
        }
    }

    pub fn params(&self) -> (p: Params)
        ensures
            p == self.model_params(),
            p.valid(),
    {
        proof {
            use_type_invariant(self);
        }
        self.params
    }

    pub fn hasher(&self) -> (h: &S)
        ensures
            *h == self.model_hasher(),
    {
        &self.build_hasher
    }

    /// One attempt at `m` rows with seed `seed`.
    fn build_once(&self, hashes: &[u64], m: usize, seed: u64) -> (res: Result<
        RibbonFilter<S>,
        ConstructionFailure,
    >)
        where
            S: Clone,
        requires
            self.model_params().w <= 128,
            self.model_params().w <= m,
            m * self.model_params().spec_fingerprint_words() * 64 <= usize::MAX / 8,
        ensures
            match (res, spec_solve(self.model_params(), hashes@, m as nat, seed)) {
                (Ok(f), Ok(rows)) => f.model() == (FilterModel {
                    params: Params { m, seed, ..self.model_params() },
                    rows,
                }),
                (Err(e), Err(e2)) => e == e2,
                _ => false,
            },
            res matches Ok(f) ==> cloned(self.model_hasher(), f.model_hasher()),
    {
        proof {
            use_type_invariant(self);
        }
        let z = solve_band(&self.params, hashes, m, seed)?;
        let mut built_params = self.params;
        built_params.m = m;
        built_params.seed = seed;
        Ok(RibbonFilter::new(built_params, self.build_hasher.clone(), z))
    }

    /// Builds a filter from the keys hashed to `hashes`: attempts with
    /// derived seeds, `retry_limit` per size, growing `m` up to
    /// `grow_limit` times, until one succeeds.
    pub fn build_from_hashes(&self, hashes: &[u64]) -> (res: Result<RibbonFilter<S>, BuildError>)
        where
            S: Clone,
        requires
            build_fits(self.model_params()),
        ensures
            build_matches(res, spec_build(self.model_params(), hashes@)),
            res matches Ok(f) ==> cloned(self.model_hasher(), f.model_hasher()),
            res matches Err(e) ==> e is ConstructionFailed,
    {
        proof {
            use_type_invariant(self);
        }
        match self.params.validate() {
            Err(e) => {
                return Err(BuildError::InvalidParams(e));
            },
            Ok(()) => {},
        }
        let ghost p = self.params;
        let ghost words = p.spec_fingerprint_words();
        let grow_limit = self.params.grow_limit;
        let retry_limit = self.params.retry_limit;
        let w = self.params.w;
        let homogeneous = self.params.mode == Mode::Homogeneous;
        let mut attempts: usize = 0;
        let mut current_m = self.params.m;
        let mut last_failure: Option<ConstructionFailure> = None;
        let mut grow_step: usize = 0;
        loop
            invariant_except_break
                grow_step <= grow_limit,
                attempts == grow_step * retry_limit,
                sizes_fit(
                    current_m as nat,
                    w as nat,
                    words,
                    if homogeneous {
                        0
                    } else {
                        (grow_limit - grow_step) as nat
                    },
                ),
                w <= current_m,
                spec_build(p, hashes@) == run_attempts(
                    p,
                    hashes@,
                    grow_step as nat,
                    0,
                    current_m as nat,
                    attempts as nat,
                    last_failure,
                ),
            invariant
                p == self.model_params(),
                p.valid(),
                build_fits(p),
                words == p.spec_fingerprint_words(),
                grow_limit == p.grow_limit,
                retry_limit == p.retry_limit,
                w == p.w,
                homogeneous == (p.mode == Mode::Homogeneous),
            ensures
                spec_build(p, hashes@) == exhausted(current_m as nat, attempts as nat, last_failure),
            decreases grow_limit - grow_step,
        {
            let mut retry_step: usize = 0;
            proof {
                assert(grow_step * retry_limit + retry_limit <= (grow_limit + 1) * retry_limit) by (nonlinear_arith)
                    requires
                        grow_step <= grow_limit,
                ;
            }
            loop
                invariant_except_break
                    retry_step <= retry_limit,
                    attempts == grow_step * retry_limit + retry_step,
                    spec_build(p, hashes@) == run_attempts(
                        p,
                        hashes@,
                        grow_step as nat,
                        retry_step as nat,
                        current_m as nat,
                        attempts as nat,
                        last_failure,
                    ),
                invariant
                    p == self.model_params(),
                    p.valid(),
                    build_fits(p),
                    words == p.spec_fingerprint_words(),
                    grow_limit == p.grow_limit,
                    retry_limit == p.retry_limit,
                    w == p.w,
                    homogeneous == (p.mode == Mode::Homogeneous),
                    grow_step <= grow_limit,
                    grow_step * retry_limit + retry_limit <= usize::MAX,
                    w <= current_m,
                    current_m as nat * words * 64 <= usize::MAX / 8,
                ensures
                    (retry_step == retry_limit && attempts == grow_step * retry_limit + retry_limit
                        && spec_build(p, hashes@) == run_attempts(
                        p,
                        hashes@,
                        grow_step as nat,
                        retry_step as nat,
                        current_m as nat,
                        attempts as nat,
                        last_failure,
                    )) || (homogeneous && spec_build(p, hashes@) == exhausted(
                        current_m as nat,
                        attempts as nat,
                        last_failure,
                    )),
                decreases retry_limit - retry_step,
            {
                if retry_step >= retry_limit {
                    break;
                }
                attempts = attempts + 1;
                let attempt_index = ((grow_step as u64) << 32) | (retry_step as u64);
                let seed = derive_attempt_seed(self.params.seed, attempt_index);
                match self.build_once(hashes, current_m, seed) {
                    Ok(filter) => {
                        return Ok(filter);
                    },
                    Err(err) => {
                        last_failure = Some(err);
                    },
                }
                if homogeneous {
                    break;
                }
                retry_step = retry_step + 1;
            }
            if homogeneous {
                break;
            }
            if grow_step >= grow_limit {
                break;
            }
            proof {
                lemma_grow_monotone(current_m as nat, w as nat);
                assert((grow_step + 1) * retry_limit == grow_step * retry_limit + retry_limit) by (nonlinear_arith);
            }
            let product = current_m * (w + 1);
            let q = product / w;
            proof {
                assert(product % w != 0 ==> q < usize::MAX) by (nonlinear_arith)
                    requires
                        q == product / w,
                        w >= 1,
                        product <= usize::MAX,
                ;
            }
            current_m = if product % w == 0 {
                q
            } else {
                q + 1
            };
            grow_step = grow_step + 1;
        }
        let last = match last_failure {
            Some(f) => f,
            None => ConstructionFailure::InconsistentEquation { key_index: 0, row_index: 0 },
        };
        Err(BuildError::ConstructionFailed { final_m: current_m, attempts, last_failure: last })
    }

    /// Builds a filter from `keys`, each hashed once with the builder's
    /// hasher. Nothing is known of those hashes: the result is what
    /// `build_from_hashes` gives for some hashes, one per key.
    pub fn build<K: Hash>(&self, keys: &[K]) -> (res: Result<RibbonFilter<S>, BuildError>)
        where
            S: BuildHasher + Clone,
        requires
            build_fits(self.model_params()),
        ensures
            exists|hs: Seq<u64>|
                hs.len() == keys@.len() && build_matches(res, #[trigger] spec_build(self.model_params(), hs)),
            res matches Ok(f) ==> cloned(self.model_hasher(), f.model_hasher()),
            res matches Err(e) ==> e is ConstructionFailed,
    {
        let mut hashes: Vec<u64> = Vec::with_capacity(keys.len());
        let mut k: usize = 0;
        while k < keys.len()
            invariant
                k <= keys.len(),
                hashes@.len() == k,
            decreases keys.len() - k,
        {
            hashes.push(hash64(&self.build_hasher, &keys[k]));
            k = k + 1;
        }
        self.build_from_hashes(hashes.as_slice())
    }
}

} // verus!
