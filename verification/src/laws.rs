//! What the library promises across its functions: a successful build
//! answers "present" for every key it was built from, an attempt fails
//! exactly when the keys' equations have no common solution and says which
//! key made them so (the keys up to it fail the same way, those before it
//! succeed), the outcome of building does not depend on the order of the
//! keys, a repeated key changes nothing at all, a failed build reports how
//! far it went and a real failure, distinct attempts are seeded
//! differently, and homogeneous construction never fails.
use vstd::prelude::*;

use crate::builder::{
    build_fits, grow, key_equations, lemma_grow_monotone, run_attempts, sizes_fit, spec_build,
    spec_solve,
};
use crate::error::{BuildError, ConstructionFailure};
use crate::filter::{model_contains, FilterModel};
use crate::gf2::{band, eval, lemma_combine_len, rows_masked, zero_row};
use crate::hashing::{
    eq_coeff, eq_fingerprint, eq_start, lemma_key_equation_wf, mix, spec_attempt_seed, stream_state, MIX_CONST,
};
use crate::params::{Mode, Params};
use crate::system::{
    keys_consistent, keys_wf, lemma_eliminate_err_inconsistent, lemma_eliminate_ok_solves,
    lemma_eliminate_err_index, lemma_eliminate_repeat, lemma_eliminate_take, lemma_eliminate_take_fail,
    lemma_eliminate_zero_rhs_ok, satisfies_key, satisfies_keys, solution_shape, BandSystem, KeyEquation,
};

verus! {

/// The equations of an attempt's keys are well formed for elimination.
proof fn lemma_attempt_keys_wf(p: Params, hashes: Seq<u64>, m: nat, seed: u64)
    requires
        1 <= p.w <= m,
        p.r >= 1,
    ensures
        p.spec_fingerprint_words() >= 1,
        keys_wf(key_equations(p, hashes, m, seed), m, p.spec_fingerprint_words(), p.spec_last_word_mask()),
{
    let eqs = key_equations(p, hashes, m, seed);
    assert forall|k: int| 0 <= k < eqs.len() implies crate::system::key_wf(
        #[trigger] eqs[k],
        m,
        p.spec_fingerprint_words(),
        p.spec_last_word_mask(),
    ) by {
        lemma_key_equation_wf(
            hashes[k],
            seed,
            m,
            p.w as nat,
            p.mode,
            p.spec_fingerprint_words(),
            p.spec_last_word_mask(),
        );
    }
}

/// A successful attempt's solution has `m` rows of `fingerprint_words`
/// words, no bit set beyond the `r` fingerprint bits of a row, and
/// satisfies the equation of every key: the rows its band selects XOR to
/// its fingerprint.
pub proof fn law_attempt_solves_every_key(p: Params, hashes: Seq<u64>, m: nat, seed: u64)
    requires
        1 <= p.w <= m,
        p.r >= 1,
        spec_solve(p, hashes, m, seed) is Ok,
    ensures
        spec_solve(p, hashes, m, seed) matches Ok(rows) && solution_shape(rows, m, p.spec_fingerprint_words())
            && satisfies_keys(
            rows,
            m,
            p.spec_fingerprint_words(),
            key_equations(p, hashes, m, seed),
            0,
            hashes.len() as int,
        ) && rows_masked(rows, p.spec_last_word_mask()),
{
    reveal(spec_solve);
    lemma_attempt_keys_wf(p, hashes, m, seed);
    lemma_eliminate_ok_solves(
        key_equations(p, hashes, m, seed),
        m,
        p.spec_fingerprint_words(),
        p.spec_last_word_mask(),
    );
}

/// An attempt succeeds exactly when some candidate solution satisfies
/// every key's equation; when it fails, the key it names is the first
/// whose equation cannot be satisfied together with those before it.
pub proof fn law_attempt_fails_iff_inconsistent(p: Params, hashes: Seq<u64>, m: nat, seed: u64)
    requires
        1 <= p.w <= m,
        p.r >= 1,
        hashes.len() <= usize::MAX,
        m <= usize::MAX,
    ensures
        spec_solve(p, hashes, m, seed) is Ok <==> keys_consistent(
            key_equations(p, hashes, m, seed),
            m,
            p.spec_fingerprint_words(),
            0,
            hashes.len() as int,
        ),
        spec_solve(p, hashes, m, seed) matches Err(ConstructionFailure::InconsistentEquation { key_index, row_index })
            ==> key_index < hashes.len() && row_index < m && keys_consistent(
            key_equations(p, hashes, m, seed),
            m,
            p.spec_fingerprint_words(),
            0,
            key_index as int,
        ) && !keys_consistent(
            key_equations(p, hashes, m, seed),
            m,
            p.spec_fingerprint_words(),
            0,
            key_index + 1,
        ),
{
    reveal(spec_solve);
    let width = p.spec_fingerprint_words();
    let mask = p.spec_last_word_mask();
    let eqs = key_equations(p, hashes, m, seed);
    lemma_attempt_keys_wf(p, hashes, m, seed);
    if BandSystem::empty(m, width).eliminate(eqs, 0) is Ok {
        lemma_eliminate_ok_solves(eqs, m, width, mask);
        let s = BandSystem::empty(m, width).eliminate(eqs, 0)->Ok_0;
        let z = s.solution(width, mask);
        assert(solution_shape(z, m, width) && satisfies_keys(z, m, width, eqs, 0, hashes.len() as int));
    } else {
        lemma_eliminate_err_inconsistent(eqs, m, width, mask);
        let (kf, row) = BandSystem::empty(m, width).eliminate(eqs, 0)->Err_0;
        if keys_consistent(eqs, m, width, 0, hashes.len() as int) {
            let z = choose|z: Seq<Seq<u64>>|
                solution_shape(z, m, width) && satisfies_keys(z, m, width, eqs, 0, hashes.len() as int);
            assert(satisfies_keys(z, m, width, eqs, 0, kf + 1));
        }
    }
}

/// A failed attempt fails on the keys up to the key it names, with the
/// same key and row, and succeeds on the keys before it.
pub proof fn law_attempt_failure_prefix(p: Params, hashes: Seq<u64>, m: nat, seed: u64)
    requires
        hashes.len() <= usize::MAX,
        spec_solve(p, hashes, m, seed) is Err,
    ensures
        spec_solve(p, hashes, m, seed) matches Err(ConstructionFailure::InconsistentEquation { key_index, row_index })
            && spec_solve(p, hashes.take(key_index as int), m, seed) is Ok && spec_solve(
            p,
            hashes.take(key_index + 1),
            m,
            seed,
        ) == spec_solve(p, hashes, m, seed),
{
    reveal(spec_solve);
    let width = p.spec_fingerprint_words();
    let eqs = key_equations(p, hashes, m, seed);
    let e = BandSystem::empty(m, width);
    let (kf, row) = e.eliminate(eqs, 0)->Err_0;
    lemma_eliminate_err_index(e, eqs, 0);
    lemma_eliminate_take(e, eqs, 0, kf);
    lemma_eliminate_take_fail(e, eqs, 0, kf, row);
    assert(key_equations(p, hashes.take(kf), m, seed) =~= eqs.take(kf));
    assert(key_equations(p, hashes.take(kf + 1), m, seed) =~= eqs.take(kf + 1));
}

/// Appending a copy of one of the keys changes nothing in an attempt: the
/// copy reduces to `0 = 0`, so the outcome, and on success the solution
/// rows, are those of the keys alone.
pub proof fn law_repeated_key_changes_nothing(p: Params, hashes: Seq<u64>, m: nat, seed: u64, j: int)
    requires
        0 <= j < hashes.len(),
    ensures
        spec_solve(p, hashes.push(hashes[j]), m, seed) == spec_solve(p, hashes, m, seed),
{
    reveal(spec_solve);
    let width = p.spec_fingerprint_words();
    let eqs = key_equations(p, hashes, m, seed);
    assert(key_equations(p, hashes.push(hashes[j]), m, seed) =~= eqs.push(eqs[j]));
    lemma_eliminate_repeat(BandSystem::empty(m, width), eqs, j);
}

/// Every run of attempts goes the same way over the keys followed by a
/// copy of one of them.
proof fn lemma_run_attempts_repeat(
    p: Params,
    hashes: Seq<u64>,
    j: int,
    g: nat,
    r: nat,
    m: nat,
    attempts: nat,
    last: Option<ConstructionFailure>,
)
    requires
        0 <= j < hashes.len(),
    ensures
        run_attempts(p, hashes.push(hashes[j]), g, r, m, attempts, last) == run_attempts(
            p,
            hashes,
            g,
            r,
            m,
            attempts,
            last,
        ),
    decreases p.grow_limit - g, p.retry_limit - r,
{
    let h2 = hashes.push(hashes[j]);
    if g > p.grow_limit {
    } else if r >= p.retry_limit {
        if !(p.mode == Mode::Homogeneous || g >= p.grow_limit) {
            lemma_run_attempts_repeat(p, hashes, j, g + 1, 0, grow(m, p.w as nat), attempts, last);
        }
    } else {
        let seed = crate::hashing::spec_attempt_seed(p.seed, crate::builder::attempt_index(g, r));
        law_repeated_key_changes_nothing(p, hashes, m, seed, j);
        match spec_solve(p, hashes, m, seed) {
            Ok(_) => {},
            Err(f) => {
                if p.mode != Mode::Homogeneous {
                    lemma_run_attempts_repeat(p, hashes, j, g, r + 1, m, attempts + 1, Some(f));
                }
            },
        }
    }
}

/// Building from the keys followed by a copy of one of them gives exactly
/// what building from the keys gives: the same filter, or the same error.
pub proof fn law_build_repeated_key_changes_nothing(p: Params, hashes: Seq<u64>, j: int)
    requires
        0 <= j < hashes.len(),
    ensures
        spec_build(p, hashes.push(hashes[j])) == spec_build(p, hashes),
{
    lemma_run_attempts_repeat(p, hashes, j, 0, 0, p.m as nat, 0, None);
}

/// A successful run of attempts comes from one attempt, at a size reached
/// by growth from `m`, whose solution is the filter's rows.
proof fn lemma_run_attempts_ok(
    p: Params,
    hashes: Seq<u64>,
    g: nat,
    r: nat,
    m: nat,
    attempts: nat,
    last: Option<ConstructionFailure>,
) -> (found: (nat, u64))
    requires
        p.valid(),
        1 <= p.w <= m,
        sizes_fit(
            m,
            p.w as nat,
            p.spec_fingerprint_words(),
            if p.mode == Mode::Homogeneous {
                0
            } else {
                (p.grow_limit - g) as nat
            },
        ),
        g <= p.grow_limit,
        run_attempts(p, hashes, g, r, m, attempts, last) is Ok,
    ensures
        m <= found.0 <= usize::MAX,
        (p.mode == Mode::Homogeneous || g == p.grow_limit) ==> found.0 == m,
        exists|k: nat| k <= p.grow_limit - g && found.0 == #[trigger] grown(m, p.w as nat, k),
        run_attempts(p, hashes, g, r, m, attempts, last) == Ok::<FilterModel, crate::error::BuildError>(
            FilterModel {
                params: Params { m: found.0 as usize, seed: found.1, ..p },
                rows: spec_solve(p, hashes, found.0, found.1)->Ok_0,
            },
        ),
        spec_solve(p, hashes, found.0, found.1) is Ok,
    decreases p.grow_limit - g, p.retry_limit - r,
{
    let words = p.spec_fingerprint_words();
    assert(m <= usize::MAX) by (nonlinear_arith)
        requires
            m * words * 64 <= usize::MAX / 8,
            words >= 1,
    ;
    if r >= p.retry_limit {
        lemma_grow_monotone(m, p.w as nat);
        let found = lemma_run_attempts_ok(p, hashes, g + 1, 0, grow(m, p.w as nat), attempts, last);
        let k = choose|k: nat| k <= p.grow_limit - (g + 1) && found.0 == #[trigger] grown(
            grow(m, p.w as nat),
            p.w as nat,
            k,
        );
        assert(grown(m, p.w as nat, k + 1) == grown(grow(m, p.w as nat), p.w as nat, k));
        found
    } else {
        let seed = crate::hashing::spec_attempt_seed(p.seed, crate::builder::attempt_index(g, r));
        match spec_solve(p, hashes, m, seed) {
            Ok(rows) => {
                assert(grown(m, p.w as nat, 0) == m);
                (m, seed)
            },
            Err(f) => lemma_run_attempts_ok(p, hashes, g, r + 1, m, attempts + 1, Some(f)),
        }
    }
}

/// No false negatives: a filter built from the keys hashed to `hashes`
/// answers "present" for every one of them.
pub proof fn law_no_false_negatives(p: Params, hashes: Seq<u64>)
    requires
        build_fits(p),
        spec_build(p, hashes) is Ok,
    ensures
        forall|k: int| 0 <= k < hashes.len() ==> #[trigger] model_contains(spec_build(p, hashes)->Ok_0, hashes[k]),
{
    let (m2, seed) = lemma_run_attempts_ok(p, hashes, 0, 0, p.m as nat, 0, None);
    let f = spec_build(p, hashes)->Ok_0;
    law_attempt_solves_every_key(p, hashes, m2, seed);
    let eqs = key_equations(p, hashes, m2, seed);
    assert forall|k: int| 0 <= k < hashes.len() implies #[trigger] model_contains(f, hashes[k]) by {
        assert(satisfies_key(f.rows, m2, p.spec_fingerprint_words(), eqs[k]));
    }
}

/// A built filter keeps the builder's parameters but for its size and
/// seed: its size is the builder's grown at most `grow_limit` times, equal to it
/// where growth is not allowed (no growth rounds, or homogeneous mode),
/// and its parameters are valid.
pub proof fn law_built_params(p: Params, hashes: Seq<u64>)
    requires
        build_fits(p),
        spec_build(p, hashes) is Ok,
    ensures
        spec_build(p, hashes) matches Ok(f) && f.params.w == p.w && f.params.r == p.r && f.params.mode
            == p.mode && f.params.retry_limit == p.retry_limit && f.params.grow_limit == p.grow_limit
            && f.params.m >= p.m && f.params.valid() && ((p.grow_limit == 0 || p.mode
            == Mode::Homogeneous) ==> f.params.m == p.m),
        exists|k: nat|
            k <= p.grow_limit && spec_build(p, hashes)->Ok_0.params.m == #[trigger] grown(p.m as nat, p.w as nat, k),
{
    let (m2, seed) = lemma_run_attempts_ok(p, hashes, 0, 0, p.m as nat, 0, None);
}

/// In homogeneous mode every attempt succeeds: every right-hand side is
/// zero, so no key can contradict the others.
pub proof fn law_homogeneous_attempt_succeeds(p: Params, hashes: Seq<u64>, m: nat, seed: u64)
    requires
        1 <= p.w <= m,
        p.r >= 1,
        p.mode == Mode::Homogeneous,
    ensures
        spec_solve(p, hashes, m, seed) is Ok,
{
    reveal(spec_solve);
    let width = p.spec_fingerprint_words();
    let eqs = key_equations(p, hashes, m, seed);
    lemma_attempt_keys_wf(p, hashes, m, seed);
    assert forall|k: int| 0 <= k < eqs.len() implies (#[trigger] eqs[k]).rhs == zero_row(width) by {}
    lemma_eliminate_zero_rhs_ok(eqs, m, width, p.spec_last_word_mask());
}

/// In homogeneous mode building never fails: the first attempt succeeds.
pub proof fn law_homogeneous_build_succeeds(p: Params, hashes: Seq<u64>)
    requires
        p.valid(),
        p.mode == Mode::Homogeneous,
    ensures
        spec_build(p, hashes) is Ok,
{
    let seed = crate::hashing::spec_attempt_seed(p.seed, crate::builder::attempt_index(0, 0));
    law_homogeneous_attempt_succeeds(p, hashes, p.m as nat, seed);
}

/// The equation of the key hashed to `h` in the attempt at `m` rows with
/// seed `seed`.
pub open spec fn hash_equation(p: Params, h: u64, m: nat, seed: u64) -> KeyEquation {
    KeyEquation {
        start: eq_start(h, seed, m, p.w as nat),
        coeff: eq_coeff(h, seed, p.w as nat),
        rhs: eq_fingerprint(h, seed, p.w as nat, p.mode, p.spec_fingerprint_words(), p.spec_last_word_mask()),
    }
}

/// `z` satisfies the equation of every key whose hash is in `hs`.
pub open spec fn satisfies_hash_set(z: Seq<Seq<u64>>, p: Params, hs: Set<u64>, m: nat, seed: u64) -> bool {
    forall|h: u64| #[trigger] hs.contains(h) ==> satisfies_key(z, m, p.spec_fingerprint_words(), hash_equation(p, h, m, seed))
}

/// Satisfying the equations of a list of keys is satisfying the equation
/// of each hash in the list's set.
proof fn lemma_keys_as_set(z: Seq<Seq<u64>>, p: Params, hashes: Seq<u64>, m: nat, seed: u64)
    ensures
        satisfies_keys(z, m, p.spec_fingerprint_words(), key_equations(p, hashes, m, seed), 0, hashes.len() as int)
            == satisfies_hash_set(z, p, hashes.to_set(), m, seed),
{
    let eqs = key_equations(p, hashes, m, seed);
    let width = p.spec_fingerprint_words();
    assert forall|k: int| 0 <= k < hashes.len() implies #[trigger] eqs[k] == hash_equation(p, hashes[k], m, seed) by {}
    if satisfies_keys(z, m, width, eqs, 0, hashes.len() as int) {
        assert forall|h: u64| #[trigger] hashes.to_set().contains(h) implies satisfies_key(
            z,
            m,
            width,
            hash_equation(p, h, m, seed),
        ) by {
            assert(hashes.contains(h));
            let k = choose|k: int| 0 <= k < hashes.len() && hashes[k] == h;
            assert(satisfies_key(z, m, width, eqs[k]));
        }
    }
    if satisfies_hash_set(z, p, hashes.to_set(), m, seed) {
        assert forall|k: int| 0 <= k < hashes.len() implies #[trigger] satisfies_key(z, m, width, eqs[k]) by {
            assert(hashes.contains(hashes[k]));
            assert(hashes.to_set().contains(hashes[k]));
        }
    }
}

/// Whether an attempt succeeds depends only on the set of key hashes:
/// reordering the keys, or repeating one, does not change it.
pub proof fn law_attempt_ignores_key_order(p: Params, h1: Seq<u64>, h2: Seq<u64>, m: nat, seed: u64)
    requires
        1 <= p.w <= m,
        p.r >= 1,
        h1.len() <= usize::MAX,
        h2.len() <= usize::MAX,
        m <= usize::MAX,
        h1.to_set() == h2.to_set(),
    ensures
        (spec_solve(p, h1, m, seed) is Ok) == (spec_solve(p, h2, m, seed) is Ok),
{
    let width = p.spec_fingerprint_words();
    let e1 = key_equations(p, h1, m, seed);
    let e2 = key_equations(p, h2, m, seed);
    law_attempt_fails_iff_inconsistent(p, h1, m, seed);
    law_attempt_fails_iff_inconsistent(p, h2, m, seed);
    if keys_consistent(e1, m, width, 0, h1.len() as int) {
        let z = choose|z: Seq<Seq<u64>>| solution_shape(z, m, width) && satisfies_keys(z, m, width, e1, 0, h1.len() as int);
        lemma_keys_as_set(z, p, h1, m, seed);
        lemma_keys_as_set(z, p, h2, m, seed);
    }
    if keys_consistent(e2, m, width, 0, h2.len() as int) {
        let z = choose|z: Seq<Seq<u64>>| solution_shape(z, m, width) && satisfies_keys(z, m, width, e2, 0, h2.len() as int);
        lemma_keys_as_set(z, p, h1, m, seed);
        lemma_keys_as_set(z, p, h2, m, seed);
    }
}

/// Two outcomes of building agree in all but the solution rows and the
/// failing key: both succeed with the same parameters, or both fail with
/// the same reason, final size and number of attempts.
pub open spec fn same_outcome(r1: Result<FilterModel, BuildError>, r2: Result<FilterModel, BuildError>) -> bool {
    match (r1, r2) {
        (Ok(f1), Ok(f2)) => f1.params == f2.params,
        (Err(BuildError::InvalidParams(e1)), Err(BuildError::InvalidParams(e2))) => e1 == e2,
        (
            Err(BuildError::ConstructionFailed { final_m: m1, attempts: a1, .. }),
            Err(BuildError::ConstructionFailed { final_m: m2, attempts: a2, .. }),
        ) => m1 == m2 && a1 == a2,
        _ => false,
    }
}

/// The runs of attempts over two lists of hashes with the same set agree.
proof fn lemma_run_attempts_same(
    p: Params,
    h1: Seq<u64>,
    h2: Seq<u64>,
    g: nat,
    r: nat,
    m: nat,
    attempts: nat,
    last1: Option<ConstructionFailure>,
    last2: Option<ConstructionFailure>,
)
    requires
        p.valid(),
        1 <= p.w <= m,
        sizes_fit(
            m,
            p.w as nat,
            p.spec_fingerprint_words(),
            if p.mode == Mode::Homogeneous {
                0
            } else {
                (p.grow_limit - g) as nat
            },
        ),
        g <= p.grow_limit,
        h1.len() <= usize::MAX,
        h2.len() <= usize::MAX,
        h1.to_set() == h2.to_set(),
    ensures
        same_outcome(run_attempts(p, h1, g, r, m, attempts, last1), run_attempts(p, h2, g, r, m, attempts, last2)),
    decreases p.grow_limit - g, p.retry_limit - r,
{
    let words = p.spec_fingerprint_words();
    assert(m <= usize::MAX) by (nonlinear_arith)
        requires
            m * words * 64 <= usize::MAX / 8,
            words >= 1,
    ;
    if r >= p.retry_limit {
        if !(p.mode == Mode::Homogeneous || g >= p.grow_limit) {
            lemma_grow_monotone(m, p.w as nat);
            lemma_run_attempts_same(p, h1, h2, g + 1, 0, grow(m, p.w as nat), attempts, last1, last2);
        }
    } else {
        let seed = crate::hashing::spec_attempt_seed(p.seed, crate::builder::attempt_index(g, r));
        law_attempt_ignores_key_order(p, h1, h2, m, seed);
        match (spec_solve(p, h1, m, seed), spec_solve(p, h2, m, seed)) {
            (Err(f1), Err(f2)) => {
                if p.mode != Mode::Homogeneous {
                    lemma_run_attempts_same(p, h1, h2, g, r + 1, m, attempts + 1, Some(f1), Some(f2));
                }
            },
            _ => {},
        }
    }
}

/// Building depends only on the set of key hashes: reordering the keys,
/// or repeating one, neither turns success into failure nor changes the
/// built parameters, the final size or the number of attempts.
pub proof fn law_build_ignores_key_order(p: Params, h1: Seq<u64>, h2: Seq<u64>)
    requires
        build_fits(p),
        h1.len() <= usize::MAX,
        h2.len() <= usize::MAX,
        h1.to_set() == h2.to_set(),
    ensures
        same_outcome(spec_build(p, h1), spec_build(p, h2)),
{
    if p.valid() {
        lemma_run_attempts_same(p, h1, h2, 0, 0, p.m as nat, 0, None, None);
    }
}

/// The size after `k` growth rounds from `m`.
pub open spec fn grown(m: nat, w: nat, k: nat) -> nat
    decreases k,
{
    if k == 0 {
        m
    } else {
        grown(grow(m, w), w, (k - 1) as nat)
    }
}

/// A failure that names a key among `n_keys` and a row among `m`.
pub open spec fn real_failure(f: ConstructionFailure, n_keys: nat, m: nat) -> bool {
    match f {
        ConstructionFailure::InconsistentEquation { key_index, row_index } => key_index < n_keys && row_index < m,
    }
}

/// The seed of retry `r` at growth round `g`.
pub open spec fn seed_at(p: Params, g: nat, r: nat) -> u64 {
    crate::hashing::spec_attempt_seed(p.seed, crate::builder::attempt_index(g, r))
}

/// What a failed build from `hashes` reports, starting at size `m` with
/// `rounds` growth rounds allowed: a real failure of its last attempt, made
/// at the final size; in standard mode every attempt was made, the final
/// size is `m` grown `rounds` times, and the failure is that of the last
/// retry of the last round.
pub open spec fn failure_report(p: Params, hashes: Seq<u64>, e: BuildError, m: nat, rounds: nat) -> bool {
    match e {
        BuildError::ConstructionFailed { final_m, attempts, last_failure } => {
            &&& attempts >= 1
            &&& real_failure(last_failure, hashes.len(), final_m as nat)
            &&& p.mode != Mode::Homogeneous ==> {
                &&& attempts == (p.grow_limit + 1) * p.retry_limit
                &&& final_m == grown(m, p.w as nat, rounds)
                &&& spec_solve(p, hashes, final_m as nat, seed_at(p, p.grow_limit as nat, (p.retry_limit - 1) as nat))
                    == Err::<Seq<Seq<u64>>, ConstructionFailure>(last_failure)
            }
        },
        BuildError::InvalidParams(_) => false,
    }
}

/// A failed run of attempts from retry `r` of round `g` reports as
/// `failure_report` says.
proof fn lemma_run_attempts_failure(
    p: Params,
    hashes: Seq<u64>,
    g: nat,
    r: nat,
    m: nat,
    attempts: nat,
    last: Option<ConstructionFailure>,
)
    requires
        p.valid(),
        1 <= p.w <= m,
        sizes_fit(
            m,
            p.w as nat,
            p.spec_fingerprint_words(),
            if p.mode == Mode::Homogeneous {
                0
            } else {
                (p.grow_limit - g) as nat
            },
        ),
        g <= p.grow_limit,
        hashes.len() <= usize::MAX,
        (p.grow_limit + 1) * p.retry_limit <= usize::MAX,
        r <= p.retry_limit,
        attempts == g * p.retry_limit + r,
        r > 0 ==> last is Some && real_failure(last->Some_0, hashes.len(), m) && spec_solve(
            p,
            hashes,
            m,
            seed_at(p, g, (r - 1) as nat),
        ) == Err::<Seq<Seq<u64>>, ConstructionFailure>(last->Some_0),
    ensures
        run_attempts(p, hashes, g, r, m, attempts, last) is Err ==> failure_report(
            p,
            hashes,
            run_attempts(p, hashes, g, r, m, attempts, last)->Err_0,
            m,
            (p.grow_limit - g) as nat,
        ),
    decreases p.grow_limit - g, p.retry_limit - r,
{
    let words = p.spec_fingerprint_words();
    let big_r = p.retry_limit;
    let big_g = p.grow_limit;
    assert(m <= usize::MAX) by (nonlinear_arith)
        requires
            m * words * 64 <= usize::MAX / 8,
            words >= 1,
    ;
    assert(g * big_r + big_r <= (big_g + 1) * big_r) by (nonlinear_arith)
        requires
            g <= big_g,
    ;
    assert((big_g + 1) * big_r == big_g * big_r + big_r) by (nonlinear_arith);
    if r >= p.retry_limit {
        if !(p.mode == Mode::Homogeneous || g >= p.grow_limit) {
            lemma_grow_monotone(m, p.w as nat);
            assert((g + 1) * big_r == g * big_r + big_r) by (nonlinear_arith);
            lemma_run_attempts_failure(p, hashes, g + 1, 0, grow(m, p.w as nat), attempts, last);
        }
    } else {
        let seed = seed_at(p, g, r);
        law_attempt_fails_iff_inconsistent(p, hashes, m, seed);
        match spec_solve(p, hashes, m, seed) {
            Err(f) => {
                if p.mode != Mode::Homogeneous {
                    lemma_run_attempts_failure(p, hashes, g, r + 1, m, attempts + 1, Some(f));
                }
            },
            Ok(_) => {},
        }
    }
}

/// A failed build reports a real failure of its last attempt, at the final
/// size; in standard mode it made `retry_limit` attempts at each of the
/// `grow_limit + 1` sizes, the last being `m` grown `grow_limit` times, and
/// it reports the failure of the last retry at that size.
pub proof fn law_build_failure_report(p: Params, hashes: Seq<u64>)
    requires
        p.valid(),
        build_fits(p),
        hashes.len() <= usize::MAX,
        spec_build(p, hashes) is Err,
    ensures
        failure_report(p, hashes, spec_build(p, hashes)->Err_0, p.m as nat, p.grow_limit as nat),
{
    lemma_run_attempts_failure(p, hashes, 0, 0, p.m as nat, 0, None);
}

/// Building from no keys always succeeds, at the first attempt.
pub proof fn law_no_keys_build_succeeds(p: Params)
    requires
        p.valid(),
    ensures
        spec_build(p, Seq::empty()) matches Ok(f) && f.params == (Params {
            m: p.m,
            seed: seed_at(p, 0, 0),
            ..p
        }),
{
    reveal(spec_solve);
    let seed = seed_at(p, 0, 0);
    let width = p.spec_fingerprint_words();
    let eqs = key_equations(p, Seq::empty(), p.m as nat, seed);
    assert(eqs.len() == 0);
    assert(BandSystem::empty(p.m as nat, width).eliminate(eqs, 0) is Ok);
}

/// Each step of the seed derivation is injective: XOR with a fixed word,
/// adding the stream increment, the three odd multipliers, and the three
/// xorshifts of the output function.
proof fn lemma_seed_steps_injective(x: u64, y: u64, z: u64)
    by (bit_vector)
    ensures
        x ^ z == y ^ z ==> x == y,
        z ^ x == z ^ y ==> x == y,
        x.wrapping_add(0x9E37_79B9_7F4A_7C15u64) == y.wrapping_add(0x9E37_79B9_7F4A_7C15u64) ==> x == y,
        x.wrapping_mul(0x9E37_79B9_7F4A_7C15u64) == y.wrapping_mul(0x9E37_79B9_7F4A_7C15u64) ==> x == y,
        x.wrapping_mul(0xBF58_476D_1CE4_E5B9u64) == y.wrapping_mul(0xBF58_476D_1CE4_E5B9u64) ==> x == y,
        x.wrapping_mul(0x94D0_49BB_1331_11EBu64) == y.wrapping_mul(0x94D0_49BB_1331_11EBu64) ==> x == y,
        x ^ (x >> 30u64) == y ^ (y >> 30u64) ==> x == y,
        x ^ (x >> 27u64) == y ^ (y >> 27u64) ==> x == y,
        x ^ (x >> 31u64) == y ^ (y >> 31u64) ==> x == y,
{
}

/// The output function of the stream is injective.
proof fn lemma_mix_injective(a: u64, b: u64)
    ensures
        mix(a) == mix(b) ==> a == b,
{
    reveal(mix);
    let a1 = (a ^ (a >> 30u64)).wrapping_mul(0xBF58_476D_1CE4_E5B9u64);
    let b1 = (b ^ (b >> 30u64)).wrapping_mul(0xBF58_476D_1CE4_E5B9u64);
    let a2 = (a1 ^ (a1 >> 27u64)).wrapping_mul(0x94D0_49BB_1331_11EBu64);
    let b2 = (b1 ^ (b1 >> 27u64)).wrapping_mul(0x94D0_49BB_1331_11EBu64);
    lemma_seed_steps_injective(a2, b2, 0);
    lemma_seed_steps_injective(a1 ^ (a1 >> 27u64), b1 ^ (b1 >> 27u64), 0);
    lemma_seed_steps_injective(a1, b1, 0);
    lemma_seed_steps_injective(a ^ (a >> 30u64), b ^ (b >> 30u64), 0);
    lemma_seed_steps_injective(a, b, 0);
}

/// Different base seeds give different attempt seeds for one attempt
/// index, and different attempt indices give different seeds for one base
/// seed.
pub proof fn law_attempt_seed_injective(b1: u64, b2: u64, i1: u64, i2: u64)
    ensures
        spec_attempt_seed(b1, i1) == spec_attempt_seed(b2, i1) ==> b1 == b2,
        spec_attempt_seed(b1, i1) == spec_attempt_seed(b1, i2) ==> i1 == i2,
{
    if spec_attempt_seed(b1, i1) == spec_attempt_seed(b2, i1) {
        lemma_seed_injective_in_base(b1, b2, i1);
    }
    if spec_attempt_seed(b1, i1) == spec_attempt_seed(b1, i2) {
        lemma_seed_injective_in_index(b1, i1, i2);
    }
}

/// Equal attempt seeds for one index come from equal base seeds.
proof fn lemma_seed_injective_in_base(b1: u64, b2: u64, i: u64)
    requires
        spec_attempt_seed(b1, i) == spec_attempt_seed(b2, i),
    ensures
        b1 == b2,
{
    lemma_attempt_seed_state(b1, i);
    lemma_attempt_seed_state(b2, i);
    let t = i.wrapping_mul(MIX_CONST);
    lemma_seed_core_injective(b1 ^ t, b2 ^ t);
    lemma_seed_steps_injective(b1, b2, t);
}

/// Equal attempt seeds for one base seed come from equal indices.
proof fn lemma_seed_injective_in_index(b: u64, i1: u64, i2: u64)
    requires
        spec_attempt_seed(b, i1) == spec_attempt_seed(b, i2),
    ensures
        i1 == i2,
{
    lemma_attempt_seed_state(b, i1);
    lemma_attempt_seed_state(b, i2);
    let t1 = i1.wrapping_mul(MIX_CONST);
    let t2 = i2.wrapping_mul(MIX_CONST);
    lemma_seed_core_injective(b ^ t1, b ^ t2);
    lemma_seed_steps_injective(t1, t2, b);
    lemma_seed_steps_injective(i1, i2, 0);
}

/// The attempt seed is the stream's first output from the mixed start,
/// multiplied by the increment.
proof fn lemma_attempt_seed_state(b: u64, i: u64)
    ensures
        spec_attempt_seed(b, i) == mix((b ^ i.wrapping_mul(MIX_CONST)).wrapping_add(MIX_CONST)).wrapping_mul(
            MIX_CONST,
        ),
{
    reveal_with_fuel(stream_state, 2);
}

/// From the mixed start on, the derivation is injective.
proof fn lemma_seed_core_injective(s1: u64, s2: u64)
    ensures
        mix(s1.wrapping_add(MIX_CONST)).wrapping_mul(MIX_CONST) == mix(s2.wrapping_add(MIX_CONST)).wrapping_mul(
            MIX_CONST,
        ) ==> s1 == s2,
{
    let a = s1.wrapping_add(MIX_CONST);
    let b = s2.wrapping_add(MIX_CONST);
    lemma_seed_steps_injective(mix(a), mix(b), 0);
    lemma_mix_injective(a, b);
    lemma_seed_steps_injective(s1, s2, 0);
}

/// Packing a round and a retry below `2^32` into an attempt index loses
/// nothing.
proof fn lemma_attempt_index_injective(g1: u64, r1: u64, g2: u64, r2: u64)
    by (bit_vector)
    requires
        g1 < 0x1_0000_0000,
        g2 < 0x1_0000_0000,
        r1 < 0x1_0000_0000,
        r2 < 0x1_0000_0000,
        ((g1 << 32u64) | r1) == ((g2 << 32u64) | r2),
    ensures
        g1 == g2 && r1 == r2,
{
}

/// Distinct attempts of one build, with rounds and retries below `2^32`,
/// are made with distinct seeds.
pub proof fn law_attempts_get_distinct_seeds(p: Params, g1: nat, r1: nat, g2: nat, r2: nat)
    requires
        g1 < 0x1_0000_0000,
        g2 < 0x1_0000_0000,
        r1 < 0x1_0000_0000,
        r2 < 0x1_0000_0000,
        g1 != g2 || r1 != r2,
    ensures
        seed_at(p, g1, r1) != seed_at(p, g2, r2),
{
    let i1 = crate::builder::attempt_index(g1, r1);
    let i2 = crate::builder::attempt_index(g2, r2);
    law_attempt_seed_injective(p.seed, p.seed, i1, i2);
    if i1 == i2 {
        lemma_attempt_index_injective(g1 as u64, r1 as u64, g2 as u64, r2 as u64);
    }
}

/// One growth round takes `m` rows to `ceil(m * (w + 1) / w)`: the least
/// size whose `w`-fold reaches `m * (w + 1)`.
pub proof fn law_grow_is_ceiling(m: nat, w: nat)
    requires
        w >= 1,
    ensures
        w * grow(m, w) >= m * (w + 1),
        w * grow(m, w) < m * (w + 1) + w,
        m >= 1 ==> grow(m, w) > m,
{
    let x = m * (w + 1);
    let q = x / w;
    assert(x == w * q + x % w && 0 <= x % w < w) by (nonlinear_arith)
        requires
            w >= 1,
            q == x / w,
    ;
    assert(x == m * w + m) by (nonlinear_arith)
        requires
            x == m * (w + 1),
    ;
    if x % w == 0 {
        assert(grow(m, w) == q);
        assert(m >= 1 ==> q > m) by (nonlinear_arith)
            requires
                x == w * q,
                x == m * w + m,
                w >= 1,
        ;
    } else {
        assert(grow(m, w) == q + 1);
        assert(w * (q + 1) == w * q + w) by (nonlinear_arith);
        assert(q + 1 > m) by (nonlinear_arith)
            requires
                x == w * q + x % w,
                0 < x % w < w,
                x == m * w + m,
                w >= 1,
        ;
    }
}

/// The last fingerprint word keeps exactly the fingerprint bits that fall
/// in it.
proof fn lemma_low_bits_mask(rem: u64)
    by (bit_vector)
    requires
        1 <= rem < 64,
    ensures
        ((1u64 << rem) - 1) as u64 == u64::MAX >> ((64 - rem) as u64),
{
}

/// An `r`-bit fingerprint takes the fewest 64-bit words that hold `r`
/// bits, and the last word's mask keeps its low `r - 64 * (words - 1)`
/// bits and no others.
pub proof fn law_fingerprint_layout(p: Params)
    requires
        p.r >= 1,
    ensures
        64 * (p.spec_fingerprint_words() - 1) < p.r <= 64 * p.spec_fingerprint_words(),
        p.spec_last_word_mask() == u64::MAX >> ((64 * p.spec_fingerprint_words() - p.r) as u64),
{
    let r = p.r as nat;
    let q = r / 64;
    let rem = r % 64;
    assert(r == 64 * q + rem && rem < 64) by (nonlinear_arith)
        requires
            q == r / 64,
            rem == r % 64,
    ;
    let words = p.spec_fingerprint_words();
    if rem == 0 {
        assert(words == q) by (nonlinear_arith)
            requires
                words == (r + 63) / 64,
                r == 64 * q,
        ;
        assert(u64::MAX >> 0u64 == u64::MAX) by (bit_vector);
    } else {
        assert(words == q + 1) by (nonlinear_arith)
            requires
                words == (r + 63) / 64,
                r == 64 * q + rem,
                1 <= rem < 64,
        ;
        lemma_low_bits_mask(rem as u64);
    }
}

/// A query answers "present" exactly when the key's equation holds in the
/// filter's rows: the XOR of the rows its band selects equals its
/// fingerprint in every one of the `fingerprint_words` words.
pub proof fn law_query_checks_every_word(f: FilterModel, h: u64)
    requires
        solution_shape(f.rows, f.params.m as nat, f.params.spec_fingerprint_words()),
    ensures
        model_contains(f, h) == satisfies_key(
            f.rows,
            f.params.m as nat,
            f.params.spec_fingerprint_words(),
            hash_equation(f.params, h, f.params.m as nat, f.params.seed),
        ),
        model_contains(f, h) <==> forall|k: int|
            0 <= k < f.params.spec_fingerprint_words() ==> #[trigger] eval(
                f.rows,
                band(
                    f.params.m as nat,
                    eq_start(h, f.params.seed, f.params.m as nat, f.params.w as nat),
                    eq_coeff(h, f.params.seed, f.params.w as nat),
                ),
                f.params.spec_fingerprint_words(),
            )[k] == eq_fingerprint(
                h,
                f.params.seed,
                f.params.w as nat,
                f.params.mode,
                f.params.spec_fingerprint_words(),
                f.params.spec_last_word_mask(),
            )[k],
{
    let p = f.params;
    let width = p.spec_fingerprint_words();
    let v = band(p.m as nat, eq_start(h, p.seed, p.m as nat, p.w as nat), eq_coeff(h, p.seed, p.w as nat));
    let e = eval(f.rows, v, width);
    let fp = eq_fingerprint(h, p.seed, p.w as nat, p.mode, width, p.spec_last_word_mask());
    lemma_combine_len(f.rows, v, p.m as int, width);
    assert(fp.len() == width);
    if forall|k: int| 0 <= k < width ==> #[trigger] e[k] == fp[k] {
        assert(e =~= fp);
    }
}

} // verus!
