use std::collections::hash_map::DefaultHasher;
use std::hash::BuildHasherDefault;

use ribbon_filter::{
    BuildError, ConstructionFailure, Mode, ParamError, Params, ReprError, RibbonBuilder,
    RibbonFilter, RIBBON_FILTER_FORMAT_VERSION,
};

type H = BuildHasherDefault<DefaultHasher>;

fn readme_filter() -> RibbonFilter<H> {
    let params = Params::new(3000, 16, 10, Mode::Standard)
        .unwrap()
        .with_seed(42)
        .with_retry_policy(4, 1)
        .unwrap();
    let builder = RibbonBuilder::new(params, H::default()).unwrap();
    let keys: Vec<u64> = (0..1000).collect();
    builder.build(&keys).unwrap()
}

#[test]
fn readme_example_builds_and_finds_key() {
    let filter = readme_filter();
    assert!(filter.contains(&123u64));
}

#[test]
fn built_filter_has_no_false_negatives() {
    let filter = readme_filter();
    let mut scratch = filter.new_scratch();
    for k in 0..1000u64 {
        assert!(filter.contains(&k));
        assert!(filter.contains_in(&k, &mut scratch));
    }
}

#[test]
fn contains_and_contains_in_agree() {
    let filter = readme_filter();
    let mut scratch = filter.new_scratch();
    for q in 5000..7000u64 {
        assert_eq!(filter.contains(&q), filter.contains_in(&q, &mut scratch));
    }
}

#[test]
fn false_positive_rate_is_small() {
    let filter = readme_filter();
    let hits = (1_000_000..1_020_000u64).filter(|q| filter.contains(q)).count();
    // r = 10 gives about one in 1024.
    assert!(hits < 100, "hits = {hits}");
}

#[test]
fn build_is_deterministic() {
    let a = readme_filter();
    let b = readme_filter();
    assert_eq!(a.params(), b.params());
    assert_eq!(a.to_repr().3, b.to_repr().3);
}

#[test]
fn built_params_keep_shape() {
    let filter = readme_filter();
    let p = filter.params();
    assert_eq!((p.w, p.r, p.mode), (16, 10, Mode::Standard));
    assert!(p.m == 3000 || p.m == 3188);
    assert_eq!(filter.to_repr().3.len(), p.m * p.fingerprint_words());
}

#[test]
fn builder_refuses_invalid_params() {
    let mut p = Params::new(16, 8, 8, Mode::Standard).unwrap();
    p.m = 0;
    match RibbonBuilder::new(p, H::default()) {
        Err(e) => assert_eq!(e, BuildError::InvalidParams(ParamError::ZeroM)),
        Ok(_) => panic!("m = 0 accepted"),
    }
}

#[test]
fn builder_getters() {
    let params = Params::new(64, 8, 8, Mode::Standard).unwrap().with_seed(5);
    let builder = RibbonBuilder::new(params, H::default()).unwrap();
    assert_eq!(builder.params(), params);
    let _h: &H = builder.hasher();
}

#[test]
fn overfull_band_fails_with_diagnostics() {
    let params = Params::new(8, 8, 16, Mode::Standard).unwrap();
    let builder = RibbonBuilder::new(params, H::default()).unwrap();
    let keys: Vec<u64> = (0..100).collect();
    match builder.build(&keys) {
        Err(BuildError::ConstructionFailed { final_m, attempts, last_failure }) => {
            assert_eq!(final_m, 8);
            assert_eq!(attempts, 1);
            let ConstructionFailure::InconsistentEquation { key_index, row_index } = last_failure;
            assert!(key_index >= 1 && key_index < 100);
            assert!(row_index < 8);
        }
        _ => panic!("100 keys fit 8 rows"),
    }
}

#[test]
fn failed_build_counts_retries_and_growth() {
    let params = Params::new(8, 8, 16, Mode::Standard)
        .unwrap()
        .with_retry_policy(2, 1)
        .unwrap();
    let builder = RibbonBuilder::new(params, H::default()).unwrap();
    let keys: Vec<u64> = (0..100).collect();
    match builder.build(&keys) {
        Err(BuildError::ConstructionFailed { final_m, attempts, .. }) => {
            // ceil(8 * 9 / 8) = 9
            assert_eq!(final_m, 9);
            assert_eq!(attempts, 4);
        }
        _ => panic!("100 keys fit 9 rows"),
    }
}

#[test]
fn homogeneous_build_never_fails() {
    let params = Params::new(8, 8, 16, Mode::Homogeneous).unwrap();
    let builder = RibbonBuilder::new(params, H::default()).unwrap();
    let keys: Vec<u64> = (0..100).collect();
    let filter = builder.build(&keys).unwrap();
    for k in 0..100u64 {
        assert!(filter.contains(&k));
    }
}

#[test]
fn build_from_hashes_finds_every_hash() {
    let params = Params::new(200, 32, 24, Mode::Standard)
        .unwrap()
        .with_seed(7)
        .with_retry_policy(3, 2)
        .unwrap();
    let builder = RibbonBuilder::new(params, H::default()).unwrap();
    let hashes: Vec<u64> = (0..150u64).map(|i| i.wrapping_mul(0x9E37_79B9_7F4A_7C15)).collect();
    let filter = builder.build_from_hashes(&hashes).unwrap();
    let mut scratch = filter.new_scratch();
    for &h in &hashes {
        assert!(filter.contains_hash(h));
        assert!(filter.contains_hash_in(h, &mut scratch));
    }
}

#[test]
fn wide_fingerprints_and_full_width() {
    let params = Params::new(400, 64, 130, Mode::Standard)
        .unwrap()
        .with_retry_policy(4, 2)
        .unwrap();
    let builder = RibbonBuilder::new(params, H::default()).unwrap();
    let keys: Vec<u64> = (0..300).collect();
    let filter = builder.build(&keys).unwrap();
    assert_eq!(filter.params().fingerprint_words(), 3);
    for k in 0..300u64 {
        assert!(filter.contains(&k));
    }
}

#[test]
fn width_one_band() {
    let params = Params::new(50, 1, 8, Mode::Standard)
        .unwrap()
        .with_retry_policy(4, 3)
        .unwrap();
    let builder = RibbonBuilder::new(params, H::default()).unwrap();
    let keys: Vec<u64> = vec![1, 2, 3];
    match builder.build(&keys) {
        Ok(filter) => {
            for k in &keys {
                assert!(filter.contains(k));
            }
        }
        Err(BuildError::ConstructionFailed { .. }) => {}
        Err(e) => panic!("unexpected {e:?}"),
    }
}

#[test]
fn empty_key_set_builds() {
    let params = Params::new(10, 4, 8, Mode::Standard).unwrap();
    let builder = RibbonBuilder::new(params, H::default()).unwrap();
    let keys: Vec<u64> = Vec::new();
    let filter = builder.build(&keys).unwrap();
    assert!(filter.to_repr().3.iter().all(|&w| w == 0));
}

#[test]
fn repr_roundtrip() {
    let filter = readme_filter();
    let (version, params, hasher, words) = filter.to_repr();
    assert_eq!(version, RIBBON_FILTER_FORMAT_VERSION);
    let back = RibbonFilter::from_repr(version, params, hasher, words.clone()).unwrap();
    assert_eq!(back.params(), filter.params());
    assert_eq!(back.to_repr().3, words);
    for k in 0..1000u64 {
        assert!(back.contains(&k));
    }
}

#[test]
fn repr_errors() {
    let filter = readme_filter();
    let (_, params, _hasher, words) = filter.to_repr();
    let e = RibbonFilter::from_repr(2, params, H::default(), words.clone()).unwrap_err();
    assert_eq!(e, ReprError::UnsupportedVersion { found: 2, expected: 1 });

    let mut bad = params;
    bad.r = 0;
    let e = RibbonFilter::from_repr(1, bad, H::default(), words.clone()).unwrap_err();
    assert_eq!(e, ReprError::InvalidParams(ParamError::ZeroFingerprintBits));

    let short = words[..words.len() - 1].to_vec();
    let e = RibbonFilter::from_repr(1, params, H::default(), short).unwrap_err();
    assert_eq!(
        e,
        ReprError::InvalidLength { found: words.len() - 1, expected: words.len() }
    );

    let mut huge = params;
    huge.m = usize::MAX;
    huge.r = 65;
    let e = RibbonFilter::from_repr(1, huge, H::default(), Vec::new()).unwrap_err();
    assert_eq!(e, ReprError::LengthOverflow);
}

#[test]
fn clone_keeps_answers() {
    let filter = readme_filter();
    let copy = filter.clone();
    for q in 0..2000u64 {
        assert_eq!(filter.contains(&q), copy.contains(&q));
    }
}

fn wide_filter(w: usize, r: usize, mode: Mode, n: u64) -> RibbonFilter<H> {
    let params = Params::new((n as usize) * 5 / 4 + w, w, r, mode)
        .unwrap()
        .with_seed(9)
        .with_retry_policy(4, 2)
        .unwrap();
    let builder = RibbonBuilder::new(params, H::default()).unwrap();
    let keys: Vec<u64> = (0..n).collect();
    builder.build(&keys).unwrap()
}

#[test]
fn wide_bands_have_no_false_negatives() {
    for &w in &[65usize, 96, 128] {
        let filter = wide_filter(w, 12, Mode::Standard, 2000);
        assert_eq!(filter.params().w, w);
        let mut scratch = filter.new_scratch();
        for k in 0..2000u64 {
            assert!(filter.contains(&k), "w = {w}, key {k}");
            assert!(filter.contains_in(&k, &mut scratch), "w = {w}, key {k}");
        }
        for q in 100_000..102_000u64 {
            assert_eq!(filter.contains(&q), filter.contains_in(&q, &mut scratch));
        }
    }
}

#[test]
fn wide_bands_false_positive_rate_is_small() {
    let filter = wide_filter(96, 12, Mode::Standard, 2000);
    let hits = (1_000_000..1_020_000u64).filter(|q| filter.contains(q)).count();
    // r = 12 gives about one in 4096.
    assert!(hits < 40, "hits = {hits}");
}

#[test]
fn wide_homogeneous_build_finds_every_key() {
    for &w in &[65usize, 128] {
        let filter = wide_filter(w, 8, Mode::Homogeneous, 500);
        for k in 0..500u64 {
            assert!(filter.contains(&k));
        }
    }
}

#[test]
fn wide_repr_roundtrip_keeps_answers() {
    let filter = wide_filter(128, 70, Mode::Standard, 800);
    let (version, params, hasher, words) = filter.to_repr();
    let back = RibbonFilter::from_repr(version, params, hasher, words).unwrap();
    assert_eq!(back.params(), filter.params());
    for q in 0..1600u64 {
        assert_eq!(back.contains(&q), filter.contains(&q));
    }
}

#[test]
fn new_scratch_starts_zeroed_and_reusable() {
    let filter = wide_filter(96, 10, Mode::Standard, 300);
    let mut fresh = filter.new_scratch();
    let mut used = filter.new_scratch();
    for q in 0..600u64 {
        let _ = filter.contains_in(&q, &mut used);
    }
    for q in 0..600u64 {
        assert_eq!(filter.contains_in(&q, &mut used), filter.contains_in(&q, &mut fresh));
    }
}

#[test]
fn key_order_and_repeats_do_not_change_the_outcome() {
    let params = Params::new(700, 32, 10, Mode::Standard)
        .unwrap()
        .with_seed(5)
        .with_retry_policy(3, 1)
        .unwrap();
    let builder = RibbonBuilder::new(params, H::default()).unwrap();
    let keys: Vec<u64> = (0..600).collect();
    let mut shuffled: Vec<u64> = keys.iter().rev().copied().collect();
    shuffled.extend_from_slice(&keys[..50]);
    let a = builder.build(&keys);
    let b = builder.build(&shuffled);
    match (a, b) {
        (Ok(fa), Ok(fb)) => assert_eq!(fa.params(), fb.params()),
        (
            Err(BuildError::ConstructionFailed { final_m: ma, attempts: aa, .. }),
            Err(BuildError::ConstructionFailed { final_m: mb, attempts: ab, .. }),
        ) => assert_eq!((ma, aa), (mb, ab)),
        _ => panic!("outcomes differ"),
    }
}

#[test]
fn failing_key_is_first_that_breaks_the_prefix() {
    let params = Params::new(8, 8, 16, Mode::Standard).unwrap();
    let builder = RibbonBuilder::new(params, H::default()).unwrap();
    let keys: Vec<u64> = (0..100).collect();
    let err = builder.build(&keys).unwrap_err();
    let BuildError::ConstructionFailed { last_failure, .. } = err.clone() else {
        panic!("not a construction failure");
    };
    let ConstructionFailure::InconsistentEquation { key_index, .. } = last_failure;
    assert!(builder.build(&keys[..key_index]).is_ok());
    assert_eq!(builder.build(&keys[..key_index + 1]).unwrap_err(), err);
}

#[test]
fn repeated_key_leaves_the_filter_unchanged() {
    let params = Params::new(400, 16, 10, Mode::Standard)
        .unwrap()
        .with_seed(3)
        .with_retry_policy(3, 1)
        .unwrap();
    let builder = RibbonBuilder::new(params, H::default()).unwrap();
    let keys: Vec<u64> = (0..300).collect();
    let mut with_copy = keys.clone();
    with_copy.push(keys[17]);
    let a = builder.build(&keys).unwrap();
    let b = builder.build(&with_copy).unwrap();
    assert_eq!(a.params(), b.params());
    assert_eq!(a.to_repr().3, b.to_repr().3);
}
