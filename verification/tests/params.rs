use ribbon_filter::builder::fits_machine;
use ribbon_filter::{Mode, ParamError, Params};

#[test]
fn params_rejects_zero_m() {
    let err = Params::new(0, 4, 8, Mode::Standard).expect_err("m=0 should fail");
    assert_eq!(err, ParamError::ZeroM);
}

#[test]
fn params_rejects_zero_w() {
    let err = Params::new(10, 0, 8, Mode::Standard).expect_err("w=0 should fail");
    assert_eq!(err, ParamError::ZeroWidth);
}

#[test]
fn params_rejects_zero_r() {
    let err = Params::new(10, 4, 0, Mode::Standard).expect_err("r=0 should fail");
    assert_eq!(err, ParamError::ZeroFingerprintBits);
}

#[test]
fn params_rejects_w_greater_than_m() {
    let err = Params::new(7, 8, 8, Mode::Standard).expect_err("w>m should fail");
    assert_eq!(err, ParamError::WidthExceedsM { m: 7, w: 8 });
}

#[test]
fn params_rejects_zero_retry_limit() {
    let params = Params::new(16, 8, 8, Mode::Standard).expect("base params should be valid");
    let err = params
        .with_retry_limit(0)
        .expect_err("retry_limit=0 should fail");
    assert_eq!(err, ParamError::ZeroRetryLimit);
}

#[test]
fn params_accepts_valid_values() {
    let params = Params::new(16, 8, 12, Mode::Standard).expect("valid params should pass");
    assert_eq!(params.m, 16);
    assert_eq!(params.w, 8);
    assert_eq!(params.r, 12);
}

#[test]
fn params_new_defaults() {
    let params = Params::new(16, 8, 12, Mode::Homogeneous).unwrap();
    assert_eq!(params.seed, 0);
    assert_eq!(params.retry_limit, 1);
    assert_eq!(params.grow_limit, 0);
    assert_eq!(params.mode, Mode::Homogeneous);
}

#[test]
fn params_checks_come_in_order() {
    // m is checked before w, w before r, r before w > m.
    assert_eq!(Params::new(0, 0, 0, Mode::Standard), Err(ParamError::ZeroM));
    assert_eq!(Params::new(5, 0, 0, Mode::Standard), Err(ParamError::ZeroWidth));
    assert_eq!(Params::new(5, 9, 0, Mode::Standard), Err(ParamError::ZeroFingerprintBits));
    assert_eq!(Params::new(5, 5, 1, Mode::Standard).map(|p| p.w), Ok(5));
}

#[test]
fn params_builders_set_fields() {
    let params = Params::new(100, 16, 8, Mode::Standard).unwrap().with_seed(99);
    assert_eq!(params.seed, 99);
    let p2 = params.with_retry_limit(7).unwrap();
    assert_eq!(p2.retry_limit, 7);
    assert_eq!(p2.seed, 99);
    let p3 = params.with_retry_policy(4, 2).unwrap();
    assert_eq!((p3.retry_limit, p3.grow_limit), (4, 2));
    assert_eq!(params.with_retry_policy(0, 2), Err(ParamError::ZeroRetryLimit));
}

#[test]
fn params_validate_reports_first_error() {
    let mut p = Params::new(16, 8, 8, Mode::Standard).unwrap();
    assert_eq!(p.validate(), Ok(()));
    p.w = 17;
    assert_eq!(p.validate(), Err(ParamError::WidthExceedsM { m: 16, w: 17 }));
    p.w = 8;
    p.retry_limit = 0;
    assert_eq!(p.validate(), Err(ParamError::ZeroRetryLimit));
}

#[test]
fn params_derived_sizes() {
    let p = Params::new(3000, 16, 10, Mode::Standard).unwrap();
    assert_eq!(p.start_range(), 2985);
    assert_eq!(p.fingerprint_words(), 1);
    assert_eq!(p.fingerprint_last_word_mask(), 0x3ff);
    let p64 = Params::new(3000, 16, 64, Mode::Standard).unwrap();
    assert_eq!(p64.fingerprint_words(), 1);
    assert_eq!(p64.fingerprint_last_word_mask(), u64::MAX);
    let p65 = Params::new(3000, 16, 65, Mode::Standard).unwrap();
    assert_eq!(p65.fingerprint_words(), 2);
    assert_eq!(p65.fingerprint_last_word_mask(), 1);
    let p128 = Params::new(3000, 16, 128, Mode::Standard).unwrap();
    assert_eq!(p128.fingerprint_words(), 2);
    assert_eq!(p128.fingerprint_last_word_mask(), u64::MAX);
}

#[test]
fn fits_machine_checks_width_and_sizes() {
    let p = Params::new(3000, 16, 10, Mode::Standard).unwrap().with_retry_policy(4, 1).unwrap();
    assert!(fits_machine(&p));
    let wide = Params::new(3000, 96, 10, Mode::Standard).unwrap();
    assert!(fits_machine(&wide));
    let widest = Params::new(3000, 128, 10, Mode::Standard).unwrap();
    assert!(fits_machine(&widest));
    let too_wide = Params::new(3000, 129, 10, Mode::Standard).unwrap();
    assert!(!fits_machine(&too_wide));
    let huge = Params::new(usize::MAX / 4, 16, 10, Mode::Standard).unwrap();
    assert!(!fits_machine(&huge));
    let many = Params::new(3000, 16, 10, Mode::Standard)
        .unwrap()
        .with_retry_policy(usize::MAX, 1)
        .unwrap();
    assert!(!fits_machine(&many));
    // Homogeneous building never grows, so a large growth limit is fine.
    let homo = Params::new(3000, 16, 10, Mode::Homogeneous)
        .unwrap()
        .with_retry_policy(1, usize::MAX - 1)
        .unwrap();
    assert!(fits_machine(&homo));
}

#[test]
fn validate_checks_zero_fields_before_width() {
    let mut p = Params::new(16, 8, 8, Mode::Standard).unwrap();
    p.m = 7;
    p.retry_limit = 0;
    assert_eq!(p.validate(), Err(ParamError::ZeroRetryLimit));
    p.retry_limit = 1;
    assert_eq!(p.validate(), Err(ParamError::WidthExceedsM { m: 7, w: 8 }));
    p.r = 0;
    assert_eq!(p.validate(), Err(ParamError::ZeroFingerprintBits));
}
