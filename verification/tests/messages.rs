use ribbon_filter::{BuildError, ConstructionFailure, Mode, ParamError, ReprError};

#[test]
fn param_error_messages() {
    assert_eq!(ParamError::ZeroM.message(), "m must be greater than zero");
    assert_eq!(ParamError::ZeroWidth.message(), "w must be greater than zero");
    assert_eq!(ParamError::ZeroFingerprintBits.message(), "r must be greater than zero");
    assert_eq!(
        ParamError::WidthExceedsM { m: 7, w: 8 }.message(),
        "w (8) must be less than or equal to m (7)"
    );
    assert_eq!(ParamError::ZeroRetryLimit.message(), "retry_limit must be greater than zero");
}

#[test]
fn build_error_messages() {
    let f = ConstructionFailure::InconsistentEquation { key_index: 12, row_index: 305 };
    assert_eq!(
        f.message(),
        "inconsistent equation while inserting key at index 12 near row 305"
    );
    let e = BuildError::ConstructionFailed { final_m: 3188, attempts: 8, last_failure: f };
    assert_eq!(
        e.message(),
        "construction failed after 8 attempt(s) at m=3188: inconsistent equation while inserting key at index 12 near row 305"
    );
    assert_eq!(
        BuildError::InvalidParams(ParamError::ZeroM).message(),
        "invalid parameters: m must be greater than zero"
    );
}

#[test]
fn repr_error_messages() {
    assert_eq!(
        ReprError::UnsupportedVersion { found: 2, expected: 1 }.message(),
        "unsupported RibbonFilter version 2, expected 1"
    );
    assert_eq!(ReprError::LengthOverflow.message(), "z_words length overflow");
    assert_eq!(
        ReprError::InvalidLength { found: 10, expected: 0 }.message(),
        "invalid z_words length 10; expected 0"
    );
    assert_eq!(
        ReprError::InvalidParams(ParamError::ZeroWidth).message(),
        "w must be greater than zero"
    );
}

#[test]
fn mode_names() {
    assert_eq!(Mode::Standard.as_str(), "standard");
    assert_eq!(Mode::Homogeneous.as_str(), "homogeneous");
}

#[test]
fn messages_write_large_and_zero_numbers() {
    assert_eq!(
        ParamError::WidthExceedsM { m: 0, w: usize::MAX }.message(),
        format!("w ({}) must be less than or equal to m (0)", usize::MAX)
    );
    assert_eq!(
        ReprError::InvalidLength { found: 1_000_000_007, expected: 90 }.message(),
        "invalid z_words length 1000000007; expected 90"
    );
}
