use vstd::prelude::*;
use vstd::string::StringExecFns;

verus! {

/// Why a set of parameters was refused.
#[derive(Debug, Clone, PartialEq, Eq, Structural)]
pub enum ParamError {
    ZeroM,
    ZeroWidth,
    ZeroFingerprintBits,
    WidthExceedsM { m: usize, w: usize },
    ZeroRetryLimit,
}

/// Why one construction attempt failed.
#[derive(Debug, Clone, PartialEq, Eq, Structural)]
pub enum ConstructionFailure {
    /// The key at `key_index` reduced, at row `row_index`, to an equation
    /// with no coefficient and a nonzero right-hand side.
    InconsistentEquation { key_index: usize, row_index: usize },
}

/// Why a filter could not be built.
#[derive(Debug, Clone, PartialEq, Eq)]
pub enum BuildError {
    InvalidParams(ParamError),
    /// Every attempt failed; `final_m` is the size reached, `attempts` the
    /// number made, `last_failure` what the last one met.
    ConstructionFailed { final_m: usize, attempts: usize, last_failure: ConstructionFailure },
}

/// The character of decimal digit `d`.
pub open spec fn digit_char(d: nat) -> char {
    (48 + d) as char
}

/// The decimal digits of `n`, most significant first, without sign or
/// padding.
pub open spec fn decimal(n: nat) -> Seq<char>
    decreases n,
{
    if n < 10 {
        seq![digit_char(n)]
    } else {
        decimal(n / 10).push(digit_char(n % 10))
    }
}

/// The one-character string of decimal digit `d`.
fn digit_str(d: usize) -> (s: &'static str)
    requires
        d < 10,
    ensures
        s@ == seq![digit_char(d as nat)],
{
    if d == 0 {
        proof {
            reveal_strlit("0");
        }
        "0"
    } else if d == 1 {
        proof {
            reveal_strlit("1");
        }
        "1"
    } else if d == 2 {
        proof {
            reveal_strlit("2");
        }
        "2"
    } else if d == 3 {
        proof {
            reveal_strlit("3");
        }
        "3"
    } else if d == 4 {
        proof {
            reveal_strlit("4");
        }
        "4"
    } else if d == 5 {
        proof {
            reveal_strlit("5");
        }
        "5"
    } else if d == 6 {
        proof {
            reveal_strlit("6");
        }
        "6"
    } else if d == 7 {
        proof {
            reveal_strlit("7");
        }
        "7"
    } else if d == 8 {
        proof {
            reveal_strlit("8");
        }
        "8"
    } else {
        proof {
            reveal_strlit("9");
        }
        "9"
    }
}

/// `n` written in decimal: digits only, no sign, no padding.
pub(crate) fn decimal_string(n: usize) -> (s: String)
    ensures
        s@ == decimal(n as nat),
    decreases n,
{
    if n < 10 {
        String::from_str(digit_str(n))
    } else {
        let mut s = decimal_string(n / 10);
        s.append(digit_str(n % 10));
        assert(s@ =~= decimal(n as nat));
        s
    }
}

impl ParamError {
    pub open spec fn spec_message(self) -> Seq<char> {
        match self {
            ParamError::ZeroM => "m must be greater than zero"@,
            ParamError::ZeroWidth => "w must be greater than zero"@,
            ParamError::ZeroFingerprintBits => "r must be greater than zero"@,
            ParamError::WidthExceedsM { m, w } => "w ("@ + decimal(w as nat) + ") must be less than or equal to m ("@
                + decimal(m as nat) + ")"@,
            ParamError::ZeroRetryLimit => "retry_limit must be greater than zero"@,
        }
    }

    /// The human-readable description of the error.
    pub fn message(&self) -> (s: String)
        ensures
            s@ == self.spec_message(),
    {
        match self {
            ParamError::ZeroM => String::from_str("m must be greater than zero"),
            ParamError::ZeroWidth => String::from_str("w must be greater than zero"),
            ParamError::ZeroFingerprintBits => String::from_str("r must be greater than zero"),
            ParamError::WidthExceedsM { m, w } => {
                let mut s = String::from_str("w (");
                s.append(decimal_string(*w).as_str());
                s.append(") must be less than or equal to m (");
                s.append(decimal_string(*m).as_str());
                s.append(")");
                s
            },
            ParamError::ZeroRetryLimit => String::from_str("retry_limit must be greater than zero"),
        }
    }
}

impl ConstructionFailure {
    pub open spec fn spec_message(self) -> Seq<char> {
        match self {
            ConstructionFailure::InconsistentEquation { key_index, row_index } =>
                "inconsistent equation while inserting key at index "@ + decimal(key_index as nat)
                + " near row "@ + decimal(row_index as nat),
        }
    }

    /// The human-readable description of the failure.
    pub fn message(&self) -> (s: String)
        ensures
            s@ == self.spec_message(),
    {
        match self {
            ConstructionFailure::InconsistentEquation { key_index, row_index } => {
                let mut s = String::from_str("inconsistent equation while inserting key at index ");
                s.append(decimal_string(*key_index).as_str());
                s.append(" near row ");
                s.append(decimal_string(*row_index).as_str());
                s
            },
        }
    }
}

impl BuildError {
    pub open spec fn spec_message(self) -> Seq<char> {
        match self {
            BuildError::InvalidParams(e) => "invalid parameters: "@ + e.spec_message(),
            BuildError::ConstructionFailed { final_m, attempts, last_failure } =>
                "construction failed after "@ + decimal(attempts as nat) + " attempt(s) at m="@
                + decimal(final_m as nat) + ": "@ + last_failure.spec_message(),
        }
    }

    /// The human-readable description of the error.
    pub fn message(&self) -> (s: String)
        ensures
            s@ == self.spec_message(),
    {
        match self {
            BuildError::InvalidParams(e) => {
                let mut s = String::from_str("invalid parameters: ");
                s.append(e.message().as_str());
                s
            },
            BuildError::ConstructionFailed { final_m, attempts, last_failure } => {
                let mut s = String::from_str("construction failed after ");
                s.append(decimal_string(*attempts).as_str());
                s.append(" attempt(s) at m=");
                s.append(decimal_string(*final_m).as_str());
                s.append(": ");
                s.append(last_failure.message().as_str());
                s
            },
        }
    }
}

} // verus!
