use vstd::prelude::*;

use crate::error::ParamError;

verus! {

/// Which right-hand sides the filter's equations carry.
#[derive(Debug, Clone, Copy, PartialEq, Eq, Structural)]
pub enum Mode {
    /// Every key contributes a pseudo-random fingerprint; a query compares
    /// the solved combination against it.
    Standard,
    /// Every right-hand side is zero: construction can never be
    /// inconsistent.
    Homogeneous,
}

impl Mode {
    pub open spec fn spec_name(self) -> Seq<char> {
        match self {
            Mode::Standard => "standard"@,
            Mode::Homogeneous => "homogeneous"@,
        }
    }

    /// The mode's name as it is displayed.
    pub fn as_str(&self) -> (s: &'static str)
        ensures
            s@ == self.spec_name(),
    {
        match self {
            Mode::Standard => "standard",
            Mode::Homogeneous => "homogeneous",
        }
    }
}

/// The shape of a filter and of the way it is built.
#[derive(Debug, Clone, Copy, PartialEq, Eq, Structural)]
pub struct Params {
    /// Number of rows of the solved matrix.
    pub m: usize,
    /// Ribbon width: how many consecutive rows one key touches.
    pub w: usize,
    /// Fingerprint bits stored per row.
    pub r: usize,
    pub mode: Mode,
    /// Base seed from which each attempt's seed is derived.
    pub seed: u64,
    /// Number of reseeded attempts at each size.
    pub retry_limit: usize,
    /// Number of times `m` may grow after every attempt at a size failed.
    pub grow_limit: usize,
}

impl Params {
    /// What `validate` answers, in the order the checks are made.
    pub open spec fn spec_validate(self) -> Result<(), ParamError> {
        if self.m == 0 {
            Err(ParamError::ZeroM)
        } else if self.w == 0 {
            Err(ParamError::ZeroWidth)
        } else if self.r == 0 {
            Err(ParamError::ZeroFingerprintBits)
        } else if self.retry_limit == 0 {
            Err(ParamError::ZeroRetryLimit)
        } else if self.w > self.m {
            Err(ParamError::WidthExceedsM { m: self.m, w: self.w })
        } else {
            Ok(())
        }
    }

    pub open spec fn valid(self) -> bool {
        self.spec_validate() is Ok
    }

    /// The value with its checks applied: `Ok(self)` or the first error.
    pub open spec fn checked(self) -> Result<Params, ParamError> {
        match self.spec_validate() {
            Ok(_) => Ok(self),
            Err(e) => Err(e),
        }
    }

    /// Number of 64-bit words per fingerprint: `ceil(r / 64)`.
    pub open spec fn spec_fingerprint_words(self) -> nat {
        ((self.r as nat + 63) / 64) as nat
    }

    /// Mask of the fingerprint bits held by the last word.
    pub open spec fn spec_last_word_mask(self) -> u64 {
        if self.r % 64 == 0 {
            u64::MAX
        } else {
            ((1u64 << ((self.r % 64) as u64)) - 1) as u64
        }
    }

    /// Parameters with seed 0, one attempt per size and no growth.
    pub fn new(m: usize, w: usize, r: usize, mode: Mode) -> (res: Result<Self, ParamError>)
        ensures
            res == (Params { m, w, r, mode, seed: 0, retry_limit: 1, grow_limit: 0 }).checked(),
    {
        let params = Params { m, w, r, mode, seed: 0, retry_limit: 1, grow_limit: 0 };
        match params.validate() {
            Ok(()) => Ok(params),
            Err(e) => Err(e),
        }
    }

    pub fn with_seed(self, seed: u64) -> (res: Self)
        ensures
            res == (Params { seed, ..self }),
    {
        let mut p = self;
        p.seed = seed;
        p
    }

    pub fn with_retry_limit(self, retry_limit: usize) -> (res: Result<Self, ParamError>)
        ensures
            res == (Params { retry_limit, ..self }).checked(),
    {
        let mut p = self;
        p.retry_limit = retry_limit;
        match p.validate() {
            Ok(()) => Ok(p),
            Err(e) => Err(e),
        }
    }

    /// Sets both the attempts per size and the number of growth rounds.
    pub fn with_retry_policy(self, retry_limit: usize, grow_limit: usize) -> (res: Result<
        Self,
        ParamError,
    >)
        ensures
            res == (Params { retry_limit, grow_limit, ..self }).checked(),
    {
        let mut p = self;
        p.retry_limit = retry_limit;
        p.grow_limit = grow_limit;
        match p.validate() {
            Ok(()) => Ok(p),
            Err(e) => Err(e),
        }
    }

    pub fn validate(&self) -> (res: Result<(), ParamError>)
        ensures
            res == self.spec_validate(),
    {
        if self.m == 0 {
            return Err(ParamError::ZeroM);
        }
        if self.w == 0 {
            return Err(ParamError::ZeroWidth);
        }
        if self.r == 0 {
            return Err(ParamError::ZeroFingerprintBits);
        }
        if self.retry_limit == 0 {
            return Err(ParamError::ZeroRetryLimit);
        }
        if self.w > self.m {
            return Err(ParamError::WidthExceedsM { m: self.m, w: self.w });
        }
        Ok(())
    }

    /// Number of positions at which a key's band may start: `m - w + 1`.
    pub fn start_range(&self) -> (res: usize)
        requires
            self.w <= self.m,
            self.m - self.w < usize::MAX,
        ensures
            res == self.m - self.w + 1,
    {
        self.m - self.w + 1
    }

    pub fn fingerprint_words(&self) -> (res: usize)
        ensures
            res == self.spec_fingerprint_words(),
    {
        let q = self.r / 64;
        if self.r % 64 == 0 {
            q
        } else {
            q + 1
        }
    }

    pub fn fingerprint_last_word_mask(&self) -> (res: u64)
        ensures
            res == self.spec_last_word_mask(),
    {
        let rem = self.r % 64;
        if rem == 0 {
            u64::MAX
        } else {
            assert(1u64 << (rem as u64) >= 1) by (bit_vector)
                requires
                    rem < 64,
            ;
            (1u64 << (rem as u64)) - 1
        }
    }
}

} // verus!
