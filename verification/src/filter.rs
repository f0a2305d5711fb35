//! The built filter: its solution rows stored bit-packed, and membership
//! queries against them.
use vstd::prelude::*;
use bitvec::order::Lsb0;
use bitvec::vec::BitVec;
use core::hash::{BuildHasher, Hash};

use crate::builder::Scratch;
use crate::error::{decimal, decimal_string, ParamError};
use vstd::string::StringExecFns;
use crate::gf2::{band, eval, lemma_row_xor_algebra, zero_row};
use crate::hashing::{eq_coeff, eq_fingerprint, eq_start, hash64, lemma_key_equation_wf, standard_equation_w64};
use crate::params::Params;
use crate::rows::{lemma_rows_of_wf, rows_of, xor_rows_selected};

verus! {

/// The solution words, held bit-packed in a `bitvec::vec::BitVec`.
#[verifier::external_body]
#[derive(Debug)]
pub struct PackedWords {
    bits: BitVec<u64, Lsb0>,
}

/// The words a packed bit-vector stores, in order.
pub uninterp spec fn packed_words(v: PackedWords) -> Seq<u64>;

impl Clone for PackedWords {
    /// Wraps `BitVec::clone`: the copy holds the same words.
    #[verifier::external_body]
    fn clone(&self) -> (res: Self)
        ensures
            packed_words(res) == packed_words(*self),
    {
        PackedWords { bits: self.bits.clone() }
    }
}

/// Wraps `BitVec::from_vec`: the bit-vector takes over the vector's
/// memory and covers all of its words, so its words are the vector's.
/// `from_vec` panics when the vector holds more than `usize::MAX >> 3`
/// bits, which `requires` leaves out.
#[verifier::external_body]
fn pack_words(words: Vec<u64>) -> (v: PackedWords)
    requires
        words.len() * 64 <= usize::MAX / 8,
    ensures
        packed_words(v) == words@,
{
    PackedWords { bits: BitVec::from_vec(words) }
}

/// Wraps `BitVec::as_raw_slice`: the words under the bit-vector.
#[verifier::external_body]
fn packed_raw_words(v: &PackedWords) -> (s: &[u64])
    ensures
        s@ == packed_words(*v),
{
    v.bits.as_raw_slice()
}

/// The version of the stored form of a filter that this library writes
/// and reads.
pub const RIBBON_FILTER_FORMAT_VERSION: u8 = 1;

/// Why a stored filter was refused.
#[derive(Debug, Clone, PartialEq, Eq, Structural)]
pub enum ReprError {
    UnsupportedVersion { found: u8, expected: u8 },
    InvalidParams(ParamError),
    /// `m * fingerprint_words` does not fit a `usize`.
    LengthOverflow,
    InvalidLength { found: usize, expected: usize },
}

impl ReprError {
    pub open spec fn spec_message(self) -> Seq<char> {
        match self {
            ReprError::UnsupportedVersion { found, expected } => "unsupported RibbonFilter version "@
                + decimal(found as nat) + ", expected "@ + decimal(expected as nat),
            ReprError::InvalidParams(e) => e.spec_message(),
            ReprError::LengthOverflow => "z_words length overflow"@,
            ReprError::InvalidLength { found, expected } => "invalid z_words length "@ + decimal(
                found as nat,
            ) + "; expected "@ + decimal(expected as nat),
        }
    }

    /// The human-readable description of the error.
    pub fn message(&self) -> (s: String)
        ensures
            s@ == self.spec_message(),
    {
        match self {
            ReprError::UnsupportedVersion { found, expected } => {
                let mut s = String::from_str("unsupported RibbonFilter version ");
                s.append(decimal_string(*found as usize).as_str());
                s.append(", expected ");
                s.append(decimal_string(*expected as usize).as_str());
                s
            },
            ReprError::InvalidParams(e) => e.message(),
            ReprError::LengthOverflow => String::from_str("z_words length overflow"),
            ReprError::InvalidLength { found, expected } => {
                let mut s = String::from_str("invalid z_words length ");
                s.append(decimal_string(*found).as_str());
                s.append("; expected ");
                s.append(decimal_string(*expected).as_str());
                s
            },
        }
    }
}

/// What reading a stored filter answers, in the order the checks are made.
pub open spec fn spec_check_repr(version: u8, params: Params, words: nat) -> Result<(), ReprError> {
    if version != RIBBON_FILTER_FORMAT_VERSION {
        Err(ReprError::UnsupportedVersion { found: version, expected: RIBBON_FILTER_FORMAT_VERSION })
    } else if params.spec_validate() is Err {
        Err(ReprError::InvalidParams(params.spec_validate()->Err_0))
    } else if params.m * params.spec_fingerprint_words() > usize::MAX {
        Err(ReprError::LengthOverflow)
    } else if words != params.m * params.spec_fingerprint_words() {
        Err(
            ReprError::InvalidLength {
                found: words as usize,
                expected: (params.m * params.spec_fingerprint_words()) as usize,
            },
        )
    } else {
        Ok(())
    }
}

/// What a filter is, for contracts: its parameters and its solution rows.
pub struct FilterModel {
    pub params: Params,
    pub rows: Seq<Seq<u64>>,
}

/// Whether a filter answers "present" for the key hashed to `h`: the
/// rows its band selects XOR to its fingerprint.
pub open spec fn model_contains(f: FilterModel, h: u64) -> bool {
    let p = f.params;
    let width = p.spec_fingerprint_words();
    eval(
        f.rows,
        band(p.m as nat, eq_start(h, p.seed, p.m as nat, p.w as nat), eq_coeff(h, p.seed, p.w as nat)),
        width,
    ) == eq_fingerprint(h, p.seed, p.w as nat, p.mode, width, p.spec_last_word_mask())
}

/// Whether every word of `a` equals the word at the same place in `b`.
fn words_equal(a: &Vec<u64>, b: &Vec<u64>) -> (res: bool)
    ensures
        res == (a@ == b@),
{
    if a.len() != b.len() {
        return false;
    }
    let mut k: usize = 0;
    while k < a.len()
        invariant
            a.len() == b.len(),
            k <= a.len(),
            forall|q: int| 0 <= q < k ==> a@[q] == b@[q],
        decreases a.len() - k,
    {
        if a[k] != b[k] {
            return false;
        }
        k = k + 1;
    }
    assert(a@ =~= b@);
    true
}

/// A built Ribbon filter: the solved matrix of `m` rows of
/// `fingerprint_words` words, with the parameters and hasher it was built
/// with.
#[derive(Debug)]
pub struct RibbonFilter<S> {
    params: Params,
    build_hasher: S,
    z: PackedWords,
    stride_words: usize,
}

impl<S: Clone> Clone for RibbonFilter<S> {
    /// A copy with the same parameters and words and a clone of the hasher.
    fn clone(&self) -> (res: Self)
        ensures
            res.model() == self.model(),
            res.model_words() == self.model_words(),
            cloned(self.model_hasher(), res.model_hasher()),
    {
        proof {
            use_type_invariant(self);
        }
        RibbonFilter {
            params: self.params,
            build_hasher: self.build_hasher.clone(),
            z: self.z.clone(),
            stride_words: self.stride_words,
        }
    }
}

impl<S> RibbonFilter<S> {
    #[verifier::type_invariant]
    spec fn inv(self) -> bool {
        &&& self.params.valid()
        &&& self.stride_words == self.params.spec_fingerprint_words()
        &&& packed_words(self.z).len() == self.params.m * self.stride_words
        &&& self.params.m * self.stride_words * 64 <= usize::MAX / 8
    }

    /// The filter's parameters and solution rows.
    pub closed spec fn model(self) -> FilterModel {
        FilterModel {
            params: self.params,
            rows: rows_of(packed_words(self.z), self.params.spec_fingerprint_words(), self.params.m as nat),
        }
    }

    /// The solution words, row after row.
    pub closed spec fn model_words(self) -> Seq<u64> {
        packed_words(self.z)
    }

    /// The hasher keys are hashed with.
    pub closed spec fn model_hasher(self) -> S {
        self.build_hasher
    }

    pub(crate) fn new(params: Params, build_hasher: S, z: Vec<u64>) -> (f: Self)
        requires
            params.valid(),
            z@.len() == params.m * params.spec_fingerprint_words(),
            z@.len() * 64 <= usize::MAX / 8,
        ensures
            f.model() == (FilterModel {
                params,
                rows: rows_of(z@, params.spec_fingerprint_words(), params.m as nat),
            }),
            f.model_words() == z@,
            f.model_hasher() == build_hasher,
    {
        let stride_words = params.fingerprint_words();
        let z = pack_words(z);
        RibbonFilter { params, build_hasher, z, stride_words }
    }

    pub fn params(&self) -> (p: Params)
        ensures
            p == self.model().params,
            p.valid(),
    {
        proof {
            use_type_invariant(self);
        }
        self.params
    }

    /// Reads a filter from its stored form: the format version, the
    /// parameters, the hasher and the solution words. Refused unless the
    /// version is this library's, the parameters are valid and there are
    /// exactly `m * fingerprint_words` words.
    pub fn from_repr(version: u8, params: Params, build_hasher: S, z_words: Vec<u64>) -> (res: Result<
        Self,
        ReprError,
    >)
        requires
            z_words@.len() * 64 <= usize::MAX / 8,
        ensures
            match (res, spec_check_repr(version, params, z_words@.len())) {
                (Ok(f), Ok(())) => f.model() == (FilterModel {
                    params,
                    rows: rows_of(z_words@, params.spec_fingerprint_words(), params.m as nat),
                }) && f.model_words() == z_words@ && f.model_hasher() == build_hasher,
                (Err(e), Err(e2)) => e == e2,
                _ => false,
            },
    {
        if version != RIBBON_FILTER_FORMAT_VERSION {
            return Err(
                ReprError::UnsupportedVersion { found: version, expected: RIBBON_FILTER_FORMAT_VERSION },
            );
        }
        match params.validate() {
            Err(e) => {
                return Err(ReprError::InvalidParams(e));
            },
            Ok(()) => {},
        }
        let stride_words = params.fingerprint_words();
        let expected_len = match params.m.checked_mul(stride_words) {
            Some(n) => n,
            None => {
                return Err(ReprError::LengthOverflow);
            },
        };
        if z_words.len() != expected_len {
            return Err(ReprError::InvalidLength { found: z_words.len(), expected: expected_len });
        }
        Ok(Self::new(params, build_hasher, z_words))
    }

    /// The stored form of the filter: the format version, the parameters,
    /// a clone of the hasher and the solution words.
    pub fn to_repr(&self) -> (res: (u8, Params, S, Vec<u64>))
        where
            S: Clone,
        ensures
            res.0 == RIBBON_FILTER_FORMAT_VERSION,
            res.1 == self.model().params,
            res.3@ == self.model_words(),
            cloned(self.model_hasher(), res.2),
            res.3@.len() * 64 <= usize::MAX / 8,
            spec_check_repr(res.0, res.1, res.3@.len()) is Ok,
            (FilterModel {
                params: res.1,
                rows: rows_of(res.3@, res.1.spec_fingerprint_words(), res.1.m as nat),
            }) == self.model(),
    {
        proof {
            use_type_invariant(self);
        }
        let raw = packed_raw_words(&self.z);
        let mut words: Vec<u64> = Vec::with_capacity(raw.len());
        let mut k: usize = 0;
        while k < raw.len()
            invariant
                k <= raw.len(),
                words@ == raw@.subrange(0, k as int),
            decreases raw.len() - k,
        {
            words.push(raw[k]);
            k = k + 1;
        }
        assert(words@ =~= raw@);
        (RIBBON_FILTER_FORMAT_VERSION, self.params, self.build_hasher.clone(), words)
    }

    /// A workspace sized for this filter's queries.
    pub fn new_scratch(&self) -> (s: Scratch)
        ensures
            s.fits_width(self.model().params.spec_fingerprint_words()),
            s.model_fingerprint() == zero_row(self.model().params.spec_fingerprint_words()),
            s.model_acc() == zero_row(self.model().params.spec_fingerprint_words()),
    {
        proof {
            use_type_invariant(self);
        }
        Scratch::new(self.stride_words)
    }

    /// Whether the filter answers "present" for the key hashed to `h`,
    /// using `scratch` as workspace.
    pub fn contains_hash_in(&self, h: u64, scratch: &mut Scratch) -> (res: bool)
        requires
            self.model().params.w <= 128,
            old(scratch).fits_width(self.model().params.spec_fingerprint_words()),
        ensures
            res == model_contains(self.model(), h),
            final(scratch).fits_width(self.model().params.spec_fingerprint_words()),
    {
        proof {
            use_type_invariant(self);
        }
        let ghost width = self.stride_words as nat;
        proof {
            old(scratch).lemma_fits_width(width);
        }
        scratch.reset();
        let mask = self.params.fingerprint_last_word_mask();
        let eq = standard_equation_w64(
            h,
            self.params.seed,
            self.params.m,
            self.params.w,
            self.params.mode,
            &mut scratch.fingerprint,
            mask,
        );
        proof {
            lemma_key_equation_wf(h, self.params.seed, self.params.m as nat, self.params.w as nat, self.params.mode, width, mask);
        }
        let words = packed_raw_words(&self.z);
        xor_rows_selected(words, self.stride_words, self.params.m, eq.start, eq.coeff, &mut scratch.acc);
        proof {
            let rows = rows_of(words@, width, self.params.m as nat);
            lemma_rows_of_wf(words@, width, self.params.m as nat);
            crate::gf2::lemma_combine_len(rows, band(self.params.m as nat, eq.start as int, eq.coeff), self.params.m as int, width);
            lemma_row_xor_algebra(
                eval(rows, band(self.params.m as nat, eq.start as int, eq.coeff), width),
                zero_row(width),
                zero_row(width),
            );
        }
        let res = words_equal(&scratch.acc, &scratch.fingerprint);
        proof {
            scratch.lemma_fits_width(width);
        }
        res
    }

    /// Whether the filter answers "present" for the key hashed to `h`.
    pub fn contains_hash(&self, h: u64) -> (res: bool)
        requires
            self.model().params.w <= 128,
        ensures
            res == model_contains(self.model(), h),
    {
        let mut scratch = self.new_scratch();
        self.contains_hash_in(h, &mut scratch)
    }

    /// Whether the filter answers "present" for `key`, using `scratch` as
    /// workspace. The key is hashed with the filter's hasher, of whose
    /// result nothing is known: the answer is the one for that hash.
    pub fn contains_in<Q: Hash + ?Sized>(&self, key: &Q, scratch: &mut Scratch) -> (res: bool)
        where
            S: BuildHasher,
        requires
            self.model().params.w <= 128,
            old(scratch).fits_width(self.model().params.spec_fingerprint_words()),
        ensures
            exists|h: u64| res == model_contains(self.model(), h),
            final(scratch).fits_width(self.model().params.spec_fingerprint_words()),
    {
        let h = hash64(&self.build_hasher, key);
        self.contains_hash_in(h, scratch)
    }

    /// Whether the filter answers "present" for `key`.
    pub fn contains<Q: Hash + ?Sized>(&self, key: &Q) -> (res: bool)
        where
            S: BuildHasher,
        requires
            self.model().params.w <= 128,
        ensures
            exists|h: u64| res == model_contains(self.model(), h),
    {
        let h = hash64(&self.build_hasher, key);
        self.contains_hash(h)
    }
}

} // verus!
