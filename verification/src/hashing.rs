//! Deriving a key's equation from its 64-bit hash: a SplitMix64 stream
//! seeded by the hash and the attempt's seed gives the band start, the
//! coefficient bits and the fingerprint. A band of at most 64 positions
//! takes its coefficient from one stream word; a wider band takes its
//! positions 64 and up from the next word.
use vstd::prelude::*;
use core::hash::{BuildHasher, Hash, Hasher};

use crate::gf2::{bit, lemma_xor_within_mask, zero_row};
use crate::system::{key_wf, KeyEquation};
use crate::params::Mode;

verus! {

/// The golden-ratio increment of SplitMix64.
pub const MIX_CONST: u64 = 0x9E37_79B9_7F4A_7C15;

/// Where a key's band starts and which of its `w` positions it selects.
#[derive(Debug, Clone, Copy, PartialEq, Eq, Structural)]
pub struct StandardEquation {
    pub start: usize,
    pub coeff: u128,
}

/// The SplitMix64 output function.
#[verifier::opaque]
pub open spec fn mix(z: u64) -> u64 {
    let z1 = (z ^ (z >> 30u64)).wrapping_mul(0xBF58_476D_1CE4_E5B9u64);
    let z2 = (z1 ^ (z1 >> 27u64)).wrapping_mul(0x94D0_49BB_1331_11EBu64);
    z2 ^ (z2 >> 31u64)
}

/// The state of a stream seeded with `seed` after `k` steps.
pub open spec fn stream_state(seed: u64, k: nat) -> u64
    decreases k,
{
    if k == 0 {
        seed
    } else {
        stream_state(seed, (k - 1) as nat).wrapping_add(MIX_CONST)
    }
}

/// The `k`-th output (from 0) of a stream seeded with `seed`.
pub open spec fn stream_output(seed: u64, k: nat) -> u64 {
    mix(stream_state(seed, k + 1))
}

/// `floor(x * range / 2^64)`: maps a uniform word onto `0..range`.
pub open spec fn spec_fastrange(x: u64, range: int) -> int {
    (x as int * range) / 0x1_0000_0000_0000_0000
}

/// The seed of attempt `attempt_index` derived from the base seed.
pub open spec fn spec_attempt_seed(base_seed: u64, attempt_index: u64) -> u64 {
    stream_output(base_seed ^ attempt_index.wrapping_mul(MIX_CONST), 0).wrapping_mul(MIX_CONST)
}

/// The low `w` bits set (all bits from 64 on).
pub open spec fn width_mask(w: nat) -> u64 {
    if w >= 64 {
        u64::MAX
    } else {
        ((1u64 << (w as u64)) - 1) as u64
    }
}

/// The seed of a key's stream.
pub open spec fn key_stream_seed(base_hash: u64, seed: u64) -> u64 {
    (base_hash ^ seed).wrapping_mul(MIX_CONST)
}

/// The start of the band of the key hashed to `base_hash`.
pub open spec fn eq_start(base_hash: u64, seed: u64, m: nat, w: nat) -> int {
    spec_fastrange(stream_output(key_stream_seed(base_hash, seed), 0), m - w + 1)
}

/// The coefficient of the key hashed to `base_hash`: `w` random bits with
/// bit 0 forced. Bits `0..64` come from the second stream output; for
/// `w > 64`, bits `64..w` come from the third.
pub open spec fn eq_coeff(base_hash: u64, seed: u64, w: nat) -> u128 {
    let ss = key_stream_seed(base_hash, seed);
    let lo = ((stream_output(ss, 1) & width_mask(w)) | 1u64) as u128;
    if w <= 64 {
        lo
    } else {
        lo | (((stream_output(ss, 2) & width_mask((w - 64) as nat)) as u128) << 64u128)
    }
}

/// Index of the first stream output that goes into the fingerprint: after
/// the start and the one or two coefficient words.
pub open spec fn fp_offset(w: nat) -> nat {
    if w <= 64 {
        2
    } else {
        3
    }
}

/// The fingerprint of `words` words of the key hashed to `base_hash` with
/// bands of width `w`: zero in homogeneous mode, else the stream outputs
/// after the coefficient, with the last word cut to `mask`.
pub open spec fn eq_fingerprint(
    base_hash: u64,
    seed: u64,
    w: nat,
    mode: Mode,
    words: nat,
    mask: u64,
) -> Seq<u64> {
    if mode == Mode::Homogeneous {
        zero_row(words)
    } else {
        Seq::new(
            words,
            |k: int|
                if k == words - 1 {
                    stream_output(key_stream_seed(base_hash, seed), (fp_offset(w) + k) as nat) & mask
                } else {
                    stream_output(key_stream_seed(base_hash, seed), (fp_offset(w) + k) as nat)
                },
        )
    }
}

/// `fastrange` lands in `0..range`.
pub proof fn lemma_fastrange_bound(x: u64, range: int)
    requires
        range >= 1,
    ensures
        0 <= spec_fastrange(x, range) < range,
{
    assert(0 <= (x as int * range) / 0x1_0000_0000_0000_0000 < range) by (nonlinear_arith)
        requires
            0 <= x < 0x1_0000_0000_0000_0000,
            range >= 1,
    ;
}

/// The coefficient has bit 0 set and no bit at or above `w`.
proof fn lemma_coeff_bits(c: u128, y1: u64, y2: u64, wl: u64, wh: u64, w: u128, j: u128)
    by (bit_vector)
    requires
        1 <= w <= 128,
        j < 128,
        w < 64 ==> wl == ((1u64 << (w as u64)) - 1) as u64,
        64 < w < 128 ==> wh == ((1u64 << ((w - 64) as u64)) - 1) as u64,
        w <= 64 ==> c == (((y1 & wl) | 1u64) as u128),
        w > 64 ==> c == (((y1 & wl) | 1u64) as u128) | (((y2 & wh) as u128) << 64u128),
    ensures
        (c >> 0u128) & 1u128 == 1u128,
        (c >> j) & 1u128 == 1u128 ==> j < w,
{
}

/// Cutting a word to `mask` leaves it within `mask`.
proof fn lemma_and_masked(x: u64, mask: u64)
    by (bit_vector)
    ensures
        (x & mask) & mask == x & mask,
{
}

/// The equation of a hashed key is well formed for elimination: its band
/// starts at or before `m - w`, is pivoted, ends below `m`, and its
/// fingerprint has `words` words with the last one within `mask`.
pub proof fn lemma_key_equation_wf(
    base_hash: u64,
    seed: u64,
    m: nat,
    w: nat,
    mode: Mode,
    words: nat,
    mask: u64,
)
    requires
        1 <= w,
        w <= m,
        words >= 1,
    ensures
        eq_start(base_hash, seed, m, w) <= m - w,
        key_wf(
            KeyEquation {
                start: eq_start(base_hash, seed, m, w),
                coeff: eq_coeff(base_hash, seed, w),
                rhs: eq_fingerprint(base_hash, seed, w, mode, words, mask),
            },
            m,
            words,
            mask,
        ),
{
    let ss = key_stream_seed(base_hash, seed);
    lemma_fastrange_bound(stream_output(ss, 0), m - w + 1);
    let start = eq_start(base_hash, seed, m, w);
    let y1 = stream_output(ss, 1);
    let y2 = stream_output(ss, 2);
    let c = eq_coeff(base_hash, seed, w);
    // Bits from 128 on do not exist: a wider band draws as one of 128.
    let wb: u128 = if w >= 128 {
        128
    } else {
        w as u128
    };
    let wl = width_mask(wb as nat);
    let wh = width_mask((wb - 64) as nat);
    assert(width_mask(w) == wl);
    assert(w > 64 ==> width_mask((w - 64) as nat) == wh);
    lemma_coeff_bits(c, y1, y2, wl, wh, wb, 0);
    assert(bit(c, 0));
    assert forall|j: int| #[trigger] bit(c, j) implies start + j < m by {
        lemma_coeff_bits(c, y1, y2, wl, wh, wb, j as u128);
    }
    if mode == Mode::Homogeneous {
        lemma_xor_within_mask(0, 0, mask);
    } else {
        lemma_and_masked(stream_output(ss, (fp_offset(w) + words - 1) as nat), mask);
    }
}

struct SplitMix64 {
    state: u64,
}

impl SplitMix64 {
    fn new(seed: u64) -> (s: Self)
        ensures
            s.state == seed,
    {
        SplitMix64 { state: seed }
    }

    fn next_u64(&mut self) -> (out: u64)
        ensures
            final(self).state == old(self).state.wrapping_add(MIX_CONST),
            out == mix(final(self).state),
    {
        proof {
            reveal(mix);
        }
        self.state = self.state.wrapping_add(MIX_CONST);
        let mut z = self.state;
        z = (z ^ (z >> 30)).wrapping_mul(0xBF58_476D_1CE4_E5B9);
        z = (z ^ (z >> 27)).wrapping_mul(0x94D0_49BB_1331_11EB);
        z ^ (z >> 31)
    }
}

/// Wraps `BuildHasher::build_hasher`: a fresh hasher. Nothing is stated
/// of it: the builder may seed it per process.
#[verifier::external_body]
fn new_hasher<S: BuildHasher>(build_hasher: &S) -> S::Hasher {
    build_hasher.build_hasher()
}

/// Wraps `Hash::hash`: feeds `key` into `state`. Nothing is stated of the
/// state afterwards: it depends on the key's `Hash` impl and the hasher.
#[verifier::external_body]
fn feed_key<Q: Hash + ?Sized, H: Hasher>(key: &Q, state: &mut H) {
    key.hash(state)
}

/// Wraps `Hasher::finish`: the hash of what was fed. Nothing is stated of
/// it.
#[verifier::external_body]
fn finish_hash<H: Hasher>(state: &H) -> u64 {
    state.finish()
}

/// The hash of `key` under a hasher built by `build_hasher`. Nothing is
/// known of it: it depends on the hasher, which may be seeded per process,
/// and on the key's `Hash` impl.
pub(crate) fn hash64<S: BuildHasher, Q: Hash + ?Sized>(build_hasher: &S, key: &Q) -> u64 {
    let mut hasher = new_hasher(build_hasher);
    feed_key(key, &mut hasher);
    finish_hash(&hasher)
}

/// `floor(x * range / 2^64)`.
pub fn fastrange_u64(x: u64, range: usize) -> (res: usize)
    ensures
        res == spec_fastrange(x, range as int),
        range > 0 ==> res < range,
{
    let xr = x as u128;
    let rr = range as u128;
    assert(xr * rr <= 0xffff_ffff_ffff_ffffu128 * 0xffff_ffff_ffff_ffffu128) by (nonlinear_arith)
        requires
            xr <= 0xffff_ffff_ffff_ffffu128,
            rr <= 0xffff_ffff_ffff_ffffu128,
    ;
    let p = xr * rr;
    let q = p >> 64u128;
    assert(q == p / 0x1_0000_0000_0000_0000u128) by (bit_vector)
        requires
            q == p >> 64u128,
    ;
    assert(range > 0 ==> q < rr) by (nonlinear_arith)
        requires
            q == p / 0x1_0000_0000_0000_0000u128,
            p == xr * rr,
            xr < 0x1_0000_0000_0000_0000u128,
            rr == range,
    ;
    assert(q <= rr) by (nonlinear_arith)
        requires
            q == p / 0x1_0000_0000_0000_0000u128,
            p == xr * rr,
            xr < 0x1_0000_0000_0000_0000u128,
    ;
    q as usize
}

/// The seed of attempt `attempt_index`.
pub fn derive_attempt_seed(base_seed: u64, attempt_index: u64) -> (res: u64)
    ensures
        res == spec_attempt_seed(base_seed, attempt_index),
{
    let mut sm = SplitMix64::new(base_seed ^ attempt_index.wrapping_mul(MIX_CONST));
    let out = sm.next_u64();
    proof {
        reveal_with_fuel(stream_state, 2);
    }
    out.wrapping_mul(MIX_CONST)
}

/// The mask of the low `w` bits of a word (all bits from 64 on).
fn width_mask_u64(w: usize) -> (res: u64)
    ensures
        res == width_mask(w as nat),
{
    if w >= 64 {
        u64::MAX
    } else {
        assert(1u64 << (w as u64) >= 1) by (bit_vector)
            requires
                w < 64,
        ;
        (1u64 << (w as u64)) - 1
    }
}

/// The equation of the key hashed to `base_hash` for a matrix of `m` rows
/// and bands of width `w`; its fingerprint is written into `fingerprint`,
/// whose length is kept.
pub fn standard_equation_w64(
    base_hash: u64,
    seed: u64,
    m: usize,
    w: usize,
    mode: Mode,
    fingerprint: &mut Vec<u64>,
    last_word_mask: u64,
) -> (res: StandardEquation)
    requires
        1 <= w <= 128,
        w <= m,
    ensures
        res.start == eq_start(base_hash, seed, m as nat, w as nat),
        res.start <= m - w,
        res.coeff == eq_coeff(base_hash, seed, w as nat),
        final(fingerprint)@ == eq_fingerprint(
            base_hash,
            seed,
            w as nat,
            mode,
            old(fingerprint)@.len(),
            last_word_mask,
        ),
{
    let ghost ss = key_stream_seed(base_hash, seed);
    let stream_seed = (base_hash ^ seed).wrapping_mul(MIX_CONST);
    let mut stream = SplitMix64::new(stream_seed);
    let start = fastrange_u64(stream.next_u64(), m - w + 1);
    let low = (stream.next_u64() & width_mask_u64(w)) | 1;
    let coeff: u128 = if w <= 64 {
        low as u128
    } else {
        let high = stream.next_u64() & width_mask_u64(w - 64);
        (low as u128) | ((high as u128) << 64u128)
    };
    proof {
        reveal_with_fuel(stream_state, 4);
    }
    let len = fingerprint.len();
    let ghost words = len as nat;
    let ghost off = fp_offset(w as nat);
    assert(stream.state == stream_state(ss, off));
    if mode == Mode::Homogeneous {
        let mut k: usize = 0;
        while k < len
            invariant
                k <= len,
                fingerprint@.len() == len,
                forall|j: int| 0 <= j < k ==> fingerprint@[j] == 0u64,
            decreases len - k,
        {
            fingerprint.set(k, 0);
            k = k + 1;
        }
        assert(fingerprint@ =~= zero_row(words));
    } else {
        let mut k: usize = 0;
        while k < len
            invariant
                k <= len,
                fingerprint@.len() == len,
                stream.state == stream_state(ss, (off + k) as nat),
                forall|j: int| 0 <= j < k ==> fingerprint@[j] == stream_output(ss, (off + j) as nat),
            decreases len - k,
        {
            let v = stream.next_u64();
            fingerprint.set(k, v);
            k = k + 1;
        }
        if len > 0 {
            let last = fingerprint[len - 1] & last_word_mask;
            fingerprint.set(len - 1, last);
        }
        assert(fingerprint@ =~= eq_fingerprint(base_hash, seed, w as nat, mode, words, last_word_mask));
    }
    StandardEquation { start, coeff }
}

} // verus!
