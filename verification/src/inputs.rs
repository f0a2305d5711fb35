//! Deterministic inputs for exercising a filter: little-endian words read
//! from raw bytes, and key sets drawn from a linear congruential stream.
use vstd::prelude::*;

verus! {

/// The little-endian value of `bytes`.
pub open spec fn le_value(bytes: Seq<u8>) -> nat
    decreases bytes.len(),
{
    if bytes.len() == 0 {
        0
    } else {
        (bytes[0] + 256 * le_value(bytes.drop_first())) as nat
    }
}

/// The word stored little-endian at `data[index..index + 8]`, or 0 when
/// fewer than 8 bytes remain.
pub open spec fn spec_read_u64(data: Seq<u8>, index: nat) -> nat {
    if data.len() >= index + 8 {
        le_value(data.subrange(index as int, index + 8int))
    } else {
        0
    }
}

/// `256^k`.
pub open spec fn pow256(k: nat) -> nat
    decreases k,
{
    if k == 0 {
        1
    } else {
        256 * pow256((k - 1) as nat)
    }
}

/// A value of `k` bytes is below `256^k`, which grows with `k`.
proof fn lemma_le_value_bound(bytes: Seq<u8>, k: nat)
    requires
        bytes.len() <= k,
    ensures
        le_value(bytes) < pow256(bytes.len()),
        pow256(bytes.len()) <= pow256(k),
    decreases k,
{
    if k > 0 {
        if bytes.len() > 0 {
            lemma_le_value_bound(bytes.drop_first(), (k - 1) as nat);
            let rest = le_value(bytes.drop_first());
            let p = pow256((bytes.len() - 1) as nat);
            assert(bytes[0] + 256 * rest < 256 * p) by (nonlinear_arith)
                requires
                    bytes[0] < 256,
                    rest < p,
            ;
        } else {
            lemma_le_value_bound(bytes, (k - 1) as nat);
        }
    }
}

/// Reads the little-endian word at `data[index..index + 8]`; 0 when fewer
/// than 8 bytes remain.
pub fn read_u64(data: &[u8], index: usize) -> (res: u64)
    requires
        index <= usize::MAX - 8,
    ensures
        res == spec_read_u64(data@, index as nat),
{
    if data.len() >= index + 8 {
        let ghost bytes = data@.subrange(index as int, index + 8);
        let mut v: u64 = 0;
        let mut k: usize = 8;
        proof {
            assert(bytes.subrange(8, 8) =~= Seq::<u8>::empty());
        }
        while k > 0
            invariant
                k <= 8,
                data.len() >= index + 8,
                bytes == data@.subrange(index as int, index + 8),
                v == le_value(bytes.subrange(k as int, 8)),
            decreases k,
        {
            k = k - 1;
            let b = data[index + k];
            let ghost tail = bytes.subrange(k as int, 8);
            proof {
                assert(tail.drop_first() =~= bytes.subrange(k + 1, 8));
                assert(tail[0] == b);
                lemma_le_value_bound(tail, 8);
                reveal_with_fuel(pow256, 9);
                assert(pow256(8) == 0x1_0000_0000_0000_0000);
            }
            v = b as u64 + 256 * v;
        }
        assert(bytes.subrange(0, 8) =~= bytes);
        v
    } else {
        0
    }
}

/// The multiplier and increment of the key stream.
pub const LCG_MUL: u64 = 6364136223846793005;
pub const LCG_ADD: u64 = 1442695040888963407;

/// The state of the key stream seeded with `seed` after `k` steps.
pub open spec fn lcg_state(seed: u64, k: nat) -> u64
    decreases k,
{
    if k == 0 {
        seed
    } else {
        lcg_state(seed, (k - 1) as nat).wrapping_mul(LCG_MUL).wrapping_add(LCG_ADD)
    }
}

/// `x` rotated left by `r` bits, `r < 64`.
pub open spec fn rotl(x: u64, r: u64) -> u64 {
    if r == 0 {
        x
    } else {
        (x << r) | (x >> ((64 - r) as u64))
    }
}

/// Key `i` of the set drawn with `key_seed` from the base keys `base`: the
/// stream's next state, or, when there are base keys, base key
/// `i mod |base|` XOR that state rotated left by `i mod 63`.
pub open spec fn spec_key(key_seed: u64, base: Seq<u64>, i: nat) -> u64 {
    let state = lcg_state(key_seed ^ 0x9E37_79B9_7F4A_7C15u64, i + 1);
    if base.len() == 0 {
        state
    } else {
        base[(i % base.len()) as int] ^ rotl(state, (i % 63) as u64)
    }
}

/// Draws `n` keys from the stream seeded with `key_seed`, mixed with the
/// base keys when there are any.
pub fn generate_keys(key_seed: u64, base: &[u64], n: usize) -> (out: Vec<u64>)
    ensures
        out@.len() == n,
        forall|i: int| 0 <= i < n ==> #[trigger] out@[i] == spec_key(key_seed, base@, i as nat),
{
    let mut out: Vec<u64> = Vec::with_capacity(n);
    let mut state = key_seed ^ 0x9E37_79B9_7F4A_7C15;
    let ghost seed0 = state;
    let mut i: usize = 0;
    while i < n
        invariant
            i <= n,
            out@.len() == i,
            state == lcg_state(seed0, i as nat),
            seed0 == key_seed ^ 0x9E37_79B9_7F4A_7C15u64,
            forall|j: int| 0 <= j < i ==> #[trigger] out@[j] == spec_key(key_seed, base@, j as nat),
        decreases n - i,
    {
        state = state.wrapping_mul(6364136223846793005).wrapping_add(1442695040888963407);
        if base.len() == 0 {
            out.push(state);
        } else {
            let r = (i % 63) as u64;
            let rotated = if r == 0 {
                state
            } else {
                (state << r) | (state >> (64 - r))
            };
            out.push(base[i % base.len()] ^ rotated);
        }
        i = i + 1;
    }
    out
}

} // verus!
