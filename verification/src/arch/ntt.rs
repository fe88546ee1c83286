//! NTT primes and constants for 64-bit Word targets.
//!
//! Uses Proth primes of the form `K * 2^N + 1`.
use vstd::prelude::*;
use vstd::arithmetic::power2::pow2;
use num_modular::FixedProth64;

verus! {

/// Number of primes.
pub const K: usize = 3;

/// Largest supported transform length is `2^MAX_LOG_N`.
pub const MAX_LOG_N: u32 = 57;

/// Smallest packing width in bits.
pub const B_PACK_MIN: u32 = 16;

/// Lane of a transform.
pub type Lane = u64;

/// Double lane.
pub type DoubleLane = u128;

/// Primitive `MAX_LOG_N`-th roots of unity for each prime:
/// `omega_max[i]` = `g^{(p_i-1) / 2^MAX_LOG_N} mod p_i`.
pub const OMEGA_MAX: [Lane; K] = [0x00003e6b41437d93u64, 0x2f754195e85edc63u64, 0x75544cac36cebb29u64];

/// Inverses used by the Chinese remainder reconstruction.
pub const CRT_INV_IJ: [[Lane; K]; K] = [
    [0u64, 0x3979e79e79e79e7cu64, 0x8c37a6f4de9bd37du64],
    [0u64, 0u64, 0x2580000000000013u64],
    [0u64, 0u64, 0u64],
];

/// The modulus `K 2^N + 1` of num-modular's Proth reducer `FixedProth64<N, K>`
/// (its associated constant `MODULUS`, computed at compile time, which also
/// asserts that the modulus is small enough for its reduction).
#[verifier::external_body]
fn proth_modulus<const N: u8, const K_: u8>() -> (r: Lane)
    requires
        N < 64,
        (K_ as nat) * pow2(N as nat) + 1 <= 11_400_714_819_323_199_485nat,
    ensures
        r == (K_ as nat) * pow2(N as nat) + 1,
{
    FixedProth64::<N, K_>::MODULUS
}

/// Prime moduli indexed by PI.
pub fn moduli() -> (r: [Lane; K])
    ensures
        r@[0] == 29 * pow2(57) + 1,
        r@[1] == 71 * pow2(57) + 1,
        r@[2] == 75 * pow2(57) + 1,
{
    proof {
        vstd::arithmetic::power2::lemma2_to64();
        vstd::arithmetic::power2::lemma2_to64_rest();
    }
    [proth_modulus::<57, 29>(), proth_modulus::<57, 71>(), proth_modulus::<57, 75>()]
}

} // verus!
