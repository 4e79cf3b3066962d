//! Runtime LWE parameters of a Row-KOPIR (SimplePIR) instance.
//!
//! `q = 2³²` is implicit (native `u32` wraparound). The error width `σ` is a
//! property of the sampler that draws the query noise; the verified
//! protocol code only consumes the noise it is handed, so it is not part of
//! these parameters.
use vstd::prelude::*;
use vstd::arithmetic::power2::pow2;

verus! {

/// Largest plaintext width the adaptive operating-point selector considers.
pub const MAX_PLAINTEXT_BITS: u32 = 14;

/// Default LWE dimension (128-bit security under ADPS16).
pub const DEFAULT_LWE_DIM: u32 = 1275;

/// Runtime LWE parameters for a Row-KOPIR (SimplePIR) instance.
#[derive(Clone, Copy, Debug, PartialEq, Eq)]
pub struct SimpleParams {
    /// LWE dimension `N`.
    pub lwe_dim: u32,
    /// `log₂ p` of the plaintext modulus, `1 ≤ plaintext_bits ≤ 31`.
    pub plaintext_bits: u32,
    /// 128-bit public seed from which the LWE matrix `A` is expanded.
    pub seed: [u8; 16],
}

/// `Δ = q / p = 2^(32 − plaintext_bits)`.
pub open spec fn delta_spec(plaintext_bits: u32) -> nat {
    pow2((32 - plaintext_bits) as nat)
}

/// `p = 2^plaintext_bits`.
pub open spec fn modulus_spec(plaintext_bits: u32) -> nat {
    pow2(plaintext_bits as nat)
}

impl SimpleParams {
    /// The parameter constraints that `new` enforces.
    pub open spec fn wf(self) -> bool {
        &&& 1 <= self.plaintext_bits <= 31
        &&& self.lwe_dim > 0
    }

    /// Construct explicit LWE parameters.
    pub fn new(lwe_dim: u32, plaintext_bits: u32, seed: [u8; 16]) -> (s: Self)
        requires
            1 <= plaintext_bits <= 31,
            lwe_dim > 0,
        ensures
            s.wf(),
            s.lwe_dim == lwe_dim,
            s.plaintext_bits == plaintext_bits,
            s.seed == seed,
    {
        SimpleParams { lwe_dim, plaintext_bits, seed }
    }

    /// The plaintext-to-ciphertext scaling `Δ = q/p = 2^(32 − plaintext_bits)`.
    pub fn delta(&self) -> (d: u32)
        requires
            1 <= self.plaintext_bits <= 31,
        ensures
            d == delta_spec(self.plaintext_bits),
    {
        let shift = 32 - self.plaintext_bits;
        proof {
            vstd::bits::lemma_u32_pow2_no_overflow(shift as nat);
            vstd::bits::lemma_u32_shl_is_mul(1, shift);
        }
        1u32 << shift
    }

    /// The plaintext modulus `p = 2^plaintext_bits`.
    pub fn plaintext_modulus(&self) -> (p: u32)
        requires
            1 <= self.plaintext_bits <= 31,
        ensures
            p == modulus_spec(self.plaintext_bits),
    {
        proof {
            vstd::bits::lemma_u32_pow2_no_overflow(self.plaintext_bits as nat);
            vstd::bits::lemma_u32_shl_is_mul(1, self.plaintext_bits);
        }
        1u32 << self.plaintext_bits
    }
}

} // verus!
