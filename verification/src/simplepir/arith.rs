//! Recover rounding `Round_Δ` for the SimplePIR backend.
//!
//! After the client forms `d = ans − h_s`, each entry is `Δ·m + noise
//! (mod q)`. Adding `Δ/2` and keeping the top `plaintext_bits` bits rounds
//! to the nearest multiple of `Δ`, which recovers `m` whenever the noise
//! lies in `[−Δ/2, Δ/2)`.
use vstd::prelude::*;
use vstd::arithmetic::power2::{pow2, lemma_pow2_adds, lemma_pow2_pos};
use crate::simplepir::params::{SimpleParams, delta_spec, modulus_spec};

verus! {

/// `2³²`, the LWE modulus `q`.
pub open spec fn q_modulus() -> nat {
    0x1_0000_0000
}

/// `x.wrapping_add(y)` is `(x + y) mod q`.
pub proof fn lemma_wrapping_add_mod(x: u32, y: u32)
    ensures
        vstd::wrapping::u32_specs::wrapping_add(x, y) as int == (x as int + y as int) % (q_modulus() as int),
{
    let q = q_modulus() as int;
    if x + y > u32::MAX {
        vstd::arithmetic::div_mod::lemma_fundamental_div_mod_converse(x + y, q, 1, x + y - q);
    } else {
        vstd::arithmetic::div_mod::lemma_small_mod((x + y) as nat, q as nat);
    }
}

/// `x.wrapping_sub(y)` is `(x − y) mod q`.
pub proof fn lemma_wrapping_sub_mod(x: u32, y: u32)
    ensures
        vstd::wrapping::u32_specs::wrapping_sub(x, y) as int == (x as int - y as int) % (q_modulus() as int),
{
    let q = q_modulus() as int;
    if x - y < 0 {
        vstd::arithmetic::div_mod::lemma_fundamental_div_mod_converse(x - y, q, -1, x - y + q);
    } else {
        vstd::arithmetic::div_mod::lemma_small_mod((x - y) as nat, q as nat);
    }
}

/// Round a noisy `Z_q` value to the nearest multiple of `Δ`, divided by `Δ`:
/// `((x + Δ/2) mod q) / Δ`.
pub open spec fn round_spec(x: u32, plaintext_bits: u32) -> nat {
    (((x as nat) + pow2((31 - plaintext_bits) as nat)) % q_modulus()) / delta_spec(plaintext_bits)
}

/// `Δ · p = q`, and `Δ = 2 · (Δ/2)`.
pub proof fn lemma_delta_times_modulus(plaintext_bits: u32)
    requires
        1 <= plaintext_bits <= 31,
    ensures
        delta_spec(plaintext_bits) * modulus_spec(plaintext_bits) == q_modulus(),
        delta_spec(plaintext_bits) == 2 * pow2((31 - plaintext_bits) as nat),
        delta_spec(plaintext_bits) >= 2,
        modulus_spec(plaintext_bits) >= 2,
{
    lemma_pow2_adds((32 - plaintext_bits) as nat, plaintext_bits as nat);
    lemma_pow2_adds((31 - plaintext_bits) as nat, 1);
    vstd::arithmetic::power2::lemma2_to64();
    lemma_pow2_pos((31 - plaintext_bits) as nat);
    vstd::arithmetic::power2::lemma_pow2_strictly_increases(0, plaintext_bits as nat);
}

/// Round a noisy `Z_q` value back to its plaintext `m ∈ [0, p)`.
pub fn round_q_to_p(x: u32, params: &SimpleParams) -> (m: u32)
    requires
        1 <= params.plaintext_bits <= 31,
    ensures
        m == round_spec(x, params.plaintext_bits),
        m < modulus_spec(params.plaintext_bits),
{
    let pb = params.plaintext_bits;
    let shift = 32 - pb;
    proof {
        vstd::bits::lemma_u32_pow2_no_overflow((shift - 1) as nat);
        vstd::bits::lemma_u32_shl_is_mul(1, (shift - 1) as u32);
        lemma_delta_times_modulus(pb);
    }
    let half = 1u32 << (shift - 1);
    let sum = x.wrapping_add(half);
    assert(sum == ((x as nat) + pow2((31 - pb) as nat)) % q_modulus());
    let top = sum >> shift;
    proof {
        vstd::bits::lemma_u32_shr_is_div(sum, shift);
        vstd::arithmetic::div_mod::lemma_div_by_multiple_is_strongly_ordered(
            sum as int, q_modulus() as int, modulus_spec(pb) as int, delta_spec(pb) as int);
        vstd::arithmetic::mul::lemma_mul_is_commutative(
            delta_spec(pb) as int, modulus_spec(pb) as int);
        vstd::arithmetic::div_mod::lemma_div_by_multiple(modulus_spec(pb) as int, delta_spec(pb) as int);
    }
    assert(top < modulus_spec(pb));
    let mask = params.plaintext_modulus() - 1;
    proof {
        assert(mask == vstd::bits::low_bits_mask(pb as nat));
        vstd::bits::lemma_u32_low_bits_mask_is_mod(top, pb as nat);
        vstd::arithmetic::div_mod::lemma_small_mod(top as nat, modulus_spec(pb));
    }
    top & mask
}

/// Rounding tolerates noise: for a plaintext `m < p` and noise
/// `−Δ/2 ≤ e < Δ/2`, rounding `(Δ·m + e) mod q` gives back `m` — including
/// the modular wrap at `m = 0` with negative noise and `m = p − 1` with
/// positive noise.
pub proof fn lemma_round_tolerates_noise(m: nat, e: int, plaintext_bits: u32)
    requires
        1 <= plaintext_bits <= 31,
        m < modulus_spec(plaintext_bits),
        -(pow2((31 - plaintext_bits) as nat) as int) <= e < pow2((31 - plaintext_bits) as nat),
    ensures
        round_spec(((m * delta_spec(plaintext_bits) + e) % (q_modulus() as int)) as u32, plaintext_bits)
            == m,
{
    let d = delta_spec(plaintext_bits) as int;
    let h = pow2((31 - plaintext_bits) as nat) as int;
    let q = q_modulus() as int;
    lemma_delta_times_modulus(plaintext_bits);
    let x = (m * d + e) % q;
    let v = m * d + e + h;
    assert(0 <= v < q) by (nonlinear_arith)
        requires
            v == m * d + e + h,
            -h <= e < h,
            d == 2 * h,
            m < modulus_spec(plaintext_bits),
            d * modulus_spec(plaintext_bits) == q,
            h > 0;
    vstd::arithmetic::div_mod::lemma_add_mod_noop(m * d + e, h, q);
    assert(h < q) by (nonlinear_arith)
        requires d == 2 * h, d * modulus_spec(plaintext_bits) == q, modulus_spec(plaintext_bits) >= 2, h > 0;
    vstd::arithmetic::div_mod::lemma_small_mod(h as nat, q as nat);
    vstd::arithmetic::div_mod::lemma_small_mod(v as nat, q as nat);
    vstd::arithmetic::div_mod::lemma_mod_bound(m * d + e, q);
    assert((x + h) % q == v);
    vstd::arithmetic::div_mod::lemma_fundamental_div_mod_converse(v, d, m as int, e + h);
}

/// Exact multiples of `Δ` round to their plaintext, for every `m ∈ [0, p)`.
pub proof fn lemma_round_exact_multiple(m: nat, plaintext_bits: u32)
    requires
        1 <= plaintext_bits <= 31,
        m < modulus_spec(plaintext_bits),
    ensures
        round_spec((((m * delta_spec(plaintext_bits)) as int) % (q_modulus() as int)) as u32, plaintext_bits)
            == m,
{
    lemma_pow2_pos((31 - plaintext_bits) as nat);
    lemma_round_tolerates_noise(m, 0, plaintext_bits);
}

} // verus!
