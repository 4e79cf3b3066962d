//! The KPIR^index keyword-PIR construction on top of Row-KOPIR.
//!
//! Setup hashes the keys to 64-bit fingerprints, sorts them, and
//! repetition-encodes the key-value pairs into the `R × C` `Z_p` matrix
//! (see [`layout`]); the `ε + 1` top and `ε + 2` bottom padding slots of
//! each column repeat the neighbouring columns' edge entries, so an entry
//! whose approximate rank is within `ε + 1` of its true rank always lies in
//! the single column retrieved for that rank. Recover scans the column's
//! slots for the queried key's fingerprint.
use vstd::prelude::*;
use vstd::arithmetic::power2::pow2;
use xxhash_rust::xxh3::xxh3_64;
use crate::params::{MatrixShape, payload_bits_spec};
use rand::rngs::StdRng;
use crate::simplepir::backend::{recover_spec, query_spec, answer_noise, Hint, is_hint_of, SimplePirServer, SimplePirClient};
use crate::simplepir::matvec::{matvec_spec, zeros};
use crate::simplepir::params::{SimpleParams, delta_spec, modulus_spec};
use crate::simplepir::sampler::{a_transposed_spec, std_rng_words, std_rng_after};
use self::layout::{
    ValueSource, encodable, is_encoding, decode_column, empty_fingerprint, entry_values, pad_value, encode_tdb,
    recover_from_column, lemma_lookup_present, lemma_lookup_absent,
};

pub mod layout;

verus! {

/// What `xxh3_64` returns for an input.
pub uninterp spec fn xxh3_64_spec(input: Seq<u8>) -> u64;

/// Hash an arbitrary keyword to the uniform 64-bit value used both as the
/// approximate-rank key and as the stored 8-byte fingerprint.
///
/// Calls `xxhash_rust::xxh3::xxh3_64`; the contract only names its result,
/// a function of the key bytes alone.
#[verifier::external_body]
pub fn hash_key(key: &[u8]) -> (h: u64)
    ensures
        h == xxh3_64_spec(key@),
{
    xxh3_64(key)
}

/// Branchless `u64` equality mask: `u64::MAX` if `a == b`, else `0`.
pub fn ct_eq_u64_mask(a: u64, b: u64) -> (m: u64)
    ensures
        m == if a == b { u64::MAX } else { 0 },
{
    let x = a ^ b;
    let neg = 0u64.wrapping_sub(x);
    let top = (x | neg) >> 63;
    assert(top == if x == 0 { 0u64 } else { 1u64 }) by (bit_vector)
        requires
            top == (x | neg) >> 63,
            (x == 0 && neg == 0) || (x != 0 && x + neg == 0x1_0000_0000_0000_0000),
    ;
    assert(x == 0 <==> a == b) by (bit_vector)
        requires x == a ^ b;
    top.wrapping_sub(1)
}

/// The splitmix64 increment.
pub const SPLITMIX_GAMMA: u64 = 0x9E37_79B9_7F4A_7C15;

/// The splitmix64 output function.
pub open spec fn splitmix_finalize(x: u64) -> u64 {
    let z1 = (x ^ (x >> 30u64)).wrapping_mul(0xBF58_476D_1CE4_E5B9u64);
    let z2 = (z1 ^ (z1 >> 27u64)).wrapping_mul(0x94D0_49BB_1331_11EBu64);
    z2 ^ (z2 >> 31u64)
}

/// Word `b` of the splitmix64 stream seeded with `seed`.
pub open spec fn splitmix_word(seed: u64, b: nat) -> u64 {
    splitmix_finalize(((seed as nat + (b + 1) * SPLITMIX_GAMMA as nat) % 0x1_0000_0000_0000_0000) as u64)
}

/// The first `len` bytes of the splitmix64 byte stream (each word
/// little-endian) seeded with `seed`.
pub open spec fn synthetic_spec(seed: u64, len: nat) -> Seq<u8> {
    Seq::new(len, |k: int| (splitmix_word(seed, (k / 8) as nat) >> ((8 * (k % 8)) as u64)) as u8)
}

/// `x.wrapping_add(y)` on `u64` is `(x + y) mod 2⁶⁴`.
proof fn lemma_u64_wrapping_add_mod(x: u64, y: u64)
    ensures
        vstd::wrapping::u64_specs::wrapping_add(x, y) as nat == (x as nat + y as nat) % 0x1_0000_0000_0000_0000,
{
    let m = 0x1_0000_0000_0000_0000int;
    if x + y > u64::MAX {
        vstd::arithmetic::div_mod::lemma_fundamental_div_mod_converse(x + y, m, 1, x + y - m);
    } else {
        vstd::arithmetic::div_mod::lemma_small_mod((x + y) as nat, m as nat);
    }
}

/// `2⁶⁴`.
spec fn word_modulus() -> int {
    0x1_0000_0000_0000_0000
}

/// Multiplying by `c` mod `2⁶⁴` and then by `ci` gives back the factor,
/// when `c · ci ≡ 1 (mod 2⁶⁴)`.
proof fn lemma_wrapping_mul_cancel(a: u64, c: u64, ci: u64, k: int)
    requires
        k >= 0,
        c * ci == 1 + k * word_modulus(),
    ensures
        (vstd::wrapping::u64_specs::wrapping_mul(a, c) as int * ci as int) % word_modulus() == a,
{
    let m = word_modulus();
    let w = vstd::wrapping::u64_specs::wrapping_mul(a, c);
    assert(w as int == (a as int * c as int) % m) by {
        vstd::arithmetic::div_mod::lemma_mod_bound(a as int * c as int, m);
    }
    vstd::arithmetic::div_mod::lemma_mul_mod_noop_left(a as int * c as int, ci as int, m);
    assert((a as int * c as int) * ci as int == a as int + (a as int * k) * m) by (nonlinear_arith)
        requires c as int * ci as int == 1 + k * m;
    vstd::arithmetic::div_mod::lemma_mod_multiples_vanish(a as int * k, a as int, m);
    assert(m * (a as int * k) == (a as int * k) * m) by (nonlinear_arith);
    vstd::arithmetic::div_mod::lemma_small_mod(a as nat, m as nat);
}

/// Multiplication mod `2⁶⁴` by an odd constant with inverse `ci` is
/// one-to-one.
proof fn lemma_wrapping_mul_injective(a: u64, b: u64, c: u64, ci: u64, k: int)
    requires
        k >= 0,
        c * ci == 1 + k * word_modulus(),
        vstd::wrapping::u64_specs::wrapping_mul(a, c) == vstd::wrapping::u64_specs::wrapping_mul(b, c),
    ensures
        a == b,
{
    lemma_wrapping_mul_cancel(a, c, ci, k);
    lemma_wrapping_mul_cancel(b, c, ci, k);
}

/// The splitmix64 output function is a bijection on `u64`: distinct
/// states give distinct words.
pub proof fn lemma_splitmix_finalize_injective(x: u64, y: u64)
    requires
        splitmix_finalize(x) == splitmix_finalize(y),
    ensures
        x == y,
{
    let c1 = 0xBF58_476D_1CE4_E5B9u64;
    let c2 = 0x94D0_49BB_1331_11EBu64;
    let x0 = x ^ (x >> 30u64);
    let y0 = y ^ (y >> 30u64);
    let x1 = vstd::wrapping::u64_specs::wrapping_mul(x0, c1);
    let y1 = vstd::wrapping::u64_specs::wrapping_mul(y0, c1);
    let x2 = x1 ^ (x1 >> 27u64);
    let y2 = y1 ^ (y1 >> 27u64);
    let x3 = vstd::wrapping::u64_specs::wrapping_mul(x2, c2);
    let y3 = vstd::wrapping::u64_specs::wrapping_mul(y2, c2);
    assert(x3 ^ (x3 >> 31u64) == y3 ^ (y3 >> 31u64));
    assert((x3 ^ (x3 >> 31u64)) == (y3 ^ (y3 >> 31u64)) ==> x3 == y3) by (bit_vector);
    lemma_wrapping_mul_injective(x2, y2, c2, 0x3196_42B2_D24D_8EC3u64, 2077064247507883091);
    assert((x1 ^ (x1 >> 27u64)) == (y1 ^ (y1 >> 27u64)) ==> x1 == y1) by (bit_vector);
    lemma_wrapping_mul_injective(x0, y0, c1, 0x96DE_1B17_3F11_9089u64, 8125545580553827436);
    assert((x ^ (x >> 30u64)) == (y ^ (y >> 30u64)) ==> x == y) by (bit_vector);
}

/// A `u64` is determined by its eight bytes `(x >> 8t) as u8`.
pub proof fn lemma_u64_bytes_determine(x: u64, y: u64)
    requires
        (x >> 0u64) as u8 == (y >> 0u64) as u8,
        (x >> 8u64) as u8 == (y >> 8u64) as u8,
        (x >> 16u64) as u8 == (y >> 16u64) as u8,
        (x >> 24u64) as u8 == (y >> 24u64) as u8,
        (x >> 32u64) as u8 == (y >> 32u64) as u8,
        (x >> 40u64) as u8 == (y >> 40u64) as u8,
        (x >> 48u64) as u8 == (y >> 48u64) as u8,
        (x >> 56u64) as u8 == (y >> 56u64) as u8,
    ensures
        x == y,
{
    assert(x == y) by (bit_vector)
        requires
            (x >> 0u64) as u8 == (y >> 0u64) as u8,
            (x >> 8u64) as u8 == (y >> 8u64) as u8,
            (x >> 16u64) as u8 == (y >> 16u64) as u8,
            (x >> 24u64) as u8 == (y >> 24u64) as u8,
            (x >> 32u64) as u8 == (y >> 32u64) as u8,
            (x >> 40u64) as u8 == (y >> 40u64) as u8,
            (x >> 48u64) as u8 == (y >> 48u64) as u8,
            (x >> 56u64) as u8 == (y >> 56u64) as u8,
    ;
}

/// The first eight bytes of a synthetic stream are its first word,
/// little-endian.
proof fn lemma_synthetic_first_word(seed: u64, len: nat)
    requires
        len >= 8,
    ensures
        synthetic_spec(seed, len)[0] == (splitmix_word(seed, 0) >> 0u64) as u8,
        synthetic_spec(seed, len)[1] == (splitmix_word(seed, 0) >> 8u64) as u8,
        synthetic_spec(seed, len)[2] == (splitmix_word(seed, 0) >> 16u64) as u8,
        synthetic_spec(seed, len)[3] == (splitmix_word(seed, 0) >> 24u64) as u8,
        synthetic_spec(seed, len)[4] == (splitmix_word(seed, 0) >> 32u64) as u8,
        synthetic_spec(seed, len)[5] == (splitmix_word(seed, 0) >> 40u64) as u8,
        synthetic_spec(seed, len)[6] == (splitmix_word(seed, 0) >> 48u64) as u8,
        synthetic_spec(seed, len)[7] == (splitmix_word(seed, 0) >> 56u64) as u8,
{
}

/// The first word of a synthetic stream determines the seed.
proof fn lemma_splitmix_first_word_injective(s1: u64, s2: u64)
    requires
        splitmix_word(s1, 0) == splitmix_word(s2, 0),
    ensures
        s1 == s2,
{
    let m = word_modulus();
    let x1 = ((s1 as nat + SPLITMIX_GAMMA as nat) % (m as nat)) as u64;
    let x2 = ((s2 as nat + SPLITMIX_GAMMA as nat) % (m as nat)) as u64;
    assert(splitmix_word(s1, 0) == splitmix_finalize(x1));
    assert(splitmix_word(s2, 0) == splitmix_finalize(x2));
    lemma_splitmix_finalize_injective(x1, x2);
    if s1 + SPLITMIX_GAMMA >= m {
        vstd::arithmetic::div_mod::lemma_fundamental_div_mod_converse(s1 + SPLITMIX_GAMMA, m, 1, s1 + SPLITMIX_GAMMA - m);
    } else {
        vstd::arithmetic::div_mod::lemma_small_mod((s1 + SPLITMIX_GAMMA) as nat, m as nat);
    }
    if s2 + SPLITMIX_GAMMA >= m {
        vstd::arithmetic::div_mod::lemma_fundamental_div_mod_converse(s2 + SPLITMIX_GAMMA, m, 1, s2 + SPLITMIX_GAMMA - m);
    } else {
        vstd::arithmetic::div_mod::lemma_small_mod((s2 + SPLITMIX_GAMMA) as nat, m as nat);
    }
}

/// The synthetic value depends on the whole 64-bit seed: two seeds whose
/// streams agree on the first eight bytes are the same seed. (The first
/// word is the splitmix64 output of `seed + γ mod 2⁶⁴`, and both steps are
/// one-to-one.)
pub proof fn lemma_synthetic_seed_injective(s1: u64, s2: u64, len: nat)
    requires
        len >= 8,
        forall|k: int| 0 <= k < 8 ==> #[trigger] synthetic_spec(s1, len)[k] == synthetic_spec(s2, len)[k],
    ensures
        s1 == s2,
{
    lemma_synthetic_first_word(s1, len);
    lemma_synthetic_first_word(s2, len);
    assert(synthetic_spec(s1, len)[0] == synthetic_spec(s2, len)[0]);
    assert(synthetic_spec(s1, len)[1] == synthetic_spec(s2, len)[1]);
    assert(synthetic_spec(s1, len)[2] == synthetic_spec(s2, len)[2]);
    assert(synthetic_spec(s1, len)[3] == synthetic_spec(s2, len)[3]);
    assert(synthetic_spec(s1, len)[4] == synthetic_spec(s2, len)[4]);
    assert(synthetic_spec(s1, len)[5] == synthetic_spec(s2, len)[5]);
    assert(synthetic_spec(s1, len)[6] == synthetic_spec(s2, len)[6]);
    assert(synthetic_spec(s1, len)[7] == synthetic_spec(s2, len)[7]);
    lemma_u64_bytes_determine(splitmix_word(s1, 0), splitmix_word(s2, 0));
    lemma_splitmix_first_word_injective(s1, s2);
}

/// Deterministic synthetic value: a splitmix64 byte stream seeded by the
/// entry's fingerprint, so a recovered value can be checked from the
/// queried key alone.
pub fn synthetic_value(seed: u64, out: &mut [u8])
    ensures
        final(out)@ == synthetic_spec(seed, old(out)@.len()),
{
    let len = out.len();
    let ghost want = synthetic_spec(seed, len as nat);
    let mut x = seed;
    let mut i: usize = 0;
    let ghost mut blk: nat = 0;
    assert(x as nat == (seed as nat + blk * SPLITMIX_GAMMA as nat) % 0x1_0000_0000_0000_0000) by {
        vstd::arithmetic::div_mod::lemma_small_mod(seed as nat, 0x1_0000_0000_0000_0000nat);
    }
    while i < len
        invariant
            len == out@.len(),
            want == synthetic_spec(seed, len as nat),
            i <= len,
            i <= 8 * blk,
            i < len ==> i == 8 * blk,
            x as nat == (seed as nat + blk * SPLITMIX_GAMMA as nat) % 0x1_0000_0000_0000_0000,
            forall|k: int| 0 <= k < i ==> #[trigger] out@[k] == want[k],
        decreases len - i,
    {
        proof {
            lemma_u64_wrapping_add_mod(x, SPLITMIX_GAMMA);
            vstd::arithmetic::div_mod::lemma_add_mod_noop(
                (seed as nat + blk * SPLITMIX_GAMMA as nat) as int, SPLITMIX_GAMMA as int, 0x1_0000_0000_0000_0000int);
            vstd::arithmetic::div_mod::lemma_small_mod(SPLITMIX_GAMMA as nat, 0x1_0000_0000_0000_0000nat);
            vstd::arithmetic::div_mod::lemma_mod_twice((seed as nat + blk * SPLITMIX_GAMMA as nat) as int, 0x1_0000_0000_0000_0000int);
            assert(seed as nat + blk * SPLITMIX_GAMMA as nat + SPLITMIX_GAMMA as nat
                == seed as nat + (blk + 1) * SPLITMIX_GAMMA as nat) by (nonlinear_arith);
        }
        x = x.wrapping_add(SPLITMIX_GAMMA);
        let mut z = x;
        z = (z ^ (z >> 30u64)).wrapping_mul(0xBF58_476D_1CE4_E5B9u64);
        z = (z ^ (z >> 27u64)).wrapping_mul(0x94D0_49BB_1331_11EBu64);
        z = z ^ (z >> 31u64);
        assert(z == splitmix_word(seed, blk));
        let take = if len - i < 8 { len - i } else { 8 };
        let mut t: usize = 0;
        while t < take
            invariant
                len == out@.len(),
                want == synthetic_spec(seed, len as nat),
                i == 8 * blk,
                i + take <= len,
                take <= 8,
                t <= take,
                z == splitmix_word(seed, blk),
                forall|k: int| 0 <= k < i + t ==> #[trigger] out@[k] == want[k],
            decreases take - t,
        {
            proof {
                vstd::arithmetic::div_mod::lemma_fundamental_div_mod_converse((i + t) as int, 8, blk as int, t as int);
            }
            out[i + t] = (z >> (8 * t as u64)) as u8;
            t += 1;
        }
        i = i + take;
        proof {
            blk = blk + 1;
        }
    }
    assert(out@ =~= want);
}

/// The little-endian bytes of `x`.
pub open spec fn le_bytes_spec(x: u64) -> Seq<u8> {
    Seq::new(8, |t: int| (x >> ((8 * t) as u64)) as u8)
}

/// The little-endian bytes of `x` spell `x` in base 256:
/// `x = Σ_{t<8} b[t] · 256^t`. So distinct numbers have distinct bytes.
pub proof fn lemma_le_bytes_value(x: u64)
    ensures
        le_bytes_spec(x).len() == 8,
        x as int == le_bytes_spec(x)[0] as int + 0x100 * le_bytes_spec(x)[1] as int + 0x1_0000 * le_bytes_spec(x)[2] as int
            + 0x100_0000 * le_bytes_spec(x)[3] as int + 0x1_0000_0000 * le_bytes_spec(x)[4] as int
            + 0x100_0000_0000 * le_bytes_spec(x)[5] as int + 0x1_0000_0000_0000 * le_bytes_spec(x)[6] as int
            + 0x100_0000_0000_0000 * le_bytes_spec(x)[7] as int,
{
    let b = le_bytes_spec(x);
    assert(b[0] == (x >> 0u64) as u8);
    assert(b[1] == (x >> 8u64) as u8);
    assert(b[2] == (x >> 16u64) as u8);
    assert(b[3] == (x >> 24u64) as u8);
    assert(b[4] == (x >> 32u64) as u8);
    assert(b[5] == (x >> 40u64) as u8);
    assert(b[6] == (x >> 48u64) as u8);
    assert(b[7] == (x >> 56u64) as u8);
    let b0 = b[0];
    let b1 = b[1];
    let b2 = b[2];
    let b3 = b[3];
    let b4 = b[4];
    let b5 = b[5];
    let b6 = b[6];
    let b7 = b[7];
    assert(x == b0 as u64 + 0x100 * (b1 as u64) + 0x1_0000 * (b2 as u64) + 0x100_0000 * (b3 as u64)
        + 0x1_0000_0000 * (b4 as u64) + 0x100_0000_0000 * (b5 as u64) + 0x1_0000_0000_0000 * (b6 as u64)
        + 0x100_0000_0000_0000 * (b7 as u64)) by (bit_vector)
        requires
            b0 == (x >> 0u64) as u8,
            b1 == (x >> 8u64) as u8,
            b2 == (x >> 16u64) as u8,
            b3 == (x >> 24u64) as u8,
            b4 == (x >> 32u64) as u8,
            b5 == (x >> 40u64) as u8,
            b6 == (x >> 48u64) as u8,
            b7 == (x >> 56u64) as u8,
    ;
}

/// Distinct numbers have distinct little-endian bytes.
pub proof fn lemma_le_bytes_injective(x: u64, y: u64)
    requires
        le_bytes_spec(x) == le_bytes_spec(y),
    ensures
        x == y,
{
    lemma_le_bytes_value(x);
    lemma_le_bytes_value(y);
}

/// `u64::to_le_bytes`.
fn u64_le_bytes(x: u64) -> (b: [u8; 8])
    ensures
        b@ == le_bytes_spec(x),
{
    let mut b = [0u8; 8];
    let mut t: usize = 0;
    while t < 8
        invariant
            t <= 8,
            b@.len() == 8,
            forall|k: int| 0 <= k < t ==> #[trigger] b@[k] == le_bytes_spec(x)[k],
        decreases 8 - t,
    {
        b[t] = (x >> (8 * t as u64)) as u8;
        t += 1;
    }
    assert(b@ =~= le_bytes_spec(x));
    b
}

/// `s` is in strictly increasing order.
pub open spec fn strictly_increasing(s: Seq<u64>) -> bool {
    forall|a: int, b: int| 0 <= a < b < s.len() ==> #[trigger] s[a] < #[trigger] s[b]
}

/// `<[u64]>::sort_unstable`: the same values, in ascending order.
#[verifier::external_body]
fn sort_u64s(v: &mut Vec<u64>)
    ensures
        final(v)@.to_multiset() == old(v)@.to_multiset(),
        forall|a: int, b: int| 0 <= a < b < final(v)@.len() ==> #[trigger] final(v)@[a] <= #[trigger] final(v)@[b],
{
    v.sort_unstable()
}

/// `<[(u64, usize)]>::sort_by_key` on the first component: the same items,
/// ordered by their first component.
#[verifier::external_body]
fn sort_by_first(items: &mut Vec<(u64, usize)>)
    ensures
        final(items)@.to_multiset() == old(items)@.to_multiset(),
        forall|a: int, b: int| 0 <= a < b < final(items)@.len() ==> #[trigger] final(items)@[a].0 <= #[trigger] final(items)@[b].0,
{
    items.sort_by_key(|item| item.0)
}

/// Remove repeated values from a sorted sequence.
fn dedup_sorted(v: &Vec<u64>) -> (out: Vec<u64>)
    requires
        forall|a: int, b: int| 0 <= a < b < v@.len() ==> #[trigger] v@[a] <= #[trigger] v@[b],
    ensures
        strictly_increasing(out@),
        forall|x: u64| out@.contains(x) <==> v@.contains(x),
{
    let mut out: Vec<u64> = Vec::new();
    let mut i: usize = 0;
    while i < v.len()
        invariant
            i <= v@.len(),
            forall|a: int, b: int| 0 <= a < b < v@.len() ==> #[trigger] v@[a] <= #[trigger] v@[b],
            strictly_increasing(out@),
            i == 0 <==> out@.len() == 0,
            i > 0 ==> out@[out@.len() - 1] == v@[i - 1],
            forall|x: u64| out@.contains(x) <==> v@.subrange(0, i as int).contains(x),
        decreases v@.len() - i,
    {
        let x = v[i];
        let ghost before = out@;
        if out.len() == 0 || out[out.len() - 1] != x {
            out.push(x);
            proof {
                if i > 0 {
                    assert(v@[i - 1] <= x);
                }
            }
        }
        proof {
            assert(v@.subrange(0, i + 1) =~= v@.subrange(0, i as int).push(x));
            let sub = v@.subrange(0, i + 1);
            let prev = v@.subrange(0, i as int);
            assert(sub[i as int] == x);
            assert forall|y: u64| out@.contains(y) implies sub.contains(y) by {
                let w = choose|w: int| 0 <= w < out@.len() && #[trigger] out@[w] == y;
                if w < before.len() {
                    assert(before[w] == y);
                    assert(before.contains(y));
                    assert(prev.contains(y));
                    let w1 = choose|w1: int| 0 <= w1 < prev.len() && #[trigger] prev[w1] == y;
                    assert(sub[w1] == y);
                } else {
                    assert(y == x);
                }
            }
            assert forall|y: u64| sub.contains(y) implies out@.contains(y) by {
                let w0 = choose|w: int| 0 <= w < sub.len() && #[trigger] sub[w] == y;
                if w0 < i {
                    assert(prev[w0] == y);
                    assert(prev.contains(y));
                    assert(before.contains(y));
                    let w = choose|w: int| 0 <= w < before.len() && #[trigger] before[w] == y;
                    assert(out@[w] == y);
                } else {
                    assert(y == x);
                    assert(out@[out@.len() - 1] == y);
                }
            }
        }
        i += 1;
    }
    assert(v@.subrange(0, v@.len() as int) =~= v@);
    out
}

/// The hash of synthetic key `i` (its 8 little-endian bytes).
pub open spec fn synthetic_key_hash(i: nat) -> u64 {
    xxh3_64_spec(le_bytes_spec(i as u64))
}

/// The sorted, distinct hashes of the synthetic keys `0..n`.
pub fn synthetic_sorted_hashes(n: usize) -> (hashes: Vec<u64>)
    ensures
        strictly_increasing(hashes@),
        forall|h: u64| hashes@.contains(h) <==> exists|i: nat| i < n && h == #[trigger] synthetic_key_hash(i),
{
    let mut raw: Vec<u64> = Vec::with_capacity(n);
    let mut i: usize = 0;
    while i < n
        invariant
            i <= n,
            raw@.len() == i,
            forall|t: int| 0 <= t < i ==> #[trigger] raw@[t] == synthetic_key_hash(t as nat),
        decreases n - i,
    {
        let key = u64_le_bytes(i as u64);
        let h = hash_key(key.as_slice());
        raw.push(h);
        i += 1;
    }
    let ghost unsorted = raw@;
    sort_u64s(&mut raw);
    let out = dedup_sorted(&raw);
    proof {
        assert forall|h: u64| out@.contains(h) <==> exists|i: nat| i < n && h == #[trigger] synthetic_key_hash(i) by {
            vstd::seq_lib::to_multiset_contains(unsorted, h);
            vstd::seq_lib::to_multiset_contains(raw@, h);
            if exists|i: nat| i < n && h == #[trigger] synthetic_key_hash(i) {
                let i = choose|i: nat| i < n && h == #[trigger] synthetic_key_hash(i);
                assert(unsorted[i as int] == h);
            }
            if unsorted.contains(h) {
                let t = choose|t: int| 0 <= t < unsorted.len() && unsorted[t] == h;
                assert(h == synthetic_key_hash(t as nat));
            }
        }
    }
    out
}

/// The hashed items `(xxh3(key_i), i)` of a list of pairs.
pub open spec fn hashed_items(pairs: Seq<(Vec<u8>, Vec<u8>)>) -> Seq<(u64, usize)> {
    Seq::new(pairs.len(), |i: int| (xxh3_64_spec(pairs[i].0@), i as usize))
}

/// Sort key-value pairs by the hash of their key. Returns the sorted hashes
/// and, for each, the index of its pair; `None` if two keys hash alike.
pub fn sort_pairs_by_hash(pairs: &[(Vec<u8>, Vec<u8>)]) -> (r: Option<(Vec<u64>, Vec<usize>)>)
    ensures
        match r {
            Some((hashes, order)) => {
                &&& hashes@.len() == pairs@.len()
                &&& order@.len() == pairs@.len()
                &&& strictly_increasing(hashes@)
                &&& forall|g: int| 0 <= g < hashes@.len() ==> #[trigger] order@[g] < pairs@.len()
                    && hashes@[g] == xxh3_64_spec(pairs@[order@[g] as int].0@)
                &&& forall|i: usize| i < pairs@.len() ==> #[trigger] order@.contains(i)
                &&& forall|i: int, j: int| 0 <= i < pairs@.len() && 0 <= j < pairs@.len() && i != j
                    ==> #[trigger] xxh3_64_spec(pairs@[i].0@) != #[trigger] xxh3_64_spec(pairs@[j].0@)
            },
            None => exists|i: int, j: int| 0 <= i < pairs@.len() && 0 <= j < pairs@.len() && i != j
                && #[trigger] xxh3_64_spec(pairs@[i].0@) == #[trigger] xxh3_64_spec(pairs@[j].0@),
        },
{
    let n = pairs.len();
    let ghost orig = hashed_items(pairs@);
    let mut items: Vec<(u64, usize)> = Vec::with_capacity(n);
    let mut i: usize = 0;
    while i < n
        invariant
            n == pairs@.len(),
            orig == hashed_items(pairs@),
            i <= n,
            items@ == orig.subrange(0, i as int),
        decreases n - i,
    {
        let h = hash_key(pairs[i].0.as_slice());
        items.push((h, i));
        proof {
            assert(orig.subrange(0, i + 1) =~= orig.subrange(0, i as int).push((h, i)));
        }
        i += 1;
    }
    assert(items@ =~= orig);
    sort_by_first(&mut items);
    proof {
        assert(orig.no_duplicates());
        orig.lemma_multiset_has_no_duplicates();
        vstd::seq_lib::to_multiset_len(orig);
        vstd::seq_lib::to_multiset_len(items@);
        items@.lemma_multiset_has_no_duplicates_conv();
        assert forall|x: (u64, usize)| items@.contains(x) <==> orig.contains(x) by {
            vstd::seq_lib::to_multiset_contains(orig, x);
            vstd::seq_lib::to_multiset_contains(items@, x);
        }
    }
    let mut g: usize = 0;
    while n > 0 && g < n - 1
        invariant
            n == pairs@.len() == items@.len(),
            orig == hashed_items(pairs@),
            items@.no_duplicates(),
            forall|x: (u64, usize)| items@.contains(x) <==> orig.contains(x),
            g <= n,
            forall|a: int| 0 <= a < g && a + 1 < n ==> #[trigger] items@[a].0 != items@[a + 1].0,
            forall|a: int, b: int| 0 <= a < b < items@.len() ==> #[trigger] items@[a].0 <= #[trigger] items@[b].0,
        decreases n - g,
    {
        if items[g].0 == items[g + 1].0 {
            proof {
                let x1 = items@[g as int];
                let x2 = items@[g + 1];
                assert(x1 != x2);
                assert(items@.contains(x1) && items@.contains(x2));
                assert(orig.contains(x1) && orig.contains(x2));
                let i1 = choose|t: int| 0 <= t < orig.len() && orig[t] == x1;
                let i2 = choose|t: int| 0 <= t < orig.len() && orig[t] == x2;
                assert(xxh3_64_spec(pairs@[i1].0@) == xxh3_64_spec(pairs@[i2].0@));
            }
            return None;
        }
        g += 1;
    }
    let mut hashes: Vec<u64> = Vec::with_capacity(n);
    let mut order: Vec<usize> = Vec::with_capacity(n);
    let mut k: usize = 0;
    while k < n
        invariant
            n == pairs@.len() == items@.len(),
            orig == hashed_items(pairs@),
            items@.no_duplicates(),
            forall|x: (u64, usize)| items@.contains(x) <==> orig.contains(x),
            forall|a: int| 0 <= a < n - 1 ==> #[trigger] items@[a].0 != items@[a + 1].0,
            forall|a: int, b: int| 0 <= a < b < items@.len() ==> #[trigger] items@[a].0 <= #[trigger] items@[b].0,
            k <= n,
            hashes@.len() == k,
            order@.len() == k,
            forall|t: int| 0 <= t < k ==> #[trigger] hashes@[t] == items@[t].0,
            forall|t: int| 0 <= t < k ==> #[trigger] order@[t] == items@[t].1,
        decreases n - k,
    {
        let item = items[k];
        hashes.push(item.0);
        order.push(item.1);
        k += 1;
    }
    proof {
        assert forall|a: int, b: int| 0 <= a < b < hashes@.len() implies #[trigger] hashes@[a] < #[trigger] hashes@[b] by {
            assert(items@[a].0 != items@[a + 1].0);
            assert(items@[a].0 <= items@[a + 1].0);
            if a + 1 < b {
                assert(items@[a + 1].0 <= items@[b].0);
            }
        }
        assert forall|t: int| 0 <= t < hashes@.len() implies #[trigger] order@[t] < pairs@.len()
            && hashes@[t] == xxh3_64_spec(pairs@[order@[t] as int].0@) by {
            assert(items@.contains(items@[t]));
            assert(orig.contains(items@[t]));
            let w = choose|w: int| 0 <= w < orig.len() && orig[w] == items@[t];
        }
        assert forall|i: usize| i < pairs@.len() implies #[trigger] order@.contains(i) by {
            assert(orig.contains(orig[i as int]));
            let w = choose|w: int| 0 <= w < items@.len() && items@[w] == orig[i as int];
            assert(order@[w] == i);
        }
        assert forall|i: int, j: int| 0 <= i < pairs@.len() && 0 <= j < pairs@.len() && i != j
            implies #[trigger] xxh3_64_spec(pairs@[i].0@) != #[trigger] xxh3_64_spec(pairs@[j].0@) by {
            assert(order@.contains(i as usize));
            assert(order@.contains(j as usize));
            let a = choose|a: int| 0 <= a < order@.len() && order@[a] == i as usize;
            let b = choose|b: int| 0 <= b < order@.len() && order@[b] == j as usize;
            assert(hashes@[a] == xxh3_64_spec(pairs@[i].0@));
            assert(hashes@[b] == xxh3_64_spec(pairs@[j].0@));
            if a < b {
                assert(hashes@[a] < hashes@[b]);
            } else {
                assert(hashes@[b] < hashes@[a]);
            }
        }
    }
    Some((hashes, order))
}

/// The column covering approximate rank `pos`: `min(pos / data_rows, columns − 1)`.
pub open spec fn rank_column(shape: MatrixShape, pos: int) -> int {
    if pos / (shape.data_rows as int) < shape.columns - 1 {
        pos / (shape.data_rows as int)
    } else {
        shape.columns - 1
    }
}

/// The column to retrieve for approximate rank `pos`.
pub fn column_for_rank(shape: &MatrixShape, pos: usize) -> (col: usize)
    requires
        shape.follows_formula(),
    ensures
        col == rank_column(*shape, pos as int),
        col < shape.columns,
{
    proof {
        crate::params::lemma_shape_invariants(*shape);
    }
    let c = pos / shape.data_rows;
    if c < shape.columns - 1 {
        c
    } else {
        shape.columns - 1
    }
}

/// The repetition padding makes one column enough: when the approximate
/// rank `pos` is within `ε + 1` of the true rank `g` of a stored entry,
/// the column `rank_column(pos)` holds entry `g` (at slot
/// `g − col·data_rows + ε + 1`).
pub proof fn lemma_rank_window(shape: MatrixShape, pos: int, g: int)
    requires
        shape.follows_formula(),
        0 <= g < shape.n,
        0 <= pos,
        g - shape.epsilon - 1 <= pos <= g + shape.epsilon + 1,
    ensures
        0 <= rank_column(shape, pos) < shape.columns,
        0 <= g - rank_column(shape, pos) * shape.data_rows + shape.epsilon + 1 < shape.rows,
{
    crate::params::lemma_shape_invariants(shape);
    let dr = shape.data_rows as int;
    let c = pos / dr;
    let col = rank_column(shape, pos);
    vstd::arithmetic::div_mod::lemma_fundamental_div_mod(pos, dr);
    assert(c >= 0) by (nonlinear_arith)
        requires pos == dr * c + pos % dr, 0 <= pos % dr < dr, pos >= 0;
    if c < shape.columns - 1 {
        assert(col * dr <= pos < col * dr + dr) by (nonlinear_arith)
            requires col == c, pos == dr * c + pos % dr, 0 <= pos % dr < dr;
    } else {
        assert(col * dr <= pos) by (nonlinear_arith)
            requires col == shape.columns - 1, c >= col, pos == dr * c + pos % dr, 0 <= pos % dr, dr >= 0;
        assert(col * dr + dr == shape.columns * shape.data_rows) by (nonlinear_arith)
            requires col == shape.columns - 1, dr == shape.data_rows;
    }
}

/// All the sizes a KPIR^index instance computes fit a `usize` (and its
/// query dimension a `u32`).
pub open spec fn fits_in_memory(shape: MatrixShape, lwe_dim: u32) -> bool {
    &&& encodable(shape)
    &&& shape.columns <= u32::MAX
    &&& shape.columns * lwe_dim <= usize::MAX
    &&& shape.rows * shape.partition * lwe_dim * 4 <= usize::MAX
}

/// KPIR^index server: owns the encoded Row-KOPIR database.
pub struct KpirServer {
    inner: SimplePirServer,
    shape: MatrixShape,
    keys: Ghost<Seq<u64>>,
    values: Ghost<Seq<Seq<u8>>>,
}

impl KpirServer {
    /// The Row-KOPIR server underneath.
    pub closed spec fn backend(self) -> SimplePirServer {
        self.inner
    }

    /// The encoded-database geometry.
    pub closed spec fn geometry(self) -> MatrixShape {
        self.shape
    }

    /// The stored fingerprints, in increasing order.
    pub closed spec fn keys(self) -> Seq<u64> {
        self.keys@
    }

    /// The stored values; `values()[g]` belongs to `keys()[g]`.
    pub closed spec fn values(self) -> Seq<Seq<u8>> {
        self.values@
    }

    /// The database is the repetition encoding of the sorted entries.
    pub open spec fn wf(self) -> bool {
        &&& self.backend().wf()
        &&& fits_in_memory(self.geometry(), self.backend().lwe_params().lwe_dim)
        &&& self.backend().response_len() == self.geometry().rows * self.geometry().partition
        &&& self.backend().query_len() == self.geometry().columns
        &&& self.backend().lwe_params().plaintext_bits == self.geometry().plaintext_bits
        &&& self.keys().len() == self.geometry().n
        &&& strictly_increasing(self.keys())
        &&& !self.keys().contains(empty_fingerprint())
        &&& is_encoding(self.backend().database(), self.geometry(), self.keys(), self.values())
    }

    /// The value stored under fingerprint `want`, or `⊥`.
    pub open spec fn lookup(self, want: u64) -> Option<Seq<u8>> {
        if self.keys().contains(want) {
            Some(self.values()[self.keys().index_of(want)])
        } else {
            None
        }
    }

    /// The encoded-database geometry.
    pub fn shape(&self) -> (s: &MatrixShape)
        ensures
            *s == self.geometry(),
    {
        &self.shape
    }

    /// Answer a query: the online server operation, `ans = D·qu`.
    pub fn answer(&self, qu: &[u32]) -> (ans: Vec<u32>)
        requires
            self.wf(),
            qu@.len() == self.geometry().columns,
        ensures
            ans@ == matvec_spec(zeros(self.backend().response_len()), self.backend().database(), qu@),
    {
        self.inner.answer(qu)
    }

    /// Compute the one-time setup hint `hint = D·A` for the client.
    pub fn setup_hint(&self) -> (h: Hint)
        requires
            self.wf(),
        ensures
            h.wf(),
            is_hint_of(
                h.cells(),
                self.backend().database(),
                a_transposed_spec(
                    self.backend().lwe_params().seed@,
                    self.backend().query_len(),
                    self.backend().lwe_params().lwe_dim as nat,
                ),
                self.backend().response_len(),
                self.backend().query_len(),
                self.backend().lwe_params().lwe_dim as nat,
            ),
            h.response_len() == self.backend().response_len(),
            h.query_len() == self.backend().query_len(),
            h.dim() == self.backend().lwe_params().lwe_dim,
            h.public_seed() == self.backend().lwe_params().seed@,
    {
        proof {
            let s = self.shape;
            let n = self.inner.lwe_params().lwe_dim;
            assert(n * (s.rows * s.partition) <= usize::MAX) by (nonlinear_arith)
                requires s.rows * s.partition * n * 4 <= usize::MAX;
        }
        self.inner.setup()
    }
}

/// KPIR^index client: one Row-KOPIR secret for the encoded database. The
/// key-to-index map that turns a key into its approximate rank lives
/// beside it.
pub struct KpirClient {
    inner: SimplePirClient,
    shape: MatrixShape,
    hint_wire_bytes: usize,
}

impl KpirClient {
    /// The Row-KOPIR client underneath.
    pub closed spec fn backend(self) -> SimplePirClient {
        self.inner
    }

    /// The encoded-database geometry.
    pub closed spec fn geometry(self) -> MatrixShape {
        self.shape
    }

    /// The size of the setup hint on the wire, in bytes.
    pub closed spec fn hint_bytes(self) -> nat {
        self.hint_wire_bytes as nat
    }

    /// The client's secret state matches its geometry.
    pub open spec fn wf(self) -> bool {
        &&& self.backend().wf()
        &&& encodable(self.geometry())
        &&& self.backend().response_len() == self.geometry().rows * self.geometry().partition
        &&& self.backend().query_len() == self.geometry().columns
        &&& self.backend().lwe_params().plaintext_bits == self.geometry().plaintext_bits
    }

    /// The client was set up against `server`: same geometry and LWE
    /// parameters, and its recover offset is `D·(A·s)` for the server's `D`.
    pub open spec fn serves(self, server: KpirServer) -> bool {
        &&& self.geometry() == server.geometry()
        &&& self.backend().lwe_params() == server.backend().lwe_params()
        &&& self.backend().recover_offset() == matvec_spec(
            zeros(server.backend().response_len()),
            server.backend().database(),
            self.backend().query_base(),
        )
        &&& self.hint_bytes() == server.backend().response_len() * server.backend().lwe_params().lwe_dim * 4
    }

    /// Build the query for approximate rank `pos` under the error vector
    /// `e`: privately retrieve the column that covers `pos`.
    pub fn query_for_rank(&self, pos: usize, e: &[u32]) -> (qu: Vec<u32>)
        requires
            self.wf(),
            e@.len() == self.geometry().columns,
        ensures
            qu@ == query_spec(
                self.backend().query_base(),
                e@,
                rank_column(self.geometry(), pos as int),
                delta_spec(self.geometry().plaintext_bits),
            ),
    {
        let col = column_for_rank(&self.shape, pos);
        self.inner.query_with_noise(col, e)
    }

    /// Recover the value for `key` from a server answer, or `None` (`⊥`)
    /// if no slot of the retrieved column carries `key`'s fingerprint.
    pub fn recover(&self, key: &[u8], ans: &[u32]) -> (r: Option<Vec<u8>>)
        requires
            self.wf(),
            ans@.len() == self.geometry().rows * self.geometry().partition,
        ensures
            match r {
                Some(v) => decode_column(
                    recover_spec(ans@, self.backend().recover_offset(), self.geometry().plaintext_bits),
                    self.geometry(),
                    xxh3_64_spec(key@),
                ) == Some(v@),
                None => decode_column(
                    recover_spec(ans@, self.backend().recover_offset(), self.geometry().plaintext_bits),
                    self.geometry(),
                    xxh3_64_spec(key@),
                ) is None,
            },
    {
        let want = hash_key(key);
        let cells = self.inner.recover(ans);
        recover_from_column(&self.shape, want, cells.as_slice())
    }

    /// The encoded-database geometry.
    pub fn shape(&self) -> (s: &MatrixShape)
        ensures
            *s == self.geometry(),
    {
        &self.shape
    }

    /// One-time setup hint download size in bytes (`R · N · 4`).
    pub fn hint_wire_bytes(&self) -> (b: usize)
        ensures
            b == self.hint_bytes(),
    {
        self.hint_wire_bytes
    }
}

/// Keyword PIR is correct. A client set up against a server retrieves,
/// for any fingerprint `want`, exactly what the server stores under it:
/// the stored value when `want` is a stored key whose true rank is within
/// `ε + 1` of the approximate rank `pos` the query was built for, and `⊥`
/// when `want` is not stored — provided the query noise keeps every
/// answer-noise term below `Δ/2`.
pub proof fn lemma_keyword_pir(server: KpirServer, client: KpirClient, e: Seq<u32>, pos: int, want: u64)
    requires
        server.wf(),
        client.wf(),
        client.serves(server),
        e.len() == server.geometry().columns,
        0 <= pos,
        forall|r: int| 0 <= r < server.backend().response_len() ==> -(pow2(
            (31 - server.geometry().plaintext_bits) as nat) as int)
            <= #[trigger] answer_noise(server.backend().database(), e, server.backend().response_len(), r)
            < pow2((31 - server.geometry().plaintext_bits) as nat),
        forall|g: int| 0 <= g < server.keys().len() && server.keys()[g] == want
            ==> g - server.geometry().epsilon - 1 <= pos <= g + server.geometry().epsilon + 1,
    ensures
        decode_column(
            recover_spec(
                matvec_spec(
                    zeros(server.backend().response_len()),
                    server.backend().database(),
                    query_spec(
                        client.backend().query_base(),
                        e,
                        rank_column(client.geometry(), pos),
                        delta_spec(client.geometry().plaintext_bits),
                    ),
                ),
                client.backend().recover_offset(),
                client.geometry().plaintext_bits,
            ),
            client.geometry(),
            want,
        ) == server.lookup(want),
{
    let shape = server.geometry();
    let db = server.backend().database();
    let keys = server.keys();
    let r = (shape.rows * shape.partition) as nat;
    crate::params::lemma_shape_invariants(shape);
    let col = rank_column(shape, pos);
    assert(0 <= col < shape.columns) by (nonlinear_arith)
        requires
            col == (if pos / (shape.data_rows as int) < shape.columns - 1 { pos / (shape.data_rows as int) } else {
                shape.columns - 1 }),
            pos >= 0,
            shape.data_rows >= 1,
            shape.columns >= 1;
    crate::simplepir::backend::lemma_pir_roundtrip(server.backend(), client.backend(), e, col);
    if keys.contains(want) {
        let g = keys.index_of(want);
        assert(0 <= g < keys.len() && keys[g] == want);
        lemma_rank_window(shape, pos, g);
        lemma_lookup_present(db, shape, keys, server.values(), col, g);
    } else {
        lemma_lookup_absent(db, shape, keys, server.values(), col, want);
    }
}

/// Some geometry for these parameters fits in memory (the geometry is
/// unique, see `lemma_shape_unique`).
pub open spec fn geometry_fits(n: nat, value_bytes: nat, epsilon: u32, plaintext_bits: u32, lwe_dim: u32) -> bool {
    exists|s: MatrixShape|
        #![trigger fits_in_memory(s, lwe_dim)]
        s.follows_formula() && s.n == n && s.value_bytes == value_bytes && s.epsilon == epsilon && s.plaintext_bits
            == plaintext_bits && fits_in_memory(s, lwe_dim)
}

/// A geometry that follows the formula needs at least `n · partition`
/// cells, plus the padding slots.
proof fn lemma_shape_size(s: MatrixShape)
    requires
        s.follows_formula(),
        s.plaintext_bits <= 31,
    ensures
        s.partition >= 3,
        s.columns * (s.rows * s.partition) >= s.n * s.partition,
        s.rows * s.partition >= s.rows,
        s.rows >= 3 * s.epsilon + 5,
{
    crate::params::lemma_shape_invariants(s);
    assert(s.partition >= 3) by (nonlinear_arith)
        requires
            s.partition * s.plaintext_bits >= payload_bits_spec(s.value_bytes as int),
            payload_bits_spec(s.value_bytes as int) >= 72,
            s.plaintext_bits <= 31;
    assert(s.columns * (s.rows * s.partition) >= s.n * s.partition) by (nonlinear_arith)
        requires
            s.columns * s.data_rows >= s.n,
            s.rows >= s.data_rows,
            s.partition >= 0,
            s.columns >= 0;
    assert(s.rows * s.partition >= s.rows) by (nonlinear_arith)
        requires s.partition >= 1;
}

/// The geometry for these parameters, if it fits in memory (every size a
/// KPIR^index instance with LWE dimension `lwe_dim` computes fits a
/// `usize`, and its query dimension a `u32`); `None` exactly when no
/// geometry for them does.
pub fn fitting_shape(n: usize, value_bytes: usize, epsilon: u32, plaintext_bits: u32, lwe_dim: u32) -> (r: Option<MatrixShape>)
    requires
        n > 0,
        value_bytes > 0,
        1 <= plaintext_bits <= 31,
    ensures
        match r {
            Some(s) => {
                &&& s.follows_formula()
                &&& s.n == n
                &&& s.value_bytes == value_bytes
                &&& s.epsilon == epsilon
                &&& s.plaintext_bits == plaintext_bits
                &&& fits_in_memory(s, lwe_dim)
            },
            None => !geometry_fits(n as nat, value_bytes as nat, epsilon, plaintext_bits, lwe_dim),
        },
{
    if value_bytes > (usize::MAX - 64) / 8 {
        return None;
    }
    let payload = MatrixShape::payload_bits(value_bytes);
    let partition = crate::params::div_ceil(payload, plaintext_bits as usize);
    let cells = n.checked_mul(partition);
    if cells.is_none() {
        proof {
            assert forall|s: MatrixShape|
                s.follows_formula() && s.n == n && s.value_bytes == value_bytes && s.epsilon == epsilon
                    && s.plaintext_bits == plaintext_bits implies !fits_in_memory(s, lwe_dim) by {
                lemma_shape_size(s);
            }
        }
        return None;
    }
    let eps = epsilon as u64;
    let min_rows: u64 = if (n as u64) >= eps + 2 { n as u64 } else { eps + 2 };
    if (min_rows as u128) + 2 * (eps as u128) + 3 > usize::MAX as u128 {
        proof {
            assert(n * partition <= usize::MAX);
            assert forall|s: MatrixShape|
                s.follows_formula() && s.n == n && s.value_bytes == value_bytes && s.epsilon == epsilon
                    && s.plaintext_bits == plaintext_bits implies !fits_in_memory(s, lwe_dim) by {
                lemma_shape_size(s);
                assert(3 * n <= usize::MAX) by (nonlinear_arith)
                    requires n * s.partition <= usize::MAX, s.partition >= 3;
            }
        }
        return None;
    }
    proof {
        assert(usize::MAX <= u64::MAX);
    }
    let s = MatrixShape::new(n, value_bytes, epsilon, plaintext_bits);
    let r = s.rows.checked_mul(s.partition);
    let fits = match r {
        None => false,
        Some(r) => match s.columns.checked_mul(r) {
            None => false,
            Some(_) => s.columns <= u32::MAX as usize && match s.columns.checked_mul(lwe_dim as usize) {
                None => false,
                Some(_) => match r.checked_mul(lwe_dim as usize) {
                    None => false,
                    Some(rn) => rn.checked_mul(4).is_some(),
                },
            },
        },
    };
    proof {
        crate::params::lemma_shape_invariants(s);
        assert forall|t: MatrixShape|
            t.follows_formula() && t.n == n && t.value_bytes == value_bytes && t.epsilon == epsilon
                && t.plaintext_bits == plaintext_bits implies t == s by {
            crate::params::lemma_shape_unique(s, t);
        }
        if fits_in_memory(s, lwe_dim) {
            let rr = s.rows * s.partition;
            assert(rr <= s.columns * rr) by (nonlinear_arith)
                requires rr >= 0, s.columns >= 1;
            assert(rr * lwe_dim <= rr * lwe_dim * 4) by (nonlinear_arith)
                requires rr >= 0, lwe_dim >= 0;
            assert(r == Some(rr as usize));
            assert(s.columns * lwe_dim <= usize::MAX);
            assert(rr * lwe_dim <= usize::MAX);
            assert(fits);
        }
        if !fits {
            assert forall|t: MatrixShape|
                t.follows_formula() && t.n == n && t.value_bytes == value_bytes && t.epsilon == epsilon
                    && t.plaintext_bits == plaintext_bits implies !fits_in_memory(t, lwe_dim) by {
                assert(t == s);

            }
        }
    }
    if fits {
        Some(s)
    } else {
        None
    }
}

/// Why a setup is refused.
#[derive(Clone, Copy, Debug, PartialEq, Eq)]
pub enum BuildError {
    /// Two distinct keys hash to the same 64-bit fingerprint.
    FingerprintCollision,
    /// A key hashes to `u64::MAX`, the fingerprint that empty slots read
    /// back as.
    ReservedFingerprint,
    /// The encoded database (or a size computed from it) does not fit in
    /// memory.
    TooLarge,
}

/// The server a setup produces: well formed, with the given geometry
/// parameters and LWE parameters, and a client set up against it.
pub open spec fn setup_of(
    server: KpirServer,
    client: KpirClient,
    value_bytes: nat,
    epsilon: u32,
    plaintext_bits: u32,
    lwe_dim: u32,
    seed: [u8; 16],
) -> bool {
    &&& server.wf()
    &&& client.wf()
    &&& client.serves(server)
    &&& server.geometry().value_bytes == value_bytes
    &&& server.geometry().epsilon == epsilon
    &&& server.geometry().plaintext_bits == plaintext_bits
    &&& server.backend().lwe_params() == (SimpleParams { lwe_dim, plaintext_bits, seed })
}

/// Finish a setup: wrap the encoded database in a server and build a
/// client with a fresh secret — the next `lwe_dim` words of `rng` —
/// through the co-located path, which computes
/// the recover offset `hint·s` as `D·(A·s)` without materialising the
/// hint. The hint's on-wire size, `R·N·4` bytes, is recorded.
fn assemble(
    tdb: Vec<u32>,
    keys: Ghost<Seq<u64>>,
    values: Ghost<Seq<Seq<u8>>>,
    shape: MatrixShape,
    lwe_dim: u32,
    seed: [u8; 16],
    rng: &mut StdRng,
) -> (r: (KpirServer, KpirClient))
    requires
        fits_in_memory(shape, lwe_dim),
        lwe_dim > 0,
        keys@.len() == shape.n,
        strictly_increasing(keys@),
        !keys@.contains(empty_fingerprint()),
        is_encoding(tdb@, shape, keys@, values@),
    ensures
        setup_of(r.0, r.1, shape.value_bytes as nat, shape.epsilon, shape.plaintext_bits, lwe_dim, seed),
        r.1.backend().secret() == std_rng_words(*old(rng), lwe_dim as nat),
        *final(rng) == std_rng_after(*old(rng), lwe_dim as nat),
        r.0.geometry() == shape,
        r.0.keys() == keys@,
        r.0.values() == values@,
{
    let params = SimpleParams::new(lwe_dim, shape.plaintext_bits, seed);
    proof {
        crate::params::lemma_shape_invariants(shape);
        assert(shape.rows * shape.partition <= shape.columns * (shape.rows * shape.partition)) by (nonlinear_arith)
            requires shape.rows * shape.partition >= 0, shape.columns >= 1;
    }
    let r = shape.response_dim();
    proof {
        assert(tdb@.len() == r * shape.columns) by (nonlinear_arith)
            requires tdb@.len() == shape.columns * (shape.rows * shape.partition), r == shape.rows * shape.partition;
    }
    let ghost cells = tdb@;
    let inner = SimplePirServer::from_transposed_db(tdb, r, shape.columns, params);
    let hint_wire_bytes = r * lwe_dim as usize * 4;
    let client_inner = SimplePirClient::with_local_server(&inner, rng);
    let server = KpirServer { inner, shape, keys, values };
    let client = KpirClient { inner: client_inner, shape, hint_wire_bytes };
    proof {
        assert(forall|i: int| 0 <= i < cells.len() ==> #[trigger] cells[i] < modulus_spec(shape.plaintext_bits));
    }
    (server, client)
}

/// The hashes of the synthetic keys `0..n`.
pub open spec fn synthetic_hashes(n: nat) -> Set<u64> {
    Set::new(|h: u64| exists|i: nat| i < n && h == #[trigger] synthetic_key_hash(i))
}

/// Set up KPIR^index over a synthetic database of `n` key-value pairs: the
/// keys are `0..n` (their 8 little-endian bytes), and each value is the
/// splitmix64 stream seeded by the key's hash (`synthetic_value`). No
/// plaintext database is materialised.
///
/// `ReservedFingerprint` exactly when a key hashes to `u64::MAX`;
/// otherwise `TooLarge` exactly when the geometry for the distinct key
/// hashes does not fit in memory. On an error `rng` is untouched; on
/// success the client's secret is the next `lwe_dim` words of `rng`.
pub fn build_synthetic(
    n: usize,
    value_bytes: usize,
    epsilon: u32,
    plaintext_bits: u32,
    lwe_dim: u32,
    seed: [u8; 16],
    rng: &mut StdRng,
) -> (r: Result<(KpirServer, KpirClient), BuildError>)
    requires
        n > 0,
        value_bytes > 0,
        1 <= plaintext_bits <= 31,
        lwe_dim > 0,
    ensures
        match r {
            Ok((server, client)) => {
                &&& setup_of(server, client, value_bytes as nat, epsilon, plaintext_bits, lwe_dim, seed)
                &&& client.backend().secret() == std_rng_words(*old(rng), lwe_dim as nat)
                &&& *final(rng) == std_rng_after(*old(rng), lwe_dim as nat)
                &&& server.keys().to_set() == synthetic_hashes(n as nat)
                &&& forall|i: nat| i < n ==> #[trigger] server.lookup(synthetic_key_hash(i)) == Some(
                    synthetic_spec(synthetic_key_hash(i), value_bytes as nat),
                )
            },
            Err(BuildError::FingerprintCollision) => false,
            Err(BuildError::ReservedFingerprint) => synthetic_hashes(n as nat).contains(empty_fingerprint()),
            Err(BuildError::TooLarge) => {
                &&& !synthetic_hashes(n as nat).contains(empty_fingerprint())
                &&& forall|hs: Seq<u64>| strictly_increasing(hs) && hs.to_set() == synthetic_hashes(n as nat)
                    ==> !#[trigger] geometry_fits(hs.len(), value_bytes as nat, epsilon, plaintext_bits, lwe_dim)
            },
        },
        r is Err ==> *final(rng) == *old(rng),
{
    let hashes = synthetic_sorted_hashes(n);
    proof {
        assert(hashes@.to_set() =~= synthetic_hashes(n as nat)) by {
            assert forall|h: u64| hashes@.to_set().contains(h) <==> synthetic_hashes(n as nat).contains(h) by {
                assert(hashes@.to_set().contains(h) <==> hashes@.contains(h));
            }
        }
        assert(synthetic_hashes(n as nat).contains(synthetic_key_hash(0)));
        assert(hashes@.contains(synthetic_key_hash(0)));
    }
    let m = hashes.len();
    proof {
        lemma_increasing_contains_max(hashes@);
        assert(hashes@.to_set().contains(empty_fingerprint()) <==> hashes@.contains(empty_fingerprint()));
    }
    if hashes[m - 1] == u64::MAX {
        return Err(BuildError::ReservedFingerprint);
    }
    let shape = match fitting_shape(m, value_bytes, epsilon, plaintext_bits, lwe_dim) {
        Some(s) => s,
        None => {
            proof {
                assert forall|hs: Seq<u64>| strictly_increasing(hs) && hs.to_set() == synthetic_hashes(n as nat)
                    implies !#[trigger] geometry_fits(hs.len(), value_bytes as nat, epsilon, plaintext_bits, lwe_dim) by {
                    lemma_increasing_same_set(hs, hashes@);
                }
            }
            return Err(BuildError::TooLarge);
        },
    };
    let src = ValueSource::Synthetic;
    let tdb = encode_tdb(hashes.as_slice(), &shape, &src);
    let ghost values = entry_values(src, hashes@, value_bytes as nat);
    let (server, client) = assemble(tdb, Ghost(hashes@), Ghost(values), shape, lwe_dim, seed, rng);
    proof {
        assert forall|i: nat| i < n implies #[trigger] server.lookup(synthetic_key_hash(i)) == Some(
            synthetic_spec(synthetic_key_hash(i), value_bytes as nat),
        ) by {
            let h = synthetic_key_hash(i);
            assert(synthetic_hashes(n as nat).contains(h));
            assert(hashes@.to_set().contains(h));
            assert(hashes@.contains(h));
            let g = hashes@.index_of(h);
            assert(0 <= g < hashes@.len() && hashes@[g] == h);
        }
    }
    Ok((server, client))
}

/// Set up KPIR^index over explicit key-value pairs. Values are truncated or
/// zero-padded to `value_bytes`.
///
/// `FingerprintCollision` exactly when two distinct pairs' keys hash alike;
/// otherwise `ReservedFingerprint` exactly when a key hashes to `u64::MAX`;
/// otherwise `TooLarge` exactly when the geometry for `pairs.len()` entries
/// does not fit in memory. On an error `rng` is untouched; on success the
/// client's secret is the next `lwe_dim` words of `rng`.
pub fn build_from_pairs(
    pairs: &[(Vec<u8>, Vec<u8>)],
    value_bytes: usize,
    epsilon: u32,
    plaintext_bits: u32,
    lwe_dim: u32,
    seed: [u8; 16],
    rng: &mut StdRng,
) -> (r: Result<(KpirServer, KpirClient), BuildError>)
    requires
        pairs@.len() > 0,
        value_bytes > 0,
        1 <= plaintext_bits <= 31,
        lwe_dim > 0,
    ensures
        match r {
            Ok((server, client)) => {
                &&& setup_of(server, client, value_bytes as nat, epsilon, plaintext_bits, lwe_dim, seed)
                &&& client.backend().secret() == std_rng_words(*old(rng), lwe_dim as nat)
                &&& *final(rng) == std_rng_after(*old(rng), lwe_dim as nat)
                &&& server.geometry().n == pairs@.len()
                &&& forall|h: u64| #[trigger] server.keys().contains(h) <==> exists|i: int|
                    0 <= i < pairs@.len() && h == #[trigger] xxh3_64_spec(pairs@[i].0@)
                &&& forall|i: int| 0 <= i < pairs@.len() ==> #[trigger] server.lookup(xxh3_64_spec(pairs@[i].0@))
                    == Some(pad_value(pairs@[i].1@, value_bytes as nat))
            },
            Err(BuildError::FingerprintCollision) => exists|i: int, j: int|
                0 <= i < pairs@.len() && 0 <= j < pairs@.len() && i != j && #[trigger] xxh3_64_spec(pairs@[i].0@)
                    == #[trigger] xxh3_64_spec(pairs@[j].0@),
            Err(BuildError::ReservedFingerprint) => {
                &&& forall|i: int, j: int| 0 <= i < pairs@.len() && 0 <= j < pairs@.len() && i != j
                    ==> #[trigger] xxh3_64_spec(pairs@[i].0@) != #[trigger] xxh3_64_spec(pairs@[j].0@)
                &&& exists|i: int| 0 <= i < pairs@.len() && #[trigger] xxh3_64_spec(pairs@[i].0@) == empty_fingerprint()
            },
            Err(BuildError::TooLarge) => {
                &&& forall|i: int, j: int| 0 <= i < pairs@.len() && 0 <= j < pairs@.len() && i != j
                    ==> #[trigger] xxh3_64_spec(pairs@[i].0@) != #[trigger] xxh3_64_spec(pairs@[j].0@)
                &&& forall|i: int| 0 <= i < pairs@.len() ==> #[trigger] xxh3_64_spec(pairs@[i].0@) != empty_fingerprint()
                &&& !geometry_fits(pairs@.len(), value_bytes as nat, epsilon, plaintext_bits, lwe_dim)
            },
        },
        r is Err ==> *final(rng) == *old(rng),
{
    let (hashes, order) = match sort_pairs_by_hash(pairs) {
        Some(sorted) => sorted,
        None => {
            return Err(BuildError::FingerprintCollision);
        },
    };
    let n = pairs.len();
    proof {
        lemma_increasing_contains_max(hashes@);
        if exists|i: int| 0 <= i < pairs@.len() && #[trigger] xxh3_64_spec(pairs@[i].0@) == empty_fingerprint() {
            let i = choose|i: int| 0 <= i < pairs@.len() && #[trigger] xxh3_64_spec(pairs@[i].0@) == empty_fingerprint();
            assert(order@.contains(i as usize));
            let g = choose|g: int| 0 <= g < order@.len() && order@[g] == i as usize;
            assert(hashes@[g] == empty_fingerprint());
        }
        if hashes@.contains(empty_fingerprint()) {
            let g = choose|g: int| 0 <= g < hashes@.len() && hashes@[g] == empty_fingerprint();
            assert(xxh3_64_spec(pairs@[order@[g] as int].0@) == empty_fingerprint());
        }
    }
    if hashes[n - 1] == u64::MAX {
        return Err(BuildError::ReservedFingerprint);
    }
    let shape = match fitting_shape(n, value_bytes, epsilon, plaintext_bits, lwe_dim) {
        Some(s) => s,
        None => {
            return Err(BuildError::TooLarge);
        },
    };
    let src = ValueSource::Pairs(pairs, order.as_slice());
    let tdb = encode_tdb(hashes.as_slice(), &shape, &src);
    let ghost values = entry_values(src, hashes@, value_bytes as nat);
    let (server, client) = assemble(tdb, Ghost(hashes@), Ghost(values), shape, lwe_dim, seed, rng);
    proof {
        assert forall|h: u64| #[trigger] server.keys().contains(h) <==> exists|i: int|
            0 <= i < pairs@.len() && h == #[trigger] xxh3_64_spec(pairs@[i].0@) by {
            if server.keys().contains(h) {
                let g = choose|g: int| 0 <= g < hashes@.len() && hashes@[g] == h;
                let i = order@[g] as int;
                assert(h == xxh3_64_spec(pairs@[i].0@));
            }
            if exists|i: int| 0 <= i < pairs@.len() && h == #[trigger] xxh3_64_spec(pairs@[i].0@) {
                let i = choose|i: int| 0 <= i < pairs@.len() && h == #[trigger] xxh3_64_spec(pairs@[i].0@);
                assert(order@.contains(i as usize));
                let g = choose|g: int| 0 <= g < order@.len() && order@[g] == i as usize;
                assert(hashes@[g] == h);
            }
        }
        assert forall|i: int| 0 <= i < pairs@.len() implies #[trigger] server.lookup(xxh3_64_spec(pairs@[i].0@))
            == Some(pad_value(pairs@[i].1@, value_bytes as nat)) by {
            let h = xxh3_64_spec(pairs@[i].0@);
            assert(order@.contains(i as usize));
            let g = choose|g: int| 0 <= g < order@.len() && order@[g] == i as usize;
            assert(hashes@[g] == h);
            assert(hashes@.contains(h));
            let g2 = hashes@.index_of(h);
            assert(0 <= g2 < hashes@.len() && hashes@[g2] == h);
            if g2 < g {
                assert(hashes@[g2] < hashes@[g]);
            } else if g < g2 {
                assert(hashes@[g] < hashes@[g2]);
            }
        }
    }
    Ok((server, client))
}

/// A strictly increasing sequence holds `u64::MAX` only as its last item.
proof fn lemma_increasing_contains_max(s: Seq<u64>)
    requires
        strictly_increasing(s),
        s.len() > 0,
    ensures
        s.contains(empty_fingerprint()) <==> s[s.len() - 1] == empty_fingerprint(),
{
    if s.contains(empty_fingerprint()) {
        let k = choose|k: int| 0 <= k < s.len() && s[k] == empty_fingerprint();
        if k < s.len() - 1 {
            assert(s[k] < s[s.len() - 1]);
        }
    }
}

/// A strictly increasing sequence has as many items as its set of values.
proof fn lemma_increasing_unique_to_set(s: Seq<u64>)
    requires
        strictly_increasing(s),
    ensures
        s.no_duplicates(),
        s.to_set().len() == s.len(),
{
    assert forall|a: int, b: int| 0 <= a < s.len() && 0 <= b < s.len() && a != b implies s[a] != s[b] by {
        if a < b {
            assert(s[a] < s[b]);
        } else {
            assert(s[b] < s[a]);
        }
    }
    s.unique_seq_to_set();
}

/// Two strictly increasing sequences with the same values have the same
/// length.
proof fn lemma_increasing_same_set(a: Seq<u64>, b: Seq<u64>)
    requires
        strictly_increasing(a),
        strictly_increasing(b),
        a.to_set() == b.to_set(),
    ensures
        a.len() == b.len(),
{
    lemma_increasing_unique_to_set(a);
    lemma_increasing_unique_to_set(b);
}

} // verus!
