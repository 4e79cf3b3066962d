//! Sampling primitives for the SimplePIR backend.
//!
//! The public LWE matrix `A` is expanded from a 16-byte seed with ChaCha20
//! (the seed zero-padded to 32 bytes), so server and client expand the same
//! `A` without shipping it. The secret is drawn uniformly over `Z_q` from
//! the caller's generator.
use vstd::prelude::*;
use rand::rngs::StdRng;
use rand::{RngCore, SeedableRng};
use rand_chacha::ChaCha20Rng;

verus! {

#[verifier::external_type_specification]
#[verifier::external_body]
pub struct ExChaCha20Rng(ChaCha20Rng);

#[verifier::external_type_specification]
#[verifier::external_body]
pub struct ExStdRng(StdRng);

/// The `index`-th 32-bit word that a ChaCha20 generator seeded with `seed`
/// hands out through `next_u32`.
pub uninterp spec fn chacha20_word(seed: Seq<u8>, index: nat) -> u32;

/// A ChaCha20 generator together with the seed it was built from and the
/// number of words drawn from it so far.
pub struct ChaChaWords {
    rng: ChaCha20Rng,
    seed: Ghost<Seq<u8>>,
    drawn: Ghost<nat>,
}

impl ChaChaWords {
    /// The 32-byte seed of the generator.
    pub closed spec fn seed(self) -> Seq<u8> {
        self.seed@
    }

    /// How many words have been drawn so far.
    pub closed spec fn drawn(self) -> nat {
        self.drawn@
    }
}

/// `ChaCha20Rng::from_seed`: a fresh generator for the 32-byte seed.
#[verifier::external_body]
fn chacha20_from_seed(seed: [u8; 32]) -> (w: ChaChaWords)
    ensures
        w.seed() == seed@,
        w.drawn() == 0,
{
    ChaChaWords { rng: ChaCha20Rng::from_seed(seed), seed: Ghost(seed@), drawn: Ghost(0) }
}

/// `ChaCha20Rng::next_u32`: the generator's next word. The stream of words
/// is a function of the seed alone; the contract names it by the seed and
/// the position (`rand_chacha` documents the word position of the stream).
#[verifier::external_body]
fn chacha20_next_u32(words: &mut ChaChaWords) -> (w: u32)
    ensures
        w == chacha20_word(old(words).seed(), old(words).drawn()),
        final(words).seed() == old(words).seed(),
        final(words).drawn() == old(words).drawn() + 1,
{
    words.rng.next_u32()
}

/// What one `StdRng::next_u32` does to a generator in state `rng`: the
/// word it hands out and the state it leaves.
pub uninterp spec fn std_rng_step(rng: StdRng) -> (u32, StdRng);

/// `StdRng::next_u32`: the generator (a seeded block PRNG) hands out the
/// next word of its stream and advances. The word and the new state are a
/// function of the generator's state alone; the contract names that
/// function and says nothing of which word it is.
#[verifier::external_body]
fn std_rng_next_u32(rng: &mut StdRng) -> (w: u32)
    ensures
        (w, *final(rng)) == std_rng_step(*old(rng)),
{
    rng.next_u32()
}

/// The state of a generator in state `rng` after `n` draws.
pub open spec fn std_rng_after(rng: StdRng, n: nat) -> StdRng
    decreases n,
{
    if n == 0 {
        rng
    } else {
        std_rng_step(std_rng_after(rng, (n - 1) as nat)).1
    }
}

/// The first `n` words drawn from a generator in state `rng`.
pub open spec fn std_rng_words(rng: StdRng, n: nat) -> Seq<u32>
    decreases n,
{
    if n == 0 {
        Seq::empty()
    } else {
        std_rng_words(rng, (n - 1) as nat).push(std_rng_step(std_rng_after(rng, (n - 1) as nat)).0)
    }
}

/// The 16-byte public seed zero-padded to the 32-byte ChaCha20 seed.
pub open spec fn padded_seed(seed: Seq<u8>) -> Seq<u8> {
    seed + Seq::new(16, |i: int| 0u8)
}

/// The ChaCha20 key is the public seed followed by sixteen zero bytes, so
/// distinct seeds give distinct keys.
pub proof fn lemma_padded_seed(seed: Seq<u8>, other: Seq<u8>)
    requires
        seed.len() == 16,
        other.len() == 16,
    ensures
        padded_seed(seed).len() == 32,
        forall|i: int| 0 <= i < 16 ==> #[trigger] padded_seed(seed)[i] == seed[i],
        forall|i: int| 16 <= i < 32 ==> #[trigger] padded_seed(seed)[i] == 0u8,
        padded_seed(seed) == padded_seed(other) ==> seed == other,
{
    if padded_seed(seed) == padded_seed(other) {
        assert forall|i: int| 0 <= i < 16 implies seed[i] == other[i] by {
            assert(padded_seed(seed)[i] == padded_seed(other)[i]);
        }
        assert(seed =~= other);
    }
}

/// `Aᵀ` for the public matrix `A ∈ Z_q^{C×N}`, in row-major `N × C` shape:
/// cell `k·C + c` is `A[c][k]`, the successive words of the seeded stream.
pub open spec fn a_transposed_spec(seed: Seq<u8>, cols: nat, lwe_dim: nat) -> Seq<u32> {
    Seq::new(cols * lwe_dim, |i: int| chacha20_word(padded_seed(seed), i as nat))
}

/// A ChaCha20 generator seeded by the 16-byte seed zero-padded to 32 bytes.
fn rng_from_seed(seed: &[u8; 16]) -> (w: ChaChaWords)
    ensures
        w.seed() == padded_seed(seed@),
        w.drawn() == 0,
{
    let mut padded = [0u8; 32];
    let mut i: usize = 0;
    while i < 16
        invariant
            0 <= i <= 16,
            padded@.len() == 32,
            forall|t: int| 0 <= t < i ==> padded@[t] == seed@[t],
            forall|t: int| 16 <= t < 32 ==> padded@[t] == 0u8,
        decreases 16 - i,
    {
        padded[i] = seed[i];
        i += 1;
    }
    assert(padded@ =~= padded_seed(seed@));
    chacha20_from_seed(padded)
}

/// Sample `Aᵀ`, the transpose of the public matrix `A ∈ Z_q^{C×N}`, in
/// row-major `N × C` shape (`out[k·cols + c] = A[c][k]`). Deterministic in
/// `(seed, cols, lwe_dim)`.
pub fn sample_a_transposed(seed: &[u8; 16], cols: u32, lwe_dim: u32) -> (out: Vec<u32>)
    requires
        cols * lwe_dim <= usize::MAX,
    ensures
        out@ == a_transposed_spec(seed@, cols as nat, lwe_dim as nat),
{
    let len = cols as usize * lwe_dim as usize;
    let mut rng = rng_from_seed(seed);
    let mut out: Vec<u32> = Vec::with_capacity(len);
    let mut i: usize = 0;
    while i < len
        invariant
            len == cols * lwe_dim,
            i <= len,
            out@.len() == i,
            rng.seed() == padded_seed(seed@),
            rng.drawn() == i,
            forall|t: int| 0 <= t < i ==> out@[t] == chacha20_word(padded_seed(seed@), t as nat),
        decreases len - i,
    {
        let w = chacha20_next_u32(&mut rng);
        out.push(w);
        i += 1;
    }
    assert(out@ =~= a_transposed_spec(seed@, cols as nat, lwe_dim as nat));
    out
}

/// `n` draws give `n` words.
pub proof fn lemma_std_rng_words_len(rng: StdRng, n: nat)
    ensures
        std_rng_words(rng, n).len() == n,
    decreases n,
{
    if n > 0 {
        lemma_std_rng_words_len(rng, (n - 1) as nat);
    }
}

/// Fill `dst` with uniform `Z_q` samples (`q = 2³²`) from `rng` — the
/// SimplePIR secret distribution `s ← Z_q^N`.
pub fn sample_uniform_zq_into(rng: &mut StdRng, dst: &mut [u32])
    ensures
        final(dst)@.len() == old(dst)@.len(),
        final(dst)@ == std_rng_words(*old(rng), old(dst)@.len()),
        *final(rng) == std_rng_after(*old(rng), old(dst)@.len()),
{
    let ghost r0 = *rng;
    let n = dst.len();
    let mut i: usize = 0;
    while i < n
        invariant
            dst@.len() == n,
            i <= n,
            *rng == std_rng_after(r0, i as nat),
            dst@.subrange(0, i as int) == std_rng_words(r0, i as nat),
        decreases n - i,
    {
        let ghost before = dst@;
        let w = std_rng_next_u32(rng);
        dst[i] = w;
        proof {
            assert(dst@.subrange(0, i + 1) =~= before.subrange(0, i as int).push(w));
        }
        i += 1;
    }
    assert(dst@.subrange(0, n as int) =~= dst@);
}

} // verus!
