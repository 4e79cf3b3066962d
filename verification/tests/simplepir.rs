use kpir_index::simplepir::arith::round_q_to_p;
use kpir_index::simplepir::backend::{SimplePirClient, SimplePirServer};
use kpir_index::simplepir::matvec::{block_pass, matvec_accumulate};
use kpir_index::simplepir::params::SimpleParams;
use kpir_index::simplepir::sampler::sample_a_transposed;
use rand::rngs::StdRng;
use rand::{RngCore, SeedableRng};
use rand_chacha::ChaCha20Rng;

fn params(plaintext_bits: u32) -> SimpleParams {
    SimpleParams::new(1275, plaintext_bits, [0u8; 16])
}

/// Exact multiples of Δ round to their plaintext, for every m ∈ [0,p).
#[test]
fn exact_multiples_roundtrip() {
    let p = params(8);
    let delta = p.delta();
    for m in 0..p.plaintext_modulus() {
        assert_eq!(round_q_to_p(m.wrapping_mul(delta), &p), m);
    }
}

/// Small ± noise (up to just under Δ/2) still decodes correctly,
/// including the modular wrap at m = p−1.
#[test]
fn tolerates_noise_below_half_delta() {
    let p = params(8);
    let delta = p.delta();
    let noises: [i64; 5] = [-(delta as i64 / 2 - 1), -1000, 0, 1000, delta as i64 / 2 - 1];
    for m in [0u32, 1, 127, 200, 255] {
        for &noise in &noises {
            let x = (m.wrapping_mul(delta) as i64 + noise) as u32;
            assert_eq!(round_q_to_p(x, &p), m, "m={m} noise={noise}");
        }
    }
}

/// Matches the byte recovery rule for plaintext_bits = 8.
#[test]
fn matches_mpc4j_byte_recovery() {
    let p = params(8);
    for raw in [0u32, 0x0080_0000, 0x00FF_FFFF, 0x7F80_0000, 0xFF80_0000] {
        let byte_rule = if raw & 0x0080_0000 > 0 {
            (raw >> 24).wrapping_add(1) & 0xff
        } else {
            (raw >> 24) & 0xff
        };
        assert_eq!(round_q_to_p(raw, &p), byte_rule, "raw={raw:#010x}");
    }
}

/// Rounding at other widths: Δ = 2^(32−pt), p = 2^pt.
#[test]
fn round_at_wide_plaintext() {
    let p = params(14);
    assert_eq!(p.delta(), 1 << 18);
    assert_eq!(p.plaintext_modulus(), 1 << 14);
    assert_eq!(round_q_to_p((5 << 18) + (1 << 17) - 1, &p), 5);
    assert_eq!(round_q_to_p((5 << 18) + (1 << 17), &p), 6);
    assert_eq!(round_q_to_p(u32::MAX, &p), 0);
}

fn fill_pseudorandom(buf: &mut [u32], mut state: u32) {
    for cell in buf {
        state ^= state << 13;
        state ^= state >> 17;
        state ^= state << 5;
        *cell = state;
    }
}

fn naive(acc: &mut [u32], d: &[u32], q: &[u32]) {
    let width = acc.len();
    for (i, &qi) in q.iter().enumerate() {
        for j in 0..width {
            acc[j] = acc[j].wrapping_add(qi.wrapping_mul(d[i * width + j]));
        }
    }
}

#[test]
fn matches_naive_across_shapes_u32() {
    let shapes = [(1usize, 1usize), (7, 3), (16, 29), (33, 128), (129, 129), (100, 517), (65, 1024), (5, 2049), (3, 208)];
    for (n, width) in shapes {
        let mut d = vec![0u32; n * width];
        let mut q = vec![0u32; n];
        fill_pseudorandom(&mut d, 0xC0FF_EE00 ^ ((n as u32) << 12) ^ width as u32);
        fill_pseudorandom(&mut q, 0xBEEF_0000 | width as u32);

        let mut expected = vec![0u32; width];
        naive(&mut expected, &d, &q);
        let mut got = vec![0u32; width];
        matvec_accumulate(&mut got, &d, &q);
        assert_eq!(got, expected, "u32 mismatch at n={n} width={width}");
    }
}

#[test]
fn matches_naive_bounded_cells() {
    let shapes = [(16usize, 40usize), (129, 129), (73, 264), (43, 1032)];
    for (n, width) in shapes {
        let mut d = vec![0u32; n * width];
        let mut q = vec![0u32; n];
        fill_pseudorandom(&mut d, 0x51A7_0000 ^ width as u32);
        fill_pseudorandom(&mut q, 0x0DD0_0000 | n as u32);
        for cell in &mut d {
            *cell &= 0x1ff;
        }
        let mut expected = vec![0u32; width];
        naive(&mut expected, &d, &q);
        let mut got = vec![0u32; width];
        matvec_accumulate(&mut got, &d, &q);
        assert_eq!(got, expected, "bounded-cell mismatch at n={n} width={width}");
    }
}

#[test]
fn accumulates_in_place() {
    let (n, width) = (10usize, 40usize);
    let mut d = vec![0u32; n * width];
    let mut q = vec![0u32; n];
    fill_pseudorandom(&mut d, 0x1234_5678);
    fill_pseudorandom(&mut q, 0x9ABC_DEF0);
    let mut base = vec![0u32; width];
    fill_pseudorandom(&mut base, 0x0F0F_0F0F);
    let mut expected = base.clone();
    naive(&mut expected, &d, &q);
    let mut got = base;
    matvec_accumulate(&mut got, &d, &q);
    assert_eq!(got, expected);
}

#[test]
fn empty_inputs_are_noops() {
    let mut acc: [u32; 0] = [];
    matvec_accumulate(&mut acc, &[] as &[u32], &[1, 2, 3]);

    let mut acc = [7u32, 8];
    matvec_accumulate(&mut acc, &[] as &[u32], &[]);
    assert_eq!(acc, [7, 8]);
}

/// A 2×2 product by hand: `acc[j] += Σ_i q[i]·d[i·2 + j]` mod 2³².
#[test]
fn matvec_by_hand() {
    let mut acc = [1u32, 2];
    matvec_accumulate(&mut acc, &[3, 4, 5, u32::MAX], &[10, 2]);
    assert_eq!(acc, [1 + 30 + 10, 2u32.wrapping_add(40).wrapping_add(u32::MAX.wrapping_mul(2))]);
}

#[test]
fn sampler_sample_a_determinism_and_shape() {
    let seed = [0x42u8; 16];
    let a1 = sample_a_transposed(&seed, 7, 1275);
    let a2 = sample_a_transposed(&seed, 7, 1275);
    assert_eq!(a1, a2);
    assert_eq!(a1.len(), 7 * 1275);
}

/// `A` is the ChaCha20 word stream of the zero-padded seed, in order.
#[test]
fn sample_a_is_the_chacha_stream() {
    let seed = [0x42u8; 16];
    let mut padded = [0u8; 32];
    padded[..16].copy_from_slice(&seed);
    let mut rng = ChaCha20Rng::from_seed(padded);
    let want: Vec<u32> = (0..3 * 5).map(|_| rng.next_u32()).collect();
    assert_eq!(sample_a_transposed(&seed, 3, 5), want);
    assert_ne!(sample_a_transposed(&[0x43u8; 16], 3, 5), want);
}

/// Noise in `{−2, …, 2}` (two's complement), one cell per column.
fn small_noise(rng: &mut StdRng, cols: usize) -> Vec<u32> {
    (0..cols).map(|_| ((rng.next_u32() % 5) as i32 - 2) as u32).collect()
}

/// A random column is recovered exactly through the full
/// setup → keygen → query → answer → recover pipeline.
#[test]
fn recovers_selected_column() {
    let mut rng = StdRng::seed_from_u64(0xA11CE);
    let (rows, cols) = (170usize, 211usize);
    let mut tdb = vec![0u32; rows * cols];
    for c in tdb.iter_mut() {
        *c = rng.next_u32() & 0xff;
    }
    let d = |r: usize, c: usize| tdb[c * rows + r];

    let params = SimpleParams::new(512, 8, [7u8; 16]);
    let server = SimplePirServer::from_transposed_db(tdb.clone(), rows, cols, params);
    let hint = server.setup();
    let client = SimplePirClient::new(&hint, params, &mut rng);

    for &col in &[0usize, 1, 57, 128, cols - 1] {
        let e = small_noise(&mut rng, cols);
        let qu = client.query_with_noise(col, &e);
        let ans = server.answer(&qu);
        let got = client.recover(&ans);
        let want: Vec<u32> = (0..rows).map(|r| d(r, col)).collect();
        assert_eq!(got, want, "column {col} mismatch");
    }
}

/// Recovers a wider plaintext (`p = 2^10`) exactly.
#[test]
fn recovers_wide_plaintext() {
    let mut rng = StdRng::seed_from_u64(0xD00D);
    let (rows, cols) = (64usize, 96usize);
    let pb = 10u32;
    let p = 1u32 << pb;
    let mut tdb = vec![0u32; rows * cols];
    for c in tdb.iter_mut() {
        *c = rng.next_u32() % p;
    }
    let d = |r: usize, c: usize| tdb[c * rows + r];
    let params = SimpleParams::new(512, pb, [2u8; 16]);
    let server = SimplePirServer::from_transposed_db(tdb.clone(), rows, cols, params);
    let hint = server.setup();
    let client = SimplePirClient::new(&hint, params, &mut rng);
    for &col in &[0usize, 5, cols - 1] {
        let e = small_noise(&mut rng, cols);
        let qu = client.query_with_noise(col, &e);
        let ans = server.answer(&qu);
        let got = client.recover(&ans);
        let want: Vec<u32> = (0..rows).map(|r| d(r, col)).collect();
        assert_eq!(got, want, "wide column {col} mismatch");
    }
}

/// The co-located client recovers exactly what the real-hint client does:
/// `h_s = hint·s = D·(A·s)`.
#[test]
fn local_server_client_matches_hint_client() {
    let mut rng = StdRng::seed_from_u64(0xBEE5);
    let (rows, cols) = (48usize, 71usize);
    let mut tdb = vec![0u32; rows * cols];
    for c in tdb.iter_mut() {
        *c = rng.next_u32() & 0xff;
    }
    let params = SimpleParams::new(384, 8, [5u8; 16]);
    let server = SimplePirServer::from_transposed_db(tdb, rows, cols, params);

    let mut r1 = StdRng::seed_from_u64(0x1234);
    let mut r2 = StdRng::seed_from_u64(0x1234);
    let hint = server.setup();
    let full = SimplePirClient::new(&hint, params, &mut r1);
    let fast = SimplePirClient::with_local_server(&server, &mut r2);
    assert_eq!(full.query_base_cells(), fast.query_base_cells(), "a_s differs");
    assert_eq!(full.recover_offset_cells(), fast.recover_offset_cells(), "h_s differs");
    assert_eq!(r1, r2, "generators end in different states");
}

/// The secret is the next `N` words of the caller's generator.
#[test]
fn secret_is_drawn_from_the_generator() {
    let (rows, cols, n) = (4usize, 3usize, 8u32);
    let tdb = vec![1u32; rows * cols];
    let params = SimpleParams::new(n, 8, [4u8; 16]);
    let server = SimplePirServer::from_transposed_db(tdb, rows, cols, params);
    let mut rng = StdRng::seed_from_u64(99);
    let mut twin = rng.clone();
    let client = SimplePirClient::with_local_server(&server, &mut rng);
    let s: Vec<u32> = (0..n).map(|_| twin.next_u32()).collect();
    assert_eq!(rng, twin);
    // a_s = A·s with A the seeded ChaCha stream (row k of Aᵀ holds A[·][k]).
    let a_t = sample_a_transposed(&[4u8; 16], cols as u32, n);
    let mut a_s = vec![0u32; cols];
    naive(&mut a_s, &a_t, &s);
    assert_eq!(client.query_base_cells(), &a_s);
}

/// The hint excludes `A`: its wire size is exactly `R·N·4`.
#[test]
fn hint_wire_size() {
    let (rows, cols, n) = (10usize, 12usize, 64u32);
    let tdb = vec![0u32; rows * cols];
    let params = SimpleParams::new(n, 8, [0u8; 16]);
    let server = SimplePirServer::from_transposed_db(tdb, rows, cols, params);
    let hint = server.setup();
    assert_eq!(hint.wire_byte_size(), rows * n as usize * 4);
    assert_eq!(hint.rows(), rows);
    assert_eq!(hint.cols(), cols);
    assert_eq!(server.rows(), rows);
    assert_eq!(server.cols(), cols);
    assert_eq!(*server.params(), params);
}

/// A noise-free query for column `c` answers `D·(a_s + Δ·u_c)`, so the
/// recovered cells are exactly the column.
#[test]
fn noise_free_query_recovers_column() {
    let mut rng = StdRng::seed_from_u64(7);
    let (rows, cols) = (5usize, 4usize);
    let tdb: Vec<u32> = (0..rows * cols).map(|i| (i as u32 * 7) % 16).collect();
    let params = SimpleParams::new(16, 4, [1u8; 16]);
    let server = SimplePirServer::from_transposed_db(tdb.clone(), rows, cols, params);
    let client = SimplePirClient::with_local_server(&server, &mut rng);
    assert_eq!(client.rows(), rows);
    assert_eq!(client.cols(), cols);
    for col in 0..cols {
        let qu = client.query_with_noise(col, &vec![0u32; cols]);
        let got = client.recover(&server.answer(&qu));
        assert_eq!(got, tdb[col * rows..(col + 1) * rows].to_vec());
    }
}

/// Every block size gives the same bits as the naive row loop.
#[test]
fn block_pass_is_bit_exact_for_every_block_size() {
    let (n, width) = (37usize, 19usize);
    let mut d = vec![0u32; n * width];
    let mut q = vec![0u32; n];
    fill_pseudorandom(&mut d, 0xABCD_0001);
    fill_pseudorandom(&mut q, 0x1357_9BDF);
    let mut base = vec![0u32; width];
    fill_pseudorandom(&mut base, 0x2468_ACE0);
    let mut expected = base.clone();
    naive(&mut expected, &d, &q);
    let mut a1 = base.clone();
    block_pass::<1>(&mut a1, &d, &q);
    let mut a3 = base.clone();
    block_pass::<3>(&mut a3, &d, &q);
    let mut a16 = base.clone();
    block_pass::<16>(&mut a16, &d, &q);
    let mut a64 = base;
    block_pass::<64>(&mut a64, &d, &q);
    assert_eq!(a1, expected);
    assert_eq!(a3, expected);
    assert_eq!(a16, expected);
    assert_eq!(a64, expected);
}
