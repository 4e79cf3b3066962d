use kpir_index::params::MatrixShape;
use kpir_index::scheme::layout::{encode_tdb, recover_from_column, ValueSource};
use kpir_index::scheme::{
    build_from_pairs, build_synthetic, column_for_rank, hash_key, sort_pairs_by_hash, synthetic_sorted_hashes,
    synthetic_value, BuildError, KpirClient, KpirServer,
};
use rand::rngs::StdRng;
use rand::{RngCore, SeedableRng};

/// Noise in `{−2, …, 2}` (two's complement), one cell per column.
fn small_noise(rng: &mut StdRng, cols: usize) -> Vec<u32> {
    (0..cols).map(|_| ((rng.next_u32() % 5) as i32 - 2) as u32).collect()
}

/// An approximate rank for `h`: its true rank among `sorted` (or where it
/// would go), moved by `shift` and kept non-negative.
fn approx_rank(sorted: &[u64], h: u64, shift: i64) -> usize {
    let g = match sorted.binary_search(&h) {
        Ok(i) => i,
        Err(i) => i,
    };
    (g as i64 + shift).max(0) as usize
}

fn lookup(
    server: &KpirServer,
    client: &KpirClient,
    key: &[u8],
    pos: usize,
    rng: &mut StdRng,
) -> Option<Vec<u8>> {
    let e = small_noise(rng, client.shape().columns);
    let qu = client.query_for_rank(pos, &e);
    let ans = server.answer(&qu);
    client.recover(key, &ans)
}

/// End-to-end: every present key retrieves its exact value; an absent key
/// yields ⊥. The approximate rank is moved up to `ε + 1` away from the
/// true one.
#[test]
fn scheme_end_to_end_present_and_absent() {
    let mut rng = StdRng::seed_from_u64(0x5EED);
    let value_bytes = 24;
    let n = 4000usize;
    let pairs: Vec<(Vec<u8>, Vec<u8>)> = (0..n)
        .map(|i| {
            let key = format!("user-{i:06}").into_bytes();
            let mut val = vec![0u8; value_bytes];
            val[..8].copy_from_slice(&(i as u64).to_le_bytes());
            val[8] = (i % 251) as u8;
            (key, val)
        })
        .collect();

    let (server, client) =
        build_from_pairs(&pairs, value_bytes, 4, 8, 512, [9u8; 16], &mut rng).expect("setup");
    let mut sorted: Vec<u64> = pairs.iter().map(|(k, _)| hash_key(k)).collect();
    sorted.sort_unstable();

    for (i, (key, want)) in pairs.iter().enumerate() {
        let shift = (i % 11) as i64 - 5;
        let pos = approx_rank(&sorted, hash_key(key), shift);
        let got = lookup(&server, &client, key, pos, &mut rng);
        assert_eq!(got.as_ref(), Some(want), "present key {:?}", String::from_utf8_lossy(key));
    }

    for i in n..n + 200 {
        let key = format!("user-{i:06}").into_bytes();
        let pos = approx_rank(&sorted, hash_key(&key), 0);
        assert_eq!(lookup(&server, &client, &key, pos, &mut rng), None, "absent key {i}");
    }
}

/// The synthetic builder is self-consistent: a present key recovers
/// `synthetic_value(hash(key))`.
#[test]
fn scheme_synthetic_roundtrip() {
    let mut rng = StdRng::seed_from_u64(0xCAFE);
    let n = 3000usize;
    let value_bytes = 32usize;
    let (server, client) = build_synthetic(n, value_bytes, 4, 8, 512, [3u8; 16], &mut rng).expect("setup");
    let sorted = synthetic_sorted_hashes(n);
    assert_eq!(sorted.len(), n);

    for i in [0u64, 1, 7, 100, 1500, (n - 1) as u64] {
        let key = i.to_le_bytes();
        let pos = approx_rank(&sorted, hash_key(&key), (i % 7) as i64 - 3);
        let got = lookup(&server, &client, &key, pos, &mut rng).expect("present");
        let mut want = vec![0u8; value_bytes];
        synthetic_value(hash_key(&key), &mut want);
        assert_eq!(got, want, "synthetic key {i}");
    }
}

/// Geometry accessors line up with `MatrixShape`.
#[test]
fn scheme_reports_geometry() {
    let mut rng = StdRng::seed_from_u64(1);
    let (server, client) = build_synthetic(2000, 32, 4, 8, 256, [0u8; 16], &mut rng).expect("setup");
    let s = *server.shape();
    assert_eq!(client.shape(), &s);
    assert_eq!(client.hint_wire_bytes(), s.response_dim() * 256 * 4);
    assert_eq!(s, MatrixShape::new(2000, 32, 4, 8));
    assert_eq!(server.setup_hint().wire_byte_size(), client.hint_wire_bytes());
}

/// The hash is xxh3-64 of the key bytes.
#[test]
fn hash_key_is_xxh3() {
    for key in [&b""[..], b"user-000001", b"\x00\x01\x02"] {
        assert_eq!(hash_key(key), xxhash_rust::xxh3::xxh3_64(key));
    }
    assert_ne!(hash_key(b"a"), hash_key(b"b"));
}

/// The synthetic stream is splitmix64, little-endian, truncated to the
/// buffer.
#[test]
fn synthetic_value_is_splitmix_stream() {
    let mut out = [0u8; 11];
    synthetic_value(0, &mut out);
    let w0: u64 = 0xE220_A839_7B1D_CDAF;
    let w1: u64 = 0x6E78_9E6A_A1B9_65F4;
    let mut want = w0.to_le_bytes().to_vec();
    want.extend_from_slice(&w1.to_le_bytes()[..3]);
    assert_eq!(out.to_vec(), want);
    let mut empty: [u8; 0] = [];
    synthetic_value(5, &mut empty);
}

/// The sorted synthetic hashes are the distinct hashes of `0..n`, ascending.
#[test]
fn synthetic_hashes_sorted_and_complete() {
    let n = 300usize;
    let got = synthetic_sorted_hashes(n);
    let mut want: Vec<u64> = (0..n as u64).map(|i| hash_key(&i.to_le_bytes())).collect();
    want.sort_unstable();
    want.dedup();
    assert_eq!(got, want);
    assert!(got.windows(2).all(|w| w[0] < w[1]));
}

/// Sorting pairs by key hash returns the hashes ascending and the pair
/// behind each; a repeated key is a collision.
#[test]
fn sort_pairs_orders_by_hash() {
    let pairs: Vec<(Vec<u8>, Vec<u8>)> =
        (0..50u8).map(|i| (vec![b'k', i], vec![i])).collect();
    let (hashes, order) = sort_pairs_by_hash(&pairs).expect("distinct");
    assert_eq!(hashes.len(), 50);
    assert!(hashes.windows(2).all(|w| w[0] < w[1]));
    for (g, &i) in order.iter().enumerate() {
        assert_eq!(hashes[g], hash_key(&pairs[i].0));
    }
    let mut seen = order.clone();
    seen.sort_unstable();
    assert_eq!(seen, (0..50).collect::<Vec<usize>>());

    let dup = vec![(b"x".to_vec(), vec![1u8]), (b"y".to_vec(), vec![2u8]), (b"x".to_vec(), vec![3u8])];
    assert!(sort_pairs_by_hash(&dup).is_none());
}

/// The builder refuses a repeated key, and a geometry too large to address.
#[test]
fn build_errors() {
    let mut rng = StdRng::seed_from_u64(2);
    let before = rng.clone();
    let dup = vec![(b"x".to_vec(), vec![1u8]), (b"x".to_vec(), vec![2u8])];
    assert!(matches!(
        build_from_pairs(&dup, 4, 4, 8, 64, [0u8; 16], &mut rng),
        Err(BuildError::FingerprintCollision)
    ));
    assert_eq!(rng, before, "a refused setup leaves the generator alone");
    let one = vec![(b"x".to_vec(), vec![1u8])];
    assert!(matches!(
        build_from_pairs(&one, usize::MAX / 4, 4, 8, 64, [0u8; 16], &mut rng),
        Err(BuildError::TooLarge)
    ));
    assert!(matches!(
        build_synthetic(3, usize::MAX / 4, 4, 8, 64, [0u8; 16], &mut rng),
        Err(BuildError::TooLarge)
    ));
    assert_eq!(rng, before, "a refused setup leaves the generator alone");
}

/// Empty slots read back as fingerprint `u64::MAX`, which never matches:
/// a column of empty slots decodes to ⊥ for that fingerprint too.
#[test]
fn empty_fingerprint_never_matches() {
    let shape = MatrixShape::new(1, 1, 0, 8);
    let column = vec![255u32; shape.response_dim()];
    assert_eq!(recover_from_column(&shape, u64::MAX, &column), None);
    assert_eq!(recover_from_column(&shape, 7, &column), None);
}

/// Round trip over many small databases: each key recovers its value
/// truncated or zero-padded to `value_bytes`.
#[test]
fn end_to_end_roundtrip_small_databases() {
    let mut rng = StdRng::seed_from_u64(0x9A9A);
    for case in 0..12u32 {
        let n = 2 + (rng.next_u32() % 59) as usize;
        let vb = 1 + (rng.next_u32() % 31) as usize;
        let eps = 1 + rng.next_u32() % 5;
        let pairs: Vec<(Vec<u8>, Vec<u8>)> = (0..n)
            .map(|i| {
                let key = format!("k{case}-{i}").into_bytes();
                let len = (rng.next_u32() % 40) as usize;
                let val: Vec<u8> = (0..len).map(|_| rng.next_u32() as u8).collect();
                (key, val)
            })
            .collect();
        let (server, client) = build_from_pairs(&pairs, vb, eps, 8, 128, [1u8; 16], &mut rng).expect("setup");
        let mut sorted: Vec<u64> = pairs.iter().map(|(k, _)| hash_key(k)).collect();
        sorted.sort_unstable();
        for (i, (key, val)) in pairs.iter().enumerate() {
            let shift = (i as i64 % (2 * eps as i64 + 3)) - (eps as i64 + 1);
            let pos = approx_rank(&sorted, hash_key(key), shift);
            let got = lookup(&server, &client, key, pos, &mut rng).expect("present");
            let m = val.len().min(vb);
            assert_eq!(got.len(), vb);
            assert_eq!(&got[..m], &val[..m], "case {case} key {i}");
            assert!(got[m..].iter().all(|&b| b == 0), "case {case} key {i}");
        }
    }
}

/// The column for a rank is `min(pos / data_rows, columns − 1)`.
#[test]
fn column_for_rank_clamps() {
    let s = MatrixShape::new(1000, 16, 4, 8);
    assert_eq!(column_for_rank(&s, 0), 0);
    assert_eq!(column_for_rank(&s, s.data_rows - 1), 0);
    assert_eq!(column_for_rank(&s, s.data_rows), 1);
    assert_eq!(column_for_rank(&s, 10 * s.data_rows + 3), 10);
    assert_eq!(column_for_rank(&s, usize::MAX), s.columns - 1);
}

/// Encoding places entry `g` at slot `g − col·data_rows + ε + 1` of column
/// `col`, and every other slot is ⊥; decoding a column finds exactly the
/// entries it holds.
#[test]
fn encode_then_decode_columns() {
    let n = 40usize;
    let shape = MatrixShape::new(n, 3, 1, 8);
    let hashes: Vec<u64> = (0..n as u64).map(|i| 1000 + 17 * i).collect();
    let pairs: Vec<(Vec<u8>, Vec<u8>)> = (0..n).map(|i| (vec![], vec![i as u8, 7])).collect();
    let order: Vec<usize> = (0..n).collect();
    let tdb = encode_tdb(&hashes, &shape, &ValueSource::Pairs(&pairs, &order));
    let r = shape.response_dim();
    assert_eq!(tdb.len(), shape.columns * r);
    for col in 0..shape.columns {
        let column = &tdb[col * r..(col + 1) * r];
        for (g, &h) in hashes.iter().enumerate() {
            let j = g as i64 - (col * shape.data_rows) as i64 + shape.epsilon as i64 + 1;
            let got = recover_from_column(&shape, h, column);
            if 0 <= j && (j as usize) < shape.rows {
                assert_eq!(got, Some(vec![g as u8, 7, 0]), "col {col} entry {g}");
            } else {
                assert_eq!(got, None, "col {col} entry {g}");
            }
        }
        assert_eq!(recover_from_column(&shape, 999, column), None);
    }
    // An untouched slot is all p − 1 cells, which reads back as u64::MAX.
    let last = &tdb[(shape.columns - 1) * r..];
    assert_eq!(last[r - 1], 255);
}

/// An approximate rank within `ε + 1` of the true rank selects a column
/// whose window holds the entry.
#[test]
fn rank_window_covers_entry() {
    for (n, eps) in [(1000usize, 4u32), (37, 0), (5000, 9)] {
        let s = MatrixShape::new(n, 16, eps, 8);
        let reach = eps as i64 + 1;
        for g in 0..n as i64 {
            for d in -reach..=reach {
                let pos = (g + d).max(0) as usize;
                let col = column_for_rank(&s, pos);
                let j = g - (col * s.data_rows) as i64 + eps as i64 + 1;
                assert!(0 <= j && (j as usize) < s.rows, "n={n} g={g} pos={pos} col={col}");
            }
        }
    }
}

/// The encoding is a function of the entries: encoding twice gives the
/// same buffer, cells below `p`.
#[test]
fn encoding_is_deterministic() {
    let shape = MatrixShape::new(25, 5, 2, 11);
    let hashes: Vec<u64> = (0..25u64).map(|i| i * 0x1234_5678_9ABC + 3).collect();
    let a = encode_tdb(&hashes, &shape, &ValueSource::Synthetic);
    let b = encode_tdb(&hashes, &shape, &ValueSource::Synthetic);
    assert_eq!(a, b);
    assert!(a.iter().all(|&c| c < (1 << 11)));
}

/// A setup draws the client's secret from the caller's generator: exactly
/// `lwe_dim` words, and nothing else.
#[test]
fn setup_draws_secret_from_generator() {
    let pairs: Vec<(Vec<u8>, Vec<u8>)> = (0..20u8).map(|i| (vec![b'q', i], vec![i])).collect();
    let mut rng = StdRng::seed_from_u64(11);
    let mut twin = rng.clone();
    let _ = build_from_pairs(&pairs, 4, 2, 8, 96, [6u8; 16], &mut rng).expect("setup");
    for _ in 0..96 {
        twin.next_u32();
    }
    assert_eq!(rng, twin);

    let mut rng = StdRng::seed_from_u64(12);
    let mut twin = rng.clone();
    let _ = build_synthetic(50, 4, 2, 8, 64, [6u8; 16], &mut rng).expect("setup");
    for _ in 0..64 {
        twin.next_u32();
    }
    assert_eq!(rng, twin);
}
