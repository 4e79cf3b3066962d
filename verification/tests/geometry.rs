use kpir_index::params::{ceil_sqrt, MatrixShape, FINGERPRINT_BYTES};

#[test]
fn params_ceil_sqrt_exact() {
    assert_eq!(ceil_sqrt(0), 0);
    assert_eq!(ceil_sqrt(1), 1);
    assert_eq!(ceil_sqrt(4), 2);
    assert_eq!(ceil_sqrt(5), 3);
    assert_eq!(ceil_sqrt(40_000_000), 6325);
    assert_eq!(ceil_sqrt(39_992_976), 6324); // 6324^2 exactly
}

fn expansion_rate(s: &MatrixShape) -> f64 {
    (s.columns * s.rows) as f64 / s.n as f64
}

/// At `plaintext_bits = 8` the geometry is the byte layout of the
/// reference tables (m = 10^6).
#[test]
fn matches_mpc4j_byte_geometry() {
    let cases = [
        (32usize, 6325usize, 170usize, 25.3f64, 27.2f64, 1.075f64),
        (256, 16249, 73, 65.0, 77.1, 1.186),
        (1024, 32125, 43, 128.5, 177.5, 1.381),
    ];
    for (vb, cols, rows, qkb, rkb, exp) in cases {
        let s = MatrixShape::new(1_000_000, vb, 4, 8);
        assert_eq!(s.columns, cols, "columns @ {vb}B");
        assert_eq!(s.rows, rows, "rows @ {vb}B");
        assert_eq!(s.partition, vb + FINGERPRINT_BYTES, "partition @ {vb}B");
        assert!(
            (s.query_bytes() as f64 / 1000.0 - qkb).abs() < 0.05,
            "query kB @ {vb}B: {}",
            s.query_bytes() as f64 / 1000.0
        );
        assert!(
            (s.response_bytes() as f64 / 1000.0 - rkb).abs() < 0.05,
            "response kB @ {vb}B: {}",
            s.response_bytes() as f64 / 1000.0
        );
        assert!(
            (expansion_rate(&s) - exp).abs() < 0.001,
            "expansion @ {vb}B: {} (want {exp})",
            expansion_rate(&s)
        );
    }
}

/// The same table through the byte layout (`plaintext_bits = 8`).
#[test]
fn matches_cans2026_table3() {
    let cases = [
        (32usize, 6325usize, 170usize, 25.3f64, 27.2f64, 1.075f64),
        (256, 16249, 73, 65.0, 77.1, 1.186),
        (1024, 32125, 43, 128.5, 177.5, 1.381),
    ];
    for (vb, cols, rows, qkb, rkb, exp) in cases {
        let s = MatrixShape::new(1_000_000, vb, 4, 8);
        assert_eq!(s.columns, cols, "columns @ {vb}B");
        assert_eq!(s.rows, rows, "rows @ {vb}B");
        assert!(
            (s.query_bytes() as f64 / 1000.0 - qkb).abs() < 0.05,
            "query kB @ {vb}B: {}",
            s.query_bytes() as f64 / 1000.0
        );
        assert!(
            (s.response_bytes() as f64 / 1000.0 - rkb).abs() < 0.05,
            "response kB @ {vb}B: {}",
            s.response_bytes() as f64 / 1000.0
        );
        assert!(
            (expansion_rate(&s) - exp).abs() < 0.001,
            "expansion @ {vb}B: {} (want {exp})",
            expansion_rate(&s)
        );
    }
}

/// Wider plaintexts pack an entry into fewer cells: the partition is the
/// least cell count holding `8·(ℓ + 8)` bits.
#[test]
fn partition_is_least_covering_cell_count() {
    for (vb, pt, want) in [(32usize, 9u32, 36usize), (256, 9, 235), (1024, 8, 1032), (1, 31, 3), (7, 14, 9)] {
        let s = MatrixShape::new(1_000_000, vb, 4, pt);
        assert_eq!(s.partition, want, "partition @ {vb}B pt={pt}");
        assert_eq!(MatrixShape::payload_bits(vb), 8 * (vb + 8));
        assert!(s.partition * pt as usize >= 8 * (vb + 8));
        assert!((s.partition - 1) * (pt as usize) < 8 * (vb + 8));
    }
}

/// Small databases still get `ε + 2` data rows and `2ε + 3` padding rows.
#[test]
fn tiny_database_geometry() {
    let s = MatrixShape::new(1, 1, 4, 8);
    assert_eq!(s.partition, 9);
    assert_eq!(s.columns, 3);
    assert_eq!(s.data_rows, 6);
    assert_eq!(s.rows, 6 + 2 * 4 + 3);
    assert_eq!(s.query_dim(), 3);
    assert_eq!(s.response_dim(), 17 * 9);
    assert_eq!(s.query_bytes(), 12);
    assert_eq!(s.response_bytes(), 17 * 9 * 4);
}
