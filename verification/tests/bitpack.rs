use kpir_index::bits::{read_bits, write_bits};
use kpir_index::scheme::ct_eq_u64_mask;
use rand::rngs::StdRng;
use rand::{RngCore, SeedableRng};

const FINGERPRINT_BITS: usize = 64;

/// The branchless equality mask is all-ones exactly on equality.
#[test]
fn ct_eq_u64_mask_is_branchless_equality() {
    let vals = [0u64, 1, 2, 42, u64::MAX, u64::MAX - 1, 1 << 63, (1 << 63) + 1];
    for &x in &vals {
        assert_eq!(ct_eq_u64_mask(x, x), u64::MAX, "equal case x={x:#x}");
        for &y in &vals {
            if x != y {
                assert_eq!(ct_eq_u64_mask(x, y), 0, "unequal case x={x:#x} y={y:#x}");
            }
        }
    }
    assert_eq!(ct_eq_u64_mask(u64::MAX, 0x1234_5678_9abc_def0), 0);
}

/// Bit-packing round-trips a fingerprint + value across cell boundaries
/// for several plaintext widths, and every cell stays in `[0, p)`.
#[test]
fn bitpack_roundtrip() {
    let mut rng = StdRng::seed_from_u64(0xB17);
    for pt in [8u32, 9, 10, 12, 14] {
        for value_bytes in [1usize, 7, 16, 32, 100] {
            let payload_bits = FINGERPRINT_BITS + 8 * value_bytes;
            let partition = payload_bits.div_ceil(pt as usize);
            let mut cells = vec![0u32; partition];
            let fp = rng.next_u64();
            let val: Vec<u8> = (0..value_bytes).map(|_| (rng.next_u32() & 0xff) as u8).collect();

            write_bits(&mut cells, pt, 0, FINGERPRINT_BITS, fp);
            for (k, &b) in val.iter().enumerate() {
                write_bits(&mut cells, pt, FINGERPRINT_BITS + 8 * k, 8, b as u64);
            }
            assert!(cells.iter().all(|&c| c < (1u32 << pt)), "cell overflow pt={pt}");
            assert_eq!(read_bits(&cells, pt, 0, FINGERPRINT_BITS), fp, "fp pt={pt}");
            for (k, &b) in val.iter().enumerate() {
                assert_eq!(
                    read_bits(&cells, pt, FINGERPRINT_BITS + 8 * k, 8) as u8,
                    b,
                    "byte {k} pt={pt} vb={value_bytes}"
                );
            }
        }
    }
}

/// A field straddling two cells lands LSB-first across them.
#[test]
fn write_bits_straddles_cells() {
    let mut cells = vec![0u32; 3];
    write_bits(&mut cells, 8, 4, 12, 0xABC);
    assert_eq!(cells, vec![0xC0, 0xAB, 0]);
    assert_eq!(read_bits(&cells, 8, 4, 12), 0xABC);
    assert_eq!(read_bits(&cells, 8, 0, 4), 0);
}

/// Writing keeps every bit outside the field and each cell's bits above `pt`.
#[test]
fn write_bits_keeps_other_bits() {
    let mut cells = vec![0xFFFF_FFFFu32; 2];
    write_bits(&mut cells, 9, 3, 10, 0);
    // Cell 0: bits 3..9 cleared; cell 1: bits 0..4 cleared; bits >= 9 untouched.
    assert_eq!(cells[0], 0xFFFF_FFFF & !(0x3F << 3));
    assert_eq!(cells[1], 0xFFFF_FFFF & !0xF);
    // Only the low `n_bits` of the value are written.
    let mut c2 = vec![0u32; 2];
    write_bits(&mut c2, 8, 0, 4, 0xFF);
    assert_eq!(c2, vec![0x0F, 0]);
}
