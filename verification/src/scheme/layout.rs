//! The repetition encoding of the sorted entries into the stored `C × R`
//! buffer, and the decoding of one retrieved column.
//!
//! Slot `j` of column `col` holds sorted entry `col · data_rows + j − ε − 1`
//! (when that is in `[0, n)`) as `fingerprint(64 bits) ‖ value(8ℓ bits)`,
//! bit-packed LSB-first into `partition` cells and followed by zero bits;
//! a slot without an entry is `⊥`, every cell `p − 1`, which reads back as
//! fingerprint `u64::MAX`.
use vstd::prelude::*;
use vstd::arithmetic::power2::pow2;
use crate::bits::{
    packed_bit, packed_field, read_bits_at, write_bits_at, lemma_field_same_cells, lemma_field_same_bits,
    lemma_field_all_ones, lemma_field_bound, lemma_field_rebase, lemma_field_zero, lemma_field_eq_bits,
    lemma_cell_from_bits,
};
use crate::params::{MatrixShape, payload_bits_spec};
use crate::simplepir::backend::column_spec;
use crate::scheme::{ct_eq_u64_mask, strictly_increasing, synthetic_spec, synthetic_value};

verus! {

/// Where the value bytes of the sorted entries come from.
pub enum ValueSource<'a> {
    /// Explicit key-value pairs; sorted entry `g` is `pairs[order[g]]`.
    Pairs(&'a [(Vec<u8>, Vec<u8>)], &'a [usize]),
    /// The synthetic stream seeded by each entry's fingerprint.
    Synthetic,
}

/// `v` truncated or zero-padded to `len` bytes.
pub open spec fn pad_value(v: Seq<u8>, len: nat) -> Seq<u8> {
    Seq::new(len, |k: int| if k < v.len() { v[k] } else { 0u8 })
}

/// Padding truncates or extends with zeros: to a length no longer than the
/// value it is the value's prefix (the value itself at its own length), and
/// to a longer length it is the value followed by zero bytes.
pub proof fn lemma_pad_value(v: Seq<u8>, len: nat)
    ensures
        pad_value(v, len).len() == len,
        len <= v.len() ==> pad_value(v, len) == v.subrange(0, len as int),
        len >= v.len() ==> pad_value(v, len) == v + Seq::new((len - v.len()) as nat, |i: int| 0u8),
        pad_value(v, v.len()) == v,
{
    if len <= v.len() {
        assert(pad_value(v, len) =~= v.subrange(0, len as int));
    }
    if len >= v.len() {
        assert(pad_value(v, len) =~= v + Seq::new((len - v.len()) as nat, |i: int| 0u8));
    }
    assert(pad_value(v, v.len()) =~= v);
}

/// The `len`-byte value of sorted entry `g`.
pub open spec fn entry_value<'a>(src: ValueSource<'a>, hashes: Seq<u64>, g: int, len: nat) -> Seq<u8> {
    match src {
        ValueSource::Pairs(pairs, order) => pad_value(pairs@[order@[g] as int].1@, len),
        ValueSource::Synthetic => synthetic_spec(hashes[g], len),
    }
}

/// The `len`-byte values of all sorted entries.
pub open spec fn entry_values<'a>(src: ValueSource<'a>, hashes: Seq<u64>, len: nat) -> Seq<Seq<u8>> {
    Seq::new(hashes.len(), |g: int| entry_value(src, hashes, g, len))
}

/// The value source covers `n` sorted entries.
pub open spec fn source_covers<'a>(src: ValueSource<'a>, n: nat) -> bool {
    match src {
        ValueSource::Pairs(pairs, order) => order@.len() == n && forall|g: int| 0 <= g < n ==> #[trigger] order@[g]
            < pairs@.len(),
        ValueSource::Synthetic => true,
    }
}

/// Write the `buf.len()`-byte value of sorted entry `g` into `buf`.
fn fill_value(src: &ValueSource, hashes: &[u64], g: usize, buf: &mut Vec<u8>)
    requires
        source_covers(*src, hashes@.len()),
        g < hashes@.len(),
    ensures
        final(buf)@ == entry_value(*src, hashes@, g as int, old(buf)@.len()),
{
    match src {
        ValueSource::Pairs(pairs, order) => {
            let v = &pairs[order[g]].1;
            let len = buf.len();
            let mut k: usize = 0;
            while k < len
                invariant
                    len == buf@.len(),
                    k <= len,
                    forall|t: int| 0 <= t < k ==> #[trigger] buf@[t] == pad_value(v@, len as nat)[t],
                decreases len - k,
            {
                if k < v.len() {
                    buf[k] = v[k];
                } else {
                    buf[k] = 0;
                }
                k += 1;
            }
            assert(buf@ =~= pad_value(v@, len as nat));
        },
        ValueSource::Synthetic => {
            synthetic_value(hashes[g], buf.as_mut_slice());
        },
    }
}

/// Bits per stored fingerprint (`FINGERPRINT_BYTES · 8`).
const FINGERPRINT_BITS: usize = 64;

/// `2^pt − 1`: the cell value of an empty (`⊥`) slot.
pub open spec fn empty_cell(pt: u32) -> nat {
    (pow2(pt as nat) - 1) as nat
}

/// First cell of slot `j` of column `col` in the stored `C × R` buffer.
pub open spec fn slot_base(shape: MatrixShape, col: int, j: int) -> int {
    col * (shape.rows * shape.partition) + j * shape.partition
}

/// The sorted entry that slot `j` of column `col` holds (when in `[0, n)`).
pub open spec fn slot_entry(shape: MatrixShape, col: int, j: int) -> int {
    col * shape.data_rows + j - shape.epsilon - 1
}

/// Payload bits of a slot: the fingerprint and the value.
pub open spec fn slot_payload_bits(shape: MatrixShape) -> int {
    64 + 8 * shape.value_bytes
}

/// Unused bits at the end of a slot, after its payload.
pub open spec fn slot_pad_bits(shape: MatrixShape) -> nat {
    (shape.partition * shape.plaintext_bits - slot_payload_bits(shape)) as nat
}

/// The slot's cells, read from cell `base`, hold `fingerprint ‖ value`,
/// followed by zero bits up to the end of the slot.
pub open spec fn slot_stores(cells: Seq<u32>, base: int, shape: MatrixShape, fingerprint: u64, value: Seq<u8>) -> bool {
    &&& packed_field(cells, base, shape.plaintext_bits as nat, 0, 64) == fingerprint
    &&& packed_field(cells, base, shape.plaintext_bits as nat, slot_payload_bits(shape), slot_pad_bits(shape)) == 0
    &&& forall|k: int| 0 <= k < shape.value_bytes ==> #[trigger] packed_field(
        cells,
        base,
        shape.plaintext_bits as nat,
        64 + 8 * k,
        8,
    ) == value[k]
}

/// Every cell of the slot from cell `base` is the empty value `p − 1`.
pub open spec fn slot_empty(cells: Seq<u32>, base: int, shape: MatrixShape) -> bool {
    forall|i: int| 0 <= i < shape.partition ==> #[trigger] cells[base + i] as nat == empty_cell(shape.plaintext_bits)
}

/// Slot `j` of column `col` holds its entry, or is empty when it has none.
pub open spec fn slot_holds(tdb: Seq<u32>, shape: MatrixShape, hashes: Seq<u64>, values: Seq<Seq<u8>>, col: int, j: int) -> bool {
    let base = slot_base(shape, col, j);
    let g = slot_entry(shape, col, j);
    if 0 <= g < shape.n {
        slot_stores(tdb, base, shape, hashes[g], values[g])
    } else {
        slot_empty(tdb, base, shape)
    }
}

/// `tdb` is the repetition encoding of the sorted entries.
pub open spec fn is_encoding(tdb: Seq<u32>, shape: MatrixShape, hashes: Seq<u64>, values: Seq<Seq<u8>>) -> bool {
    &&& tdb.len() == shape.columns * (shape.rows * shape.partition)
    &&& values.len() == hashes.len()
    &&& forall|g: int| 0 <= g < values.len() ==> (#[trigger] values[g]).len() == shape.value_bytes
    &&& forall|i: int| 0 <= i < tdb.len() ==> #[trigger] tdb[i] < pow2(shape.plaintext_bits as nat)
    &&& forall|col: int, j: int| 0 <= col < shape.columns && 0 <= j < shape.rows ==> #[trigger] slot_holds(
        tdb,
        shape,
        hashes,
        values,
        col,
        j,
    )
}

/// The shapes the encoder works with.
pub open spec fn encodable(shape: MatrixShape) -> bool {
    &&& shape.follows_formula()
    &&& shape.plaintext_bits <= 31
    &&& payload_bits_spec(shape.value_bytes as int) <= usize::MAX
    &&& shape.columns * (shape.rows * shape.partition) <= usize::MAX
}

/// A slot is wide enough for its payload.
proof fn lemma_slot_fits(shape: MatrixShape)
    requires
        shape.follows_formula(),
    ensures
        64 + 8 * shape.value_bytes <= shape.partition * shape.plaintext_bits,
        shape.partition >= 1,
{
    crate::params::lemma_shape_invariants(shape);
    assert(shape.partition >= 1) by (nonlinear_arith)
        requires
            shape.partition * shape.plaintext_bits >= payload_bits_spec(shape.value_bytes as int),
            payload_bits_spec(shape.value_bytes as int) > 0;
}

/// Write entry `g` (`fingerprint ‖ value`) into the slot from cell `base`.
fn encode_slot(
    tdb: &mut Vec<u32>,
    shape: &MatrixShape,
    hashes: &[u64],
    src: &ValueSource,
    g: usize,
    base: usize,
    valbuf: &mut Vec<u8>,
)
    requires
        encodable(*shape),
        hashes@.len() == shape.n,
        source_covers(*src, hashes@.len()),
        g < shape.n,
        base + shape.partition <= old(tdb)@.len(),
        old(valbuf)@.len() == shape.value_bytes,
        forall|i: int| 0 <= i < old(tdb)@.len() ==> #[trigger] old(tdb)@[i] < pow2(shape.plaintext_bits as nat),
    ensures
        final(tdb)@.len() == old(tdb)@.len(),
        final(valbuf)@.len() == shape.value_bytes,
        slot_stores(final(tdb)@, base as int, *shape, hashes@[g as int],
            entry_value(*src, hashes@, g as int, shape.value_bytes as nat)),
        forall|i: int| 0 <= i < old(tdb)@.len() && (i < base || i >= base + shape.partition)
            ==> #[trigger] final(tdb)@[i] == old(tdb)@[i],
        forall|i: int| 0 <= i < old(tdb)@.len() ==> #[trigger] final(tdb)@[i] < pow2(shape.plaintext_bits as nat),
{
    let ghost t0 = tdb@;
    let pt = shape.plaintext_bits;
    let partition = shape.partition;
    let vb = shape.value_bytes;
    let len = tdb.len();
    proof {
        lemma_slot_fits(*shape);
        vstd::arithmetic::power2::lemma_pow2_pos(pt as nat);
    }
    let mut i: usize = 0;
    while i < partition
        invariant
            len == tdb@.len() == t0.len(),
            base + partition <= len,
            i <= partition,
            forall|t: int| 0 <= t < len && (t < base || t >= base + i) ==> #[trigger] tdb@[t] == t0[t],
            forall|t: int| base <= t < base + i ==> #[trigger] tdb@[t] == 0,
        decreases partition - i,
    {
        tdb[base + i] = 0;
        i += 1;
    }
    let ghost t1 = tdb@;
    let payload_end: usize = FINGERPRINT_BITS + 8 * vb;
    proof {
        let pn = pt as nat;
        assert forall|gb: int| 0 <= gb < partition * pt implies #[trigger] packed_bit(tdb@, base as int, pn, gb) == 0 by {
            vstd::arithmetic::div_mod::lemma_fundamental_div_mod(gb, pt as int);
            assert(0 <= gb / (pt as int) < partition) by (nonlinear_arith)
                requires
                    gb == (pt as int) * (gb / (pt as int)) + gb % (pt as int),
                    0 <= gb % (pt as int) < pt,
                    0 <= gb < partition * pt,
                    pt > 0;
            assert(tdb@[base + gb / (pt as int)] == 0);
            vstd::arithmetic::power2::lemma_pow2_pos((gb % (pt as int)) as nat);
            vstd::arithmetic::div_mod::lemma_basic_div(0, pow2((gb % (pt as int)) as nat) as int);
        }
    }
    proof {
        assert(payload_end <= (len - base) * pt) by (nonlinear_arith)
            requires
                payload_end <= partition * pt,
                base + partition <= len,
                pt >= 1;
    }
    write_bits_at(tdb.as_mut_slice(), base, pt, 0, FINGERPRINT_BITS, hashes[g]);
    proof {
        vstd::arithmetic::power2::lemma2_to64_rest();
        vstd::arithmetic::div_mod::lemma_small_mod(hashes@[g as int] as nat, pow2(64));
    }
    proof {
        assert forall|t: int| 0 <= t < len && (t < base || t >= base + partition) implies #[trigger] tdb@[t] == t0[t] by {
            if t >= base + partition {
                assert((t - base) * pt >= 64) by (nonlinear_arith)
                    requires
                        t >= base + partition,
                        payload_end <= partition * pt,
                        payload_end >= 64,
                        pt >= 1;
                assert(t1[t] == t0[t]);
            } else {
                assert(t1[t] == t0[t]);
            }
        }
    }
    proof {
        assert forall|gb: int| payload_end <= gb < partition * pt implies #[trigger] packed_bit(tdb@, base as int, pt as nat, gb) == 0 by {
            assert(packed_bit(t1, base as int, pt as nat, gb) == 0);
            assert(gb < (len - base) * pt) by (nonlinear_arith)
                requires gb < partition * pt, base + partition <= len, pt >= 1;
        }
    }
    fill_value(src, hashes, g, valbuf);
    let ghost value = valbuf@;
    let mut k: usize = 0;
    while k < vb
        invariant
            len == tdb@.len() == t0.len(),
            base + partition <= len,
            1 <= pt <= 31,
            pt == shape.plaintext_bits,
            partition == shape.partition,
            vb == shape.value_bytes,
            valbuf@ == value,
            value.len() == vb,
            t1.len() == len,
            payload_end == 64 + 8 * vb,
            payload_end <= partition * pt,
            payload_end <= (len - base) * pt,
            k <= vb,
            packed_field(tdb@, base as int, pt as nat, 0, 64) == hashes@[g as int],
            forall|t: int| 0 <= t < k ==> #[trigger] packed_field(tdb@, base as int, pt as nat, 64 + 8 * t, 8) == value[t],
            forall|t: int| 0 <= t < len && (t < base || t >= base + partition) ==> #[trigger] tdb@[t] == t0[t],
            forall|t: int| 0 <= t < len ==> (#[trigger] tdb@[t] as nat / pow2(pt as nat)) == t1[t] as nat / pow2(pt as nat),
            forall|gb: int| payload_end <= gb < partition * pt ==> #[trigger] packed_bit(tdb@, base as int, pt as nat, gb) == 0,
        decreases vb - k,
    {
        let ghost before = tdb@;
        let off = FINGERPRINT_BITS + 8 * k;
        proof {
            assert(off + 8 <= (len - base) * pt) by (nonlinear_arith)
                requires
                    off == 64 + 8 * k,
                    k < vb,
                    payload_end == 64 + 8 * vb,
                    payload_end <= (len - base) * pt;
        }
        write_bits_at(tdb.as_mut_slice(), base, pt, off, 8, valbuf[k] as u64);
        proof {
            let pn = pt as nat;
            vstd::arithmetic::power2::lemma2_to64();
            vstd::arithmetic::div_mod::lemma_small_mod(value[k as int] as nat, 256);
            assert forall|t: int| 0 <= t < 64 implies #[trigger] packed_bit(tdb@, base as int, pn, 0 + t)
                == packed_bit(before, base as int, pn, 0 + t) by {
                assert(0 + t < (len - base) * pt);
            }
            lemma_field_same_bits(tdb@, before, base as int, pn, 0, 64);
            assert forall|t: int| 0 <= t < k implies #[trigger] packed_field(tdb@, base as int, pn, 64 + 8 * t, 8) == value[t] by {
                assert forall|s: int| 0 <= s < 8 implies #[trigger] packed_bit(tdb@, base as int, pn, 64 + 8 * t + s)
                    == packed_bit(before, base as int, pn, 64 + 8 * t + s) by {
                    assert(64 + 8 * t + s < off);
                    assert(64 + 8 * t + s < (len - base) * pt);
                }
                lemma_field_same_bits(tdb@, before, base as int, pn, 64 + 8 * t, 8);
            }
            assert forall|gb: int| payload_end <= gb < partition * pt implies #[trigger] packed_bit(tdb@, base as int, pn, gb) == 0 by {
                assert(packed_bit(before, base as int, pn, gb) == 0);
                assert(gb < (len - base) * pt) by (nonlinear_arith)
                    requires gb < partition * pt, base + partition <= len, pt >= 1;
            }
            assert forall|t: int| 0 <= t < len && (t < base || t >= base + partition) implies #[trigger] tdb@[t] == t0[t] by {
                if t >= base + partition {
                    assert((t - base) * pt >= off + 8) by (nonlinear_arith)
                        requires
                            t >= base + partition,
                            off + 8 <= payload_end,
                            payload_end <= partition * pt,
                            pt >= 1;
                }
            }
        }
        k += 1;
    }
    proof {
        let pn = pt as nat;
        assert forall|t: int| 0 <= t < slot_pad_bits(*shape) implies #[trigger] packed_bit(tdb@, base as int, pn, payload_end + t)
            == 0 by {
            assert(payload_end + t < partition * pt);
        }
        lemma_field_zero(tdb@, base as int, pn, payload_end as int, slot_pad_bits(*shape));
        assert forall|t: int| 0 <= t < len implies #[trigger] tdb@[t] < pow2(pn) by {
            assert(tdb@[t] as nat / pow2(pn) == t1[t] as nat / pow2(pn));
            if base <= t < base + partition {
                assert(t1[t] == 0);
            } else {
                assert(t1[t] == t0[t]);
            }
            vstd::arithmetic::div_mod::lemma_basic_div(t1[t] as int, pow2(pn) as int);
            vstd::arithmetic::div_mod::lemma_fundamental_div_mod(tdb@[t] as int, pow2(pn) as int);
            vstd::arithmetic::div_mod::lemma_mod_bound(tdb@[t] as int, pow2(pn) as int);
        }
    }
}

/// Slots are laid out in increasing cell order, `partition` cells each.
proof fn lemma_slot_order(shape: MatrixShape, c1: int, j1: int, c2: int, j2: int)
    requires
        0 <= c1,
        0 <= j1 < shape.rows,
        0 <= j2,
        (c1 < c2) || (c1 == c2 && j1 < j2),
    ensures
        0 <= slot_base(shape, c1, j1),
        slot_base(shape, c1, j1) + shape.partition <= slot_base(shape, c2, j2),
{
    let r = shape.rows * shape.partition;
    assert(0 <= slot_base(shape, c1, j1)) by (nonlinear_arith)
        requires 0 <= c1, 0 <= j1;
    if c1 < c2 {
        assert(c1 * r + j1 * shape.partition + shape.partition <= c2 * r + j2 * shape.partition) by (nonlinear_arith)
            requires
                c1 < c2,
                0 <= j1 < shape.rows,
                0 <= j2,
                r == shape.rows * shape.partition;
    } else {
        assert(j1 * shape.partition + shape.partition <= j2 * shape.partition) by (nonlinear_arith)
            requires j1 < j2;
    }
}

/// Every slot lies within the stored buffer.
proof fn lemma_slot_in_buffer(shape: MatrixShape, col: int, j: int)
    requires
        0 <= col < shape.columns,
        0 <= j < shape.rows,
    ensures
        0 <= slot_base(shape, col, j),
        slot_base(shape, col, j) + shape.partition <= shape.columns * (shape.rows * shape.partition),
        slot_base(shape, col, j) + shape.partition == slot_base(shape, col, j + 1),
        slot_base(shape, col, shape.rows as int) == slot_base(shape, col + 1, 0),
{
    lemma_slot_order(shape, col, j, shape.columns as int, 0);
    assert(slot_base(shape, col, shape.rows as int) == slot_base(shape, col + 1, 0)) by (nonlinear_arith);
    assert(slot_base(shape, col, j) + shape.partition == slot_base(shape, col, j + 1)) by (nonlinear_arith);
}

/// Whether a slot holds its entry depends only on the slot's own cells.
proof fn lemma_slot_holds_frame(
    t1: Seq<u32>,
    t2: Seq<u32>,
    shape: MatrixShape,
    hashes: Seq<u64>,
    values: Seq<Seq<u8>>,
    col: int,
    j: int,
)
    requires
        shape.follows_formula(),
        0 <= slot_base(shape, col, j),
        slot_holds(t1, shape, hashes, values, col, j),
        forall|i: int| 0 <= i < shape.partition ==> #[trigger] t1[slot_base(shape, col, j) + i]
            == t2[slot_base(shape, col, j) + i],
    ensures
        slot_holds(t2, shape, hashes, values, col, j),
{
    let base = slot_base(shape, col, j);
    let pt = shape.plaintext_bits as nat;
    lemma_slot_fits(shape);
    let g = slot_entry(shape, col, j);
    if 0 <= g < shape.n {
        lemma_field_same_cells(t1, t2, base, pt, 0, 64, shape.partition as int);
        lemma_field_same_cells(t1, t2, base, pt, slot_payload_bits(shape), slot_pad_bits(shape), shape.partition as int);
        assert forall|k: int| 0 <= k < shape.value_bytes implies #[trigger] packed_field(t2, base, pt, 64 + 8 * k, 8)
            == values[g][k] by {
            assert(64 + 8 * k + 8 <= shape.partition * shape.plaintext_bits);
            lemma_field_same_cells(t1, t2, base, pt, 64 + 8 * k, 8, shape.partition as int);
        }
    } else {
        assert forall|i: int| 0 <= i < shape.partition implies #[trigger] t2[base + i] as nat
            == empty_cell(shape.plaintext_bits) by {
            assert(t1[base + i] == t2[base + i]);
        }
    }
}

/// Two slots that store the same record agree on every cell.
proof fn lemma_slot_stores_unique(
    t1: Seq<u32>,
    t2: Seq<u32>,
    base: int,
    shape: MatrixShape,
    fingerprint: u64,
    value: Seq<u8>,
    c: int,
)
    requires
        shape.follows_formula(),
        shape.plaintext_bits <= 31,
        slot_stores(t1, base, shape, fingerprint, value),
        slot_stores(t2, base, shape, fingerprint, value),
        0 <= c < shape.partition,
        t1[base + c] < pow2(shape.plaintext_bits as nat),
        t2[base + c] < pow2(shape.plaintext_bits as nat),
    ensures
        t1[base + c] == t2[base + c],
{
    let pt = shape.plaintext_bits as nat;
    let payload = slot_payload_bits(shape);
    lemma_slot_fits(shape);
    lemma_field_eq_bits(t1, t2, base, pt, 0, 64);
    lemma_field_eq_bits(t1, t2, base, pt, payload, slot_pad_bits(shape));
    assert forall|t: int| 0 <= t < pt implies #[trigger] packed_bit(t1, base, pt, c * pt + t) == packed_bit(
        t2,
        base,
        pt,
        c * pt + t,
    ) by {
        let b = c * pt + t;
        assert(0 <= b < shape.partition * shape.plaintext_bits) by (nonlinear_arith)
            requires b == c * pt + t, 0 <= c < shape.partition, 0 <= t < pt, pt == shape.plaintext_bits;
        if b < 64 {
            assert(packed_bit(t1, base, pt, 0 + b) == packed_bit(t2, base, pt, 0 + b));
        } else if b < payload {
            let k = (b - 64) / 8;
            let r = (b - 64) % 8;
            assert(0 <= k < shape.value_bytes && 0 <= r < 8 && b == 64 + 8 * k + r);
            assert(packed_field(t1, base, pt, 64 + 8 * k, 8) == packed_field(t2, base, pt, 64 + 8 * k, 8));
            lemma_field_eq_bits(t1, t2, base, pt, 64 + 8 * k, 8);
            assert(packed_bit(t1, base, pt, 64 + 8 * k + r) == packed_bit(t2, base, pt, 64 + 8 * k + r));
        } else {
            assert(packed_bit(t1, base, pt, payload + (b - payload)) == packed_bit(t2, base, pt, payload + (b - payload)));
        }
    }
    lemma_cell_from_bits(t1, t2, base, pt, c);
}

/// The encoding is unique: two buffers that both encode the same sorted
/// entries under the same geometry are equal, cell for cell.
pub proof fn lemma_encoding_unique(t1: Seq<u32>, t2: Seq<u32>, shape: MatrixShape, hashes: Seq<u64>, values: Seq<Seq<u8>>)
    requires
        encodable(shape),
        is_encoding(t1, shape, hashes, values),
        is_encoding(t2, shape, hashes, values),
    ensures
        t1 == t2,
{
    let r = shape.rows * shape.partition;
    lemma_slot_fits(shape);
    assert forall|i: int| 0 <= i < t1.len() implies t1[i] == t2[i] by {
        vstd::arithmetic::div_mod::lemma_fundamental_div_mod(i, r);
        let col = i / r;
        let rem = i % r;
        vstd::arithmetic::div_mod::lemma_fundamental_div_mod(rem, shape.partition as int);
        let j = rem / (shape.partition as int);
        let c = rem % (shape.partition as int);
        assert(0 <= col < shape.columns) by (nonlinear_arith)
            requires i == r * col + rem, 0 <= rem < r, 0 <= i < shape.columns * r, r > 0;
        assert(0 <= j < shape.rows) by (nonlinear_arith)
            requires
                rem == shape.partition * j + c,
                0 <= c < shape.partition,
                0 <= rem < r,
                r == shape.rows * shape.partition;
        assert(i == slot_base(shape, col, j) + c) by (nonlinear_arith)
            requires
                i == r * col + rem,
                rem == shape.partition * j + c,
                r == shape.rows * shape.partition,
                slot_base(shape, col, j) == col * (shape.rows * shape.partition) + j * shape.partition;
        assert(slot_holds(t1, shape, hashes, values, col, j));
        assert(slot_holds(t2, shape, hashes, values, col, j));
        let g = slot_entry(shape, col, j);
        let base = slot_base(shape, col, j);
        if 0 <= g < shape.n {
            lemma_slot_stores_unique(t1, t2, base, shape, hashes[g], values[g], c);
        } else {
            assert(slot_empty(t1, base, shape) && slot_empty(t2, base, shape));
            assert(t1[base + c] as nat == empty_cell(shape.plaintext_bits));
        }
    }
    assert(t1 =~= t2);
}

/// Repetition-encode the sorted entries into the stored `C × R` buffer
/// (`tdb[col·R + r] = D[r][col]`): slot `j` of column `col` holds sorted
/// entry `col · data_rows + j − ε − 1` as `fingerprint ‖ value`, and every
/// slot without an entry is `⊥` (every cell `p − 1`, which reads back as
/// fingerprint `u64::MAX`).
pub fn encode_tdb(sorted_hashes: &[u64], shape: &MatrixShape, src: &ValueSource) -> (tdb: Vec<u32>)
    requires
        encodable(*shape),
        sorted_hashes@.len() == shape.n,
        source_covers(*src, shape.n as nat),
    ensures
        is_encoding(tdb@, *shape, sorted_hashes@, entry_values(*src, sorted_hashes@, shape.value_bytes as nat)),
{
    let n = shape.n;
    let partition = shape.partition;
    let rows = shape.rows;
    let cols = shape.columns;
    let pt = shape.plaintext_bits;
    let dr = shape.data_rows;
    let eps = shape.epsilon as usize;
    proof {
        crate::params::lemma_shape_invariants(*shape);
        assert(rows * partition <= usize::MAX) by (nonlinear_arith)
            requires cols * (rows * partition) <= usize::MAX, cols >= 1, rows * partition >= 0;
        lemma_slot_fits(*shape);
        vstd::bits::lemma_u32_pow2_no_overflow(pt as nat);
        vstd::bits::lemma_u32_shl_is_mul(1, pt);
        vstd::arithmetic::power2::lemma_pow2_pos(pt as nat);
    }
    let ghost vals = entry_values(*src, sorted_hashes@, shape.value_bytes as nat);
    let r = rows * partition;
    let sentinel = (1u32 << pt) - 1;
    let total = cols * r;
    let mut tdb: Vec<u32> = vec![sentinel; total];
    let mut valbuf: Vec<u8> = vec![0u8; shape.value_bytes];
    let mut col: usize = 0;
    while col < cols
        invariant
            encodable(*shape),
            sorted_hashes@.len() == shape.n,
            source_covers(*src, shape.n as nat),
            vals == entry_values(*src, sorted_hashes@, shape.value_bytes as nat),
            n == shape.n,
            partition == shape.partition,
            rows == shape.rows,
            cols == shape.columns,
            pt == shape.plaintext_bits,
            dr == shape.data_rows,
            eps == shape.epsilon,
            r == rows * partition,
            partition >= 1,
            total == cols * r,
            cols * r <= usize::MAX,
            sentinel as nat == empty_cell(pt),
            tdb@.len() == total,
            valbuf@.len() == shape.value_bytes,
            col <= cols,
            forall|i: int| 0 <= i < total ==> #[trigger] tdb@[i] < pow2(pt as nat),
            forall|c: int, j: int| 0 <= c < col && 0 <= j < rows ==> #[trigger] slot_holds(
                tdb@,
                *shape,
                sorted_hashes@,
                vals,
                c,
                j,
            ),
            forall|i: int| slot_base(*shape, col as int, 0) <= i < total ==> #[trigger] tdb@[i] as nat == empty_cell(pt),
        decreases cols - col,
    {
        let mut j: usize = 0;
        proof {
            assert(col * r + r <= usize::MAX) by (nonlinear_arith)
                requires col < cols, cols * r <= usize::MAX, r >= 0;
        }
        while j < rows
            invariant
                encodable(*shape),
                sorted_hashes@.len() == shape.n,
                source_covers(*src, shape.n as nat),
                vals == entry_values(*src, sorted_hashes@, shape.value_bytes as nat),
                n == shape.n,
                partition == shape.partition,
                rows == shape.rows,
                cols == shape.columns,
                pt == shape.plaintext_bits,
                dr == shape.data_rows,
                eps == shape.epsilon,
                r == rows * partition,
                partition >= 1,
                total == cols * r,
                cols * r <= usize::MAX,
                col * r + r <= usize::MAX,
                col < cols,
                sentinel as nat == empty_cell(pt),
                tdb@.len() == total,
                valbuf@.len() == shape.value_bytes,
                j <= rows,
                forall|i: int| 0 <= i < total ==> #[trigger] tdb@[i] < pow2(pt as nat),
                forall|c: int, jj: int| 0 <= c < col && 0 <= jj < rows ==> #[trigger] slot_holds(
                    tdb@,
                    *shape,
                    sorted_hashes@,
                    vals,
                    c,
                    jj,
                ),
                forall|jj: int| 0 <= jj < j ==> #[trigger] slot_holds(
                    tdb@,
                    *shape,
                    sorted_hashes@,
                    vals,
                    col as int,
                    jj,
                ),
                forall|i: int| slot_base(*shape, col as int, j as int) <= i < total ==> #[trigger] tdb@[i] as nat
                    == empty_cell(pt),
            decreases rows - j,
        {
            proof {
                lemma_slot_in_buffer(*shape, col as int, j as int);
                assert(col * dr + j <= col * r + r) by (nonlinear_arith)
                    requires
                        dr <= rows,
                        j < rows,
                        partition >= 1,
                        r == rows * partition;
            }
            let gp = col * dr + j;
            let base = col * r + j * partition;
            let ghost before = tdb@;
            if gp >= eps + 1 && gp - eps - 1 < n {
                let g = gp - eps - 1;
                encode_slot(&mut tdb, shape, sorted_hashes, src, g, base, &mut valbuf);
                proof {
                    assert forall|c: int, jj: int| 0 <= c < col && 0 <= jj < rows implies #[trigger] slot_holds(
                        tdb@, *shape, sorted_hashes@, vals, c, jj) by {
                        lemma_slot_order(*shape, c, jj, col as int, j as int);
                        assert(slot_holds(before, *shape, sorted_hashes@, vals, c, jj));
                        lemma_slot_holds_frame(before, tdb@, *shape, sorted_hashes@, vals, c, jj);
                    }
                    assert forall|jj: int| 0 <= jj < j implies #[trigger] slot_holds(
                        tdb@, *shape, sorted_hashes@, vals, col as int, jj) by {
                        lemma_slot_order(*shape, col as int, jj, col as int, j as int);
                        assert(slot_holds(before, *shape, sorted_hashes@, vals, col as int, jj));
                        lemma_slot_holds_frame(before, tdb@, *shape, sorted_hashes@, vals, col as int, jj);
                    }
                    assert(slot_entry(*shape, col as int, j as int) == g);
                }
            } else {
                proof {
                    assert(slot_entry(*shape, col as int, j as int) < 0 || slot_entry(*shape, col as int, j as int) >= n);
                    assert forall|i: int| 0 <= i < partition implies #[trigger] tdb@[base + i] as nat == empty_cell(pt) by {
                        assert(tdb@[base + i] as nat == empty_cell(pt));
                    }
                }
            }
            j += 1;
        }
        proof {
            lemma_slot_in_buffer(*shape, col as int, 0);
        }
        col += 1;
    }
    proof {
        assert(slot_base(*shape, cols as int, 0) == total) by (nonlinear_arith)
            requires
                total == cols * r,
                r == rows * partition,
                rows == shape.rows,
                partition == shape.partition,
                cols == shape.columns,
                slot_base(*shape, cols as int, 0) == cols * (shape.rows * shape.partition) + 0 * shape.partition;
    }
    tdb
}

/// The fingerprint stored in slot `j` of a decoded column.
pub open spec fn slot_fingerprint(cells: Seq<u32>, shape: MatrixShape, j: int) -> nat {
    packed_field(cells, j * shape.partition, shape.plaintext_bits as nat, 0, 64)
}

/// Value byte `k` stored in slot `j` of a decoded column.
pub open spec fn slot_byte(cells: Seq<u32>, shape: MatrixShape, j: int, k: int) -> nat {
    packed_field(cells, j * shape.partition, shape.plaintext_bits as nat, 64 + 8 * k, 8)
}

/// Slot `j` of a decoded column carries the fingerprint `want`.
pub open spec fn slot_matches(cells: Seq<u32>, shape: MatrixShape, want: u64, j: int) -> bool {
    slot_fingerprint(cells, shape, j) == want as nat
}

/// Byte `k` of the bitwise OR of the values of the slots among the first
/// `m` that carry the fingerprint `want`.
pub open spec fn matched_byte(cells: Seq<u32>, shape: MatrixShape, want: u64, k: int, m: int) -> u8
    decreases m,
{
    if m <= 0 {
        0u8
    } else {
        matched_byte(cells, shape, want, k, m - 1) | (if slot_matches(cells, shape, want, m - 1) {
            slot_byte(cells, shape, m - 1, k) as u8
        } else {
            0u8
        })
    }
}

/// Some slot of a decoded column carries the fingerprint `want`.
pub open spec fn column_has(cells: Seq<u32>, shape: MatrixShape, want: u64) -> bool {
    exists|j: int| 0 <= j < shape.rows && #[trigger] slot_matches(cells, shape, want, j)
}

/// The fingerprint that empty slots read back as; no stored key has it.
pub open spec fn empty_fingerprint() -> u64 {
    u64::MAX
}

/// What recover returns for a decoded column: `⊥` when `want` is the
/// empty-slot fingerprint or no slot carries `want`, else the OR of the
/// values of the slots that do.
pub open spec fn decode_column(cells: Seq<u32>, shape: MatrixShape, want: u64) -> Option<Seq<u8>> {
    if want != empty_fingerprint() && column_has(cells, shape, want) {
        Some(Seq::new(shape.value_bytes as nat, |k: int| matched_byte(cells, shape, want, k, shape.rows as int)))
    } else {
        None
    }
}

/// The decoded column is long enough for every slot's payload.
proof fn lemma_slot_readable(shape: MatrixShape, j: int, len: int)
    requires
        shape.follows_formula(),
        0 <= j < shape.rows,
        len == shape.rows * shape.partition,
    ensures
        0 <= j * shape.partition,
        j * shape.partition + shape.partition <= len,
        64 + 8 * shape.value_bytes <= (len - j * shape.partition) * shape.plaintext_bits,
{
    lemma_slot_fits(shape);
    assert(0 <= j * shape.partition) by (nonlinear_arith)
        requires 0 <= j, shape.partition >= 1;
    assert(j * shape.partition + shape.partition <= len) by (nonlinear_arith)
        requires j < shape.rows, len == shape.rows * shape.partition;
    assert(shape.partition * shape.plaintext_bits <= (len - j * shape.partition) * shape.plaintext_bits)
        by (nonlinear_arith)
        requires
            j * shape.partition + shape.partition <= len,
            shape.plaintext_bits >= 1;
}

/// Scan the `rows` slots of a decoded column for the fingerprint `want`,
/// OR-merging the value of every matching slot into the result through a
/// branchless mask, so that the work done does not depend on which slot
/// (if any) matches. `None` (`⊥`) when no slot matches, and for the
/// empty-slot fingerprint `u64::MAX`, which no stored key has.
pub fn recover_from_column(shape: &MatrixShape, want: u64, cells: &[u32]) -> (r: Option<Vec<u8>>)
    requires
        shape.follows_formula(),
        shape.plaintext_bits <= 31,
        payload_bits_spec(shape.value_bytes as int) <= usize::MAX,
        cells@.len() == shape.rows * shape.partition,
    ensures
        match r {
            Some(v) => decode_column(cells@, *shape, want) == Some(v@),
            None => decode_column(cells@, *shape, want) is None,
        },
{
    let partition = shape.partition;
    let pt = shape.plaintext_bits;
    let vb = shape.value_bytes;
    let rows = shape.rows;
    let len = cells.len();
    proof {
        lemma_slot_fits(*shape);
    }
    let mut acc: Vec<u8> = vec![0u8; vb];
    let mut found: u64 = 0;
    let mut j: usize = 0;
    while j < rows
        invariant
            shape.follows_formula(),
            shape.plaintext_bits <= 31,
            payload_bits_spec(shape.value_bytes as int) <= usize::MAX,
            cells@.len() == shape.rows * shape.partition,
            partition == shape.partition,
            pt == shape.plaintext_bits,
            vb == shape.value_bytes,
            rows == shape.rows,
            len == cells@.len(),
            j <= rows,
            acc@.len() == vb,
            forall|k: int| 0 <= k < vb ==> #[trigger] acc@[k] == matched_byte(cells@, *shape, want, k, j as int),
            found == 0 || found == u64::MAX,
            found == u64::MAX <==> exists|jj: int| 0 <= jj < j && #[trigger] slot_matches(cells@, *shape, want, jj),
        decreases rows - j,
    {
        proof {
            lemma_slot_readable(*shape, j as int, cells@.len() as int);
        }
        let base = j * partition;
        let fp = read_bits_at(cells, base, pt, 0, FINGERPRINT_BITS);
        let mask = ct_eq_u64_mask(fp, want);
        let mask8 = (mask & 0xFF) as u8;
        assert(mask8 == if fp == want { 0xFFu8 } else { 0u8 }) by (bit_vector)
            requires
                mask == if fp == want { 0xFFFF_FFFF_FFFF_FFFFu64 } else { 0u64 },
                mask8 == (mask & 0xFF) as u8;
        let ghost before = acc@;
        let mut k: usize = 0;
        while k < vb
            invariant
                shape.follows_formula(),
                shape.plaintext_bits <= 31,
                payload_bits_spec(shape.value_bytes as int) <= usize::MAX,
                cells@.len() == shape.rows * shape.partition,
                partition == shape.partition,
                pt == shape.plaintext_bits,
                vb == shape.value_bytes,
                rows == shape.rows,
                j < rows,
                base == j * partition,
                base + partition <= cells@.len(),
                64 + 8 * vb <= (cells@.len() - base) * pt,
                mask8 == if fp as nat == slot_fingerprint(cells@, *shape, j as int) && fp == want { 0xFFu8 } else { 0u8 },
                fp as nat == slot_fingerprint(cells@, *shape, j as int),
                before.len() == vb,
                acc@.len() == vb,
                k <= vb,
                forall|t: int| 0 <= t < k ==> #[trigger] acc@[t] == matched_byte(cells@, *shape, want, t, j + 1),
                forall|t: int| k <= t < vb ==> #[trigger] acc@[t] == before[t],
                forall|t: int| 0 <= t < vb ==> #[trigger] before[t] == matched_byte(cells@, *shape, want, t, j as int),
            decreases vb - k,
        {
            let raw = read_bits_at(cells, base, pt, FINGERPRINT_BITS + 8 * k, 8);
            proof {
                lemma_field_bound(cells@, base as int, pt as nat, 64 + 8 * k, 8);
                vstd::arithmetic::power2::lemma2_to64();
            }
            let byte = raw as u8;
            let cur = acc[k];
            let next = cur | (mask8 & byte);
            proof {
                let m = mask8;
                let b = byte;
                assert((m & b) == if m == 0xFFu8 { b } else { 0u8 }) by (bit_vector)
                    requires m == 0xFFu8 || m == 0u8;
                assert(slot_byte(cells@, *shape, j as int, k as int) == raw);
                assert(next == matched_byte(cells@, *shape, want, k as int, j + 1));
            }
            acc.set(k, next);
            k += 1;
        }
        let ghost old_found = found;
        found = found | mask;
        proof {
            let f = old_found;
            let m = mask;
            assert((f | m) == if f == 0xFFFF_FFFF_FFFF_FFFFu64 || m == 0xFFFF_FFFF_FFFF_FFFFu64 {
                0xFFFF_FFFF_FFFF_FFFFu64
            } else {
                0u64
            }) by (bit_vector)
                requires
                    f == 0u64 || f == 0xFFFF_FFFF_FFFF_FFFFu64,
                    m == 0u64 || m == 0xFFFF_FFFF_FFFF_FFFFu64;
            if slot_matches(cells@, *shape, want, j as int) {
                assert(exists|jj: int| 0 <= jj < j + 1 && #[trigger] slot_matches(cells@, *shape, want, jj));
            }
            if exists|jj: int| 0 <= jj < j + 1 && #[trigger] slot_matches(cells@, *shape, want, jj) {
                let jj = choose|jj: int| 0 <= jj < j + 1 && #[trigger] slot_matches(cells@, *shape, want, jj);
                if jj < j {
                    assert(exists|jx: int| 0 <= jx < j && #[trigger] slot_matches(cells@, *shape, want, jx));
                }
            }
        }
        j += 1;
    }
    if found != 0 && want != u64::MAX {
        assert(acc@ =~= Seq::new(vb as nat, |k: int| matched_byte(cells@, *shape, want, k, rows as int)));
        Some(acc)
    } else {
        None
    }
}

/// Slot `j` of column `col` of the stored buffer, read back from the
/// decoded column, has the fingerprint and bytes stored at its place.
proof fn lemma_column_slot(tdb: Seq<u32>, shape: MatrixShape, col: int, j: int, off: int, n: nat)
    requires
        shape.follows_formula(),
        tdb.len() == shape.columns * (shape.rows * shape.partition),
        0 <= col < shape.columns,
        0 <= j < shape.rows,
        0 <= off,
        off + n <= shape.partition * shape.plaintext_bits,
    ensures
        packed_field(
            column_spec(tdb, (shape.rows * shape.partition) as nat, col),
            j * shape.partition,
            shape.plaintext_bits as nat,
            off,
            n,
        ) == packed_field(tdb, slot_base(shape, col, j), shape.plaintext_bits as nat, off, n),
{
    let r = shape.rows * shape.partition;
    let column = column_spec(tdb, r as nat, col);
    lemma_slot_in_buffer(shape, col, j);
    lemma_slot_fits(shape);
    assert(col * r + r <= tdb.len()) by (nonlinear_arith)
        requires 0 <= col < shape.columns, tdb.len() == shape.columns * r, r >= 0;
    assert(col * r >= 0) by (nonlinear_arith)
        requires col >= 0, r >= 0;
    assert(j * shape.partition + shape.partition <= r) by (nonlinear_arith)
        requires j < shape.rows, r == shape.rows * shape.partition;
    assert(j * shape.partition >= 0) by (nonlinear_arith)
        requires j >= 0, shape.partition >= 0;
    assert forall|i: int| 0 <= i < shape.partition implies #[trigger] column[j * shape.partition + i]
        == tdb[slot_base(shape, col, j) + i] by {
        assert(column[j * shape.partition + i] == tdb[col * r + (j * shape.partition + i)]);
    }
    lemma_field_rebase(
        column,
        j * shape.partition,
        tdb,
        slot_base(shape, col, j),
        shape.plaintext_bits as nat,
        off,
        n,
        shape.partition as int,
    );
}

/// What the decoded column of an encoding shows at slot `j`: the entry it
/// holds (so every copy of an entry repeated in the padding carries the
/// same fingerprint and bytes), or the fingerprint `u64::MAX` when it
/// holds none.
pub proof fn lemma_encoded_slot(
    tdb: Seq<u32>,
    shape: MatrixShape,
    hashes: Seq<u64>,
    values: Seq<Seq<u8>>,
    col: int,
    j: int,
)
    requires
        encodable(shape),
        is_encoding(tdb, shape, hashes, values),
        hashes.len() == shape.n,
        0 <= col < shape.columns,
        0 <= j < shape.rows,
    ensures
        ({
            let column = column_spec(tdb, (shape.rows * shape.partition) as nat, col);
            let g = slot_entry(shape, col, j);
            if 0 <= g < shape.n {
                &&& slot_fingerprint(column, shape, j) == hashes[g]
                &&& forall|k: int| 0 <= k < shape.value_bytes ==> #[trigger] slot_byte(column, shape, j, k)
                    == values[g][k]
            } else {
                slot_fingerprint(column, shape, j) == u64::MAX
            }
        }),
{
    let column = column_spec(tdb, (shape.rows * shape.partition) as nat, col);
    let g = slot_entry(shape, col, j);
    let base = slot_base(shape, col, j);
    let pt = shape.plaintext_bits as nat;
    lemma_slot_fits(shape);
    assert(slot_holds(tdb, shape, hashes, values, col, j));
    lemma_column_slot(tdb, shape, col, j, 0, 64);
    if 0 <= g < shape.n {
        assert forall|k: int| 0 <= k < shape.value_bytes implies #[trigger] slot_byte(column, shape, j, k)
            == values[g][k] by {
            lemma_column_slot(tdb, shape, col, j, 64 + 8 * k, 8);
        }
    } else {
        vstd::arithmetic::power2::lemma_pow2_pos(pt);
        assert forall|i: int| 0 <= i < shape.partition implies #[trigger] tdb[base + i] as nat == pow2(pt) - 1 by {
            assert(slot_empty(tdb, base, shape));
        }
        lemma_field_all_ones(tdb, base, pt, 0, 64, shape.partition as int);
        vstd::arithmetic::power2::lemma2_to64_rest();
    }
}

/// When every matching slot among the first `m` has byte `k` equal to `b`,
/// the merged byte is `b` if one of them matches, and `0` otherwise.
proof fn lemma_matched_byte_uniform(cells: Seq<u32>, shape: MatrixShape, want: u64, k: int, m: int, b: u8)
    requires
        forall|j: int| 0 <= j < m && #[trigger] slot_matches(cells, shape, want, j) ==> slot_byte(cells, shape, j, k)
            as u8 == b,
    ensures
        (exists|j: int| 0 <= j < m && #[trigger] slot_matches(cells, shape, want, j)) ==> matched_byte(
            cells,
            shape,
            want,
            k,
            m,
        ) == b,
        !(exists|j: int| 0 <= j < m && #[trigger] slot_matches(cells, shape, want, j)) ==> matched_byte(
            cells,
            shape,
            want,
            k,
            m,
        ) == 0,
    decreases m,
{
    if m > 0 {
        lemma_matched_byte_uniform(cells, shape, want, k, m - 1, b);
        let prev = matched_byte(cells, shape, want, k, m - 1);
        assert((prev | b) == b) by (bit_vector)
            requires prev == b || prev == 0u8;
        assert((prev | 0u8) == prev) by (bit_vector);
        if exists|j: int| 0 <= j < m - 1 && #[trigger] slot_matches(cells, shape, want, j) {
            let j = choose|j: int| 0 <= j < m - 1 && #[trigger] slot_matches(cells, shape, want, j);
            assert(0 <= j < m && slot_matches(cells, shape, want, j));
        }
        if exists|j: int| 0 <= j < m && #[trigger] slot_matches(cells, shape, want, j) {
            let j = choose|j: int| 0 <= j < m && #[trigger] slot_matches(cells, shape, want, j);
            if j < m - 1 {
                assert(exists|jj: int| 0 <= jj < m - 1 && #[trigger] slot_matches(cells, shape, want, jj));
            }
        } else {
            assert(!slot_matches(cells, shape, want, m - 1));
        }
    }
}

/// Keyword lookup finds a stored key: when sorted entry `g` lies in the
/// window of column `col` (its slot index `g − col·data_rows + ε + 1` is
/// in `[0, rows)`), decoding that column for the entry's fingerprint gives
/// exactly the entry's value — provided the fingerprint is not the `⊥`
/// pattern `u64::MAX`.
pub proof fn lemma_lookup_present(
    tdb: Seq<u32>,
    shape: MatrixShape,
    hashes: Seq<u64>,
    values: Seq<Seq<u8>>,
    col: int,
    g: int,
)
    requires
        encodable(shape),
        is_encoding(tdb, shape, hashes, values),
        hashes.len() == shape.n,
        strictly_increasing(hashes),
        0 <= col < shape.columns,
        0 <= g < shape.n,
        0 <= g - col * shape.data_rows + shape.epsilon + 1 < shape.rows,
        hashes[g] != u64::MAX,
    ensures
        decode_column(column_spec(tdb, (shape.rows * shape.partition) as nat, col), shape, hashes[g]) == Some(values[g]),
{
    let column = column_spec(tdb, (shape.rows * shape.partition) as nat, col);
    let want = hashes[g];
    let value = values[g];
    let j0 = g - col * shape.data_rows + shape.epsilon + 1;
    assert(slot_entry(shape, col, j0) == g);
    lemma_encoded_slot(tdb, shape, hashes, values, col, j0);
    assert(slot_matches(column, shape, want, j0));
    assert(column_has(column, shape, want));
    assert forall|k: int| 0 <= k < shape.value_bytes implies #[trigger] matched_byte(column, shape, want, k, shape.rows as int)
        == value[k] by {
        assert forall|j: int| 0 <= j < shape.rows && #[trigger] slot_matches(column, shape, want, j) implies slot_byte(
            column,
            shape,
            j,
            k,
        ) as u8 == value[k] by {
            lemma_encoded_slot(tdb, shape, hashes, values, col, j);
            let gj = slot_entry(shape, col, j);
            if 0 <= gj < shape.n {
                if gj < g {
                    assert(hashes[gj] < hashes[g]);
                } else if gj > g {
                    assert(hashes[g] < hashes[gj]);
                }
            }
        }
        lemma_matched_byte_uniform(column, shape, want, k, shape.rows as int, value[k]);
    }
    assert(Seq::new(shape.value_bytes as nat, |k: int| matched_byte(column, shape, want, k, shape.rows as int))
        =~= value);
}

/// Keyword lookup rejects an absent key: decoding any column for a
/// fingerprint that no stored key has gives `⊥`.
pub proof fn lemma_lookup_absent(
    tdb: Seq<u32>,
    shape: MatrixShape,
    hashes: Seq<u64>,
    values: Seq<Seq<u8>>,
    col: int,
    want: u64,
)
    requires
        encodable(shape),
        is_encoding(tdb, shape, hashes, values),
        hashes.len() == shape.n,
        0 <= col < shape.columns,
        !hashes.contains(want),
    ensures
        decode_column(column_spec(tdb, (shape.rows * shape.partition) as nat, col), shape, want) is None,
{
    let column = column_spec(tdb, (shape.rows * shape.partition) as nat, col);
    if want != empty_fingerprint() {
        assert forall|j: int| 0 <= j < shape.rows implies !#[trigger] slot_matches(column, shape, want, j) by {
            lemma_encoded_slot(tdb, shape, hashes, values, col, j);
            let gj = slot_entry(shape, col, j);
            if 0 <= gj < shape.n {
                assert(hashes[gj] != want);
            }
        }
    }
}

} // verus!
