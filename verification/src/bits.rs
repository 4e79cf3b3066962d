//! LSB-first bit packing of records into `pt`-bit `Z_p` cells.
//!
//! A run of cells starting at cell `base` holds a bitstring: global bit `g`
//! is bit `g mod pt` of cell `base + g / pt`. Fields of up to 64 bits are
//! written and read at any bit offset, straddling cell boundaries.
use vstd::prelude::*;
use vstd::arithmetic::power2::{pow2, lemma_pow2_pos, lemma_pow2_adds, lemma_pow2_unfold};

verus! {

/// Global bit `g` of the bitstring stored from cell `base`, `pt` bits per cell.
pub open spec fn packed_bit(cells: Seq<u32>, base: int, pt: nat, g: int) -> nat {
    ((cells[base + g / (pt as int)] as nat) / pow2((g % (pt as int)) as nat)) % 2
}

/// The `n`-bit field at bit offset `off`: `Σ_{t<n} bit(off + t) · 2^t`.
pub open spec fn packed_field(cells: Seq<u32>, base: int, pt: nat, off: int, n: nat) -> nat
    decreases n,
{
    if n == 0 {
        0
    } else {
        packed_bit(cells, base, pt, off) + 2 * packed_field(cells, base, pt, off + 1, (n - 1) as nat)
    }
}

/// Bits `[i, i + t)` of the number `c`, as `Σ_{s<t} bit(c, i + s) · 2^s`.
pub open spec fn bit_run(c: nat, i: nat, t: nat) -> nat
    decreases t,
{
    if t == 0 {
        0
    } else {
        (c / pow2(i)) % 2 + 2 * bit_run(c, i + 1, (t - 1) as nat)
    }
}

/// A run of bits is the number's quotient by `2^i` reduced mod `2^t`.
pub proof fn lemma_bit_run(c: nat, i: nat, t: nat)
    ensures
        bit_run(c, i, t) == (c / pow2(i)) % pow2(t),
    decreases t,
{
    lemma_pow2_pos(i);
    if t == 0 {
        vstd::arithmetic::power2::lemma2_to64();
        assert((c / pow2(i)) % 1 == 0);
    } else {
        lemma_bit_run(c, i + 1, (t - 1) as nat);
        lemma_pow2_unfold(t);
        lemma_pow2_pos((t - 1) as nat);
        let x = (c / pow2(i)) as int;
        vstd::arithmetic::div_mod::lemma_mod_breakdown(x, 2, pow2((t - 1) as nat) as int);
        vstd::arithmetic::div_mod::lemma_div_denominator(c as int, pow2(i) as int, 2);
        lemma_pow2_adds(i, 1);
        vstd::arithmetic::power2::lemma2_to64();
    }
}

/// `(x >> b) & 1` is bit `b` of `x`.
pub proof fn lemma_shr_and_one(x: u64, b: u64)
    requires
        b < 64,
    ensures
        ((x >> b) & 1) as nat == (x as nat / pow2(b as nat)) % 2,
{
    let y = x >> b;
    assert(y & 1 == y % 2) by (bit_vector);
    vstd::bits::lemma_u64_shr_is_div(x, b);
}

/// Splitting a field: the low `a` bits, then the next `b` bits above them.
pub proof fn lemma_packed_field_split(cells: Seq<u32>, base: int, pt: nat, off: int, a: nat, b: nat)
    ensures
        packed_field(cells, base, pt, off, a + b)
            == packed_field(cells, base, pt, off, a) + pow2(a) * packed_field(cells, base, pt, off + a, b),
    decreases a,
{
    if a == 0 {
        vstd::arithmetic::power2::lemma2_to64();
    } else {
        lemma_packed_field_split(cells, base, pt, off + 1, (a - 1) as nat, b);
        lemma_pow2_unfold(a);
        assert(packed_field(cells, base, pt, off, a + b)
            == packed_bit(cells, base, pt, off) + 2 * packed_field(cells, base, pt, off + 1, (a + b - 1) as nat));
        assert(2 * (pow2((a - 1) as nat) * packed_field(cells, base, pt, off + a, b))
            == pow2(a) * packed_field(cells, base, pt, off + a, b)) by (nonlinear_arith)
            requires pow2(a) == 2 * pow2((a - 1) as nat);
    }
}

/// Global bit `cell·pt + i` (for `i < pt`) is bit `i` of cell `base + cell`.
pub proof fn lemma_global_bit_position(pt: nat, cell: int, i: int)
    requires
        pt > 0,
        0 <= i < pt,
        cell >= 0,
    ensures
        (cell * pt + i) / (pt as int) == cell,
        (cell * pt + i) % (pt as int) == i,
{
    vstd::arithmetic::div_mod::lemma_fundamental_div_mod_converse(cell * pt + i, pt as int, cell, i);
}

/// A field that lies inside one cell is a run of that cell's bits.
pub proof fn lemma_field_in_one_cell(cells: Seq<u32>, base: int, pt: nat, cell: int, intra: nat, take: nat)
    requires
        pt > 0,
        cell >= 0,
        intra + take <= pt,
    ensures
        packed_field(cells, base, pt, cell * pt + intra, take) == bit_run(cells[base + cell] as nat, intra, take),
    decreases take,
{
    if take > 0 {
        lemma_global_bit_position(pt, cell, intra as int);
        assert(cell * pt + intra + 1 == cell * pt + (intra + 1));
        lemma_field_in_one_cell(cells, base, pt, cell, intra + 1, (take - 1) as nat);
    }
}

/// Or-ing bits above an accumulator's width adds them.
proof fn lemma_or_shifted_is_add(acc: u64, ch: u64, r: u64, t: u64)
    requires
        r < 64,
        t <= 31,
        r + t <= 64,
        acc < (1u64 << r),
        ch < (1u64 << t),
    ensures
        acc | (ch << r) == acc + (ch << r),
        acc + (ch << r) <= u64::MAX,
{
    assert(acc | (ch << r) == acc + (ch << r) && acc + (ch << r) <= 0xffff_ffff_ffff_ffffu64) by (bit_vector)
        requires
            r < 64,
            t <= 31,
            r + t <= 64,
            acc < (1u64 << r),
            ch < (1u64 << t),
    ;
}

/// Read `n_bits` from `cells` at global bit `bit_offset`, counting from cell
/// `base`, into the low bits of a `u64`.
pub fn read_bits_at(cells: &[u32], base: usize, pt: u32, bit_offset: usize, n_bits: usize) -> (r: u64)
    requires
        1 <= pt <= 31,
        n_bits <= 64,
        base <= cells@.len(),
        bit_offset + n_bits <= (cells@.len() - base) * pt,
        bit_offset + n_bits <= usize::MAX,
    ensures
        r as nat == packed_field(cells@, base as int, pt as nat, bit_offset as int, n_bits as nat),
{
    let ptu = pt as usize;
    let len = cells.len();
    let mut acc: u64 = 0;
    let mut read: usize = 0;
    proof {
        vstd::arithmetic::power2::lemma2_to64();
    }
    while read < n_bits
        invariant
            1 <= pt <= 31,
            ptu == pt,
            n_bits <= 64,
            base <= cells@.len(),
            bit_offset + n_bits <= (cells@.len() - base) * pt,
            bit_offset + n_bits <= usize::MAX,
            len == cells@.len(),
            read <= n_bits,
            acc as nat == packed_field(cells@, base as int, pt as nat, bit_offset as int, read as nat),
            acc < pow2(read as nat),
        decreases n_bits - read,
    {
        let global = bit_offset + read;
        let cell = global / ptu;
        let intra = global % ptu;
        let room = ptu - intra;
        let left = n_bits - read;
        let take = if room < left { room } else { left };
        proof {
            vstd::arithmetic::div_mod::lemma_fundamental_div_mod(global as int, ptu as int);
            assert(cell < cells@.len() - base) by (nonlinear_arith)
                requires
                    global == ptu * cell + intra,
                    global < (cells@.len() - base) * ptu,
                    0 <= intra,
                    ptu >= 1;
            vstd::bits::lemma_u64_pow2_no_overflow(take as nat);
            vstd::bits::lemma_u64_shl_is_mul(1, take as u64);
        }
        let mask: u64 = (1u64 << take as u64) - 1;
        let word = cells[base + cell] as u64;
        let chunk = (word >> intra as u64) & mask;
        proof {
            vstd::bits::lemma_u64_shr_is_div(word, intra as u64);
            assert(mask == vstd::bits::low_bits_mask(take as nat));
            vstd::bits::lemma_u64_low_bits_mask_is_mod(word >> intra as u64, take as nat);
            lemma_bit_run(word as nat, intra as nat, take as nat);
            vstd::arithmetic::mul::lemma_mul_is_commutative(ptu as int, cell as int);
            lemma_field_in_one_cell(cells@, base as int, pt as nat, cell as int, intra as nat, take as nat);
            lemma_packed_field_split(cells@, base as int, pt as nat, bit_offset as int, read as nat, take as nat);
            lemma_pow2_pos(take as nat);
            vstd::arithmetic::div_mod::lemma_mod_bound((word as nat / pow2(intra as nat)) as int, pow2(take as nat) as int);
            vstd::bits::lemma_u64_pow2_no_overflow(read as nat);
            vstd::bits::lemma_u64_shl_is_mul(1, read as u64);
            lemma_or_shifted_is_add(acc, chunk, read as u64, take as u64);
            lemma_pow2_adds(take as nat, read as nat);
            if take + read < 64 {
                vstd::arithmetic::power2::lemma_pow2_strictly_increases((take + read) as nat, 64);
            }
            vstd::arithmetic::power2::lemma2_to64_rest();
            assert(chunk * pow2(read as nat) <= u64::MAX) by (nonlinear_arith)
                requires
                    chunk < pow2(take as nat),
                    pow2(take as nat) * pow2(read as nat) == pow2((take + read) as nat),
                    pow2((take + read) as nat) <= pow2(64),
                    pow2(64) == u64::MAX + 1;
            vstd::bits::lemma_u64_shl_is_mul(chunk, read as u64);
            assert(global == cell * pt + intra);
            assert(chunk as nat == packed_field(cells@, base as int, pt as nat, global as int, take as nat));
            assert(chunk * pow2(read as nat) == pow2(read as nat) * chunk) by (nonlinear_arith);
            assert(acc + chunk * pow2(read as nat) < pow2((take + read) as nat)) by (nonlinear_arith)
                requires
                    acc < pow2(read as nat),
                    chunk < pow2(take as nat),
                    pow2(take as nat) * pow2(read as nat) == pow2((take + read) as nat);
        }
        acc = acc | (chunk << read as u64);
        read = read + take;
    }
    acc
}

/// The bit that a write of `value` at `off` puts at global bit `g`.
pub open spec fn value_bit(value: u64, off: int, g: int) -> nat {
    (value as nat / pow2((g - off) as nat)) % 2
}

/// Bit-level effect of overwriting bits `[intra, intra + take)` of a cell
/// with `chunk`: those bits become `chunk`'s, all others keep their value,
/// and the result still fits the cell.
proof fn lemma_cell_update_bits(cur: u64, chunk: u64, mask: u64, intra: u64, take: u64, pt: u64, b: u64)
    requires
        cur <= 0xffff_ffff,
        1 <= take,
        intra + take <= pt,
        pt <= 31,
        mask == (1u64 << take) - 1,
        chunk <= mask,
        b < 64,
    ensures
        ((cur & !(mask << intra)) | (chunk << intra)) <= 0xffff_ffff,
        (((cur & !(mask << intra)) | (chunk << intra)) >> pt) == (cur >> pt),
        intra <= b < intra + take ==> ((((cur & !(mask << intra)) | (chunk << intra)) >> b) & 1)
            == ((chunk >> ((b - intra) as u64)) & 1),
        !(intra <= b < intra + take) ==> ((((cur & !(mask << intra)) | (chunk << intra)) >> b) & 1)
            == ((cur >> b) & 1),
{
    assert(((cur & !(mask << intra)) | (chunk << intra)) <= 0xffff_ffff) by (bit_vector)
        requires
            cur <= 0xffff_ffff,
            1 <= take,
            intra + take <= pt,
            pt <= 31,
            mask == (1u64 << take) - 1,
            chunk <= mask,
    ;
    assert((((cur & !(mask << intra)) | (chunk << intra)) >> pt) == (cur >> pt)) by (bit_vector)
        requires
            1 <= take,
            intra + take <= pt,
            pt <= 31,
            mask == (1u64 << take) - 1,
            chunk <= mask,
    ;
    assert(intra <= b < intra + take ==> ((((cur & !(mask << intra)) | (chunk << intra)) >> b) & 1)
        == ((chunk >> ((b - intra) as u64)) & 1)) by (bit_vector)
        requires
            1 <= take,
            intra + take <= pt,
            pt <= 31,
            mask == (1u64 << take) - 1,
            chunk <= mask,
            b < 64,
    ;
    assert(!(intra <= b < intra + take) ==> ((((cur & !(mask << intra)) | (chunk << intra)) >> b) & 1)
        == ((cur >> b) & 1)) by (bit_vector)
        requires
            1 <= take,
            intra + take <= pt,
            pt <= 31,
            mask == (1u64 << take) - 1,
            chunk <= mask,
            b < 64,
    ;
}

/// The bits of `(value >> w) & mask(t)` are bits `w..w+t` of `value`.
proof fn lemma_chunk_bits(value: u64, w: u64, take: u64, mask: u64, s: u64)
    requires
        w < 64,
        1 <= take <= 31,
        w + take <= 64,
        mask == (1u64 << take) - 1,
        s < take,
    ensures
        ((((value >> w) & mask) >> s) & 1) == ((value >> (w + s)) & 1),
        ((value >> w) & mask) <= mask,
{
    assert(((((value >> w) & mask) >> s) & 1) == ((value >> (w + s)) & 1) && ((value >> w) & mask) <= mask)
        by (bit_vector)
        requires
            w < 64,
            1 <= take <= 31,
            w + take <= 64,
            mask == (1u64 << take) - 1,
            s < take,
    ;
}

/// Write the low `n_bits` of `value` into the bitstring stored from cell
/// `base`, at global bit `bit_offset`, LSB-first. Every other bit, the bits
/// of each cell above `pt`, and every cell outside the written range keep
/// their value.
pub fn write_bits_at(cells: &mut [u32], base: usize, pt: u32, bit_offset: usize, n_bits: usize, value: u64)
    requires
        1 <= pt <= 31,
        n_bits <= 64,
        base <= old(cells)@.len(),
        bit_offset + n_bits <= (old(cells)@.len() - base) * pt,
        bit_offset + n_bits <= usize::MAX,
    ensures
        final(cells)@.len() == old(cells)@.len(),
        forall|g: int| 0 <= g < (old(cells)@.len() - base) * pt ==> #[trigger] packed_bit(final(cells)@, base as int, pt as nat, g)
            == if bit_offset <= g < bit_offset + n_bits {
                value_bit(value, bit_offset as int, g)
            } else {
                packed_bit(old(cells)@, base as int, pt as nat, g)
            },
        forall|i: int| 0 <= i < old(cells)@.len() ==> #[trigger] (final(cells)@[i] as nat / pow2(pt as nat))
            == old(cells)@[i] as nat / pow2(pt as nat),
        forall|i: int| 0 <= i < old(cells)@.len() && (i < base || (i - base) * pt + pt <= bit_offset
            || (i - base) * pt >= bit_offset + n_bits) ==> #[trigger] final(cells)@[i] == old(cells)@[i],
        packed_field(final(cells)@, base as int, pt as nat, bit_offset as int, n_bits as nat)
            == value as nat % pow2(n_bits as nat),
{
    let ghost old_cells = cells@;
    let ptu = pt as usize;
    let len = cells.len();
    let mut written: usize = 0;
    while written < n_bits
        invariant
            1 <= pt <= 31,
            ptu == pt,
            n_bits <= 64,
            base <= len,
            len == cells@.len() == old_cells.len(),
            bit_offset + n_bits <= (len - base) * pt,
            bit_offset + n_bits <= usize::MAX,
            written <= n_bits,
            forall|g: int| 0 <= g < (len - base) * pt ==> #[trigger] packed_bit(cells@, base as int, pt as nat, g)
                == if bit_offset <= g < bit_offset + written {
                    value_bit(value, bit_offset as int, g)
                } else {
                    packed_bit(old_cells, base as int, pt as nat, g)
                },
            forall|i: int| 0 <= i < len ==> #[trigger] (cells@[i] as nat / pow2(pt as nat))
                == old_cells[i] as nat / pow2(pt as nat),
            forall|i: int| 0 <= i < len && (i < base || (i - base) * pt + pt <= bit_offset
                || (i - base) * pt >= bit_offset + n_bits) ==> #[trigger] cells@[i] == old_cells[i],
        decreases n_bits - written,
    {
        let global = bit_offset + written;
        let cell = global / ptu;
        let intra = global % ptu;
        let room = ptu - intra;
        let left = n_bits - written;
        let take = if room < left { room } else { left };
        proof {
            vstd::arithmetic::div_mod::lemma_fundamental_div_mod(global as int, ptu as int);
            assert(cell < len - base) by (nonlinear_arith)
                requires
                    global == ptu * cell + intra,
                    global < (len - base) * ptu,
                    0 <= intra,
                    ptu >= 1;
            vstd::bits::lemma_u64_pow2_no_overflow(take as nat);
            vstd::bits::lemma_u64_shl_is_mul(1, take as u64);
        }
        let mask: u64 = (1u64 << take as u64) - 1;
        let chunk = (value >> written as u64) & mask;
        let ci = base + cell;
        let cur = cells[ci] as u64;
        let new_word = (cur & !(mask << intra as u64)) | (chunk << intra as u64);
        let ghost before = cells@;
        proof {
            lemma_chunk_bits(value, written as u64, take as u64, mask, 0);
            lemma_cell_update_bits(cur, chunk, mask, intra as u64, take as u64, pt as u64, 0);
        }
        cells[ci] = new_word as u32;
        proof {
            let pn = pt as nat;
            assert forall|g: int| 0 <= g < (len - base) * pt implies #[trigger] packed_bit(cells@, base as int, pn, g)
                == if bit_offset <= g < bit_offset + written + take {
                    value_bit(value, bit_offset as int, g)
                } else {
                    packed_bit(old_cells, base as int, pn, g)
                } by {
                vstd::arithmetic::div_mod::lemma_fundamental_div_mod(g, pt as int);
                let gc = g / (pt as int);
                let gb = g % (pt as int);
                assert(0 <= gc) by (nonlinear_arith) requires g >= 0, pt >= 1, gc == g / (pt as int);
                assert(gc < len - base) by (nonlinear_arith)
                    requires
                        g == (pt as int) * gc + gb,
                        0 <= gb,
                        g < (len - base) * pt,
                        pt >= 1;
                if gc == cell as int {
                    lemma_cell_update_bits(cur, chunk, mask, intra as u64, take as u64, pt as u64, gb as u64);
                    lemma_shr_and_one(new_word, gb as u64);
                    lemma_shr_and_one(cur, gb as u64);
                    assert(cells@[ci as int] as nat == new_word as nat);
                    if intra <= gb < intra + take {
                        let sft = (gb - intra) as u64;
                        lemma_chunk_bits(value, written as u64, take as u64, mask, sft);
                        lemma_shr_and_one(chunk, sft);
                        lemma_shr_and_one(value, (written + sft) as u64);
                        assert(g == global + sft) by (nonlinear_arith)
                            requires
                                g == (pt as int) * gc + gb,
                                global == ptu * cell + intra,
                                gc == cell,
                                ptu == pt,
                                sft == gb - intra;
                        assert(g - bit_offset == written + sft);
                        assert(packed_bit(cells@, base as int, pn, g) == (new_word as nat / pow2(gb as nat)) % 2);
                        assert(((new_word >> (gb as u64)) & 1) == ((chunk >> sft) & 1));
                        assert(packed_bit(cells@, base as int, pn, g) == value_bit(value, bit_offset as int, g));
                    } else {
                        assert(!(global <= g < global + take)) by (nonlinear_arith)
                            requires
                                g == (pt as int) * gc + gb,
                                global == ptu * cell + intra,
                                gc == cell,
                                ptu == pt,
                                !(intra <= gb < intra + take);
                        assert(packed_bit(before, base as int, pn, g) == (cur as nat / pow2(gb as nat)) % 2);
                        assert(packed_bit(cells@, base as int, pn, g) == packed_bit(before, base as int, pn, g));
                    }
                } else {
                    assert(!(global <= g < global + take)) by (nonlinear_arith)
                        requires
                            g == (pt as int) * gc + gb,
                            0 <= gb < pt,
                            global == ptu * cell + intra,
                            gc != cell,
                            ptu == pt,
                            intra + take <= ptu,
                            0 <= intra;
                    assert(cells@[base + gc] == before[base + gc]);
                    assert(packed_bit(cells@, base as int, pn, g) == packed_bit(before, base as int, pn, g));
                }
            }
            vstd::bits::lemma_u64_shr_is_div(new_word, pt as u64);
            vstd::bits::lemma_u64_shr_is_div(cur, pt as u64);
            assert(cell * pt + pt > bit_offset && cell * pt < bit_offset + n_bits) by (nonlinear_arith)
                requires
                    global == ptu * cell + intra,
                    0 <= intra < ptu,
                    ptu == pt,
                    bit_offset <= global < bit_offset + n_bits;
        }
        written = written + take;
    }
    proof {
        assert forall|t: int| 0 <= t < n_bits implies #[trigger] packed_bit(cells@, base as int, pt as nat, bit_offset + t)
            == (value as nat / pow2((0 + t) as nat)) % 2 by {
            assert(bit_offset + t < (len - base) * pt);
        }
        lemma_field_of_value(cells@, base as int, pt as nat, bit_offset as int, n_bits as nat, value as nat, 0);
        lemma_bit_run(value as nat, 0, n_bits as nat);
        vstd::arithmetic::power2::lemma2_to64();
    }
}

/// A field depends only on its own bits.
pub proof fn lemma_field_same_bits(c1: Seq<u32>, c2: Seq<u32>, base: int, pt: nat, off: int, n: nat)
    requires
        forall|t: int| 0 <= t < n ==> #[trigger] packed_bit(c1, base, pt, off + t) == packed_bit(c2, base, pt, off + t),
    ensures
        packed_field(c1, base, pt, off, n) == packed_field(c2, base, pt, off, n),
    decreases n,
{
    if n > 0 {
        assert(packed_bit(c1, base, pt, off + 0) == packed_bit(c2, base, pt, off + 0));
        assert forall|t: int| 0 <= t < n - 1 implies #[trigger] packed_bit(c1, base, pt, off + 1 + t)
            == packed_bit(c2, base, pt, off + 1 + t) by {
            assert(packed_bit(c1, base, pt, off + (1 + t)) == packed_bit(c2, base, pt, off + (1 + t)));
            assert(off + 1 + t == off + (1 + t));
        }
        lemma_field_same_bits(c1, c2, base, pt, off + 1, (n - 1) as nat);
    }
}

/// A field whose bits are bits `k..k+n` of `v` is that run of `v`.
pub proof fn lemma_field_of_value(cells: Seq<u32>, base: int, pt: nat, off: int, n: nat, v: nat, k: nat)
    requires
        forall|t: int| 0 <= t < n ==> #[trigger] packed_bit(cells, base, pt, off + t) == (v / pow2((k + t) as nat)) % 2,
    ensures
        packed_field(cells, base, pt, off, n) == bit_run(v, k, n),
    decreases n,
{
    if n > 0 {
        assert(packed_bit(cells, base, pt, off + 0) == (v / pow2((k + 0) as nat)) % 2);
        assert forall|t: int| 0 <= t < n - 1 implies #[trigger] packed_bit(cells, base, pt, off + 1 + t)
            == (v / pow2((k + 1 + t) as nat)) % 2 by {
            assert(packed_bit(cells, base, pt, off + (1 + t)) == (v / pow2((k + (1 + t)) as nat)) % 2);
            assert(off + 1 + t == off + (1 + t));
        }
        lemma_field_of_value(cells, base, pt, off + 1, (n - 1) as nat, v, k + 1);
    }
}

/// A field read from cells that agree on `[base, base + span)` is the same,
/// as long as the field lies within those `span` cells.
pub proof fn lemma_field_same_cells(c1: Seq<u32>, c2: Seq<u32>, base: int, pt: nat, off: int, n: nat, span: int)
    requires
        pt > 0,
        off >= 0,
        off + n <= span * pt,
        forall|i: int| 0 <= i < span ==> #[trigger] c1[base + i] == c2[base + i],
    ensures
        packed_field(c1, base, pt, off, n) == packed_field(c2, base, pt, off, n),
{
    assert forall|t: int| 0 <= t < n implies #[trigger] packed_bit(c1, base, pt, off + t)
        == packed_bit(c2, base, pt, off + t) by {
        let g = off + t;
        vstd::arithmetic::div_mod::lemma_fundamental_div_mod(g, pt as int);
        assert(0 <= g / (pt as int) < span) by (nonlinear_arith)
            requires
                g == (pt as int) * (g / (pt as int)) + g % (pt as int),
                0 <= g % (pt as int) < pt,
                0 <= g < span * pt,
                pt > 0;
        assert(c1[base + g / (pt as int)] == c2[base + g / (pt as int)]);
    }
    lemma_field_same_bits(c1, c2, base, pt, off, n);
}

/// A field over cells that all hold `2^pt − 1` has every bit set.
pub proof fn lemma_field_all_ones(cells: Seq<u32>, base: int, pt: nat, off: int, n: nat, span: int)
    requires
        1 <= pt <= 31,
        off >= 0,
        off + n <= span * pt,
        forall|i: int| 0 <= i < span ==> #[trigger] cells[base + i] as nat == pow2(pt) - 1,
    ensures
        packed_field(cells, base, pt, off, n) == pow2(n) - 1,
    decreases n,
{
    if n == 0 {
        vstd::arithmetic::power2::lemma2_to64();
    } else {
        let g = off;
        vstd::arithmetic::div_mod::lemma_fundamental_div_mod(g, pt as int);
        let gc = g / (pt as int);
        let gb = g % (pt as int);
        assert(0 <= gc < span) by (nonlinear_arith)
            requires
                g == (pt as int) * gc + gb,
                0 <= gb < pt,
                0 <= g < span * pt,
                pt > 0;
        let ptu = pt as u64;
        let b = gb as u64;
        vstd::bits::lemma_u64_pow2_no_overflow(pt);
        vstd::bits::lemma_u64_shl_is_mul(1, ptu);
        let ones: u64 = ((1u64 << ptu) - 1) as u64;
        assert(((ones >> b) & 1) == 1) by (bit_vector)
            requires
                ones == (1u64 << ptu) - 1,
                1 <= ptu <= 31,
                b < ptu;
        lemma_shr_and_one(ones, b);
        assert(cells[base + gc] as nat == ones as nat);
        assert(packed_bit(cells, base, pt, off) == 1);
        lemma_field_all_ones(cells, base, pt, off + 1, (n - 1) as nat, span);
        lemma_pow2_unfold(n);
    }
}

/// A field read from cell `b1` of `c1` equals the one read from cell `b2`
/// of `c2` when the `span` cells it lies in agree.
pub proof fn lemma_field_rebase(c1: Seq<u32>, b1: int, c2: Seq<u32>, b2: int, pt: nat, off: int, n: nat, span: int)
    requires
        pt > 0,
        off >= 0,
        off + n <= span * pt,
        forall|i: int| 0 <= i < span ==> #[trigger] c1[b1 + i] == c2[b2 + i],
    ensures
        packed_field(c1, b1, pt, off, n) == packed_field(c2, b2, pt, off, n),
    decreases n,
{
    if n > 0 {
        vstd::arithmetic::div_mod::lemma_fundamental_div_mod(off, pt as int);
        assert(0 <= off / (pt as int) < span) by (nonlinear_arith)
            requires
                off == (pt as int) * (off / (pt as int)) + off % (pt as int),
                0 <= off % (pt as int) < pt,
                0 <= off < span * pt,
                pt > 0;
        assert(c1[b1 + off / (pt as int)] == c2[b2 + off / (pt as int)]);
        lemma_field_rebase(c1, b1, c2, b2, pt, off + 1, (n - 1) as nat, span);
    }
}

/// A field whose bits are all zero is zero.
pub proof fn lemma_field_zero(cells: Seq<u32>, base: int, pt: nat, off: int, n: nat)
    requires
        forall|t: int| 0 <= t < n ==> #[trigger] packed_bit(cells, base, pt, off + t) == 0,
    ensures
        packed_field(cells, base, pt, off, n) == 0,
    decreases n,
{
    if n > 0 {
        assert(packed_bit(cells, base, pt, off + 0) == 0);
        assert forall|t: int| 0 <= t < n - 1 implies #[trigger] packed_bit(cells, base, pt, off + 1 + t) == 0 by {
            assert(packed_bit(cells, base, pt, off + (1 + t)) == 0);
            assert(off + 1 + t == off + (1 + t));
        }
        lemma_field_zero(cells, base, pt, off + 1, (n - 1) as nat);
    }
}

/// Equal fields have equal bits.
pub proof fn lemma_field_eq_bits(c1: Seq<u32>, c2: Seq<u32>, base: int, pt: nat, off: int, n: nat)
    requires
        packed_field(c1, base, pt, off, n) == packed_field(c2, base, pt, off, n),
    ensures
        forall|t: int| 0 <= t < n ==> #[trigger] packed_bit(c1, base, pt, off + t) == packed_bit(c2, base, pt, off + t),
    decreases n,
{
    if n > 0 {
        let b1 = packed_bit(c1, base, pt, off);
        let b2 = packed_bit(c2, base, pt, off);
        let r1 = packed_field(c1, base, pt, off + 1, (n - 1) as nat);
        let r2 = packed_field(c2, base, pt, off + 1, (n - 1) as nat);
        assert(b1 == b2 && r1 == r2) by (nonlinear_arith)
            requires
                b1 + 2 * r1 == b2 + 2 * r2,
                0 <= b1 < 2,
                0 <= b2 < 2;
        lemma_field_eq_bits(c1, c2, base, pt, off + 1, (n - 1) as nat);
        assert forall|t: int| 0 <= t < n implies #[trigger] packed_bit(c1, base, pt, off + t)
            == packed_bit(c2, base, pt, off + t) by {
            if t > 0 {
                assert(packed_bit(c1, base, pt, off + 1 + (t - 1)) == packed_bit(c2, base, pt, off + 1 + (t - 1)));
                assert(off + 1 + (t - 1) == off + t);
            }
        }
    }
}

/// A `Z_p` cell (below `2^pt`) is determined by its `pt` bits.
pub proof fn lemma_cell_from_bits(c1: Seq<u32>, c2: Seq<u32>, base: int, pt: nat, cell: int)
    requires
        pt > 0,
        cell >= 0,
        c1[base + cell] < pow2(pt),
        c2[base + cell] < pow2(pt),
        forall|t: int| 0 <= t < pt ==> #[trigger] packed_bit(c1, base, pt, cell * pt + t) == packed_bit(
            c2,
            base,
            pt,
            cell * pt + t,
        ),
    ensures
        c1[base + cell] == c2[base + cell],
{
    lemma_field_same_bits(c1, c2, base, pt, cell * pt, pt);
    lemma_field_in_one_cell(c1, base, pt, cell, 0, pt);
    lemma_field_in_one_cell(c2, base, pt, cell, 0, pt);
    assert(cell * pt + 0 == cell * pt);
    lemma_bit_run(c1[base + cell] as nat, 0, pt);
    lemma_bit_run(c2[base + cell] as nat, 0, pt);
    vstd::arithmetic::power2::lemma2_to64();
    vstd::arithmetic::div_mod::lemma_small_mod(c1[base + cell] as nat, pow2(pt));
    vstd::arithmetic::div_mod::lemma_small_mod(c2[base + cell] as nat, pow2(pt));
}

/// An `n`-bit field is below `2^n`.
pub proof fn lemma_field_bound(cells: Seq<u32>, base: int, pt: nat, off: int, n: nat)
    ensures
        packed_field(cells, base, pt, off, n) < pow2(n),
    decreases n,
{
    if n == 0 {
        vstd::arithmetic::power2::lemma2_to64();
    } else {
        lemma_field_bound(cells, base, pt, off + 1, (n - 1) as nat);
        lemma_pow2_unfold(n);
    }
}

/// Read `n_bits` from `cells` at global bit `bit_offset` into the low bits
/// of a `u64` (inverse of [`write_bits`]).
pub fn read_bits(cells: &[u32], pt: u32, bit_offset: usize, n_bits: usize) -> (r: u64)
    requires
        1 <= pt <= 31,
        n_bits <= 64,
        bit_offset + n_bits <= cells@.len() * pt,
        bit_offset + n_bits <= usize::MAX,
    ensures
        r as nat == packed_field(cells@, 0, pt as nat, bit_offset as int, n_bits as nat),
{
    read_bits_at(cells, 0, pt, bit_offset, n_bits)
}

/// Write the low `n_bits` of `value` into `cells` at global bit
/// `bit_offset`, LSB-first, where cell `i` holds bits `[i·pt, (i+1)·pt)`.
/// Straddles cell boundaries; leaves all other bits, and each cell's bits
/// at and above `pt`, as they were.
pub fn write_bits(cells: &mut [u32], pt: u32, bit_offset: usize, n_bits: usize, value: u64)
    requires
        1 <= pt <= 31,
        n_bits <= 64,
        bit_offset + n_bits <= old(cells)@.len() * pt,
        bit_offset + n_bits <= usize::MAX,
    ensures
        final(cells)@.len() == old(cells)@.len(),
        packed_field(final(cells)@, 0, pt as nat, bit_offset as int, n_bits as nat)
            == value as nat % pow2(n_bits as nat),
        forall|g: int| 0 <= g < old(cells)@.len() * pt && !(bit_offset <= g < bit_offset + n_bits)
            ==> #[trigger] packed_bit(final(cells)@, 0, pt as nat, g) == packed_bit(old(cells)@, 0, pt as nat, g),
        forall|i: int| 0 <= i < old(cells)@.len() ==> #[trigger] (final(cells)@[i] as nat / pow2(pt as nat))
            == old(cells)@[i] as nat / pow2(pt as nat),
{
    write_bits_at(cells, 0, pt, bit_offset, n_bits, value);
}

/// Writing a field and reading it back at the same place gives the value's
/// low `n_bits` bits; and cells that held a `Z_p` value (below `2^pt`)
/// still do.
pub proof fn lemma_bitpack_roundtrip(before: Seq<u32>, after: Seq<u32>, pt: u32, off: nat, n: nat, value: u64)
    requires
        1 <= pt <= 31,
        after.len() == before.len(),
        packed_field(after, 0, pt as nat, off as int, n) == value as nat % pow2(n),
        forall|i: int| 0 <= i < before.len() ==> #[trigger] (after[i] as nat / pow2(pt as nat))
            == before[i] as nat / pow2(pt as nat),
    ensures
        n >= 64 ==> packed_field(after, 0, pt as nat, off as int, n) == value,
        forall|i: int| 0 <= i < before.len() && before[i] < pow2(pt as nat) ==> #[trigger] after[i] < pow2(pt as nat),
{
    lemma_pow2_pos(pt as nat);
    if n >= 64 {
        vstd::arithmetic::power2::lemma2_to64_rest();
        if n > 64 {
            vstd::arithmetic::power2::lemma_pow2_strictly_increases(64, n);
        }
        vstd::arithmetic::div_mod::lemma_small_mod(value as nat, pow2(n));
    }
    assert forall|i: int| 0 <= i < before.len() && before[i] < pow2(pt as nat) implies #[trigger] after[i]
        < pow2(pt as nat) by {
        vstd::arithmetic::div_mod::lemma_basic_div(before[i] as int, pow2(pt as nat) as int);
        assert(after[i] as nat / pow2(pt as nat) == before[i] as nat / pow2(pt as nat));
        vstd::arithmetic::div_mod::lemma_fundamental_div_mod(after[i] as int, pow2(pt as nat) as int);
        vstd::arithmetic::div_mod::lemma_mod_bound(after[i] as int, pow2(pt as nat) as int);
    }
}

} // verus!
