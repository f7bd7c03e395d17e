//! The row section: fixed-width records that pack, for every field, one
//! index into the field's symbol table.

use vstd::prelude::*;
use vstd::arithmetic::power2::{lemma2_to64, pow2};
use vstd::slice::slice_subrange;
use crate::bits::{
    be_value, binary_to_u32, bits_value, bitslice_to_vec, lemma_bits_spell_bytes,
    lemma_bits_value_concat, lemma_bits_value_subrange, lemma_msb0_bits_binary,
    lemma_msb0_bits_subrange, msb0_bits,
};
use crate::bytes::as_signed32;
use crate::error::{is_fault, Fault, QvdError};
use crate::qvd_structure::QvdFieldHeader;

verus! {

/// The bits of the index that starts `bit_offset` bits above the least
/// significant bit of `record` and is `bit_width` bits wide: the record with
/// its bytes reversed is read as a bit stream, most significant bit first,
/// and the index ends `bit_offset` bits before the end of that stream.
pub open spec fn index_bits(record: Seq<u8>, bit_offset: int, bit_width: int) -> Seq<u8> {
    let total = 8 * record.len();
    msb0_bits(record.reverse()).subrange(total - bit_offset - bit_width, total - bit_offset)
}

/// The unsigned number that the bits of the index spell.
pub open spec fn raw_index(record: Seq<u8>, bit_offset: int, bit_width: int) -> nat {
    bits_value(index_bits(record, bit_offset, bit_width))
}

/// The index of `field` in `record`: the 32 low bits of the raw index as a
/// signed number, plus the bias of the field.
pub open spec fn row_index(record: Seq<u8>, field: QvdFieldHeader) -> int {
    as_signed32(raw_index(record, field.bit_offset as int, field.bit_width as int) % 0x1_0000_0000)
        + field.bias
}

/// Whether a row section of `len` bytes is a whole number of records of
/// `size` bytes. No row section is made of records without bytes.
pub open spec fn whole_records(len: int, size: int) -> bool {
    size > 0 && len % size == 0
}

/// Number of complete records of `size` bytes in a row section of `len`
/// bytes: `len` divided by `size`, and none where `size` is zero.
pub open spec fn record_count(len: int, size: int) -> int {
    if size == 0 {
        0
    } else {
        len / size
    }
}

/// Record `r` of the row section `rows`.
pub open spec fn record_at(rows: Seq<u8>, size: int, r: int) -> Seq<u8> {
    rows.subrange(r * size, r * size + size)
}

/// The indices of `field`, one for each record of `rows` in order, or the
/// place and kind of what is wrong: the records have no bytes or the row
/// section is no whole number of them, or the bits of the index do not lie
/// inside a record.
pub open spec fn row_indexes_of(rows: Seq<u8>, field: QvdFieldHeader, size: int) -> Result<
    Seq<i64>,
    (int, Fault),
> {
    if !whole_records(rows.len() as int, size) {
        Err((record_count(rows.len() as int, size) * size, Fault::RaggedRows))
    } else if field.bit_offset + field.bit_width > 8 * size {
        Err((0, Fault::BitsOutsideRecord))
    } else {
        Ok(
            Seq::new(
                record_count(rows.len() as int, size) as nat,
                |r: int| row_index(record_at(rows, size, r), field) as i64,
            ),
        )
    }
}

/// An index is the sum of two signed 32-bit numbers.
pub proof fn lemma_row_index_range(record: Seq<u8>, field: QvdFieldHeader)
    ensures
        -0x1_0000_0000 <= row_index(record, field) < 0x1_0000_0000,
{
}

/// Slicing the bits of the index out of the reversed record gives the record
/// as a number, most significant byte first after the reversal, shifted right
/// by `bit_offset` and masked to `bit_width` bits.
pub proof fn lemma_bit_slice_equivalence(record: Seq<u8>, bit_offset: int, bit_width: int)
    requires
        0 <= bit_offset,
        0 <= bit_width,
        bit_offset + bit_width <= 8 * record.len(),
    ensures
        raw_index(record, bit_offset, bit_width) == (be_value(record.reverse()) / pow2(
            bit_offset as nat,
        )) % pow2(bit_width as nat),
{
    let reversed = record.reverse();
    let total = 8 * record.len();
    assert(reversed.len() == record.len());
    lemma_msb0_bits_binary(reversed);
    lemma_bits_value_subrange(
        msb0_bits(reversed),
        total - bit_offset - bit_width,
        total - bit_offset,
    );
    lemma_bits_spell_bytes(reversed);
}

/// The low bits of an index can be read from the bytes that hold them: where
/// `window` is the part of the reversed record that ends `first` bytes before
/// its end, the `low` bits that end `shift` bits before the end of the window
/// are the last `low` bits of the index at bit offset `8 * first + shift`.
proof fn lemma_window_bits(
    record: Seq<u8>,
    first: int,
    shift: int,
    bit_width: int,
    low: int,
    window: Seq<u8>,
    bits: Seq<u8>,
)
    requires
        0 <= first,
        0 <= shift < 8,
        0 < low <= bit_width,
        low == bit_width || low == 32,
        8 * first + shift + bit_width <= 8 * record.len(),
        first + window.len() <= record.len(),
        window == record.reverse().subrange(
            record.len() - first - window.len(),
            record.len() - first,
        ),
        shift + low <= 8 * window.len(),
        bits == msb0_bits(window).subrange(
            8 * window.len() - shift - low,
            8 * window.len() - shift,
        ),
    ensures
        bits_value(bits) % 0x1_0000_0000 == raw_index(record, 8 * first + shift, bit_width)
            % 0x1_0000_0000,
{
    lemma2_to64();
    let reversed = record.reverse();
    let n = record.len() as int;
    let total = 8 * n;
    let bit_offset = 8 * first + shift;
    let all = msb0_bits(reversed);
    let whole = index_bits(record, bit_offset, bit_width);
    assert(reversed.len() == n);
    lemma_msb0_bits_subrange(reversed, n - first - window.len(), n - first);
    assert(bits =~= all.subrange(total - bit_offset - low, total - bit_offset));
    assert(bits =~= whole.skip(bit_width - low));
    assert(whole =~= whole.take(bit_width - low) + whole.skip(bit_width - low));
    lemma_bits_value_concat(whole.take(bit_width - low), whole.skip(bit_width - low));
    if low < bit_width {
        assert(pow2(32) == 0x1_0000_0000);
        let high = bits_value(whole.take(bit_width - low));
        let rest = bits_value(bits);
        assert((high * 0x1_0000_0000 + rest) % 0x1_0000_0000 == rest % 0x1_0000_0000) by {
            vstd::arithmetic::div_mod::lemma_mod_multiples_vanish(
                high as int,
                rest as int,
                0x1_0000_0000,
            );
        }
    } else {
        assert(whole.take(0) =~= Seq::<u8>::empty());
    }
}

/// The index of width `bit_width` that starts `bit_offset` bits above the
/// least significant bit of `record`, cut to its 32 low bits.
pub fn record_raw_index(record: &[u8], bit_offset: usize, bit_width: usize) -> (raw: u32)
    requires
        bit_offset + bit_width <= 8 * record@.len(),
    ensures
        raw == raw_index(record@, bit_offset as int, bit_width as int) % 0x1_0000_0000,
{
    let low: usize = if bit_width < 32 {
        bit_width
    } else {
        32
    };
    if low == 0 {
        return 0;
    }
    let first = bit_offset / 8;
    let shift = bit_offset % 8;
    let last = first + (shift + low - 1) / 8;
    let ghost reversed = record@.reverse();
    let ghost n = record@.len() as int;
    assert(reversed.len() == n);
    // The bytes that hold the low bits of the index, most significant first.
    let mut window: Vec<u8> = Vec::new();
    let mut j = last + 1;
    while j > first
        invariant
            first <= j <= last + 1,
            last < n,
            n == record@.len(),
            reversed == record@.reverse(),
            window@ == reversed.subrange(n - 1 - last, n - j),
        decreases j,
    {
        j = j - 1;
        window.push(record[j]);
        assert(window@ =~= reversed.subrange(n - 1 - last, n - j));
    }
    let top = 8 * window.len() - shift;
    let bits = bitslice_to_vec(window.as_slice(), top - low, top);
    proof {
        lemma_window_bits(
            record@,
            first as int,
            shift as int,
            bit_width as int,
            low as int,
            window@,
            bits@,
        );
    }
    binary_to_u32(bits)
}

/// Extracts the index of `field` from every record of the row section `buf`,
/// whose records are `record_byte_size` bytes wide.
///
/// Fails when `record_byte_size` is zero, when `buf` is not a whole number of
/// records, and when the bits of the index do not lie inside one record.
pub fn get_row_indexes(buf: &[u8], field: &QvdFieldHeader, record_byte_size: usize) -> (r: Result<
    Vec<i64>,
    QvdError,
>)
    ensures
        match r {
            Ok(indexes) => indexes@.len() == record_count(
                buf@.len() as int,
                record_byte_size as int,
            ) && row_indexes_of(buf@, *field, record_byte_size as int) == Ok::<
                Seq<i64>,
                (int, Fault),
            >(indexes@),
            Err(e) => match row_indexes_of(buf@, *field, record_byte_size as int) {
                Ok(_) => false,
                Err((at, fault)) => is_fault(e, field.field_name@, at, fault),
            },
        },
{
    let size = record_byte_size;
    if size == 0 {
        return Err(
            QvdError::FormatStructure {
                field: field.field_name.clone(),
                offset: 0,
                fault: Fault::RaggedRows,
            },
        );
    }
    if buf.len() % size != 0 {
        let ghost len = buf@.len() as int;
        assert(len / (size as int) * size <= len) by (nonlinear_arith)
            requires
                size > 0,
                len >= 0,
        ;
        return Err(
            QvdError::FormatStructure {
                field: field.field_name.clone(),
                offset: buf.len() / size * size,
                fault: Fault::RaggedRows,
            },
        );
    }
    if field.bit_offset as u128 + field.bit_width as u128 > 8 * (size as u128) {
        return Err(
            QvdError::FormatStructure {
                field: field.field_name.clone(),
                offset: 0,
                fault: Fault::BitsOutsideRecord,
            },
        );
    }
    let count = buf.len() / size;
    let mut indexes: Vec<i64> = Vec::new();
    let mut r: usize = 0;
    let mut start: usize = 0;
    assert(count * size == buf@.len()) by (nonlinear_arith)
        requires
            count == record_count(buf@.len() as int, size as int),
            whole_records(buf@.len() as int, size as int),
    ;
    while r < count
        invariant
            r <= count,
            start == r * size,
            count * size == buf@.len() <= usize::MAX,
            count == record_count(buf@.len() as int, size as int),
            field.bit_offset + field.bit_width <= 8 * size,
            indexes@.len() == r,
            forall|k: int|
                0 <= k < r ==> #[trigger] indexes@[k] as int == row_index(
                    record_at(buf@, size as int, k),
                    *field,
                ),
        decreases count - r,
    {
        assert(r * size + size <= count * size) by (nonlinear_arith)
            requires
                r < count,
        ;
        let record = slice_subrange(buf, start, start + size);
        let raw = record_raw_index(record, field.bit_offset, field.bit_width);
        let signed: i64 = if raw >= 0x8000_0000 {
            raw as i64 - 0x1_0000_0000
        } else {
            raw as i64
        };
        indexes.push(signed + field.bias as i64);
        start = start + size;
        r = r + 1;
        assert(start == r * size) by (nonlinear_arith)
            requires
                start == (r - 1) * size + size,
        ;
    }
    assert(indexes@ =~= Seq::new(
        record_count(buf@.len() as int, size as int) as nat,
        |k: int| row_index(record_at(buf@, size as int, k), *field) as i64,
    ));
    Ok(indexes)
}

} // verus!
