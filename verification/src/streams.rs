//! Symbol streams written entry by entry, and what the decoder makes of
//! them.

use vstd::prelude::*;
use vstd::arithmetic::div_mod::{lemma_breakdown, lemma_small_mod};
use vstd::arithmetic::power2::{lemma2_to64, lemma_pow2_adds, lemma_pow2_pos, pow2};
use crate::bytes::{as_signed32, le_i32, le_value};
use crate::symbols::{
    decode_symbols, finished_string, payload_len, scan, scan_start, scan_step, Pending, Scan,
    SymbolView,
};

verus! {

/// The `width` low bytes of `value`, least significant byte first.
pub open spec fn le_bytes(value: nat, width: nat) -> Seq<u8>
    decreases width,
{
    if width == 0 {
        Seq::empty()
    } else {
        seq![(value % 256) as u8] + le_bytes(value / 256, (width - 1) as nat)
    }
}

/// The number that stands for `v` in 32-bit two's complement.
pub open spec fn unsigned32(v: i32) -> nat {
    if v < 0 {
        (v + 0x1_0000_0000) as nat
    } else {
        v as nat
    }
}

/// The entry that holds the integer `v`: the tag 1 and four bytes.
pub open spec fn integer_entry(v: i32) -> Seq<u8> {
    seq![1u8] + le_bytes(unsigned32(v), 4)
}

/// The entry that holds the double with the bit pattern `bits`: the tag 2
/// and eight bytes.
pub open spec fn double_entry(bits: u64) -> Seq<u8> {
    seq![2u8] + le_bytes(bits as nat, 8)
}

/// The stream that holds the integers `values` and nothing else.
pub open spec fn integer_stream(values: Seq<i32>) -> Seq<u8>
    decreases values.len(),
{
    if values.len() == 0 {
        Seq::empty()
    } else {
        integer_entry(values.first()) + integer_stream(values.drop_first())
    }
}

/// The stream that holds the doubles with the bit patterns `values` and
/// nothing else.
pub open spec fn double_stream(values: Seq<u64>) -> Seq<u8>
    decreases values.len(),
{
    if values.len() == 0 {
        Seq::empty()
    } else {
        double_entry(values.first()) + double_stream(values.drop_first())
    }
}

/// Whether `byte` inside a string is a character of the string or padding,
/// and neither a tag nor the terminator.
pub open spec fn is_string_byte(byte: u8) -> bool {
    byte != 0 && byte != 1 && byte != 2 && byte != 4 && byte != 5 && byte != 6
}

/// Whether every byte of `bytes` is a string byte.
pub open spec fn is_string_content(bytes: Seq<u8>) -> bool {
    forall|k: int| 0 <= k < bytes.len() ==> is_string_byte(#[trigger] bytes[k])
}

/// `bytes` without carriage returns and line feeds.
pub open spec fn without_padding(bytes: Seq<u8>) -> Seq<u8>
    decreases bytes.len(),
{
    if bytes.len() == 0 {
        Seq::empty()
    } else if bytes.last() == 10 || bytes.last() == 13 {
        without_padding(bytes.drop_last())
    } else {
        without_padding(bytes.drop_last()).push(bytes.last())
    }
}

/// Reading back the bytes of a number gives the number, cut to the width.
pub proof fn lemma_le_bytes_value(value: nat, width: nat)
    ensures
        le_bytes(value, width).len() == width,
        le_value(le_bytes(value, width)) == value % pow2(8 * width),
    decreases width,
{
    lemma2_to64();
    if width > 0 {
        let rest = le_bytes(value / 256, (width - 1) as nat);
        let all = le_bytes(value, width);
        lemma_le_bytes_value(value / 256, (width - 1) as nat);
        assert(all.skip(1) =~= rest);
        let p = pow2((8 * (width - 1)) as nat);
        lemma_pow2_pos((8 * (width - 1)) as nat);
        lemma_pow2_adds(8, (8 * (width - 1)) as nat);
        assert(pow2(8 * width) == 256 * p);
        lemma_breakdown(value as int, 256, p as int);
    }
}

/// The four bytes of a 32-bit integer read back as that integer.
pub proof fn lemma_integer_bytes(v: i32)
    ensures
        le_bytes(unsigned32(v), 4).len() == 4,
        le_i32(le_bytes(unsigned32(v), 4)) == v,
{
    lemma2_to64();
    lemma_le_bytes_value(unsigned32(v), 4);
    assert(pow2(8 * 4) == 0x1_0000_0000);
    lemma_small_mod(unsigned32(v), 0x1_0000_0000);
}

/// The eight bytes of a 64-bit pattern read back as that pattern.
pub proof fn lemma_double_bytes(bits: u64)
    ensures
        le_bytes(bits as nat, 8).len() == 8,
        le_value(le_bytes(bits as nat, 8)) == bits,
{
    lemma2_to64();
    lemma_le_bytes_value(bits as nat, 8);
    assert(pow2(8 * 8) == 0x1_0000_0000_0000_0000);
    lemma_small_mod(bits as nat, 0x1_0000_0000_0000_0000);
}

/// The integer symbols with the values `values`.
pub open spec fn integer_symbols(values: Seq<i32>) -> Seq<SymbolView> {
    Seq::new(values.len(), |k: int| SymbolView::Integer(values[k]))
}

/// The double symbols with the bit patterns `values`.
pub open spec fn double_symbols(values: Seq<u64>) -> Seq<SymbolView> {
    Seq::new(values.len(), |k: int| SymbolView::Double(values[k]))
}

/// From any state, the walk over the entries of the integers `values`, where
/// they end the stream, adds these integers in order to the symbols found
/// before.
pub proof fn lemma_scan_integers(stream: Seq<u8>, at: int, values: Seq<i32>, st: Scan)
    requires
        0 <= at <= stream.len(),
        stream.skip(at) == integer_stream(values),
    ensures
        scan(stream, at, st) == Ok::<Seq<SymbolView>, int>(st.out + integer_symbols(values)),
    decreases values.len(),
{
    if values.len() == 0 {
        assert(stream.skip(at).len() == 0);
        assert(st.out + integer_symbols(values) =~= st.out);
    } else {
        let v = values.first();
        let rest = values.drop_first();
        lemma_integer_bytes(v);
        let entry = integer_entry(v);
        assert(entry.len() == 5);
        assert(stream.skip(at).len() == entry.len() + integer_stream(rest).len());
        assert(stream[at] == stream.skip(at)[0]);
        assert(stream.subrange(at + 1, at + 5) =~= le_bytes(unsigned32(v), 4)) by {
            assert forall|k: int| 0 <= k < 4 implies stream.subrange(at + 1, at + 5)[k]
                == le_bytes(unsigned32(v), 4)[k] by {
                assert(stream[at + 1 + k] == stream.skip(at)[1 + k]);
            }
        }
        assert(stream.skip(at + 5) =~= integer_stream(rest)) by {
            assert forall|k: int| 0 <= k < integer_stream(rest).len() implies stream.skip(at + 5)[k]
                == integer_stream(rest)[k] by {
                assert(stream[at + 5 + k] == stream.skip(at)[5 + k]);
            }
        }
        let next = scan_step(stream, at, st);
        lemma_scan_integers(stream, at + 5, rest, next);
        assert(next.out + integer_symbols(rest) =~= st.out + integer_symbols(values));
    }
}

/// A stream that holds nothing but the entries of one or more integers
/// decodes to these integers, in order.
pub proof fn lemma_integers_round_trip(values: Seq<i32>)
    requires
        values.len() > 0,
    ensures
        decode_symbols(integer_stream(values)) == Ok::<Seq<SymbolView>, int>(
            integer_symbols(values),
        ),
{
    let stream = integer_stream(values);
    lemma_integer_bytes(values.first());
    assert(stream[0] == 1);
    assert(stream.skip(0) =~= stream);
    lemma_scan_integers(stream, 0, values, scan_start());
    assert(scan_start().out + integer_symbols(values) =~= integer_symbols(values));
}

/// From any state, the walk over the entries of the doubles `values`, where
/// they end the stream, adds these doubles in order to the symbols found
/// before.
pub proof fn lemma_scan_doubles(stream: Seq<u8>, at: int, values: Seq<u64>, st: Scan)
    requires
        0 <= at <= stream.len(),
        stream.skip(at) == double_stream(values),
    ensures
        scan(stream, at, st) == Ok::<Seq<SymbolView>, int>(st.out + double_symbols(values)),
    decreases values.len(),
{
    if values.len() == 0 {
        assert(stream.skip(at).len() == 0);
        assert(st.out + double_symbols(values) =~= st.out);
    } else {
        let v = values.first();
        let rest = values.drop_first();
        lemma_double_bytes(v);
        let entry = double_entry(v);
        assert(entry.len() == 9);
        assert(stream.skip(at).len() == entry.len() + double_stream(rest).len());
        assert(stream[at] == stream.skip(at)[0]);
        assert(stream.subrange(at + 1, at + 9) =~= le_bytes(v as nat, 8)) by {
            assert forall|k: int| 0 <= k < 8 implies stream.subrange(at + 1, at + 9)[k]
                == le_bytes(v as nat, 8)[k] by {
                assert(stream[at + 1 + k] == stream.skip(at)[1 + k]);
            }
        }
        assert(stream.skip(at + 9) =~= double_stream(rest)) by {
            assert forall|k: int| 0 <= k < double_stream(rest).len() implies stream.skip(at + 9)[k]
                == double_stream(rest)[k] by {
                assert(stream[at + 9 + k] == stream.skip(at)[9 + k]);
            }
        }
        let next = scan_step(stream, at, st);
        lemma_scan_doubles(stream, at + 9, rest, next);
        assert(next.out + double_symbols(rest) =~= st.out + double_symbols(values));
    }
}

/// A stream that holds nothing but the entries of one or more doubles decodes
/// to these doubles, bit for bit and in order.
pub proof fn lemma_doubles_round_trip(values: Seq<u64>)
    requires
        values.len() > 0,
    ensures
        decode_symbols(double_stream(values)) == Ok::<Seq<SymbolView>, int>(
            double_symbols(values),
        ),
{
    let stream = double_stream(values);
    lemma_double_bytes(values.first());
    assert(stream[0] == 2);
    assert(stream.skip(0) =~= stream);
    lemma_scan_doubles(stream, 0, values, scan_start());
    assert(scan_start().out + double_symbols(values) =~= double_symbols(values));
}

/// The walk over string bytes adds them, without the padding, to the string
/// in flight, and changes nothing else.
pub proof fn lemma_scan_content(stream: Seq<u8>, from: int, to: int, st: Scan)
    requires
        0 <= from <= to <= stream.len(),
        is_string_content(stream.subrange(from, to)),
    ensures
        scan(stream, from, st) == scan(
            stream,
            to,
            Scan { text: st.text + without_padding(stream.subrange(from, to)), ..st },
        ),
    decreases to - from,
{
    let content = stream.subrange(from, to);
    if from == to {
        assert(st.text + without_padding(content) =~= st.text);
    } else {
        let shorter = stream.subrange(from, to - 1);
        assert(content.drop_last() =~= shorter);
        assert forall|k: int| 0 <= k < shorter.len() implies is_string_byte(
            #[trigger] shorter[k],
        ) by {
            assert(shorter[k] == content[k]);
        }
        lemma_scan_content(stream, from, to - 1, st);
        let before = Scan { text: st.text + without_padding(shorter), ..st };
        let byte = stream[to - 1];
        assert(byte == content[to - 1 - from]);
        assert(is_string_byte(byte));
        assert(payload_len(byte) == 0);
        let after = scan_step(stream, to - 1, before);
        assert(after.text =~= st.text + without_padding(content));
    }
}

/// An entry that starts with the tag 4 decodes to one string: the bytes
/// between the tag and the next null byte, without carriage returns and line
/// feeds. The walk goes on behind the null byte with no string in flight.
pub proof fn lemma_string_entry(stream: Seq<u8>, at: int, end: int, st: Scan)
    requires
        0 <= at < end < stream.len(),
        stream[at] == 4,
        is_string_content(stream.subrange(at + 1, end)),
        stream[end] == 0,
    ensures
        scan(stream, at, st) == scan(
            stream,
            end + 1,
            Scan {
                out: st.out.push(
                    SymbolView::String(without_padding(stream.subrange(at + 1, end))),
                ),
                text: Seq::empty(),
                pending: Pending::Plain,
            },
        ),
{
    let opened = scan_step(stream, at, st);
    lemma_scan_content(stream, at + 1, end, opened);
    let text = without_padding(stream.subrange(at + 1, end));
    assert(opened.text + text =~= text);
}

/// An entry that starts with the tag 5 skips exactly the four bytes behind
/// the tag, whatever they hold, and decodes to one string with the integer of
/// these four bytes attached: the bytes between the fourth byte and the next
/// null byte, without carriage returns and line feeds.
pub proof fn lemma_tagged_int_entry(stream: Seq<u8>, at: int, end: int, st: Scan)
    requires
        0 <= at,
        at + 5 <= end < stream.len(),
        stream[at] == 5,
        is_string_content(stream.subrange(at + 5, end)),
        stream[end] == 0,
    ensures
        scan(stream, at, st) == scan(
            stream,
            end + 1,
            Scan {
                out: st.out.push(
                    SymbolView::TaggedIntString(
                        le_i32(stream.subrange(at + 1, at + 5)) as i32,
                        without_padding(stream.subrange(at + 5, end)),
                    ),
                ),
                text: Seq::empty(),
                pending: Pending::Plain,
            },
        ),
{
    let opened = scan_step(stream, at, st);
    lemma_scan_content(stream, at + 5, end, opened);
    let text = without_padding(stream.subrange(at + 5, end));
    assert(opened.text + text =~= text);
}

/// An entry that starts with the tag 6 skips exactly the eight bytes behind
/// the tag, whatever they hold, and decodes to one string with the double of
/// these eight bytes attached: the bytes between the eighth byte and the next
/// null byte, without carriage returns and line feeds.
pub proof fn lemma_tagged_double_entry(stream: Seq<u8>, at: int, end: int, st: Scan)
    requires
        0 <= at,
        at + 9 <= end < stream.len(),
        stream[at] == 6,
        is_string_content(stream.subrange(at + 9, end)),
        stream[end] == 0,
    ensures
        scan(stream, at, st) == scan(
            stream,
            end + 1,
            Scan {
                out: st.out.push(
                    SymbolView::TaggedDoubleString(
                        le_value(stream.subrange(at + 1, at + 9)) as u64,
                        without_padding(stream.subrange(at + 9, end)),
                    ),
                ),
                text: Seq::empty(),
                pending: Pending::Plain,
            },
        ),
{
    let opened = scan_step(stream, at, st);
    lemma_scan_content(stream, at + 9, end, opened);
    let text = without_padding(stream.subrange(at + 9, end));
    assert(opened.text + text =~= text);
}

} // verus!
