//! The symbol table of one field: a stream of tagged entries that decodes to
//! an ordered sequence of symbols.

use vstd::prelude::*;
use vstd::slice::slice_subrange;
use crate::bytes::{le_i32, le_value, read_i32_le, read_u64_le};
use crate::error::{is_fault, Fault, QvdError};
use crate::qvd_structure::QvdFieldHeader;
use crate::text::{decimal_string, decimal_text, latin1, latin1_string};

verus! {

/// One entry of a symbol table. A double is held by its IEEE-754 bit
/// pattern, a string by its raw bytes, one byte for each character.
#[derive(Debug, Clone, PartialEq, Eq)]
pub enum Symbol {
    Absent,
    Integer(i32),
    Double(u64),
    String(Vec<u8>),
    TaggedIntString(i32, Vec<u8>),
    TaggedDoubleString(u64, Vec<u8>),
}

/// The mathematical value of a [`Symbol`].
pub enum SymbolView {
    Absent,
    Integer(i32),
    Double(u64),
    String(Seq<u8>),
    TaggedIntString(i32, Seq<u8>),
    TaggedDoubleString(u64, Seq<u8>),
}

impl View for Symbol {
    type V = SymbolView;

    open spec fn view(&self) -> SymbolView {
        match *self {
            Symbol::Absent => SymbolView::Absent,
            Symbol::Integer(v) => SymbolView::Integer(v),
            Symbol::Double(bits) => SymbolView::Double(bits),
            Symbol::String(text) => SymbolView::String(text@),
            Symbol::TaggedIntString(v, text) => SymbolView::TaggedIntString(v, text@),
            Symbol::TaggedDoubleString(bits, text) => SymbolView::TaggedDoubleString(bits, text@),
        }
    }
}

/// The values of a sequence of symbols.
pub open spec fn symbol_views(symbols: Seq<Symbol>) -> Seq<SymbolView> {
    Seq::new(symbols.len(), |k: int| symbols[k]@)
}

/// The number that the last string-start tag attached to the string in flight.
#[derive(Debug, Clone, Copy, PartialEq, Eq, Structural)]
pub enum Pending {
    /// None: the string began with `0x04`, or with no tag at all.
    Plain,
    /// The integer that followed `0x05`.
    Int(i32),
    /// The bit pattern of the double that followed `0x06`.
    Double(u64),
}

/// State of the walk over a symbol stream.
pub struct Scan {
    /// The symbols completed so far.
    pub out: Seq<SymbolView>,
    /// The bytes of the string in flight.
    pub text: Seq<u8>,
    /// The number attached to the string in flight.
    pub pending: Pending,
}

/// The state before the first byte.
pub open spec fn scan_start() -> Scan {
    Scan { out: Seq::empty(), text: Seq::empty(), pending: Pending::Plain }
}

/// The symbol that a string terminator completes.
pub open spec fn finished_string(pending: Pending, text: Seq<u8>) -> SymbolView {
    match pending {
        Pending::Plain => SymbolView::String(text),
        Pending::Int(v) => SymbolView::TaggedIntString(v, text),
        Pending::Double(bits) => SymbolView::TaggedDoubleString(bits, text),
    }
}

/// Number of bytes that follow the tag `tag` and belong to its entry.
pub open spec fn payload_len(tag: u8) -> int {
    if tag == 1 || tag == 5 {
        4
    } else if tag == 2 || tag == 6 {
        8
    } else {
        0
    }
}

/// The state after the entry that starts at `at`, whose tag and payload lie
/// inside `stream`.
pub open spec fn scan_step(stream: Seq<u8>, at: int, st: Scan) -> Scan {
    let tag = stream[at];
    let payload = stream.subrange(at + 1, at + 1 + payload_len(tag));
    if tag == 0 {
        Scan {
            out: st.out.push(finished_string(st.pending, st.text)),
            text: Seq::empty(),
            pending: Pending::Plain,
        }
    } else if tag == 1 {
        Scan { out: st.out.push(SymbolView::Integer(le_i32(payload) as i32)), ..st }
    } else if tag == 2 {
        Scan { out: st.out.push(SymbolView::Double(le_value(payload) as u64)), ..st }
    } else if tag == 4 {
        Scan { text: Seq::empty(), pending: Pending::Plain, ..st }
    } else if tag == 5 {
        Scan { text: Seq::empty(), pending: Pending::Int(le_i32(payload) as i32), ..st }
    } else if tag == 6 {
        Scan { text: Seq::empty(), pending: Pending::Double(le_value(payload) as u64), ..st }
    } else if tag == 10 || tag == 13 {
        st
    } else {
        Scan { text: st.text.push(tag), ..st }
    }
}

/// The walk over `stream` from position `at` in state `st`: the symbols of
/// the whole stream, or the position of the entry that runs past its end. A
/// string still in flight at the end of the stream is dropped.
pub open spec fn scan(stream: Seq<u8>, at: int, st: Scan) -> Result<Seq<SymbolView>, int>
    decreases stream.len() - at,
{
    if at < 0 || at >= stream.len() {
        Ok(st.out)
    } else if at + 1 + payload_len(stream[at]) > stream.len() {
        Err(at)
    } else {
        scan(stream, at + 1 + payload_len(stream[at]), scan_step(stream, at, st))
    }
}

/// Whether `tag` may open a symbol stream.
pub open spec fn opens_stream(tag: u8) -> bool {
    tag == 1 || tag == 2 || tag == 4 || tag == 5 || tag == 6
}

/// The symbol table that `stream` encodes. An empty stream, and one whose
/// first byte opens no entry, stand for the single symbol `Absent`.
pub open spec fn decode_symbols(stream: Seq<u8>) -> Result<Seq<SymbolView>, int> {
    if stream.len() == 0 || !opens_stream(stream[0]) {
        Ok(seq![SymbolView::Absent])
    } else {
        scan(stream, 0, scan_start())
    }
}

/// Whether the symbol stream of `field` lies inside a binary span of `span`
/// bytes.
pub open spec fn stream_in_span(field: QvdFieldHeader, span: int) -> bool {
    field.offset + field.length <= span
}

/// The symbol stream of `field` inside the binary span `span`.
pub open spec fn field_stream(span: Seq<u8>, field: QvdFieldHeader) -> Seq<u8> {
    span.subrange(field.offset as int, field.offset + field.length)
}

/// The symbol table of `field` in the binary span `span`, or the place and
/// kind of what is wrong: the stream does not lie inside the span, or an
/// entry runs past the end of the stream.
pub open spec fn symbols_of(span: Seq<u8>, field: QvdFieldHeader) -> Result<
    Seq<SymbolView>,
    (int, Fault),
> {
    if !stream_in_span(field, span.len() as int) {
        Err((field.offset as int, Fault::OutOfSpan))
    } else {
        match decode_symbols(field_stream(span, field)) {
            Ok(symbols) => Ok(symbols),
            Err(at) => Err((field.offset + at, Fault::Overrun)),
        }
    }
}

/// Whether `e` reports the failure of decoding the symbol table of `field`
/// from `span`.
pub open spec fn symbols_failure(span: Seq<u8>, field: QvdFieldHeader, e: QvdError) -> bool {
    match symbols_of(span, field) {
        Ok(_) => false,
        Err((at, fault)) => is_fault(e, field.field_name@, at, fault),
    }
}

/// Decodes the symbol table of `field` from the binary span `buf`, each
/// symbol in the variant that its tag names.
///
/// Fails when the stream does not lie inside `buf`, and when an entry needs
/// more bytes than the stream has left; the error then carries the position
/// of that entry in `buf`.
pub fn get_symbols(buf: &[u8], field: &QvdFieldHeader) -> (r: Result<Vec<Symbol>, QvdError>)
    ensures
        match r {
            Ok(symbols) => symbols_of(buf@, *field) == Ok::<Seq<SymbolView>, (int, Fault)>(
                symbol_views(symbols@),
            ),
            Err(e) => symbols_failure(buf@, *field, e),
        },
{
    if field.length > buf.len() || field.offset > buf.len() - field.length {
        return Err(
            QvdError::FormatStructure {
                field: field.field_name.clone(),
                offset: field.offset,
                fault: Fault::OutOfSpan,
            },
        );
    }
    let stream = slice_subrange(buf, field.offset, field.offset + field.length);
    let mut out: Vec<Symbol> = Vec::new();
    if stream.len() == 0 || !(stream[0] == 1 || stream[0] == 2 || stream[0] == 4 || stream[0] == 5
        || stream[0] == 6) {
        out.push(Symbol::Absent);
        assert(symbol_views(out@) =~= seq![SymbolView::Absent]);
        return Ok(out);
    }
    let mut text: Vec<u8> = Vec::new();
    let mut pending = Pending::Plain;
    let mut at: usize = 0;
    assert(symbol_views(out@) =~= scan_start().out);
    while at < stream.len()
        invariant
            at <= stream@.len(),
            stream@ == field_stream(buf@, *field),
            stream@.len() == field.length,
            field.offset + field.length <= buf@.len() <= usize::MAX,
            decode_symbols(stream@) == scan(
                stream@,
                at as int,
                Scan { out: symbol_views(out@), text: text@, pending },
            ),
        decreases stream@.len() - at,
    {
        let tag = stream[at];
        let ghost before = Scan { out: symbol_views(out@), text: text@, pending };
        let width: usize = if tag == 1 || tag == 5 {
            4
        } else if tag == 2 || tag == 6 {
            8
        } else {
            0
        };
        if width > stream.len() - at - 1 {
            return Err(
                QvdError::FormatStructure {
                    field: field.field_name.clone(),
                    offset: field.offset + at,
                    fault: Fault::Overrun,
                },
            );
        }
        let payload = slice_subrange(stream, at + 1, at + 1 + width);
        assert(payload@.subrange(0, width as int) =~= payload@);
        if tag == 0 {
            let done = match pending {
                Pending::Plain => Symbol::String(text),
                Pending::Int(v) => Symbol::TaggedIntString(v, text),
                Pending::Double(bits) => Symbol::TaggedDoubleString(bits, text),
            };
            out.push(done);
            assert(symbol_views(out@) =~= before.out.push(finished_string(pending, text@)));
            text = Vec::new();
            pending = Pending::Plain;
        } else if tag == 1 {
            let value = read_i32_le(payload);
            out.push(Symbol::Integer(value));
            assert(symbol_views(out@) =~= before.out.push(SymbolView::Integer(value)));
        } else if tag == 2 {
            let bits = read_u64_le(payload);
            out.push(Symbol::Double(bits));
            assert(symbol_views(out@) =~= before.out.push(SymbolView::Double(bits)));
        } else if tag == 4 {
            text = Vec::new();
            pending = Pending::Plain;
        } else if tag == 5 {
            text = Vec::new();
            pending = Pending::Int(read_i32_le(payload));
        } else if tag == 6 {
            text = Vec::new();
            pending = Pending::Double(read_u64_le(payload));
        } else if tag == 10 || tag == 13 {
        } else {
            text.push(tag);
        }
        assert(Scan { out: symbol_views(out@), text: text@, pending } =~~= scan_step(
            stream@,
            at as int,
            before,
        ));
        at = at + 1 + width;
    }
    Ok(out)
}

/// Whether the bytes of `stream` from `at` on are entries of numbers and
/// nothing else: each starts with the tag 1 or 2 and has its whole payload
/// inside the stream.
pub open spec fn is_number_stream(stream: Seq<u8>, at: int) -> bool
    decreases stream.len() - at,
{
    if at < 0 {
        false
    } else if at >= stream.len() {
        true
    } else {
        (stream[at] == 1 || stream[at] == 2) && at + 1 + payload_len(stream[at]) <= stream.len()
            && is_number_stream(stream, at + 1 + payload_len(stream[at]))
    }
}

/// Decodes a symbol stream that holds numbers only, which the precondition
/// asks of `buf`: an integer for each entry with the tag 1, a double for each
/// with the tag 2, as the walk over any stream finds them. [`get_symbols`]
/// takes any stream, and fails where an entry is cut short.
pub fn process_number_symbols(buf: &[u8]) -> (numbers: Vec<Symbol>)
    requires
        is_number_stream(buf@, 0),
    ensures
        scan(buf@, 0, scan_start()) == Ok::<Seq<SymbolView>, int>(symbol_views(numbers@)),
        numbers@.len() > 0 ==> decode_symbols(buf@) == Ok::<Seq<SymbolView>, int>(
            symbol_views(numbers@),
        ),
{
    let mut numbers: Vec<Symbol> = Vec::new();
    let mut at: usize = 0;
    assert(symbol_views(numbers@) =~= scan_start().out);
    while at < buf.len()
        invariant
            at <= buf@.len(),
            is_number_stream(buf@, at as int),
            at == 0 ==> numbers@.len() == 0,
            at > 0 ==> buf@.len() > 0 && (buf@[0] == 1 || buf@[0] == 2),
            scan(buf@, 0, scan_start()) == scan(
                buf@,
                at as int,
                Scan { out: symbol_views(numbers@), text: Seq::empty(), pending: Pending::Plain },
            ),
        decreases buf@.len() - at,
    {
        let tag = buf[at];
        let ghost before = symbol_views(numbers@);
        let width: usize = if tag == 1 {
            4
        } else {
            8
        };
        let payload = slice_subrange(buf, at + 1, at + 1 + width);
        assert(payload@.subrange(0, width as int) =~= payload@);
        if tag == 1 {
            let value = read_i32_le(payload);
            numbers.push(Symbol::Integer(value));
            assert(symbol_views(numbers@) =~= before.push(SymbolView::Integer(value)));
        } else {
            let bits = read_u64_le(payload);
            numbers.push(Symbol::Double(bits));
            assert(symbol_views(numbers@) =~= before.push(SymbolView::Double(bits)));
        }
        at = at + 1 + width;
    }
    numbers
}

/// Whether `text` is the text form of `symbol`, where `double_text` renders
/// doubles: nothing for `Absent`, the decimal form of an integer, what
/// `double_text` makes of the bit pattern of a double, and the characters of
/// a string, whose attached number is left out.
pub open spec fn renders<F: Fn(u64) -> String>(
    symbol: SymbolView,
    text: Option<String>,
    double_text: F,
) -> bool {
    match symbol {
        SymbolView::Absent => text is None,
        SymbolView::Integer(v) => text is Some && text->0@ == decimal_text(v as int),
        SymbolView::Double(bits) => text is Some && call_ensures(double_text, (bits,), text->0),
        SymbolView::String(bytes) => text is Some && text->0@ == latin1(bytes),
        SymbolView::TaggedIntString(_, bytes) => text is Some && text->0@ == latin1(bytes),
        SymbolView::TaggedDoubleString(_, bytes) => text is Some && text->0@ == latin1(bytes),
    }
}

/// Whether `texts` holds the text forms of `symbols`, one for one.
pub open spec fn renders_all<F: Fn(u64) -> String>(
    symbols: Seq<SymbolView>,
    texts: Seq<Option<String>>,
    double_text: F,
) -> bool {
    texts.len() == symbols.len() && forall|k: int|
        0 <= k < symbols.len() ==> renders(symbols[k], #[trigger] texts[k], double_text)
}

/// Renders every symbol of `symbols` as text. `double_text` turns the bit
/// pattern of a double into its text.
pub fn render_symbols<F: Fn(u64) -> String>(symbols: &Vec<Symbol>, double_text: &F) -> (texts: Vec<
    Option<String>,
>)
    requires
        forall|bits: u64| call_requires(*double_text, (bits,)),
    ensures
        renders_all(symbol_views(symbols@), texts@, *double_text),
{
    let mut texts: Vec<Option<String>> = Vec::new();
    let mut k: usize = 0;
    while k < symbols.len()
        invariant
            k <= symbols@.len(),
            texts@.len() == k,
            forall|bits: u64| call_requires(*double_text, (bits,)),
            forall|j: int|
                0 <= j < k ==> renders(symbols@[j]@, #[trigger] texts@[j], *double_text),
        decreases symbols@.len() - k,
    {
        let text = match &symbols[k] {
            Symbol::Absent => None,
            Symbol::Integer(v) => Some(decimal_string(*v)),
            Symbol::Double(bits) => Some(double_text(*bits)),
            Symbol::String(bytes) => Some(latin1_string(bytes)),
            Symbol::TaggedIntString(_, bytes) => Some(latin1_string(bytes)),
            Symbol::TaggedDoubleString(_, bytes) => Some(latin1_string(bytes)),
        };
        texts.push(text);
        k = k + 1;
    }
    texts
}

/// Decodes the symbol table of `field` from the binary span `buf` and renders
/// every symbol as text. `double_text` turns the bit pattern of a double into
/// its text.
///
/// Fails on the inputs on which [`get_symbols`] fails, with the same error.
pub fn get_symbols_as_strings<F: Fn(u64) -> String>(
    buf: &[u8],
    field: &QvdFieldHeader,
    double_text: &F,
) -> (r: Result<Vec<Option<String>>, QvdError>)
    requires
        forall|bits: u64| call_requires(*double_text, (bits,)),
    ensures
        match r {
            Ok(texts) => match symbols_of(buf@, *field) {
                Ok(symbols) => renders_all(symbols, texts@, *double_text),
                Err(_) => false,
            },
            Err(e) => symbols_failure(buf@, *field, e),
        },
{
    match get_symbols(buf, field) {
        Ok(symbols) => Ok(render_symbols(&symbols, double_text)),
        Err(e) => Err(e),
    }
}

} // verus!
