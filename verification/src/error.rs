//! Errors reported by the decoder.

use vstd::prelude::*;

verus! {

/// What was found wrong with the structure of the binary payload.
#[derive(Debug, Clone, Copy, PartialEq, Eq, Structural)]
pub enum Fault {
    /// A range named by the schema does not lie inside the binary span. The
    /// error carries the start of the range, counted from the start of the
    /// span.
    OutOfSpan,
    /// A symbol entry needs more bytes than its stream has left. The error
    /// carries the position of the entry, counted from the start of the
    /// span.
    Overrun,
    /// The row section is not a whole number of records, or its records
    /// have no bytes. The error carries the position of the incomplete
    /// record, counted from the start of the row section, and zero for
    /// records without bytes.
    RaggedRows,
    /// The bits of an index do not lie inside one record. The error carries
    /// the position zero.
    BitsOutsideRecord,
    /// The row section does not hold the number of records that the schema
    /// declares. The error carries the number of records that it holds.
    RecordCount,
    /// A row index points past the end of the symbol table. The error
    /// carries the number of the row, counted from zero.
    IndexOutOfRange,
}

/// Failure of a decode. No partial result accompanies an error.
#[derive(Debug, Clone, PartialEq, Eq)]
pub enum QvdError {
    /// No null byte ends the XML header.
    HeaderNotTerminated,
    /// The XML header is not valid UTF-8.
    Encoding,
    /// Two fields of the schema share the name carried here.
    DuplicateField { field: String },
    /// The binary payload contradicts the schema: `field` names the column
    /// that was being decoded, `fault` says what is wrong, and `offset` is
    /// the place that the fault names.
    FormatStructure { field: String, offset: usize, fault: Fault },
}

/// The mathematical content of an error of a table decode.
pub enum Failure {
    /// Two fields share this name.
    DuplicateField(Seq<char>),
    /// The payload of the field with this name has this fault at this place.
    Structure(Seq<char>, int, Fault),
}

/// Whether `e` reports the failure `failure`.
pub open spec fn reports(e: QvdError, failure: Failure) -> bool {
    match failure {
        Failure::DuplicateField(name) => e matches QvdError::DuplicateField { field } && field@
            == name,
        Failure::Structure(name, offset, fault) => is_fault(e, name, offset, fault),
    }
}

/// Whether `e` reports the structural fault `fault` of the field named `name`
/// at `offset`.
pub open spec fn is_fault(e: QvdError, name: Seq<char>, offset: int, fault: Fault) -> bool {
    e matches QvdError::FormatStructure { field, offset: o, fault: f } && field@ == name && o
        == offset && f == fault
}

} // verus!
