//! The table schema carried by the XML header of a QVD file.

use vstd::prelude::*;

verus! {

/// Schema of one table.
#[derive(Debug)]
pub struct QvdTableHeader {
    /// Name of the table.
    pub table_name: String,
    /// Identifier of the document that created the file.
    pub creator_doc: String,
    /// The columns of the table, in declared order.
    pub fields: Fields,
    /// Declared number of rows, which the row section must hold.
    pub no_of_records: u32,
    /// Width in bytes of one packed row record.
    pub record_byte_size: usize,
    /// Start of the row section, counted from the start of the binary span.
    pub offset: usize,
    /// Declared length in bytes of the row section. The decoder goes by the
    /// record count and the record size, and does not read it.
    pub length: usize,
}

/// The ordered list of field descriptors of a table.
#[derive(Debug)]
pub struct Fields {
    pub headers: Vec<QvdFieldHeader>,
}

/// Descriptor of one column.
#[derive(Debug)]
pub struct QvdFieldHeader {
    /// Name of the column, unique within its table.
    pub field_name: String,
    /// Start of the column's symbol stream inside the binary span.
    pub offset: usize,
    /// Length in bytes of the symbol stream.
    pub length: usize,
    /// Position of the column's index inside a record, counted in bits from
    /// the least significant bit of the record.
    pub bit_offset: usize,
    /// Number of bits that the index occupies; zero is legal.
    pub bit_width: usize,
    /// Signed offset added to every raw index.
    pub bias: i32,
}

} // verus!
