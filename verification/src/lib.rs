//! Decoder for QVD table files: an XML table header followed by a binary
//! payload that holds, for every column, a table of distinct symbols and a
//! bit-packed stream of per-row indices into that table.

pub mod bits;
pub mod bytes;
pub mod columns;
pub mod error;
pub mod header;
pub mod qvd_structure;
pub mod reader;
pub mod rows;
pub mod streams;
pub mod symbols;
pub mod text;

pub use crate::columns::{match_symbols_with_indexes, match_symbols_with_rows};
pub use crate::error::{Fault, QvdError};
pub use crate::header::get_xml_data;
pub use crate::qvd_structure::{Fields, QvdFieldHeader, QvdTableHeader};
pub use crate::reader::{read_column, read_column_texts, read_qvd, read_qvd_typed, Column};
pub use crate::rows::{get_row_indexes, record_raw_index};
pub use crate::symbols::{
    get_symbols, get_symbols_as_strings, process_number_symbols, render_symbols, Symbol,
};
