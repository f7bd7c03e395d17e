//! The split of a file into its XML table header and its binary span.

use vstd::prelude::*;
use vstd::slice::slice_subrange;
use vstd::utf8::{decode_utf8, decode_utf8_encode_utf8, encode_utf8, valid_utf8};
use crate::error::QvdError;

verus! {

/// What is wrong with the header of a file.
pub enum HeaderFault {
    /// The file holds no null byte.
    NotTerminated,
    /// The bytes up to the first null byte are not valid UTF-8.
    Encoding,
}

/// The XML header of `file` and the position at which its binary span
/// starts. The header runs up to and including the first null byte of the
/// file, and the binary span starts right after that byte.
pub open spec fn header_of(file: Seq<u8>) -> Result<(Seq<char>, int), HeaderFault> {
    match file.index_of_first(0u8) {
        None => Err(HeaderFault::NotTerminated),
        Some(end) => if valid_utf8(file.take(end + 1)) {
            Ok((decode_utf8(file.take(end + 1)), end + 1))
        } else {
            Err(HeaderFault::Encoding)
        },
    }
}

/// The header of a file ends with the first null byte of the file, and its
/// bytes are the bytes of the file before the binary span: the binary span
/// starts as many bytes into the file as the header is long.
pub proof fn lemma_header_split(file: Seq<u8>)
    requires
        header_of(file) is Ok,
    ensures
        ({
            let (xml, start) = header_of(file)->Ok_0;
            &&& 1 <= start <= file.len()
            &&& file[start - 1] == 0
            &&& forall|j: int| 0 <= j < start - 1 ==> file[j] != 0
            &&& encode_utf8(xml) == file.take(start)
            &&& encode_utf8(xml).len() == start
        }),
{
    file.index_of_first_ensures(0u8);
    let end = file.index_of_first(0u8)->0;
    decode_utf8_encode_utf8(file.take(end + 1));
}

/// `std::str::from_utf8`: the text that `bytes` encodes, where they are valid
/// UTF-8, and nothing where they are not.
#[verifier::external_body]
fn utf8_text(bytes: &[u8]) -> (text: Option<String>)
    ensures
        text is Some <==> valid_utf8(bytes@),
        text is Some ==> text->0@ == decode_utf8(bytes@),
{
    match std::str::from_utf8(bytes) {
        Ok(text) => Some(text.to_owned()),
        Err(_) => None,
    }
}

/// Splits the bytes of a file into the XML header, which ends with the first
/// null byte, and the start of the binary span after it.
///
/// Fails with `HeaderNotTerminated` when the file holds no null byte, and
/// with `Encoding` when the header is not valid UTF-8.
pub fn get_xml_data(file: &[u8]) -> (r: Result<(String, usize), QvdError>)
    ensures
        match r {
            Ok((xml, start)) => header_of(file@) == Ok::<(Seq<char>, int), HeaderFault>(
                (xml@, start as int),
            ),
            Err(e) => match header_of(file@) {
                Ok(_) => false,
                Err(HeaderFault::NotTerminated) => e is HeaderNotTerminated,
                Err(HeaderFault::Encoding) => e is Encoding,
            },
        },
{
    let mut end: usize = 0;
    while end < file.len() && file[end] != 0
        invariant
            end <= file@.len(),
            forall|j: int| 0 <= j < end ==> file@[j] != 0,
        decreases file@.len() - end,
    {
        end = end + 1;
    }
    proof {
        file@.index_of_first_ensures(0u8);
    }
    if end == file.len() {
        return Err(QvdError::HeaderNotTerminated);
    }
    assert(file@.contains(0u8));
    assert(file@.index_of_first(0u8) == Some(end as int));
    let header = slice_subrange(file, 0, end + 1);
    assert(header@ =~= file@.take(end + 1));
    match utf8_text(header) {
        Some(xml) => Ok((xml, end + 1)),
        None => Err(QvdError::Encoding),
    }
}

} // verus!
