use qvd::bits::binary_to_u32;
use qvd::{get_row_indexes, record_raw_index, Fault, QvdError, QvdFieldHeader};

fn index_field(bit_offset: usize, bit_width: usize, bias: i32) -> QvdFieldHeader {
    QvdFieldHeader {
        field_name: String::from("name"),
        offset: 0,
        length: 0,
        bit_offset,
        bit_width,
        bias,
    }
}

/// The record as a number, least significant byte first, shifted and masked.
fn shifted_and_masked(record: &[u8], bit_offset: usize, bit_width: usize) -> u128 {
    let mut value: u128 = 0;
    for (k, byte) in record.iter().enumerate() {
        value |= (*byte as u128) << (8 * k);
    }
    if bit_width == 0 {
        0
    } else {
        (value >> bit_offset) & (u128::MAX >> (128 - bit_width))
    }
}

#[test]
fn test_get_row_indexes() {
    let buf: Vec<u8> = vec![
        0x00, 0x14, 0x00, 0x11, 0x01, 0x22, 0x02, 0x33, 0x13, 0x34, 0x24, 0x35,
    ];
    let field = QvdFieldHeader {
        field_name: String::from("name"),
        offset: 0,
        length: 0,
        bit_offset: 10,
        bit_width: 3,
        bias: 0,
    };
    let record_byte_size = buf.len();
    let res = get_row_indexes(&buf, &field, record_byte_size).unwrap();
    let expected: Vec<i64> = vec![5];
    assert_eq!(expected, res);
}

#[test]
fn lib_test_bitslice_to_vec() {
    let x: Vec<u8> = vec![
        0x00, 0x00, 0x00, 0x11, 0x01, 0x22, 0x02, 0x33, 0x13, 0x34, 0x14, 0x35,
    ];
    // Bits 27..32 of the stream over `x` are the five bits that start 64
    // bits above the low end of the record whose reversal is `x`.
    let record: Vec<u8> = x.iter().rev().cloned().collect();
    let sum = record_raw_index(&record, 96 - 32, 32 - 27);
    assert_eq!(17, sum);
}

#[test]
fn main_test_bitslice_to_vec() {
    let x: Vec<u8> = vec![
        0x00, 0x00, 0x00, 0x11, 0x01, 0x22, 0x02, 0x33, 0x13, 0x34, 0x14, 0x35,
    ];
    let record: Vec<u8> = x.iter().rev().cloned().collect();
    let res = get_row_indexes(&record, &index_field(96 - 32, 32 - 27, 0), record.len()).unwrap();
    assert_eq!(vec![17i64], res);
    assert_eq!(17, binary_to_u32(vec![1, 0, 0, 0, 1]));
}

#[test]
fn binary_digits_spell_a_number() {
    assert_eq!(0, binary_to_u32(vec![]));
    assert_eq!(0, binary_to_u32(vec![0, 0, 0]));
    assert_eq!(5, binary_to_u32(vec![1, 0, 1]));
    assert_eq!(u32::MAX, binary_to_u32(vec![1; 32]));
    // A digit above one counts with its value.
    assert_eq!(8, binary_to_u32(vec![3, 2]));
    assert_eq!(255, binary_to_u32(vec![255]));
    // Only the 32 low bits are kept.
    let mut wide = vec![1u8];
    wide.extend(vec![0u8; 31]);
    wide.push(1);
    assert_eq!(1, binary_to_u32(wide));
}

#[test]
fn bit_slice_equals_shift_and_mask() {
    let record: Vec<u8> = vec![
        0x00, 0x14, 0x00, 0x11, 0x01, 0x22, 0x02, 0x33, 0x13, 0x34, 0x24, 0x35,
    ];
    for bit_offset in 0..=96usize {
        for bit_width in 0..=(96 - bit_offset) {
            let expected = shifted_and_masked(&record, bit_offset, bit_width) as u32;
            assert_eq!(
                expected,
                record_raw_index(&record, bit_offset, bit_width),
                "offset {} width {}",
                bit_offset,
                bit_width
            );
        }
    }
}

#[test]
fn bit_slice_of_a_long_record() {
    let record: Vec<u8> = (0..300usize).map(|k| (k * 37 + 11) as u8).collect();
    let low = shifted_and_masked(&record[..16], 3, 29) as u32;
    assert_eq!(low, record_raw_index(&record, 3, 29));
    let high = shifted_and_masked(&record[284..], 100, 28) as u32;
    assert_eq!(high, record_raw_index(&record, 284 * 8 + 100, 28));
    assert_eq!(record[299] as u32, record_raw_index(&record, 299 * 8, 8));
    assert_eq!(0, record_raw_index(&record, 300 * 8, 0));
}

#[test]
fn one_index_for_each_record() {
    // Records of two bytes; the index lies in bits 4..12.
    let buf: Vec<u8> = vec![0x10, 0x00, 0xF0, 0x0F, 0x23, 0x01, 0x00, 0x80];
    let res = get_row_indexes(&buf, &index_field(4, 8, 0), 2).unwrap();
    assert_eq!(vec![0x01i64, 0xFF, 0x12, 0x00], res);
    assert_eq!(buf.len() / 2, res.len());
}

#[test]
fn bias_is_added_to_every_index() {
    let buf: Vec<u8> = vec![0x00, 0x01, 0x02, 0x03];
    let res = get_row_indexes(&buf, &index_field(0, 2, -2), 1).unwrap();
    assert_eq!(vec![-2i64, -1, 0, 1], res);
    let res = get_row_indexes(&buf, &index_field(0, 2, 10), 1).unwrap();
    assert_eq!(vec![10i64, 11, 12, 13], res);
}

#[test]
fn zero_width_gives_the_bias_for_every_record() {
    let buf: Vec<u8> = vec![0xFF, 0xFF, 0xFF, 0xFF, 0xFF, 0xFF];
    assert_eq!(vec![0i64, 0, 0], get_row_indexes(&buf, &index_field(0, 0, 0), 2).unwrap());
    assert_eq!(vec![-2i64, -2, -2], get_row_indexes(&buf, &index_field(16, 0, -2), 2).unwrap());
    assert_eq!(vec![7i64; 6], get_row_indexes(&buf, &index_field(3, 0, 7), 1).unwrap());
}

#[test]
fn wide_index_keeps_its_low_bits_as_a_signed_number() {
    let buf: Vec<u8> = vec![0xFE, 0xFF, 0xFF, 0xFF, 0x01, 0x00];
    // 32 bits: 0xFFFF_FFFE is -2 as a signed number.
    assert_eq!(vec![-2i64], get_row_indexes(&buf, &index_field(0, 32, 0), 6).unwrap());
    // 40 bits: the ninth hex digit is cut off.
    assert_eq!(vec![-2i64], get_row_indexes(&buf, &index_field(0, 40, 0), 6).unwrap());
    // 31 bits: 0x7FFF_FFFE stays positive.
    assert_eq!(vec![0x7FFF_FFFEi64], get_row_indexes(&buf, &index_field(0, 31, 0), 6).unwrap());
}

#[test]
fn index_plus_bias_does_not_wrap() {
    let buf: Vec<u8> = vec![0xFF, 0xFF, 0xFF, 0x7F, 0x00, 0x00, 0x00, 0x80];
    let res = get_row_indexes(&buf, &index_field(0, 32, i32::MAX), 4).unwrap();
    assert_eq!(vec![2 * (i32::MAX as i64), -1], res);
    let res = get_row_indexes(&buf, &index_field(0, 32, i32::MIN), 4).unwrap();
    assert_eq!(vec![-1, 2 * (i32::MIN as i64)], res);
}

#[test]
fn empty_row_section_has_no_indices() {
    assert_eq!(Vec::<i64>::new(), get_row_indexes(&[], &index_field(0, 3, 0), 4).unwrap());
    assert_eq!(Vec::<i64>::new(), get_row_indexes(&[], &index_field(0, 0, 0), 1).unwrap());
}

#[test]
fn records_without_bytes_are_refused() {
    let expected = QvdError::FormatStructure {
        field: String::from("name"),
        offset: 0,
        fault: Fault::RaggedRows,
    };
    assert_eq!(Err(expected.clone()), get_row_indexes(&[], &index_field(0, 0, 0), 0));
    assert_eq!(Err(expected.clone()), get_row_indexes(&[], &index_field(0, 0, 5), 0));
    assert_eq!(Err(expected.clone()), get_row_indexes(&[], &index_field(0, 1, 0), 0));
    assert_eq!(Err(expected.clone()), get_row_indexes(&[0x01], &index_field(0, 0, 0), 0));
    assert_eq!(Err(expected), get_row_indexes(&[0x01, 0x02], &index_field(3, 2, 0), 0));
}

#[test]
fn short_last_record_gives_no_index() {
    let expected = QvdError::FormatStructure {
        field: String::from("name"),
        offset: 2,
        fault: Fault::RaggedRows,
    };
    assert_eq!(Err(expected), get_row_indexes(&[0x01, 0x02, 0x03], &index_field(0, 2, 0), 2));
}

#[test]
fn test_get_rows() {
    let buf: Vec<u8> = vec![
        0x00, 0x00, 0x00, 0x11, 0x01, 0x22, 0x02, 0x33, 0x13, 0x34, 0x14, 0x35,
    ];
    let field = QvdFieldHeader {
        field_name: String::from("name"),
        offset: 0,
        length: 0,
        bit_offset: 10,
        bit_width: 3,
        bias: 0,
    };
    let record_byte_size = buf.len();
    let res = get_row_indexes(&buf, &field, record_byte_size).unwrap();
    // Bits 10..13 of the record lie in its second byte, which is zero.
    let expected: Vec<i64> = vec![0];
    assert_eq!(expected, res);
}

#[test]
fn ragged_row_section_is_refused() {
    let buf: Vec<u8> = vec![0; 10];
    let expected = QvdError::FormatStructure {
        field: String::from("name"),
        offset: 8,
        fault: Fault::RaggedRows,
    };
    assert_eq!(Err(expected), get_row_indexes(&buf, &index_field(0, 3, 0), 4));
    let expected = QvdError::FormatStructure {
        field: String::from("name"),
        offset: 0,
        fault: Fault::RaggedRows,
    };
    assert_eq!(Err(expected), get_row_indexes(&buf, &index_field(0, 3, 0), 11));
}

#[test]
fn bits_outside_the_record_are_refused() {
    let buf: Vec<u8> = vec![0; 8];
    let expected = QvdError::FormatStructure {
        field: String::from("name"),
        offset: 0,
        fault: Fault::BitsOutsideRecord,
    };
    assert_eq!(Err(expected.clone()), get_row_indexes(&buf, &index_field(30, 3, 0), 4));
    assert_eq!(Err(expected.clone()), get_row_indexes(&buf, &index_field(33, 0, 0), 4));
    assert_eq!(Err(expected.clone()), get_row_indexes(&buf, &index_field(usize::MAX, 1, 0), 4));
    assert_eq!(Err(expected.clone()), get_row_indexes(&buf, &index_field(usize::MAX, usize::MAX, 0), 4));
    assert_eq!(Err(expected), get_row_indexes(&[], &index_field(0, 9, 0), 1));
    assert!(get_row_indexes(&buf, &index_field(29, 3, 0), 4).is_ok());
    assert!(get_row_indexes(&buf, &index_field(32, 0, 0), 4).is_ok());
}
