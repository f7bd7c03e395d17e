use qvd::{get_xml_data, QvdError};

#[test]
fn header_ends_with_the_first_null_byte() {
    let mut file: Vec<u8> = b"<QvdTableHeader></QvdTableHeader>\r\n".to_vec();
    file.push(0);
    file.extend_from_slice(&[0x01, 0x0A, 0x00, 0x00, 0x00]);
    let (xml, start) = get_xml_data(&file).unwrap();
    assert_eq!("<QvdTableHeader></QvdTableHeader>\r\n\0", xml);
    assert_eq!(36, start);
    assert_eq!(xml.len(), start);
    assert_eq!(&[0x01, 0x0A, 0x00, 0x00, 0x00], &file[start..]);
}

#[test]
fn header_may_be_the_whole_file() {
    let (xml, start) = get_xml_data(&[b'a', 0]).unwrap();
    assert_eq!("a\0", xml);
    assert_eq!(2, start);
    let (xml, start) = get_xml_data(&[0]).unwrap();
    assert_eq!("\0", xml);
    assert_eq!(1, start);
}

#[test]
fn header_is_decoded_as_utf8() {
    let mut file: Vec<u8> = "<T>caf\u{e9} \u{20ac}</T>".as_bytes().to_vec();
    file.push(0);
    file.push(0xFF);
    let (xml, start) = get_xml_data(&file).unwrap();
    assert_eq!("<T>caf\u{e9} \u{20ac}</T>\0", xml);
    assert_eq!(file.len() - 1, start);
}

#[test]
fn header_without_null_byte() {
    assert_eq!(Err(QvdError::HeaderNotTerminated), get_xml_data(b"<QvdTableHeader>"));
    assert_eq!(Err(QvdError::HeaderNotTerminated), get_xml_data(&[]));
}

#[test]
fn header_that_is_not_utf8() {
    assert_eq!(Err(QvdError::Encoding), get_xml_data(&[b'<', 0xFF, b'>', 0]));
    assert_eq!(Err(QvdError::Encoding), get_xml_data(&[0xC3, 0, 0xA9]));
    // Bytes behind the terminator are not looked at.
    assert!(get_xml_data(&[b'a', 0, 0xFF, 0xFE]).is_ok());
}
