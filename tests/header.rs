use gzdecode::cvec::{Buf, CVec};
use gzdecode::error::GzError;
use gzdecode::header::{parse_header, Flags};

fn create_buf(raw: &[u8]) -> Buf {
    let mut buffer = CVec::with_capacity(raw.len()).unwrap();
    for &byte in raw.iter() {
        buffer.push(byte);
    }
    buffer
}

#[test]
fn test_basic_header() {
    let header_bytes: &[u8] = &[0x1f, 0x8b, 0x08, 0x00, 0x12, 0x34, 0x56, 0x78, 0x00, 0x07];

    let buffer = create_buf(header_bytes);
    let results = parse_header(&buffer).unwrap();
    assert_eq!(results.compression_method, 8);
    assert_eq!(
        results.flags,
        Flags { FTEXT: false, FHCRC: false, FNAME: false, FEXTRA: false, FCOMMENT: false }
    );
    assert_eq!(results.mtime, 2018915346);
    assert_eq!(results.extra_flags, 0);
    assert_eq!(results.os, 7);
    assert_eq!(results.header_len, 10);
}

// Multi-byte fields are little-endian: FEXTRA length 4 is 0x04 0x00 and
// header CRC 1 is 0x01 0x00.
#[test]
fn test_complex_header() {
    let header_bytes: &[u8] = &[
        // magic header
        0x1f, 0x8b, // compression method
        0x08, // Flags
        0x1f, // time
        0x12, 0x34, 0x56, 0x78, // extra flags
        0x00, // OS
        0x07, // extra id + length + extra
        0x41, 0x70, 0x04, 0x00, 0x12, 0x34, 0x56, 0x78, // name
        0x41, 0x42, 0x43, 0x44, 0x45, 0x00, // comment
        0x41, 0x41, 0x41, 0x41, 0x41, 0x41, 0x00, // CRC
        0x01, 0x00,
    ];

    let buffer = create_buf(header_bytes);
    let results = parse_header(&buffer).unwrap();
    assert_eq!(results.compression_method, 8);
    assert_eq!(
        results.flags,
        Flags { FTEXT: true, FHCRC: true, FNAME: true, FEXTRA: true, FCOMMENT: true }
    );
    assert_eq!(results.mtime, 2018915346);
    assert_eq!(results.extra_flags, 0);
    assert_eq!(results.os, 7);
    assert_eq!(results.extra, Some(("Ap".to_string(), vec![0x12, 0x34, 0x56, 0x78])));
    assert_eq!(results.fname, Some("ABCDE".to_string()));
    assert_eq!(results.comment, Some("AAAAAA".to_string()));
    assert_eq!(results.crc, Some(1));
    assert_eq!(results.header_len, 33);
}

#[test]
fn test_partial_header() {
    let header_bytes: &[u8] = &[
        // magic header
        0x1f, 0x8b, // compression method
        0x08, // Flags
        0x1b, // time
        0x12, 0x34, 0x56, 0x78, // extra flags
        0x00, // OS
        0x07, // name
        0x41, 0x42, 0x43, 0x44, 0x45, 0x00, // comment
        0x41, 0x41, 0x41, 0x41, 0x41, 0x41, 0x00, // CRC
        0x01, 0x00,
    ];

    let buffer = create_buf(header_bytes);
    let results = parse_header(&buffer).unwrap();
    assert_eq!(results.compression_method, 8);
    assert_eq!(
        results.flags,
        Flags { FTEXT: true, FHCRC: true, FNAME: true, FEXTRA: false, FCOMMENT: true }
    );
    assert_eq!(results.mtime, 2018915346);
    assert_eq!(results.extra_flags, 0);
    assert_eq!(results.os, 7);
    assert_eq!(results.extra, None);
    assert_eq!(results.fname, Some("ABCDE".to_string()));
    assert_eq!(results.comment, Some("AAAAAA".to_string()));
    assert_eq!(results.crc, Some(1));
    assert_eq!(results.header_len, 25);
}

#[test]
fn test_invalid_header() {
    // Magic bytes are wrong
    let header_bytes: &[u8] = &[0x1f, 0x8c, 0x08, 0x00, 0x12, 0x34, 0x56, 0x78, 0x00, 0x07];
    let buffer = create_buf(header_bytes);
    assert_eq!(parse_header(&buffer), Err(GzError::BadMagic));
    // Wrong compression type
    let header_bytes2: &[u8] = &[0x1f, 0x8b, 0x07, 0x00, 0x12, 0x34, 0x56, 0x78, 0x00, 0x07];
    let buffer = create_buf(header_bytes2);
    assert_eq!(parse_header(&buffer), Err(GzError::UnsupportedMethod));
}

#[test]
fn unterminated_name_is_bad_header() {
    let buffer = create_buf(&[0x1f, 0x8b, 0x08, 0x08, 0, 0, 0, 0, 0, 3, 0x41, 0x42]);
    assert_eq!(parse_header(&buffer), Err(GzError::BadHeader));
}

#[test]
fn extra_longer_than_input_is_bad_header() {
    let buffer = create_buf(&[0x1f, 0x8b, 0x08, 0x04, 0, 0, 0, 0, 0, 3, 0x41, 0x70, 0x09, 0x00, 1, 2]);
    assert_eq!(parse_header(&buffer), Err(GzError::BadHeader));
}

#[test]
fn short_fixed_part_is_bad_header() {
    let buffer = create_buf(&[0x1f, 0x8b, 0x08, 0x00, 0x12]);
    assert_eq!(parse_header(&buffer), Err(GzError::BadHeader));
}

#[test]
fn name_bytes_read_as_latin1() {
    let buffer = create_buf(&[0x1f, 0x8b, 0x08, 0x08, 0, 0, 0, 0, 0, 3, 0x63, 0xe9, 0x00]);
    let h = parse_header(&buffer).unwrap();
    assert_eq!(h.fname, Some("c\u{e9}".to_string()));
    assert_eq!(h.header_len, 13);
}

#[test]
fn flags_decode_each_bit() {
    assert_eq!(
        Flags::new(0xe5),
        Flags { FTEXT: true, FHCRC: false, FNAME: false, FEXTRA: true, FCOMMENT: false }
    );
}
