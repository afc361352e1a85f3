use gzdecode::cvec::{Buf, CVec};
use gzdecode::error::GzError;
use gzdecode::gz::{check_crc, decompress, decompress_gz, get_crc, get_uncompressed_len};
use gzdecode::inflate::{build_fixed_huffman_tree, inflate};
use gzdecode::gz_reader::GzBitReader;

fn setup() -> Buf {
    let mut bytes: CVec<u8> = CVec::with_capacity(4).unwrap();
    // 00000001 00000010
    // 00000011 00000100
    for _ in 0..40 {
        bytes.push(1);
    }
    for i in 0..8 {
        bytes.push(i);
    }
    bytes
}

#[test]
fn test_get_crc() {
    let buf: Buf = setup();
    assert_eq!(get_crc(&buf), 0x03020100);
}

#[test]
fn test_get_uncompressed_len() {
    let buf: Buf = setup();
    assert_eq!(get_uncompressed_len(&buf), 0x07060504);
}

const HELLO: [u8; 32] = [
    0x1f, 0x8b, 0x08, 0x00, 0x00, 0x00, 0x00, 0x00, 0x00, 0x03, 0xcb, 0x48, 0xcd, 0xc9, 0xc9, 0x57,
    0x28, 0xcf, 0x2f, 0xca, 0x49, 0xe1, 0x02, 0x00, 0x2d, 0x3b, 0x08, 0xaf, 0x0c, 0x00, 0x00, 0x00,
];

const EIGHT_A: [u8; 23] = [
    0x1f, 0x8b, 0x08, 0x00, 0x00, 0x00, 0x00, 0x00, 0x00, 0x03, 0x4b, 0x4c, 0x84, 0x00, 0x00, 0x46,
    0x80, 0x84, 0xbf, 0x08, 0x00, 0x00, 0x00,
];

#[test]
fn empty_member_decodes_to_nothing() {
    let input = vec![
        0x1f, 0x8b, 0x08, 0x00, 0x00, 0x00, 0x00, 0x00, 0x00, 0x03, 0x03, 0x00, 0x00, 0x00, 0x00,
        0x00, 0x00, 0x00, 0x00, 0x00,
    ];
    let buf: Buf = CVec::from_vec(input.clone());
    assert_eq!(get_crc(&buf), 0);
    assert_eq!(get_uncompressed_len(&buf), 0);
    assert_eq!(decompress(input), Ok(vec![]));
}

#[test]
fn hello_world_decodes() {
    assert_eq!(decompress(HELLO.to_vec()), Ok(b"hello world\n".to_vec()));
}

#[test]
fn hello_world_through_buffer() {
    let out = decompress_gz(CVec::from_vec(HELLO.to_vec())).unwrap();
    assert_eq!(out.len(), 12);
    assert_eq!(out.into_vec(), b"hello world\n".to_vec());
}

#[test]
fn fixed_block_back_reference_decodes() {
    assert_eq!(decompress(EIGHT_A.to_vec()), Ok(b"aaaaaaaa".to_vec()));
}

#[test]
fn altered_crc_byte_is_bad_checksum() {
    let mut input = HELLO.to_vec();
    input[27] ^= 0x01;
    assert_eq!(decompress(input), Err(GzError::BadChecksum));
    for bit in 0..32 {
        let mut input = HELLO.to_vec();
        input[24 + bit / 8] ^= 1 << (bit % 8);
        assert_eq!(decompress(input), Err(GzError::BadChecksum));
    }
}

#[test]
fn truncated_payload_is_malformed() {
    let mut input = HELLO[..14].to_vec();
    input.extend_from_slice(&HELLO[24..]);
    assert_eq!(decompress(input), Err(GzError::MalformedStream));
}

#[test]
fn too_short_input_is_refused() {
    assert_eq!(decompress(HELLO[..17].to_vec()), Err(GzError::TooShort));
    assert_eq!(decompress(vec![]), Err(GzError::TooShort));
}

#[test]
fn bad_magic_is_refused() {
    let mut input = HELLO.to_vec();
    input[1] = 0x8c;
    assert_eq!(decompress(input), Err(GzError::BadMagic));
}

#[test]
fn other_method_is_refused() {
    let mut input = HELLO.to_vec();
    input[2] = 7;
    assert_eq!(decompress(input), Err(GzError::UnsupportedMethod));
}

#[test]
fn unterminated_name_in_member_is_bad_header() {
    let mut input = HELLO.to_vec();
    input[3] = 0x08;
    for b in input.iter_mut().skip(10) {
        if *b == 0 {
            *b = 1;
        }
    }
    assert_eq!(decompress(input), Err(GzError::BadHeader));
}

#[test]
fn reserved_block_type_is_refused() {
    let mut input = HELLO.to_vec();
    input[10] = 0x07;
    assert_eq!(decompress(input), Err(GzError::BadBlockType));
}

#[test]
fn distance_beyond_output_is_malformed() {
    // fixed block: length symbol 257 (0000001) then distance 0 (00000)
    // bits: 1 (final) 1 0 (type 01) 0000001 00000 -> LSB-first bytes
    let payload: Vec<u8> = vec![0x03, 0x02, 0x00, 0x00];
    let mut input = HELLO[..10].to_vec();
    input.extend_from_slice(&payload);
    input.extend_from_slice(&[0, 0, 0, 0, 0, 0, 0, 0]);
    assert_eq!(decompress(input), Err(GzError::MalformedStream));
}

#[test]
fn stored_block_decodes() {
    let input = vec![
        0x1f, 0x8b, 0x08, 0x00, 0x00, 0x00, 0x00, 0x00, 0x00, 0x03, 0x01, 0x11, 0x00, 0xee, 0xff,
        0x73, 0x74, 0x6f, 0x72, 0x65, 0x64, 0x20, 0x62, 0x6c, 0x6f, 0x63, 0x6b, 0x20, 0x64, 0x61,
        0x74, 0x61, 0xdf, 0x65, 0xa0, 0xa5, 0x11, 0x00, 0x00, 0x00,
    ];
    assert_eq!(decompress(input), Ok(b"stored block data".to_vec()));
}

#[test]
fn stored_length_mismatch_is_malformed() {
    let input = vec![
        0x1f, 0x8b, 0x08, 0x00, 0x00, 0x00, 0x00, 0x00, 0x00, 0x03, 0x01, 0x11, 0x00, 0xee, 0xfe,
        0x73, 0x74, 0x6f, 0x72, 0x65, 0x64, 0x20, 0x62, 0x6c, 0x6f, 0x63, 0x6b, 0x20, 0x64, 0x61,
        0x74, 0x61, 0xdf, 0x65, 0xa0, 0xa5, 0x11, 0x00, 0x00, 0x00,
    ];
    assert_eq!(decompress(input), Err(GzError::MalformedStream));
}

#[test]
fn several_blocks_decode() {
    let input = vec![
        0x1f, 0x8b, 0x08, 0x00, 0x00, 0x00, 0x00, 0x00, 0x00, 0x03, 0x00, 0x03, 0x00, 0xfc, 0xff,
        0x61, 0x62, 0x63, 0x00, 0x00, 0x00, 0xff, 0xff, 0x01, 0x09, 0x00, 0xf6, 0xff, 0x61, 0x62,
        0x63, 0x61, 0x62, 0x63, 0x61, 0x62, 0x63, 0x34, 0x2a, 0x6e, 0x5a, 0x0c, 0x00, 0x00, 0x00,
    ];
    assert_eq!(decompress(input), Ok(b"abcabcabcabc".to_vec()));
}

#[test]
fn dynamic_block_decodes() {
    let input: Vec<u8> = vec![
        0x1f, 0x8b, 0x08, 0x00, 0x00, 0x00, 0x00, 0x00, 0x00, 0x03, 0x85, 0xd8,
        0xcd, 0x4d, 0xe0, 0x30, 0x14, 0x85, 0xd1, 0x3d, 0x55, 0xa4, 0x04, 0x5f,
        0xff, 0x9b, 0x72, 0x06, 0x81, 0x40, 0x20, 0x10, 0x68, 0x46, 0x4c, 0xf9,
        0x88, 0x02, 0x38, 0xac, 0xdf, 0x2a, 0x47, 0x89, 0xf3, 0xf9, 0xbd, 0x3c,
        0xbd, 0xde, 0x5f, 0xe5, 0xf6, 0xfa, 0xfb, 0x78, 0x7f, 0xbd, 0xff, 0x7b,
        0xba, 0x7b, 0xbe, 0xfe, 0x7c, 0xbc, 0x7d, 0xbe, 0x5e, 0x0f, 0x6f, 0xff,
        0x6f, 0x5e, 0xbe, 0x67, 0xc1, 0xac, 0x62, 0xd6, 0x30, 0xeb, 0x98, 0x0d,
        0xcc, 0x26, 0x66, 0x0b, 0xb3, 0x8d, 0xd9, 0xd1, 0xb3, 0x13, 0x46, 0x32,
        0x11, 0x4d, 0x64, 0x13, 0xe1, 0x44, 0x3a, 0x11, 0x4f, 0xe4, 0x13, 0x01,
        0x45, 0x42, 0x55, 0x42, 0x95, 0xef, 0x8e, 0x84, 0xaa, 0x84, 0xaa, 0x84,
        0xaa, 0x84, 0xaa, 0x84, 0xaa, 0x84, 0xaa, 0x84, 0xaa, 0x84, 0x9a, 0x84,
        0x9a, 0x84, 0x1a, 0x3f, 0x2f, 0x09, 0x35, 0x09, 0x35, 0x09, 0x35, 0x09,
        0x35, 0x09, 0x35, 0x09, 0x35, 0x09, 0x75, 0x09, 0x75, 0x09, 0x75, 0x09,
        0x75, 0x9e, 0x40, 0x12, 0xea, 0x12, 0xea, 0x12, 0xea, 0x12, 0xea, 0x12,
        0xea, 0x12, 0x1a, 0x12, 0x1a, 0x12, 0x1a, 0x12, 0x1a, 0x12, 0x1a, 0x3c,
        0xa4, 0x25, 0x34, 0x24, 0x34, 0x24, 0x34, 0x24, 0x34, 0x24, 0x34, 0x25,
        0x34, 0x25, 0x34, 0x25, 0x34, 0x25, 0x34, 0x25, 0x34, 0xf9, 0x1f, 0x93,
        0xd0, 0x94, 0xd0, 0x94, 0xd0, 0x94, 0xd0, 0x92, 0xd0, 0x92, 0xd0, 0x92,
        0xd0, 0x92, 0xd0, 0x92, 0xd0, 0x92, 0xd0, 0xe2, 0xaf, 0x5e, 0x42, 0x4b,
        0x42, 0x4b, 0x42, 0x5b, 0x42, 0x5b, 0x42, 0x5b, 0x42, 0x5b, 0x42, 0x5b,
        0x42, 0x5b, 0x42, 0x5b, 0x42, 0x9b, 0x35, 0x24, 0xa1, 0x2d, 0xa1, 0x23,
        0xa1, 0x23, 0xa1, 0x23, 0xa1, 0x23, 0xa1, 0x23, 0xa1, 0x23, 0xa1, 0x23,
        0xa1, 0x23, 0xa1, 0xc3, 0x60, 0x74, 0x31, 0x32, 0x19, 0x0b, 0x9b, 0xb1,
        0x30, 0x1a, 0x0b, 0xab, 0xb1, 0x30, 0x1b, 0x0b, 0xbb, 0xb1, 0x30, 0x1c,
        0x0b, 0xcb, 0xb1, 0x30, 0x1d, 0x0b, 0xad, 0x7e, 0xc9, 0x6b, 0x5a, 0x39,
        0xb0, 0x5d, 0xd8, 0x4e, 0x6c, 0x37, 0xb6, 0x23, 0xdb, 0x95, 0xed, 0xcc,
        0x66, 0x67, 0x87, 0xa1, 0x9d, 0xea, 0xbb, 0x08, 0xad, 0xd8, 0xda, 0x61,
        0x6c, 0x87, 0xb5, 0x1d, 0xe6, 0x76, 0xd8, 0xdb, 0x61, 0x70, 0x87, 0xc5,
        0x1d, 0x26, 0x77, 0xd8, 0xdc, 0x69, 0xbe, 0xb8, 0xd1, 0x8a, 0xd9, 0x1d,
        0x76, 0x77, 0x18, 0xde, 0x61, 0x79, 0x87, 0xe9, 0x1d, 0xb6, 0x77, 0x18,
        0xdf, 0x61, 0x7d, 0x87, 0xf9, 0x9d, 0xee, 0x5b, 0x2e, 0xad, 0x58, 0xe0,
        0x61, 0x82, 0x87, 0x0d, 0x1e, 0x46, 0x78, 0x58, 0xe1, 0x61, 0x86, 0x87,
        0x1d, 0x1e, 0x86, 0x78, 0x58, 0xe2, 0x19, 0x5e, 0x09, 0xd0, 0x8a, 0x31,
        0x1e, 0xd6, 0x78, 0x98, 0xe3, 0x61, 0x8f, 0x87, 0x41, 0x1e, 0x16, 0x79,
        0x98, 0xe4, 0x61, 0x93, 0x87, 0x51, 0x9e, 0xe9, 0xfd, 0x09, 0xad, 0xd8,
        0xe5, 0x61, 0x98, 0x87, 0x65, 0x1e, 0xa6, 0x79, 0xd8, 0xe6, 0x61, 0x9c,
        0x87, 0x75, 0x1e, 0xe6, 0x79, 0xd8, 0xe7, 0x59, 0x5e, 0x36, 0xd1, 0x8a,
        0x89, 0x1e, 0x36, 0x7a, 0x18, 0xe9, 0x61, 0xa5, 0x87, 0x99, 0x1e, 0x76,
        0x7a, 0x18, 0xea, 0x61, 0xa9, 0x87, 0xa9, 0x9e, 0xed, 0xcd, 0x1c, 0xad,
        0x58, 0xeb, 0x61, 0xae, 0x87, 0xbd, 0x1e, 0x06, 0x7b, 0x58, 0xec, 0x61,
        0xb2, 0x87, 0xcd, 0x1e, 0x46, 0x7b, 0x58, 0xed, 0x39, 0x5e, 0x63, 0xfe,
        0x60, 0xf5, 0x05, 0xf2, 0xef, 0x0f, 0x34, 0x02, 0x17, 0x00, 0x00,    ];
    assert_eq!(input[10] & 0x06, 0x04);
    let mut expect = Vec::new();
    for i in 0..200 {
        expect.extend_from_slice(format!("line {}: the quick brown fox\n", i).as_bytes());
    }
    let out = decompress(input.clone()).unwrap();
    assert_eq!(out, expect);
    assert_eq!(out.len() as u32, u32::from_le_bytes([
        input[input.len() - 4],
        input[input.len() - 3],
        input[input.len() - 2],
        input[input.len() - 1],
    ]));
}

#[test]
fn check_crc_compares_with_footer_value() {
    let buf: Buf = CVec::from_vec(b"123456789".to_vec());
    assert!(check_crc(&buf, 0xCBF43926));
    assert!(!check_crc(&buf, 0xCBF43927));
}

#[test]
fn inflate_appends_to_output() {
    let payload: Buf = CVec::from_vec(HELLO[10..24].to_vec());
    let mut reader = GzBitReader::new(payload.iter()).unwrap();
    let mut out: Buf = CVec::from_vec(b">".to_vec());
    assert_eq!(inflate(&mut reader, &mut out), Ok(()));
    assert_eq!(out.into_vec(), b">hello world\n".to_vec());
}

#[test]
fn fixed_tree_builds() {
    assert!(build_fixed_huffman_tree().is_some());
}

#[test]
fn oversubscribed_code_length_code_is_malformed() {
    // dynamic block whose four code-length codes all have length 1
    let mut input = HELLO[..10].to_vec();
    input.extend_from_slice(&[0x05, 0x00, 0x92, 0x04]);
    input.extend_from_slice(&[0, 0, 0, 0, 0, 0, 0, 0]);
    assert_eq!(decompress(input), Err(GzError::MalformedStream));
}

#[test]
fn header_running_into_footer_is_malformed() {
    // the name field ends inside the footer, so no deflate data is left
    let mut input = vec![0x1f, 0x8b, 0x08, 0x08, 0, 0, 0, 0, 0, 3];
    input.extend_from_slice(&[0x41; 10]);
    input.extend_from_slice(&[0x00, 0, 0, 0, 0, 0, 0, 0]);
    assert_eq!(decompress(input), Err(GzError::MalformedStream));
}

#[test]
fn every_crc_bit_flip_is_bad_checksum_for_back_reference_member() {
    let eight_a = EIGHT_A.to_vec();
    let n = eight_a.len();
    for bit in 0..32 {
        let mut input = eight_a.clone();
        input[n - 8 + bit / 8] ^= 1 << (bit % 8);
        assert_eq!(decompress(input), Err(GzError::BadChecksum));
    }
}

#[test]
fn stored_size_is_only_a_capacity_hint() {
    let mut input = HELLO.to_vec();
    input[28] = 13;
    assert_eq!(decompress(input), Ok(b"hello world\n".to_vec()));
}

fn stored_member(x: &[u8]) -> Vec<u8> {
    let n = x.len();
    let (lo, hi) = ((n % 256) as u8, (n / 256 % 256) as u8);
    let buf: Buf = CVec::from_vec(x.to_vec());
    let c = gzdecode::crc32::sum(buf.iter());
    let mut m = vec![0x1f, 0x8b, 8, 0, 0, 0, 0, 0, 0, 3, 1, lo, hi, 255 - lo, 255 - hi];
    m.extend_from_slice(x);
    m.extend_from_slice(&c.to_le_bytes());
    m.extend_from_slice(&[lo, hi, 0, 0]);
    m
}

#[test]
fn stored_member_round_trips() {
    for x in [&b""[..], &b"x"[..], &b"round trip through a stored block"[..]] {
        assert_eq!(decompress(stored_member(x)), Ok(x.to_vec()));
    }
    let big: Vec<u8> = (0..1000u32).map(|i| (i * 7 % 251) as u8).collect();
    assert_eq!(decompress(stored_member(&big)), Ok(big));
}
