use gzdecode::crc32::sum;
use gzdecode::cvec::CVec;

fn crc_of(bytes: &[u8]) -> u32 {
    let buf: CVec<u8> = CVec::from_vec(bytes.to_vec());
    sum(buf.iter())
}

#[test]
fn crc_of_empty_is_zero() {
    assert_eq!(crc_of(b""), 0x00000000);
}

#[test]
fn crc_of_single_a() {
    assert_eq!(crc_of(b"a"), 0xE8B7BE43);
}

#[test]
fn crc_of_check_string() {
    assert_eq!(crc_of(b"123456789"), 0xCBF43926);
}

#[test]
fn crc_of_limited_range() {
    let buf: CVec<u8> = CVec::from_vec(b"xx123456789yy".to_vec());
    assert_eq!(sum(buf.limit_iter(2, 11)), 0xCBF43926);
}
