use gzdecode::cvec::CVec;
use gzdecode::gz_reader::GzBitReader;

fn setup() -> CVec<u8> {
    let mut bytes: CVec<u8> = CVec::with_capacity(4).unwrap();
    // 00000001 00000010
    // 00000011 00000100
    bytes.push(1);
    bytes.push(2);
    bytes.push(3);
    bytes.push(4);
    bytes
}

#[test]
fn test_read_bits() {
    let bytes = setup();
    let mut reader = GzBitReader::new(bytes.iter()).unwrap();
    assert_eq!(reader.read_bits(9), Some(1));
    assert_eq!(reader.read_bits(9), Some(385));
}

#[test]
fn test_read_bits_rev() {
    let bytes = setup();
    let mut reader = GzBitReader::new(bytes.iter()).unwrap();
    assert_eq!(reader.read_bits_rev(9), Some(256));
    assert_eq!(reader.read_bits_rev(9), Some(259));
}

#[test]
fn test_next_bit() {
    let bytes = setup();
    let mut reader = GzBitReader::new(bytes.iter()).unwrap();
    assert_eq!(reader.next_bit(), Some(1));
    for _ in 0..8 {
        assert_eq!(reader.next_bit(), Some(0));
    }
    assert_eq!(reader.next_bit(), Some(1));
    for _ in 0..6 {
        assert_eq!(reader.next_bit(), Some(0));
    }
    assert_eq!(reader.next_bit(), Some(1));
    assert_eq!(reader.next_bit(), Some(1));
    for _ in 0..8 {
        assert_eq!(reader.next_bit(), Some(0));
    }
    assert_eq!(reader.next_bit(), Some(1));
    for _ in 0..5 {
        assert_eq!(reader.next_bit(), Some(0));
    }
    assert_eq!(reader.next_bit(), None);
}

#[test]
fn ones_then_zeros_from_low_mask_byte() {
    for k in 1..=4u32 {
        let bytes: CVec<u8> = CVec::from_vec(vec![((1u32 << k) - 1) as u8]);
        let mut reader = GzBitReader::new(bytes.iter()).unwrap();
        for _ in 0..k {
            assert_eq!(reader.next_bit(), Some(1));
        }
        for _ in 0..k {
            assert_eq!(reader.next_bit(), Some(0));
        }
    }
}

#[test]
fn read_bits_splits_like_one_read() {
    let bytes: CVec<u8> = CVec::from_vec(vec![0xb5, 0x3c, 0xe7, 0x19, 0x42]);
    for n in 0..=20u32 {
        for m in 0..=(32 - n).min(20) {
            let mut a = GzBitReader::new(bytes.iter()).unwrap();
            let mut b = GzBitReader::new(bytes.iter()).unwrap();
            let x = a.read_bits(n).unwrap();
            let y = a.read_bits(m).unwrap();
            let whole = b.read_bits(n + m).unwrap() as u64;
            assert_eq!(whole, x as u64 + ((y as u64) << n));
        }
    }
}

#[test]
fn read_past_end_fails() {
    let bytes: CVec<u8> = CVec::from_vec(vec![0xff]);
    let mut reader = GzBitReader::new(bytes.iter()).unwrap();
    assert_eq!(reader.read_bits(9), None);
}

#[test]
fn read_zero_bits_is_no_op() {
    let bytes: CVec<u8> = CVec::from_vec(vec![0x01]);
    let mut reader = GzBitReader::new(bytes.iter()).unwrap();
    assert_eq!(reader.read_bits(0), Some(0));
    assert_eq!(reader.next_bit(), Some(1));
}

#[test]
fn align_skips_rest_of_byte() {
    let bytes: CVec<u8> = CVec::from_vec(vec![0x01, 0x80]);
    let mut reader = GzBitReader::new(bytes.iter()).unwrap();
    reader.align_to_byte();
    assert_eq!(reader.next_bit(), Some(1));
    reader.align_to_byte();
    assert_eq!(reader.read_bits(8), Some(0x80));
}

#[test]
fn new_on_empty_range_is_none() {
    let bytes: CVec<u8> = CVec::from_vec(vec![1, 2]);
    assert!(GzBitReader::new(bytes.limit_iter(2, 2)).is_none());
}
