use gzdecode::cvec::CVec;

fn setup() -> CVec<u8> {
    let mut v: CVec<u8> = CVec::new().unwrap();
    for i in 1..10 {
        v.push(i);
    }
    v
}

#[test]
fn test_iterator() {
    let mut expect = 1;
    let v = setup();
    let mut it = v.iter();
    while let Some(&el) = it.next() {
        assert_eq!(expect, el);
        expect += 1;
    }
    assert_eq!(expect, 10);
}

#[test]
fn test_skip() {
    let mut expect = 4;
    let v = setup();
    let mut it = v.iter().skip(3);
    while let Some(&el) = it.next() {
        assert_eq!(expect, el);
        expect += 1;
    }
    assert_eq!(expect, 10);
}

#[test]
fn test_pop() {
    let mut v = setup();
    let mut expect = 9;
    while let Some(el) = v.pop() {
        assert_eq!(el, expect);
        expect -= 1;
    }
    assert_eq!(expect, 0);
}

#[test]
fn test_push() {
    let mut v = setup();
    v.push(5);
    assert_eq!(v.pop().unwrap(), 5);
}

#[test]
fn test_index() {
    let mut v = setup();
    for i in 0..v.len() {
        assert_eq!(*v.get(i).unwrap(), (i + 1) as u8);
    }
    v.push(42);
    assert_eq!(*v.get(v.len() - 1).unwrap(), 42);
}

#[test]
fn get_past_the_end_is_none() {
    let v = setup();
    assert_eq!(v.get(9), None);
}

#[test]
fn copy_back_repeats_overlapping_run() {
    let mut v: CVec<u8> = CVec::from_vec(vec![1, 2, 3]);
    v.copy_back_pointer(2, 5);
    assert_eq!(v.into_vec(), vec![1, 2, 3, 2, 3, 2, 3, 2]);
}

#[test]
fn copy_back_distance_one_repeats_last() {
    let mut v: CVec<u8> = CVec::from_vec(vec![7, 9]);
    v.copy_back_pointer(1, 3);
    assert_eq!(v.into_vec(), vec![7, 9, 9, 9, 9]);
}

#[test]
fn copy_back_distance_equal_to_length() {
    let mut v: CVec<u8> = CVec::from_vec(vec![4, 5, 6]);
    v.copy_back_pointer(3, 3);
    assert_eq!(v.into_vec(), vec![4, 5, 6, 4, 5, 6]);
}

#[test]
fn get_wide_reads_little_endian() {
    let v: CVec<u8> = CVec::from_vec(vec![0x01, 0x02, 0x03, 0x04, 0x05]);
    assert_eq!(v.get_wide(0), Some(0x04030201));
    assert_eq!(v.get_wide(1), Some(0x05040302));
    assert_eq!(v.get_wide(2), None);
}

#[test]
fn limit_iter_yields_the_range() {
    let v = setup();
    let mut it = v.limit_iter(2, 5);
    let mut got = Vec::new();
    while let Some(&b) = it.next() {
        got.push(b);
    }
    assert_eq!(got, vec![3, 4, 5]);
    assert_eq!(it.index(), 5);
}

#[test]
fn next_wide_reads_four_bytes() {
    let v = setup();
    let mut it = v.iter();
    assert_eq!(it.next_wide(), Some(0x04030201));
    assert_eq!(it.index(), 4);
    assert_eq!(it.next_wide(), Some(0x08070605));
    assert_eq!(it.next_wide(), None);
    assert_eq!(it.index(), 12);
}

#[test]
fn clear_empties_the_buffer() {
    let mut v = setup();
    v.clear();
    assert_eq!(v.len(), 0);
    assert_eq!(v.pop(), None);
}

#[test]
fn with_capacity_zero_gives_empty_buffer() {
    let v: CVec<u8> = CVec::with_capacity(0).unwrap();
    assert_eq!(v.len(), 0);
}

#[test]
fn limit_iter_keeps_start_past_the_end() {
    let v = setup();
    let mut it = v.limit_iter(12, 20);
    assert_eq!(it.index(), 12);
    assert_eq!(it.next(), None);
    assert_eq!(it.index(), 12);
}

#[test]
fn next_wide_near_limit_fails_and_moves_on() {
    let v = setup();
    let mut it = v.limit_iter(2, 5);
    assert_eq!(it.next_wide(), None);
    assert_eq!(it.index(), 6);
    let mut it = v.limit_iter(1, 5);
    assert_eq!(it.next_wide(), Some(0x05040302));
    assert_eq!(it.index(), 5);
}
