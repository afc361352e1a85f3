use gzdecode::cvec::CVec;
use gzdecode::gz_reader::GzBitReader;
use gzdecode::huffman::HuffmanNode::{Leaf, Node};
use gzdecode::huffman::{
    build_huffman_tree, build_tree, compute_code_table, compute_first_codes, count_bitlengths,
    get_bit, HuffmanRange, TreeNode,
};

fn ranges(pairs: &[(u32, u32)]) -> Vec<HuffmanRange> {
    let mut ranges = Vec::new();
    for &(end, bit_length) in pairs {
        ranges.push(HuffmanRange { end, bit_length });
    }
    ranges
}

fn nodes(pairs: &[(usize, usize)]) -> Vec<TreeNode> {
    let mut nodes = Vec::new();
    for (count, &(len, bits)) in pairs.iter().enumerate() {
        nodes.push(TreeNode { len, bits, label: count });
    }
    nodes
}

#[test]
fn test_count_bl() {
    let ranges = ranges(&[(1, 4), (4, 6), (6, 4), (14, 5), (18, 6), (21, 4), (26, 6)]);
    let expect = vec![0, 0, 0, 7, 8, 12];
    assert_eq!(count_bitlengths(ranges.as_slice(), 6), expect);
}

#[test]
fn test_compute_codes() {
    let input = vec![0, 0, 0, 7, 8, 12];
    let expect = vec![0, 0, 0, 0, 14, 44];
    assert_eq!(compute_first_codes(&input), expect);
}

#[test]
fn test_1_bit_codes() {
    let input = vec![1, 1, 1, 1, 0, 4];
    let expect = vec![0, 2, 6, 14, 0, 60];
    assert_eq!(compute_first_codes(&input), expect);
}

#[test]
fn test_compute_code_table() {
    let mut next_code = vec![0, 0, 0, 0, 14, 44];
    let ranges = ranges(&[(1, 4), (4, 6), (6, 4), (14, 5), (18, 6), (21, 4), (26, 6)]);
    let expect = nodes(&[
        (4, 0), (4, 1), (6, 44), (6, 45), (6, 46),
        (4, 2), (4, 3), (5, 14), (5, 15), (5, 16),
        (5, 17), (5, 18), (5, 19), (5, 20), (5, 21),
        (6, 47), (6, 48), (6, 49), (6, 50), (4, 4),
        (4, 5), (4, 6), (6, 51), (6, 52), (6, 53),
        (6, 54), (6, 55),
    ]);
    assert_eq!(compute_code_table(&mut next_code, ranges.as_slice()), expect);
}

#[test]
fn test_build_tree() {
    let input = vec![TreeNode {
        len: 4,
        bits: 5, // 0101
        label: 0,
    }];
    assert_eq!(
        build_tree(&input),
        Some(Node(
            Some(Box::new(Node(
                None,
                Some(Box::new(Node(Some(Box::new(Node(None, Some(Box::new(Leaf(0)))))), None)))
            ))),
            None
        ))
    );
}

#[test]
fn test_get_bit() {
    assert_eq!(get_bit(0x3, 0), 1);
    assert_eq!(get_bit(0x3, 1), 1);
    assert_eq!(get_bit(0x3, 2), 0);
    assert_eq!(get_bit(0x3, 3), 0);
}

#[test]
fn canonical_codes_of_sample_ranges() {
    let ranges = ranges(&[(1, 4), (4, 6), (6, 4), (14, 5), (18, 6), (21, 4), (26, 6)]);
    let counts = count_bitlengths(ranges.as_slice(), 6);
    let mut next_code = compute_first_codes(&counts);
    assert_eq!(next_code[3], 0);
    assert_eq!(next_code[4], 0b01110);
    assert_eq!(next_code[5], 0b101100);
    let table = compute_code_table(&mut next_code, ranges.as_slice());
    assert_eq!(table.len(), 27);
}

#[test]
fn clashing_codes_are_refused() {
    let input = vec![
        TreeNode { len: 1, bits: 0, label: 0 },
        TreeNode { len: 2, bits: 0, label: 1 },
    ];
    assert_eq!(build_tree(&input), None);
}

#[test]
fn malformed_ranges_are_refused() {
    assert!(build_huffman_tree(&[]).is_none());
    assert!(build_huffman_tree(ranges(&[(4, 2), (3, 2)]).as_slice()).is_none());
    assert!(build_huffman_tree(ranges(&[(4, 16)]).as_slice()).is_none());
    assert!(build_huffman_tree(ranges(&[(288, 9)]).as_slice()).is_none());
}

#[test]
fn tree_reads_symbols_msb_first() {
    // lengths: A=2, B=1, C=3, D=3 -> B=0, A=10, C=110, D=111
    let tree = build_huffman_tree(ranges(&[(0, 2), (1, 1), (3, 3)]).as_slice()).unwrap();
    // bits in stream order: 0 | 1 0 | 1 1 0 | 1 1 1 -> packed LSB first
    // byte0 bits: 0,1,0,1,1,0,1,1 -> 0b11011010 ; byte1 bits: 1 -> 0x01
    let bytes: CVec<u8> = CVec::from_vec(vec![0b1101_1010, 0x01]);
    let mut reader = GzBitReader::new(bytes.iter()).unwrap();
    assert_eq!(tree.read(&mut reader), Some(1));
    assert_eq!(tree.read(&mut reader), Some(0));
    assert_eq!(tree.read(&mut reader), Some(2));
    assert_eq!(tree.read(&mut reader), Some(3));
}

#[test]
fn range_new_is_zero() {
    let r = HuffmanRange::new();
    assert_eq!((r.end, r.bit_length), (0, 0));
}

#[test]
fn empty_table_gives_bare_root() {
    assert_eq!(build_tree(&vec![]), Some(Node(None, None)));
}
