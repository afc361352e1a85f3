use vstd::prelude::*;
use vstd::arithmetic::power2::{pow2, lemma_pow2_unfold, lemma2_to64};
use crate::gz_reader::GzBitReader;

verus! {

/// Largest symbol of any alphabet.
pub const MAX_SYMBOL: u32 = 287;

/// Longest code length.
pub const MAX_BIT_LENGTH: u32 = 15;

/// The symbols from one past the previous range's end up to `end` all have
/// codes of `bit_length` bits; zero means they are absent.
#[derive(Clone, Copy, Debug)]
pub struct HuffmanRange {
    pub end: u32,
    pub bit_length: u32,
}

impl HuffmanRange {
    /// The range holding symbol 0 alone, absent.
    pub fn new() -> (r: HuffmanRange)
        ensures
            r.end == 0,
            r.bit_length == 0,
    {
        HuffmanRange { end: 0, bit_length: 0 }
    }
}

/// Ranges that can describe an alphabet: at least one, ends strictly
/// increasing up to `MAX_SYMBOL`, lengths at most `MAX_BIT_LENGTH`.
pub open spec fn ranges_ok(ranges: Seq<HuffmanRange>) -> bool {
    &&& ranges.len() > 0
    &&& ranges.last().end <= MAX_SYMBOL
    &&& forall|i: int| 0 <= i < ranges.len() ==> #[trigger] ranges[i].bit_length <= MAX_BIT_LENGTH
    &&& forall|i: int, j: int|
        0 <= i < j < ranges.len() ==> #[trigger] ranges[i].end < #[trigger] ranges[j].end
}

/// Number of symbols that range `i` covers.
pub open spec fn range_width(ranges: Seq<HuffmanRange>, i: int) -> nat {
    if i == 0 {
        (ranges[0].end + 1) as nat
    } else {
        (ranges[i].end - ranges[i - 1].end) as nat
    }
}

/// Number of symbols of code length `len` in the first `k` ranges.
pub open spec fn count_len(ranges: Seq<HuffmanRange>, k: int, len: nat) -> nat
    decreases k,
{
    if k <= 0 {
        0
    } else {
        count_len(ranges, k - 1, len) + if ranges[k - 1].bit_length == len {
            range_width(ranges, k - 1)
        } else {
            0
        }
    }
}

/// First code of length `b + 1` in a canonical code whose counts of each
/// length `l + 1` are `bl[l]`.
pub open spec fn first_code(bl: Seq<u32>, b: int) -> nat
    decreases b,
{
    if b <= 0 {
        0
    } else {
        2 * (first_code(bl, b - 1) + bl[b - 1] as nat)
    }
}

proof fn lemma_count_len_bound(ranges: Seq<HuffmanRange>, k: int, len: nat)
    requires
        ranges_ok(ranges),
        1 <= k <= ranges.len(),
    ensures
        count_len(ranges, k, len) <= ranges[k - 1].end + 1,
    decreases k,
{
    if k > 1 {
        lemma_count_len_bound(ranges, k - 1, len);
        assert(ranges[k - 2].end < ranges[k - 1].end);
    } else {
        assert(count_len(ranges, 0, len) == 0);
    }
}

proof fn lemma_first_code_bound(bl: Seq<u32>, b: int)
    requires
        0 <= b <= bl.len(),
        forall|i: int| 0 <= i < bl.len() ==> #[trigger] bl[i] <= 288,
    ensures
        first_code(bl, b) + 576 <= 576 * pow2(b as nat),
    decreases b,
{
    if b == 0 {
        lemma2_to64();
    } else {
        lemma_first_code_bound(bl, b - 1);
        lemma_pow2_unfold(b as nat);
    }
}

/// Counts the symbols of each code length; entry `l` is the count for
/// length `l + 1`.
pub fn count_bitlengths(ranges: &[HuffmanRange], max_bit_length: usize) -> (r: Vec<u32>)
    requires
        ranges_ok(ranges@),
        forall|i: int| 0 <= i < ranges@.len() ==> #[trigger] ranges@[i].bit_length <= max_bit_length,
    ensures
        r@.len() == max_bit_length,
        forall|l: int|
            0 <= l < max_bit_length ==> #[trigger] r@[l] == count_len(
                ranges@,
                ranges@.len() as int,
                (l + 1) as nat,
            ),
{
    let mut bl_count: Vec<u32> = Vec::new();
    let mut l: usize = 0;
    while l < max_bit_length
        invariant
            l <= max_bit_length,
            bl_count@.len() == l,
            forall|m: int| 0 <= m < l ==> #[trigger] bl_count@[m] == 0,
        decreases max_bit_length - l,
    {
        bl_count.push(0);
        l = l + 1;
    }
    let mut k: usize = 0;
    while k < ranges.len()
        invariant
            ranges_ok(ranges@),
            forall|i: int| 0 <= i < ranges@.len() ==> #[trigger] ranges@[i].bit_length <= max_bit_length,
            k <= ranges@.len(),
            bl_count@.len() == max_bit_length,
            forall|m: int|
                0 <= m < max_bit_length ==> #[trigger] bl_count@[m] == count_len(
                    ranges@,
                    k as int,
                    (m + 1) as nat,
                ),
        decreases ranges@.len() - k,
    {
        let range = ranges[k];
        if k > 0 {
            assert(ranges@[k - 1].end < ranges@[k as int].end);
        }
        if range.bit_length > 0 {
            let width = if k == 0 {
                range.end + 1
            } else {
                range.end - ranges[k - 1].end
            };
            let idx = (range.bit_length - 1) as usize;
            proof {
                lemma_count_len_bound(ranges@, k + 1, range.bit_length as nat);
            }
            bl_count.set(idx, bl_count[idx] + width);
        }
        k = k + 1;
    }
    bl_count
}

/// The first code of each length: entry `b` is the first code of length
/// `b + 1`, or 0 where no symbol has that length.
pub fn compute_first_codes(bl_count: &Vec<u32>) -> (r: Vec<u32>)
    requires
        bl_count@.len() <= MAX_BIT_LENGTH,
        forall|i: int| 0 <= i < bl_count@.len() ==> #[trigger] bl_count@[i] <= 288,
    ensures
        r@.len() == bl_count@.len(),
        forall|b: int|
            0 <= b < r@.len() ==> #[trigger] r@[b] == if bl_count@[b] > 0 {
                first_code(bl_count@, b)
            } else {
                0
            },
{
    let mut ret: Vec<u32> = Vec::new();
    let mut code: u32 = 0;
    let mut bits: usize = 0;
    proof {
        lemma2_to64();
    }
    while bits < bl_count.len()
        invariant
            bits <= bl_count@.len() <= MAX_BIT_LENGTH,
            forall|i: int| 0 <= i < bl_count@.len() ==> #[trigger] bl_count@[i] <= 288,
            ret@.len() == bits,
            bits > 0 ==> code == first_code(bl_count@, bits - 1),
            bits == 0 ==> code == 0,
            forall|b: int|
                0 <= b < bits ==> #[trigger] ret@[b] == if bl_count@[b] > 0 {
                    first_code(bl_count@, b)
                } else {
                    0
                },
        decreases bl_count@.len() - bits,
    {
        if bits > 0 {
            proof {
                lemma_first_code_bound(bl_count@, bits as int);
                vstd::arithmetic::power2::lemma_pow2_strictly_increases(bits as nat, 15);
                lemma2_to64();
            }
            code = (code + bl_count[bits - 1]) * 2;
        }
        ret.push(if bl_count[bits] > 0 {
            code
        } else {
            0
        });
        bits = bits + 1;
    }
    ret
}

/// Code length of symbol `n` as given by the ranges from index `i` on.
pub open spec fn sym_len_from(ranges: Seq<HuffmanRange>, i: int, n: int) -> nat
    decreases ranges.len() - i,
{
    if i < 0 || i >= ranges.len() {
        0
    } else if n <= ranges[i].end {
        ranges[i].bit_length as nat
    } else {
        sym_len_from(ranges, i + 1, n)
    }
}

/// Code length of symbol `n`; zero when it is absent.
pub open spec fn sym_len(ranges: Seq<HuffmanRange>, n: int) -> nat {
    sym_len_from(ranges, 0, n)
}

/// Number of symbols below `n` whose code length is `len`.
pub open spec fn count_before(ranges: Seq<HuffmanRange>, n: int, len: nat) -> nat
    decreases n,
{
    if n <= 0 {
        0
    } else {
        count_before(ranges, n - 1, len) + if sym_len(ranges, n - 1) == len {
            1nat
        } else {
            0
        }
    }
}

/// Number of symbols below `n` that are present.
pub open spec fn present_before(ranges: Seq<HuffmanRange>, n: int) -> nat
    decreases n,
{
    if n <= 0 {
        0
    } else {
        present_before(ranges, n - 1) + if sym_len(ranges, n - 1) > 0 {
            1nat
        } else {
            0
        }
    }
}

proof fn lemma_sym_len_in(ranges: Seq<HuffmanRange>, i: int, a: int, n: int)
    requires
        ranges_ok(ranges),
        0 <= i <= a < ranges.len(),
        n <= ranges[a].end,
        a == 0 || ranges[a - 1].end < n,
    ensures
        sym_len_from(ranges, i, n) == ranges[a].bit_length,
    decreases a - i,
{
    if i < a {
        if i < a - 1 {
            assert(ranges[i].end < ranges[a - 1].end);
        }
        lemma_sym_len_in(ranges, i + 1, a, n);
    }
}

proof fn lemma_count_before_bound(ranges: Seq<HuffmanRange>, n: int, len: nat)
    requires
        n >= 0,
    ensures
        count_before(ranges, n, len) <= n,
        present_before(ranges, n) <= n,
    decreases n,
{
    if n > 0 {
        lemma_count_before_bound(ranges, n - 1, len);
    }
}

/// One symbol's code: `len` bits whose value is `bits`, for symbol `label`.
#[derive(Debug, PartialEq, Eq)]
pub struct TreeNode {
    pub len: usize,
    pub bits: usize,
    pub label: usize,
}

/// `e` is the canonical code entry of its symbol, codes of each length `l`
/// starting at `first[l - 1]`.
pub open spec fn entry_ok(ranges: Seq<HuffmanRange>, first: Seq<u32>, e: TreeNode) -> bool {
    &&& e.label <= ranges.last().end
    &&& e.len == sym_len(ranges, e.label as int)
    &&& e.len > 0
    &&& e.bits == first[e.len - 1] + count_before(ranges, e.label as int, e.len as nat)
}

/// Assigns the codes in symbol order: each present symbol takes the next
/// code of its length from `next_code`, which is advanced past it.
pub fn compute_code_table(next_code: &mut Vec<u32>, ranges: &[HuffmanRange]) -> (r: Vec<TreeNode>)
    requires
        ranges_ok(ranges@),
        forall|i: int| 0 <= i < ranges@.len() ==> #[trigger] ranges@[i].bit_length <= old(next_code)@.len(),
        forall|i: int| 0 <= i < old(next_code)@.len() ==> #[trigger] old(next_code)@[i] <= 0x1000_0000,
    ensures
        final(next_code)@.len() == old(next_code)@.len(),
        forall|l: int|
            0 <= l < old(next_code)@.len() ==> #[trigger] final(next_code)@[l] == old(next_code)@[l]
                + count_before(ranges@, ranges@.last().end + 1, (l + 1) as nat),
        r@.len() == present_before(ranges@, ranges@.last().end + 1),
        forall|j: int| 0 <= j < r@.len() ==> entry_ok(ranges@, old(next_code)@, #[trigger] r@[j]),
        forall|j: int| 0 <= j < r@.len() ==> present_before(ranges@, (#[trigger] r@[j]).label as int) == j,
        forall|n: int|
            0 <= n <= ranges@.last().end && sym_len(ranges@, n) > 0 ==> #[trigger] r@[present_before(
                ranges@,
                n,
            ) as int].label == n,
{
    let ghost first = next_code@;
    let mut ret: Vec<TreeNode> = Vec::new();
    let mut active_range: usize = 0;
    let num_entries = ranges[ranges.len() - 1].end;
    let mut n: u32 = 0;
    while n <= num_entries
        invariant
            ranges_ok(ranges@),
            forall|i: int| 0 <= i < ranges@.len() ==> #[trigger] ranges@[i].bit_length <= first.len(),
            forall|i: int| 0 <= i < first.len() ==> #[trigger] first[i] <= 0x1000_0000,
            num_entries == ranges@.last().end,
            n <= num_entries + 1,
            active_range < ranges@.len(),
            active_range == 0 || ranges@[active_range - 1].end < n,
            n <= ranges@[active_range as int].end + 1,
            next_code@.len() == first.len(),
            forall|l: int|
                0 <= l < first.len() ==> #[trigger] next_code@[l] == first[l] + count_before(
                    ranges@,
                    n as int,
                    (l + 1) as nat,
                ),
            ret@.len() == present_before(ranges@, n as int),
            forall|j: int| 0 <= j < ret@.len() ==> entry_ok(ranges@, first, #[trigger] ret@[j]),
            forall|j: int| 0 <= j < ret@.len() ==> present_before(ranges@, (#[trigger] ret@[j]).label as int) == j,
            forall|m: int|
                0 <= m < n && sym_len(ranges@, m) > 0 ==> #[trigger] ret@[present_before(
                    ranges@,
                    m,
                ) as int].label == m,
        decreases num_entries + 1 - n,
    {
        if n > ranges[active_range].end {
            assert(ranges@[active_range as int].end < ranges@.last().end);
            assert(active_range + 1 < ranges@.len());
            assert(ranges@[active_range as int].end < ranges@[active_range + 1].end);
            active_range = active_range + 1;
        }
        proof {
            lemma_sym_len_in(ranges@, 0, active_range as int, n as int);
            lemma_count_before_bound(ranges@, n as int, ranges@[active_range as int].bit_length as nat);
        }
        let bit_length = ranges[active_range].bit_length as usize;
        let ghost ret0 = ret@;
        if bit_length > 0 {
            ret.push(TreeNode {
                len: bit_length,
                bits: next_code[bit_length - 1] as usize,
                label: n as usize,
            });
            let v = next_code[bit_length - 1] + 1;
            next_code.set(bit_length - 1, v);
        }
        proof {
            assert forall|j: int| 0 <= j < ret@.len() implies entry_ok(ranges@, first, #[trigger] ret@[j])
                && present_before(ranges@, ret@[j].label as int) == j by {
                if j < ret0.len() {
                    assert(ret@[j] == ret0[j]);
                }
            }
            assert forall|m: int|
                0 <= m < n + 1 && sym_len(ranges@, m) > 0 implies #[trigger] ret@[present_before(
                ranges@,
                m,
            ) as int].label == m by {
                if m < n {
                    lemma_present_before_mono(ranges@, m + 1, n as int);
                    assert(ret@[present_before(ranges@, m) as int] == ret0[present_before(ranges@, m) as int]);
                }
            }
        }
        n = n + 1;
    }
    ret
}

proof fn lemma_present_before_mono(ranges: Seq<HuffmanRange>, a: int, b: int)
    requires
        0 <= a <= b,
    ensures
        present_before(ranges, a) <= present_before(ranges, b),
    decreases b - a,
{
    if a < b {
        lemma_present_before_mono(ranges, a, b - 1);
    }
}

/// A Huffman decoding tree: a zero bit goes left, a one bit right.
#[derive(Debug, PartialEq)]
pub enum HuffmanNode {
    Node(Option<Box<HuffmanNode>>, Option<Box<HuffmanNode>>),
    Leaf(u32),
}

/// The symbol of the leaf that path `p` leads to from `t`, if it ends on one.
pub open spec fn leaf_at(t: HuffmanNode, p: Seq<bool>) -> Option<u32>
    decreases p.len(),
{
    match t {
        HuffmanNode::Leaf(v) => if p.len() == 0 {
            Some(v)
        } else {
            None
        },
        HuffmanNode::Node(left, right) => if p.len() == 0 {
            None
        } else {
            let side = if p[0] {
                right
            } else {
                left
            };
            match side {
                Some(c) => leaf_at(*c, p.drop_first()),
                None => None,
            }
        },
    }
}

/// As `leaf_at`, on a side that may be absent.
pub open spec fn leaf_at_side(t: Option<Box<HuffmanNode>>, p: Seq<bool>) -> Option<u32> {
    match t {
        Some(c) => leaf_at(*c, p),
        None => None,
    }
}

/// The `len` low bits of `bits`, most significant first.
pub open spec fn code_path(bits: usize, len: nat) -> Seq<bool> {
    Seq::new(len, |i: int| (bits >> ((len - 1 - i) as usize)) & 1 == 1)
}

/// Bit `index` of `input`.
pub fn get_bit(input: usize, index: usize) -> (r: usize)
    requires
        index < 32,
    ensures
        r == (input >> index) & 1,
        r == 0 || r == 1,
{
    let r = (input >> index) & 1;
    assert(r == 0 || r == 1) by (bit_vector)
        requires
            r == (input >> index) & 1,
    ;
    r
}

proof fn lemma_code_path_tail(bits: usize, len: nat)
    requires
        len > 0,
    ensures
        code_path(bits, len).drop_first() =~= code_path(bits, (len - 1) as nat),
{
}

proof fn lemma_same_head_tail(p: Seq<bool>, q: Seq<bool>)
    requires
        p.len() > 0,
        q.len() > 0,
        p[0] == q[0],
        p.drop_first() == q.drop_first(),
    ensures
        p == q,
{
    assert(p.drop_first().len() == p.len() - 1);
    assert(q.drop_first().len() == q.len() - 1);
    assert(p.len() == q.len());
    assert forall|i: int| 0 <= i < p.len() implies p[i] == q[i] by {
        if i > 0 {
            assert(p[i] == p.drop_first()[i - 1]);
            assert(q[i] == q.drop_first()[i - 1]);
        }
    }
    assert(p =~= q);
}

/// `p` is a prefix of `q`.
pub open spec fn is_prefix(p: Seq<bool>, q: Seq<bool>) -> bool {
    p.len() <= q.len() && q.take(p.len() as int) == p
}

/// Every inner node of `t` has a leaf below it.
pub open spec fn full(t: HuffmanNode) -> bool
    decreases t,
{
    match t {
        HuffmanNode::Leaf(_) => true,
        HuffmanNode::Node(l, r) => (l is Some || r is Some) && (match l {
            Some(c) => full(*c),
            None => true,
        }) && (match r {
            Some(c) => full(*c),
            None => true,
        }),
    }
}

/// Both sides of `t`, where present, are full.
pub open spec fn children_full(t: HuffmanNode) -> bool {
    match t {
        HuffmanNode::Leaf(_) => true,
        HuffmanNode::Node(l, r) => (match l {
            Some(c) => full(*c),
            None => true,
        }) && (match r {
            Some(c) => full(*c),
            None => true,
        }),
    }
}

/// Some leaf below `t` lies on `path` or has `path` on its own path.
pub open spec fn conflicts(t: Option<Box<HuffmanNode>>, path: Seq<bool>) -> bool {
    exists|q: Seq<bool>|
        leaf_at_side(t, q) is Some && (is_prefix(q, path) || is_prefix(path, q))
}

proof fn lemma_full_has_leaf(t: HuffmanNode)
    requires
        full(t),
    ensures
        exists|q: Seq<bool>| leaf_at(t, q) is Some,
    decreases t,
{
    match t {
        HuffmanNode::Leaf(v) => {
            assert(leaf_at(t, Seq::<bool>::empty()) is Some);
        },
        HuffmanNode::Node(l, r) => {
            let b = l is None;
            let c = if b {
                r.unwrap()
            } else {
                l.unwrap()
            };
            lemma_full_has_leaf(*c);
            let q2 = choose|q: Seq<bool>| leaf_at(*c, q) is Some;
            let q = seq![b] + q2;
            assert(q.drop_first() =~= q2);
            assert(leaf_at(t, q) is Some);
        },
    }
}

proof fn lemma_conflict_lift(c: Option<Box<HuffmanNode>>, t: HuffmanNode, b: bool, path: Seq<bool>)
    requires
        path.len() > 0,
        path[0] == b,
        t matches HuffmanNode::Node(l, r) && (if b {
            r == c
        } else {
            l == c
        }),
        conflicts(c, path.drop_first()),
    ensures
        conflicts(Some(Box::new(t)), path),
{
    let q2 = choose|q: Seq<bool>|
        leaf_at_side(c, q) is Some && (is_prefix(q, path.drop_first()) || is_prefix(
            path.drop_first(),
            q,
        ));
    let q = seq![b] + q2;
    assert(q.drop_first() =~= q2);
    assert(q[0] == b);
    assert(leaf_at(t, q) == leaf_at_side(c, q2));
    if is_prefix(q2, path.drop_first()) {
        assert(path.take(q.len() as int) =~= q) by {
            assert forall|i: int| 0 <= i < q.len() implies path.take(q.len() as int)[i] == q[i] by {
                if i > 0 {
                    assert(path.drop_first().take(q2.len() as int)[i - 1] == q2[i - 1]);
                }
            }
        }
        assert(is_prefix(q, path));
    } else {
        assert(q.take(path.len() as int) =~= path) by {
            assert forall|i: int| 0 <= i < path.len() implies q.take(path.len() as int)[i] == path[i] by {
                if i > 0 {
                    assert(q2.take(path.drop_first().len() as int)[i - 1] == path.drop_first()[i - 1]);
                }
            }
        }
        assert(is_prefix(path, q));
    }
    assert(leaf_at_side(Some(Box::new(t)), q) is Some);
}

/// A chain of nodes down the `len` low bits of `bits` (most significant
/// first) to a leaf for `value`.
fn make_new_tree(bits: usize, len: usize, value: u32) -> (r: HuffmanNode)
    requires
        len < 32,
    ensures
        forall|p: Seq<bool>|
            #[trigger] leaf_at(r, p) == if p == code_path(bits, len as nat) {
                Some(value)
            } else {
                None
            },
        len > 0 ==> r is Node,
        full(r),
    decreases len,
{
    if len == 0 {
        let r = HuffmanNode::Leaf(value);
        assert forall|p: Seq<bool>|
            #[trigger] leaf_at(r, p) == if p == code_path(bits, len as nat) {
                Some(value)
            } else {
                None
            } by {
            if p.len() == 0 {
                assert(p =~= code_path(bits, 0));
            }
        }
        r
    } else {
        let sub = make_new_tree(bits, len - 1, value);
        let b = get_bit(bits, len - 1);
        let r = if b == 0 {
            HuffmanNode::Node(Some(Box::new(sub)), None)
        } else {
            HuffmanNode::Node(None, Some(Box::new(sub)))
        };
        proof {
            lemma_code_path_tail(bits, len as nat);
            assert forall|p: Seq<bool>|
                #[trigger] leaf_at(r, p) == if p == code_path(bits, len as nat) {
                    Some(value)
                } else {
                    None
                } by {
                let full = code_path(bits, len as nat);
                assert(full[0] == (b == 1));
                if p.len() > 0 {
                    assert(leaf_at(sub, p.drop_first()) == if p.drop_first() == code_path(
                        bits,
                        (len - 1) as nat,
                    ) {
                        Some(value)
                    } else {
                        None
                    });
                    if p == full {
                        assert(p[0] == (b == 1));
                    } else if p[0] == (b == 1) {
                        assert(p.drop_first() != full.drop_first()) by {
                            if p.drop_first() == full.drop_first() {
                                lemma_same_head_tail(p, full);
                            }
                        }
                    }
                }
            }
        }
        r
    }
}

/// Puts a leaf for `value` at the end of the path of the `len` low bits of
/// `bits` (most significant first) below `t`; `None` where a leaf already
/// stands on that path or the path ends on an inner node.
fn make_tree(t: Option<Box<HuffmanNode>>, bits: usize, len: usize, value: u32) -> (r: Option<
    Box<HuffmanNode>,
>)
    requires
        len < 32,
        t matches Some(n) ==> children_full(*n),
        len == 0 ==> (t matches Some(n) ==> full(*n)),
    ensures
        r is Some ==> leaf_at_side(t, code_path(bits, len as nat)) is None,
        r is None ==> conflicts(t, code_path(bits, len as nat)),
        r matches Some(n) ==> full(*n),
        len > 0 ==> (r matches Some(n) ==> *n is Node),
        r matches Some(n) ==> forall|p: Seq<bool>|
            #[trigger] leaf_at(*n, p) == if p == code_path(bits, len as nat) {
                Some(value)
            } else {
                leaf_at_side(t, p)
            },
    decreases len,
{
    match t {
        None => {
            let n = make_new_tree(bits, len, value);
            Some(Box::new(n))
        },
        Some(node) => {
            let node = *node;
            match node {
                HuffmanNode::Leaf(_) => {
                    proof {
                        let path = code_path(bits, len as nat);
                        assert(path.take(0) =~= Seq::<bool>::empty());
                        assert(leaf_at_side(t, Seq::<bool>::empty()) is Some);
                        assert(is_prefix(Seq::<bool>::empty(), path));
                    }
                    None
                },
                HuffmanNode::Node(left, right) => {
                    if len == 0 {
                        proof {
                            lemma_full_has_leaf(node);
                            let q = choose|q: Seq<bool>| leaf_at(node, q) is Some;
                            assert(q.take(0) =~= code_path(bits, 0));
                            assert(leaf_at_side(t, q) is Some);
                            assert(is_prefix(code_path(bits, 0), q));
                        }
                        return None;
                    }
                    let ghost old_node = node;
                    let b = get_bit(bits, len - 1);
                    let ghost side0 = if b == 1 {
                        right
                    } else {
                        left
                    };
                    let ghost other = if b == 1 {
                        left
                    } else {
                        right
                    };
                    let (r, Ghost(cg)) = if b == 0 {
                        match make_tree(left, bits, len - 1, value) {
                            Some(c) => {
                                let ghost cg = *c;
                                (HuffmanNode::Node(Some(c), right), Ghost(cg))
                            },
                            None => {
                                proof {
                                    lemma_code_path_tail(bits, len as nat);
                                    lemma_conflict_lift(side0, old_node, b == 1, code_path(bits, len as nat));
                                }
                                return None;
                            },
                        }
                    } else {
                        match make_tree(right, bits, len - 1, value) {
                            Some(c) => {
                                let ghost cg = *c;
                                (HuffmanNode::Node(left, Some(c)), Ghost(cg))
                            },
                            None => {
                                proof {
                                    lemma_code_path_tail(bits, len as nat);
                                    lemma_conflict_lift(side0, old_node, b == 1, code_path(bits, len as nat));
                                }
                                return None;
                            },
                        }
                    };
                    proof {
                        lemma_code_path_tail(bits, len as nat);
                        let fullp = code_path(bits, len as nat);
                        assert(fullp[0] == (b == 1));
                        assert(leaf_at(old_node, fullp) == leaf_at_side(side0, fullp.drop_first()));
                        assert forall|p: Seq<bool>|
                            #[trigger] leaf_at(r, p) == if p == fullp {
                                Some(value)
                            } else {
                                leaf_at_side(t, p)
                            } by {
                            assert(leaf_at_side(t, p) == leaf_at(old_node, p));
                            if p.len() > 0 {
                                if p[0] == (b == 1) {
                                    assert(leaf_at(r, p) == leaf_at(cg, p.drop_first()));
                                    assert(leaf_at(old_node, p) == leaf_at_side(side0, p.drop_first()));
                                    if p != fullp {
                                        assert(p.drop_first() != fullp.drop_first()) by {
                                            if p.drop_first() == fullp.drop_first() {
                                                lemma_same_head_tail(p, fullp);
                                            }
                                        }
                                    }
                                } else {
                                    assert(leaf_at(r, p) == leaf_at_side(other, p.drop_first()));
                                    assert(leaf_at(old_node, p) == leaf_at_side(other, p.drop_first()));
                                }
                            }
                        }
                    }
                    Some(Box::new(r))
                },
            }
        },
    }
}

/// The path of table entry `e`.
pub open spec fn entry_path(e: TreeNode) -> Seq<bool> {
    code_path(e.bits, e.len as nat)
}

/// Builds the tree holding a leaf for each entry of the table, at the path
/// of its code; `None` where two codes clash (one is a prefix of another).
pub fn build_tree(code_table: &Vec<TreeNode>) -> (r: Option<HuffmanNode>)
    requires
        forall|j: int|
            0 <= j < code_table@.len() ==> 1 <= (#[trigger] code_table@[j]).len < 32
                && code_table@[j].label <= u32::MAX,
    ensures
        r is None <==> exists|i: int, j: int|
            0 <= i < code_table@.len() && 0 <= j < code_table@.len() && i != j && is_prefix(
                entry_path(#[trigger] code_table@[i]),
                entry_path(#[trigger] code_table@[j]),
            ),
        r matches Some(t) ==> t is Node,
        r matches Some(t) ==> if code_table@.len() == 0 {
            t == HuffmanNode::Node(None, None)
        } else {
            full(t)
        },
        r matches Some(t) ==> (forall|j: int|
            0 <= j < code_table@.len() ==> leaf_at(t, entry_path(#[trigger] code_table@[j])) == Some(
                code_table@[j].label as u32,
            )),
        r matches Some(t) ==> (forall|p: Seq<bool>|
            #[trigger] leaf_at(t, p) is Some ==> exists|j: int|
                0 <= j < code_table@.len() && p == entry_path(#[trigger] code_table@[j])
                    && leaf_at(t, p) == Some(code_table@[j].label as u32)),
{
    let mut root: Box<HuffmanNode> = Box::new(HuffmanNode::Node(None, None));
    let mut k: usize = 0;
    while k < code_table.len()
        invariant
            k <= code_table@.len(),
            *root is Node,
            children_full(*root),
            k == 0 ==> *root == HuffmanNode::Node(None, None),
            k > 0 ==> full(*root),
            forall|j: int|
                0 <= j < code_table@.len() ==> 1 <= (#[trigger] code_table@[j]).len < 32
                    && code_table@[j].label <= u32::MAX,
            forall|j: int|
                0 <= j < k ==> leaf_at(*root, entry_path(#[trigger] code_table@[j])) == Some(
                    code_table@[j].label as u32,
                ),
            forall|p: Seq<bool>|
                #[trigger] leaf_at(*root, p) is Some ==> exists|j: int|
                    0 <= j < k && p == entry_path(#[trigger] code_table@[j]) && leaf_at(*root, p)
                        == Some(code_table@[j].label as u32),
            forall|i: int, j: int|
                0 <= i < k && 0 <= j < k && i != j ==> !is_prefix(
                    entry_path(#[trigger] code_table@[i]),
                    entry_path(#[trigger] code_table@[j]),
                ),
        decreases code_table@.len() - k,
    {
        let e = &code_table[k];
        let ghost old_root = *root;
        match make_tree(Some(root), e.bits, e.len, e.label as u32) {
            Some(n) => {
                root = n;
                assert(children_full(*root));
            },
            None => {
                proof {
                    let path = entry_path(code_table@[k as int]);
                    let q = choose|q: Seq<bool>|
                        leaf_at_side(Some(Box::new(old_root)), q) is Some && (is_prefix(q, path)
                            || is_prefix(path, q));
                    assert(leaf_at(old_root, q) is Some);
                    let j = choose|j: int|
                        0 <= j < k && q == entry_path(#[trigger] code_table@[j]) && leaf_at(old_root, q)
                            == Some(code_table@[j].label as u32);
                    if is_prefix(q, path) {
                        assert(is_prefix(entry_path(code_table@[j]), entry_path(code_table@[k as int])));
                    } else {
                        assert(is_prefix(entry_path(code_table@[k as int]), entry_path(code_table@[j])));
                    }
                }
                return None;
            },
        }
        proof {
            let path = entry_path(code_table@[k as int]);
            assert forall|j: int|
                0 <= j < k + 1 implies leaf_at(*root, entry_path(#[trigger] code_table@[j])) == Some(
                code_table@[j].label as u32,
            ) by {
                if j < k {
                    assert(leaf_at(old_root, entry_path(code_table@[j])) is Some);
                    assert(entry_path(code_table@[j]) != path);
                }
            }
            assert forall|i: int, j: int|
                0 <= i < k + 1 && 0 <= j < k + 1 && i != j implies !is_prefix(
                entry_path(#[trigger] code_table@[i]),
                entry_path(#[trigger] code_table@[j]),
            ) by {
                if i == k || j == k {
                    let o = if i == k {
                        j
                    } else {
                        i
                    };
                    assert(leaf_at(old_root, entry_path(code_table@[o])) is Some);
                    assert(entry_path(code_table@[o]) != path);
                    if is_prefix(entry_path(code_table@[i]), entry_path(code_table@[j])) {
                        lemma_leaf_prefix(*root, entry_path(code_table@[i]), entry_path(code_table@[j]));
                    }
                }
            }
            assert forall|p: Seq<bool>| #[trigger] leaf_at(*root, p) is Some implies exists|j: int|
                0 <= j < k + 1 && p == entry_path(#[trigger] code_table@[j]) && leaf_at(*root, p)
                    == Some(code_table@[j].label as u32) by {
                if p == path {
                    assert(p == entry_path(code_table@[k as int]));
                } else {
                    assert(leaf_at(old_root, p) is Some);
                    let j = choose|j: int|
                        0 <= j < k && p == entry_path(#[trigger] code_table@[j]) && leaf_at(
                            old_root,
                            p,
                        ) == Some(code_table@[j].label as u32);
                    assert(0 <= j < k + 1 && p == entry_path(code_table@[j]));
                }
            }
        }
        k = k + 1;
    }
    Some(*root)
}

impl HuffmanNode {
    /// Walks the tree from this node, one bit of `stream` per step, and
    /// returns the symbol of the leaf reached; `None` where the walk takes an
    /// absent side or the stream ends first.
    pub fn read(&self, stream: &mut GzBitReader) -> (r: Option<u32>)
        ensures
            r matches Some(v) ==> exists|k: int|
                0 <= k <= old(stream).bits().len() && leaf_at(*self, old(stream).bits().take(k))
                    == Some(v) && final(stream).bits() == old(stream).bits().skip(k),
            r is None ==> forall|k: int|
                0 <= k <= old(stream).bits().len() ==> leaf_at(
                    *self,
                    #[trigger] old(stream).bits().take(k),
                ) is None,
        decreases self,
    {
        let ghost bits0 = stream.bits();
        match self {
            HuffmanNode::Leaf(v) => {
                assert(bits0.take(0) =~= Seq::<bool>::empty());
                assert(bits0.skip(0) =~= bits0);
                Some(*v)
            },
            HuffmanNode::Node(left, right) => {
                let bit = match stream.next_bit() {
                    Some(b) => b,
                    None => {
                        assert forall|k: int| 0 <= k <= bits0.len() implies leaf_at(
                            *self,
                            #[trigger] bits0.take(k),
                        ) is None by {
                            assert(bits0.take(k).len() == 0);
                        }
                        return None;
                    },
                };
                let side = if bit == 1 {
                    right
                } else {
                    left
                };
                let ghost bits1 = stream.bits();
                assert(bits1 == bits0.drop_first());
                match side {
                    None => {
                        assert forall|k: int| 0 <= k <= bits0.len() implies leaf_at(
                            *self,
                            #[trigger] bits0.take(k),
                        ) is None by {
                            if k > 0 {
                                assert(bits0.take(k)[0] == bits0[0]);
                            }
                        }
                        None
                    },
                    Some(c) => {
                        let r = c.read(stream);
                        proof {
                            assert forall|k: int| 1 <= k <= bits0.len() implies #[trigger] leaf_at(
                                *self,
                                bits0.take(k),
                            ) == leaf_at(**c, bits1.take(k - 1)) by {
                                assert(bits0.take(k)[0] == bits0[0]);
                                assert(bits0.take(k).drop_first() =~= bits1.take(k - 1));
                            }
                            match r {
                                Some(v) => {
                                    let k1 = choose|k: int|
                                        0 <= k <= bits1.len() && leaf_at(**c, bits1.take(k)) == Some(v)
                                            && stream.bits() == bits1.skip(k);
                                    assert(bits1.skip(k1) =~= bits0.skip(k1 + 1));
                                    assert(leaf_at(*self, bits0.take(k1 + 1)) == Some(v));
                                },
                                None => {
                                    assert forall|k: int| 0 <= k <= bits0.len() implies leaf_at(
                                        *self,
                                        #[trigger] bits0.take(k),
                                    ) is None by {
                                        if k > 0 {
                                            assert(leaf_at(**c, bits1.take(k - 1)) is None);
                                        }
                                    }
                                },
                            }
                        }
                        r
                    },
                }
            },
        }
    }
}

/// First canonical code of length `b + 1` for the alphabet of `ranges`.
pub open spec fn canon_first(ranges: Seq<HuffmanRange>, b: int) -> nat
    decreases b,
{
    if b <= 0 {
        0
    } else {
        2 * (canon_first(ranges, b - 1) + count_len(ranges, ranges.len() as int, b as nat))
    }
}

/// Canonical code of symbol `n` (RFC 1951, 3.2.2): codes are handed out by
/// increasing length, then by increasing symbol.
pub open spec fn canon_code(ranges: Seq<HuffmanRange>, n: int) -> nat {
    let len = sym_len(ranges, n);
    canon_first(ranges, len - 1) + count_before(ranges, n, len)
}

/// The path that leads to symbol `n` in the canonical tree.
pub open spec fn canon_path(ranges: Seq<HuffmanRange>, n: int) -> Seq<bool> {
    code_path(canon_code(ranges, n) as usize, sym_len(ranges, n))
}

/// `t` holds exactly the canonical codes of the alphabet of `ranges`: each
/// present symbol at the end of its path, and no other leaf.
pub open spec fn is_canonical_tree(ranges: Seq<HuffmanRange>, t: HuffmanNode) -> bool {
    &&& forall|n: int|
        0 <= n <= ranges.last().end && sym_len(ranges, n) > 0 ==> leaf_at(t, #[trigger] canon_path(ranges, n))
            == Some(n as u32)
    &&& forall|p: Seq<bool>| #[trigger]
        leaf_at(t, p) matches Some(v) ==> v <= ranges.last().end && sym_len(ranges, v as int) > 0
            && p == canon_path(ranges, v as int)
}

proof fn lemma_first_code_canon(ranges: Seq<HuffmanRange>, bl: Seq<u32>, b: int)
    requires
        0 <= b < bl.len(),
        forall|l: int|
            0 <= l < bl.len() ==> #[trigger] bl[l] == count_len(ranges, ranges.len() as int, (l + 1) as nat),
    ensures
        first_code(bl, b) == canon_first(ranges, b),
    decreases b,
{
    if b > 0 {
        lemma_first_code_canon(ranges, bl, b - 1);
    }
}

/// Two present symbols of `ranges` have canonical codes of which one
/// starts the other, so that no code tree holds them both.
pub open spec fn clash(ranges: Seq<HuffmanRange>) -> bool {
    exists|n1: int, n2: int|
        0 <= n1 <= ranges.last().end && 0 <= n2 <= ranges.last().end && n1 != n2 && sym_len(
            ranges,
            n1,
        ) > 0 && sym_len(ranges, n2) > 0 && is_prefix(
            #[trigger] canon_path(ranges, n1),
            #[trigger] canon_path(ranges, n2),
        )
}

/// The canonical tree of `ranges` exists: the ranges are well formed and
/// no two codes clash.
pub open spec fn builds(ranges: Seq<HuffmanRange>) -> bool {
    ranges_ok(ranges) && !clash(ranges)
}

/// Whether `ranges` can describe an alphabet (see `ranges_ok`).
fn check_ranges(ranges: &[HuffmanRange]) -> (r: bool)
    ensures
        r == ranges_ok(ranges@),
{
    if ranges.len() == 0 {
        return false;
    }
    if ranges[ranges.len() - 1].end > MAX_SYMBOL {
        return false;
    }
    let mut i: usize = 0;
    while i < ranges.len()
        invariant
            ranges@.len() > 0,
            i <= ranges@.len(),
            forall|a: int| 0 <= a < i ==> #[trigger] ranges@[a].bit_length <= MAX_BIT_LENGTH,
            forall|a: int, b: int| 0 <= a < b < i ==> #[trigger] ranges@[a].end < #[trigger] ranges@[b].end,
        decreases ranges@.len() - i,
    {
        if ranges[i].bit_length > MAX_BIT_LENGTH {
            return false;
        }
        if i > 0 && ranges[i - 1].end >= ranges[i].end {
            return false;
        }
        proof {
            assert forall|a: int, b: int| 0 <= a < b < i + 1 implies #[trigger] ranges@[a].end
                < #[trigger] ranges@[b].end by {
                if b == i && a < i - 1 {
                    assert(ranges@[a].end < ranges@[i - 1].end);
                }
            }
        }
        i = i + 1;
    }
    true
}

/// Builds the canonical Huffman tree of the alphabet that `ranges`
/// describes; `None` when the ranges are malformed or two codes clash.
pub fn build_huffman_tree(ranges: &[HuffmanRange]) -> (r: Option<HuffmanNode>)
    ensures
        r is Some <==> builds(ranges@),
        r matches Some(t) ==> t is Node && is_canonical_tree(ranges@, t),
        r matches Some(t) ==> full(t) || t == HuffmanNode::Node(None, None),
{
    if !check_ranges(ranges) {
        return None;
    }
    let mut max_bit_length: u32 = 0;
    let mut i: usize = 0;
    while i < ranges.len()
        invariant
            ranges_ok(ranges@),
            i <= ranges@.len(),
            max_bit_length <= MAX_BIT_LENGTH,
            forall|a: int| 0 <= a < i ==> #[trigger] ranges@[a].bit_length <= max_bit_length,
        decreases ranges@.len() - i,
    {
        if ranges[i].bit_length > max_bit_length {
            max_bit_length = ranges[i].bit_length;
        }
        i = i + 1;
    }
    let bl_count = count_bitlengths(ranges, max_bit_length as usize);
    proof {
        assert forall|l: int| 0 <= l < bl_count@.len() implies #[trigger] bl_count@[l] <= 288 by {
            lemma_count_len_bound(ranges@, ranges@.len() as int, (l + 1) as nat);
        }
    }
    let mut next_code = compute_first_codes(&bl_count);
    let ghost first = next_code@;
    proof {
        assert forall|b: int| 0 <= b < first.len() implies #[trigger] first[b] <= 0x1000_0000
            && (bl_count@[b] > 0 ==> first[b] == canon_first(ranges@, b)) by {
            if bl_count@[b] > 0 {
                lemma_first_code_bound(bl_count@, b);
                lemma_first_code_canon(ranges@, bl_count@, b);
                vstd::arithmetic::power2::lemma_pow2_strictly_increases(b as nat, 15);
                lemma2_to64();
            }
        }
    }
    let table = compute_code_table(&mut next_code, ranges);
    proof {
        assert forall|j: int| 0 <= j < table@.len() implies 1 <= (#[trigger] table@[j]).len < 32
            && table@[j].label <= u32::MAX && entry_path(table@[j]) == canon_path(
            ranges@,
            table@[j].label as int,
        ) by {
            let e = table@[j];
            assert(entry_ok(ranges@, first, e));
            let a = choose_range(ranges@, e.label as int);
            lemma_sym_len_in(ranges@, 0, a, e.label as int);
            lemma_count_len_pos(ranges@, e.label as int);
            assert(bl_count@[e.len - 1] > 0);
            assert(first[e.len - 1] == canon_first(ranges@, e.len - 1));
            assert(e.bits == canon_code(ranges@, e.label as int));
        }
    }
    let tree = build_tree(&table);
    match tree {
        Some(t) => {
            proof {
                let last = ranges@.last().end;
                assert forall|n: int|
                    0 <= n <= last && sym_len(ranges@, n) > 0 implies leaf_at(
                    t,
                    #[trigger] canon_path(ranges@, n),
                ) == Some(n as u32) by {
                    let j = present_before(ranges@, n) as int;
                    lemma_present_before_lt(ranges@, n, last + 1);
                    assert(table@[j].label == n);
                    assert(leaf_at(t, entry_path(table@[j])) == Some(table@[j].label as u32));
                }
                assert forall|p: Seq<bool>| #[trigger]
                    leaf_at(t, p) is Some implies leaf_at(t, p).unwrap() <= last && sym_len(
                        ranges@,
                        leaf_at(t, p).unwrap() as int,
                    ) > 0 && p == canon_path(ranges@, leaf_at(t, p).unwrap() as int) by {
                    let j = choose|j: int|
                        0 <= j < table@.len() && p == entry_path(#[trigger] table@[j]) && leaf_at(t, p)
                            == Some(table@[j].label as u32);
                    assert(entry_ok(ranges@, first, table@[j]));
                }
            }
            proof {
                if clash(ranges@) {
                    let (n1, n2) = choose|n1: int, n2: int|
                        0 <= n1 <= ranges@.last().end && 0 <= n2 <= ranges@.last().end && n1 != n2
                            && sym_len(ranges@, n1) > 0
                            && sym_len(ranges@, n2) > 0 && is_prefix(
                            #[trigger] canon_path(ranges@, n1),
                            #[trigger] canon_path(ranges@, n2),
                        );
                    let path1 = canon_path(ranges@, n1);
                    let path2 = canon_path(ranges@, n2);
                    assert(leaf_at(t, path1) == Some(n1 as u32));
                    assert(leaf_at(t, path2) == Some(n2 as u32));
                    lemma_leaf_prefix(t, path1, path2);
                }
            }
            Some(t)
        },
        None => {
            proof {
                let (i, j) = choose|i: int, j: int|
                    0 <= i < table@.len() && 0 <= j < table@.len() && i != j && is_prefix(
                        entry_path(#[trigger] table@[i]),
                        entry_path(#[trigger] table@[j]),
                    );
                let n1 = table@[i].label as int;
                let n2 = table@[j].label as int;
                assert(entry_ok(ranges@, first, table@[i]));
                assert(entry_ok(ranges@, first, table@[j]));
                assert(present_before(ranges@, n1) == i);
                assert(present_before(ranges@, n2) == j);
                assert(canon_path(ranges@, n1) == entry_path(table@[i]));
                assert(canon_path(ranges@, n2) == entry_path(table@[j]));
                assert(clash(ranges@));
            }
            None
        },
    }
}

proof fn lemma_present_before_lt(ranges: Seq<HuffmanRange>, n: int, m: int)
    requires
        0 <= n < m,
        sym_len(ranges, n) > 0,
    ensures
        present_before(ranges, n) < present_before(ranges, m),
    decreases m - n,
{
    if n + 1 < m {
        lemma_present_before_lt(ranges, n, m - 1);
    }
}

/// A symbol of length `len` makes the count of that length positive.
proof fn lemma_count_len_pos(ranges: Seq<HuffmanRange>, n: int)
    requires
        ranges_ok(ranges),
        0 <= n <= ranges.last().end,
        sym_len(ranges, n) > 0,
    ensures
        count_len(ranges, ranges.len() as int, sym_len(ranges, n)) > 0,
{
    let a = choose_range(ranges, n);
    lemma_sym_len_in(ranges, 0, a, n);
    lemma_count_len_mono(ranges, a + 1, ranges.len() as int, sym_len(ranges, n));
}

/// Index of the range that holds symbol `n`.
proof fn choose_range(ranges: Seq<HuffmanRange>, n: int) -> (a: int)
    requires
        ranges_ok(ranges),
        0 <= n <= ranges.last().end,
    ensures
        0 <= a < ranges.len(),
        n <= ranges[a].end,
        a == 0 || ranges[a - 1].end < n,
{
    choose_range_from(ranges, n, ranges.len() - 1)
}

proof fn choose_range_from(ranges: Seq<HuffmanRange>, n: int, a: int) -> (r: int)
    requires
        ranges_ok(ranges),
        0 <= n,
        0 <= a < ranges.len(),
        n <= ranges[a].end,
    ensures
        0 <= r < ranges.len(),
        n <= ranges[r].end,
        r == 0 || ranges[r - 1].end < n,
    decreases a,
{
    if a == 0 || ranges[a - 1].end < n {
        a
    } else {
        choose_range_from(ranges, n, a - 1)
    }
}

proof fn lemma_count_len_mono(ranges: Seq<HuffmanRange>, k: int, m: int, len: nat)
    requires
        ranges_ok(ranges),
        1 <= k <= m <= ranges.len(),
        ranges[k - 1].bit_length == len,
    ensures
        count_len(ranges, m, len) > 0,
    decreases m - k,
{
    if k < m {
        lemma_count_len_mono(ranges, k, m - 1, len);
    } else {
        if k > 1 {
            assert(ranges[k - 2].end < ranges[k - 1].end);
        }
    }
}

/// Symbol `v` is present and its canonical code is the first `k` bits of
/// `bits`.
pub open spec fn decodes_as(ranges: Seq<HuffmanRange>, bits: Seq<bool>, v: u32, k: int) -> bool {
    &&& 0 < k <= bits.len()
    &&& v <= ranges.last().end
    &&& sym_len(ranges, v as int) > 0
    &&& canon_path(ranges, v as int) == bits.take(k)
}

/// The symbol whose canonical code starts `bits`, with the length of that
/// code; `None` when no code does.
pub open spec fn canon_decode(ranges: Seq<HuffmanRange>, bits: Seq<bool>) -> Option<(u32, int)> {
    if exists|v: u32, k: int| decodes_as(ranges, bits, v, k) {
        let (v, k) = choose|v: u32, k: int| decodes_as(ranges, bits, v, k);
        Some((v, k))
    } else {
        None
    }
}

/// In one tree, no leaf lies on the path to another.
proof fn lemma_leaf_prefix(t: HuffmanNode, p: Seq<bool>, q: Seq<bool>)
    requires
        leaf_at(t, p) is Some,
        leaf_at(t, q) is Some,
        p.len() <= q.len(),
        q.take(p.len() as int) == p,
    ensures
        p == q,
    decreases p.len(),
{
    match t {
        HuffmanNode::Leaf(_) => {
            assert(q.len() == 0);
            assert(p =~= q);
        },
        HuffmanNode::Node(left, right) => {
            assert(p[0] == q.take(p.len() as int)[0]);
            let side = if p[0] {
                right
            } else {
                left
            };
            let c = side.unwrap();
            assert(q.drop_first().take(p.len() - 1) =~= p.drop_first());
            lemma_leaf_prefix(*c, p.drop_first(), q.drop_first());
            lemma_same_head_tail(p, q);
        },
    }
}

/// What a walk of a canonical tree reads is the canonical decoding.
pub proof fn lemma_read_canonical(
    ranges: Seq<HuffmanRange>,
    t: HuffmanNode,
    bits: Seq<bool>,
    v: u32,
    k: int,
)
    requires
        t is Node,
        is_canonical_tree(ranges, t),
        0 <= k <= bits.len(),
        leaf_at(t, bits.take(k)) == Some(v),
    ensures
        canon_decode(ranges, bits) == Some((v, k)),
{
    assert(bits.take(0).len() == 0);
    assert(k != 0);
    assert(decodes_as(ranges, bits, v, k));
    let (v2, k2) = choose|v2: u32, k2: int| decodes_as(ranges, bits, v2, k2);
    assert(leaf_at(t, canon_path(ranges, v2 as int)) == Some(v2));
    if k <= k2 {
        assert(bits.take(k2).take(k) =~= bits.take(k));
        lemma_leaf_prefix(t, bits.take(k), bits.take(k2));
    } else {
        assert(bits.take(k).take(k2) =~= bits.take(k2));
        lemma_leaf_prefix(t, bits.take(k2), bits.take(k));
    }
    assert(bits.take(k).len() == k);
    assert(bits.take(k2).len() == k2);
}

/// A walk of a canonical tree that finds no leaf means no code starts the
/// bits.
pub proof fn lemma_read_canonical_none(ranges: Seq<HuffmanRange>, t: HuffmanNode, bits: Seq<bool>)
    requires
        is_canonical_tree(ranges, t),
        forall|k: int| 0 <= k <= bits.len() ==> leaf_at(t, #[trigger] bits.take(k)) is None,
    ensures
        canon_decode(ranges, bits) is None,
{
    if exists|v: u32, k: int| decodes_as(ranges, bits, v, k) {
        let (v, k) = choose|v: u32, k: int| decodes_as(ranges, bits, v, k);
        assert(leaf_at(t, canon_path(ranges, v as int)) == Some(v));
        assert(leaf_at(t, bits.take(k)) is None);
    }
}

} // verus!
