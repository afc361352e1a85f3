use vstd::prelude::*;
use crate::cvec::{Buf, copied_back};
use crate::error::GzError;
use crate::gz_reader::{GzBitReader, bits_be, bits_le, lemma_bits_le_bound};
use vstd::arithmetic::power2::{pow2, lemma2_to64};
use crate::huffman::{
    HuffmanNode, HuffmanRange, build_huffman_tree, builds, canon_decode, is_canonical_tree, leaf_at,
    lemma_read_canonical, lemma_read_canonical_none,
};

verus! {

/// The literal/length symbol that ends a block.
pub const END_OF_BLOCK: u32 = 256;

/// Longest back-reference.
pub const MAX_MATCH: usize = 258;

/// `n` starts with all of `o`.
pub open spec fn extends(o: Seq<u8>, n: Seq<u8>) -> bool {
    o.len() <= n.len() && n.subrange(0, o.len() as int) == o
}

proof fn lemma_extends_trans(a: Seq<u8>, b: Seq<u8>, c: Seq<u8>)
    requires
        extends(a, b),
        extends(b, c),
    ensures
        extends(a, c),
{
    assert(c.subrange(0, a.len() as int) =~= c.subrange(0, b.len() as int).subrange(0, a.len() as int));
}

proof fn lemma_extends_push(a: Seq<u8>, x: u8)
    ensures
        extends(a, a.push(x)),
{
    assert(a.push(x).subrange(0, a.len() as int) =~= a);
}

/// `s` extended by `len` elements, each a copy of the element `d` places
/// before it.
pub open spec fn copy_back(s: Seq<u8>, d: int, len: nat) -> Seq<u8>
    decreases len,
{
    if len == 0 {
        s
    } else {
        let t = copy_back(s, d, (len - 1) as nat);
        t.push(t[t.len() - d])
    }
}

proof fn lemma_copied_back(s: Seq<u8>, n: Seq<u8>, d: int, len: nat)
    requires
        1 <= d <= s.len(),
        copied_back(s, n, d, len as int),
    ensures
        n == copy_back(s, d, len),
    decreases len,
{
    if len == 0 {
        assert(n =~= s);
    } else {
        let m = n.subrange(0, s.len() + len - 1);
        assert(m.subrange(0, s.len() as int) =~= s);
        assert forall|k: int| s.len() <= k < m.len() implies #[trigger] m[k] == m[k - d] by {
            assert(n[k] == n[k - d]);
        }
        lemma_copied_back(s, m, d, (len - 1) as nat);
        assert(n[n.len() - 1] == n[n.len() - 1 - d]);
        assert(n =~= m.push(m[m.len() - d]));
    }
}

/// `n` bits, least significant first, and the bits after them.
pub open spec fn take_le(b: Seq<bool>, n: nat) -> Option<(nat, Seq<bool>)> {
    if n <= b.len() {
        Some((bits_le(b.take(n as int)), b.skip(n as int)))
    } else {
        None
    }
}

/// The length that length symbol `code` (257 to 285) gives, reading its
/// extra bits from `b`, and the bits after them.
pub open spec fn match_length(code: u32, b: Seq<bool>) -> Option<(nat, Seq<bool>)> {
    if code < 265 {
        Some(((code - 254) as nat, b))
    } else if code < 285 {
        match take_le(b, ((code - 261) / 4) as nat) {
            Some((e, b2)) => Some(((length_base((code - 265) as u32) + e) as nat, b2)),
            None => None,
        }
    } else {
        Some((258, b))
    }
}

/// The distance symbol at the start of `b` and the bits after it: read with
/// the code of `dist`, or as a five-bit number, most significant bit first,
/// when there is none.
pub open spec fn dist_symbol(dist: Option<Seq<HuffmanRange>>, b: Seq<bool>) -> Option<
    (u32, Seq<bool>),
> {
    match dist {
        None => if 5 <= b.len() {
            Some((bits_be(b.take(5)) as u32, b.skip(5)))
        } else {
            None
        },
        Some(r) => match canon_decode(r, b) {
            Some((v, k)) => Some((v, b.skip(k))),
            None => None,
        },
    }
}

/// The distance that distance symbol `dsym` (0 to 29) gives, reading its
/// extra bits from `b`, and the bits after them.
pub open spec fn match_distance(dsym: u32, b: Seq<bool>) -> Option<(nat, Seq<bool>)> {
    if dsym <= 3 {
        Some(((dsym + 1) as nat, b))
    } else {
        match take_le(b, ((dsym - 2) / 2) as nat) {
            Some((e, b2)) => Some(((dist_base((dsym - 4) as u32) + e) as nat, b2)),
            None => None,
        }
    }
}

/// Decoding of the symbols of a compressed block from `bits`, whose
/// literal/length code is that of `lit` and whose distance code that of
/// `dist`, appended to `out`: the bits after the end-of-block symbol and the
/// output, or why the data is refused.
pub open spec fn inflate_codes(
    lit: Seq<HuffmanRange>,
    dist: Option<Seq<HuffmanRange>>,
    bits: Seq<bool>,
    out: Seq<u8>,
) -> Result<(Seq<bool>, Seq<u8>), GzError>
    decreases bits.len(),
{
    match canon_decode(lit, bits) {
        None => Err(GzError::MalformedStream),
        Some((code, k)) => if k <= 0 || k > bits.len() {
            Err(GzError::MalformedStream)
        } else {
            let b1 = bits.skip(k);
            if code >= 286 {
                Err(GzError::MalformedStream)
            } else if code < END_OF_BLOCK {
                inflate_codes(lit, dist, b1, out.push(code as u8))
            } else if code == END_OF_BLOCK {
                Ok((b1, out))
            } else {
                match match_length(code, b1) {
                    None => Err(GzError::MalformedStream),
                    Some((len, b2)) => match dist_symbol(dist, b2) {
                        None => Err(GzError::MalformedStream),
                        Some((dsym, b3)) => if dsym > 29 {
                            Err(GzError::MalformedStream)
                        } else {
                            match match_distance(dsym, b3) {
                                None => Err(GzError::MalformedStream),
                                Some((d, b4)) => if d > out.len() {
                                    Err(GzError::MalformedStream)
                                } else if out.len() > usize::MAX - MAX_MATCH {
                                    Err(GzError::OutOfMemory)
                                } else if b4.len() >= bits.len() {
                                    Err(GzError::MalformedStream)
                                } else {
                                    inflate_codes(lit, dist, b4, copy_back(out, d as int, len))
                                },
                            }
                        },
                    },
                }
            }
        },
    }
}

proof fn lemma_copy_back_extends(s: Seq<u8>, d: int, len: nat)
    ensures
        extends(s, copy_back(s, d, len)),
    decreases len,
{
    if len == 0 {
        assert(s.subrange(0, s.len() as int) =~= s);
    } else {
        lemma_copy_back_extends(s, d, (len - 1) as nat);
        let t = copy_back(s, d, (len - 1) as nat);
        lemma_extends_push(t, t[t.len() - d]);
        lemma_extends_trans(s, t, t.push(t[t.len() - d]));
    }
}

/// A block that decodes uses up at least one bit and only appends to the
/// output.
proof fn lemma_inflate_codes_ok(
    lit: Seq<HuffmanRange>,
    dist: Option<Seq<HuffmanRange>>,
    bits: Seq<bool>,
    out: Seq<u8>,
)
    ensures
        inflate_codes(lit, dist, bits, out) matches Ok((b, o)) ==> b.len() < bits.len() && extends(
            out,
            o,
        ),
    decreases bits.len(),
{
    if let Some((code, k)) = canon_decode(lit, bits) {
        if 0 < k <= bits.len() && code < 286 {
            let b1 = bits.skip(k);
            if code < END_OF_BLOCK {
                lemma_inflate_codes_ok(lit, dist, b1, out.push(code as u8));
                lemma_extends_push(out, code as u8);
                if let Ok((b, o)) = inflate_codes(lit, dist, bits, out) {
                    lemma_extends_trans(out, out.push(code as u8), o);
                }
            } else if code == END_OF_BLOCK {
                assert(out.subrange(0, out.len() as int) =~= out);
            } else if let Some((len, b2)) = match_length(code, b1) {
                if let Some((dsym, b3)) = dist_symbol(dist, b2) {
                    if dsym <= 29 {
                        if let Some((d, b4)) = match_distance(dsym, b3) {
                            if d <= out.len() && out.len() <= usize::MAX - MAX_MATCH && b4.len()
                                < bits.len() {
                                let o2 = copy_back(out, d as int, len);
                                lemma_inflate_codes_ok(lit, dist, b4, o2);
                                lemma_copy_back_extends(out, d as int, len);
                                if let Ok((b, o)) = inflate_codes(lit, dist, bits, out) {
                                    lemma_extends_trans(out, o2, o);
                                }
                            }
                        }
                    }
                }
            }
        }
    }
}

/// Byte `i` of a stored block whose aligned bits are `a`.
pub open spec fn stored_byte(a: Seq<bool>, i: int) -> u8 {
    bits_le(a.skip(32 + 8 * i).take(8)) as u8
}

/// Decoding of a stored block from `bits` (just after its block header),
/// appended to `out`: skip to a byte boundary, read LEN and NLEN, which must
/// be each other's complement, then LEN bytes.
pub open spec fn inflate_stored_spec(bits: Seq<bool>, out: Seq<u8>) -> Result<
    (Seq<bool>, Seq<u8>),
    GzError,
> {
    let a = bits.skip((bits.len() % 8) as int);
    if a.len() < 32 {
        Err(GzError::MalformedStream)
    } else {
        let len = bits_le(a.take(16));
        let nlen = bits_le(a.skip(16).take(16));
        if len as u32 != (nlen as u32 ^ 0xffffu32) {
            Err(GzError::MalformedStream)
        } else if a.len() < 32 + 8 * len {
            Err(GzError::MalformedStream)
        } else {
            Ok(
                (
                    a.skip(32 + 8 * len as int),
                    out + Seq::new(len, |i: int| stored_byte(a, i)),
                ),
            )
        }
    }
}

/// The code-length alphabet's lengths after the first `n` three-bit fields
/// of `b`, placed in the permuted order; the others are zero.
pub open spec fn cl_lengths(b: Seq<bool>, n: int) -> Seq<u32>
    decreases n,
{
    if n <= 0 {
        Seq::new(19, |i: int| 0u32)
    } else {
        cl_lengths(b, n - 1).update(
            cl_offset((n - 1) as usize) as int,
            bits_le(b.skip(3 * (n - 1)).take(3)) as u32,
        )
    }
}

proof fn lemma_cl_lengths_len(b: Seq<bool>, n: int)
    ensures
        cl_lengths(b, n).len() == 19,
    decreases n,
{
    if n > 0 {
        lemma_cl_lengths_len(b, n - 1);
    }
}

/// Decoding of code lengths from `bits` with the code-length code of `cl`,
/// appended to `acc` until there are at least `total`: symbols 0 to 15 are
/// lengths, 16 repeats the previous length 3 to 6 times, 17 gives 3 to 10
/// zeros and 18 gives 11 to 138 zeros.
pub open spec fn code_lengths_from(cl: Seq<HuffmanRange>, bits: Seq<bool>, acc: Seq<u32>, total: int) -> Result<
    (Seq<u32>, Seq<bool>),
    GzError,
>
    decreases bits.len(),
{
    if acc.len() >= total {
        Ok((acc, bits))
    } else {
        match canon_decode(cl, bits) {
            None => Err(GzError::MalformedStream),
            Some((code, k)) => if k <= 0 || k > bits.len() {
                Err(GzError::MalformedStream)
            } else {
                let b1 = bits.skip(k);
                if code <= 15 {
                    code_lengths_from(cl, b1, acc.push(code), total)
                } else {
                    let (n, add, value) = if code == 16 {
                        (2nat, 3nat, if acc.len() > 0 { acc.last() } else { 0 })
                    } else if code == 17 {
                        (3nat, 3nat, 0u32)
                    } else {
                        (7nat, 11nat, 0u32)
                    };
                    if code > 18 || (code == 16 && acc.len() == 0) {
                        Err(GzError::MalformedStream)
                    } else {
                        match take_le(b1, n) {
                            None => Err(GzError::MalformedStream),
                            Some((e, b2)) => if b2.len() >= bits.len() {
                                Err(GzError::MalformedStream)
                            } else {
                                code_lengths_from(cl, b2, acc + Seq::new((e + add) as nat, |i: int| value), total)
                            },
                        }
                    }
                }
            },
        }
    }
}

/// The codes of a dynamic block from its decoded code lengths `r`: the
/// first `hlit + 257` are the literal/length code's, the next `hdist + 1`
/// the distance code's; both trees must exist.
pub open spec fn dyn_trees(hlit: int, hdist: int, r: Result<(Seq<u32>, Seq<bool>), GzError>) -> Result<
    (Seq<HuffmanRange>, Seq<HuffmanRange>, Seq<bool>),
    GzError,
> {
    match r {
        Err(e) => Err(e),
        Ok((alpha, b2)) => {
            let l = runs(alpha, 0, hlit + 257);
            let d = runs(alpha, hlit + 257, hdist + 1);
            if !builds(l) || !builds(d) {
                Err(GzError::MalformedStream)
            } else {
                Ok((l, d, b2))
            }
        },
    }
}

/// The header of a dynamic block at the start of `bits`: the ranges of its
/// literal/length code and of its distance code, and the bits after it.
pub open spec fn dyn_header(bits: Seq<bool>) -> Result<
    (Seq<HuffmanRange>, Seq<HuffmanRange>, Seq<bool>),
    GzError,
> {
    if bits.len() < 14 {
        Err(GzError::MalformedStream)
    } else {
        let hlit = bits_le(bits.take(5)) as int;
        let hdist = bits_le(bits.skip(5).take(5)) as int;
        let n = bits_le(bits.skip(10).take(4)) + 4 as int;
        let b1 = bits.skip(14);
        if b1.len() < 3 * n {
            Err(GzError::MalformedStream)
        } else {
            let clr = runs(cl_lengths(b1, n), 0, 19);
            if !builds(clr) {
                Err(GzError::MalformedStream)
            } else {
                dyn_trees(
                    hlit,
                    hdist,
                    code_lengths_from(clr, b1.skip(3 * n), Seq::empty(), hlit + hdist + 258),
                )
            }
        }
    }
}

proof fn lemma_code_lengths_from_ok(cl: Seq<HuffmanRange>, bits: Seq<bool>, acc: Seq<u32>, total: int)
    ensures
        code_lengths_from(cl, bits, acc, total) matches Ok((a, b)) ==> b.len() <= bits.len(),
    decreases bits.len(),
{
    if acc.len() < total {
        if let Some((code, k)) = canon_decode(cl, bits) {
            if 0 < k <= bits.len() {
                let b1 = bits.skip(k);
                if code <= 15 {
                    lemma_code_lengths_from_ok(cl, b1, acc.push(code), total);
                } else {
                    let (n, add, value) = if code == 16 {
                        (2nat, 3nat, if acc.len() > 0 { acc.last() } else { 0 })
                    } else if code == 17 {
                        (3nat, 3nat, 0u32)
                    } else {
                        (7nat, 11nat, 0u32)
                    };
                    if let Some((e, b2)) = take_le(b1, n) {
                        if b2.len() < bits.len() {
                            lemma_code_lengths_from_ok(
                                cl,
                                b2,
                                acc + Seq::new((e + add) as nat, |i: int| value),
                                total,
                            );
                        }
                    }
                }
            }
        }
    }
}

/// Decoding of the blocks of a deflate stream from `bits`, up to and
/// including the one marked final, appended to `out`: the bits after the
/// last block and the output, or why the stream is refused.
pub open spec fn inflate_blocks(bits: Seq<bool>, out: Seq<u8>) -> Result<(Seq<bool>, Seq<u8>), GzError>
    decreases bits.len(),
{
    if bits.len() < 3 {
        Err(GzError::MalformedStream)
    } else {
        let last = bits[0];
        let btype = bits_le(bits.skip(1).take(2));
        let b1 = bits.skip(3);
        let r = if btype == 0 {
            inflate_stored_spec(b1, out)
        } else if btype == 1 {
            if builds(fixed_ranges()) {
                inflate_codes(fixed_ranges(), None, b1, out)
            } else {
                Err(GzError::MalformedStream)
            }
        } else if btype == 2 {
            match dyn_header(b1) {
                Err(e) => Err(e),
                Ok((l, d, b2)) => inflate_codes(l, Some(d), b2, out),
            }
        } else {
            Err(GzError::BadBlockType)
        };
        match r {
            Err(e) => Err(e),
            Ok((b3, o)) => if last {
                Ok((b3, o))
            } else if b3.len() < bits.len() {
                inflate_blocks(b3, o)
            } else {
                Err(GzError::MalformedStream)
            },
        }
    }
}

/// Where `r` stands, a decoding that gives `spec` has left `stream` and
/// `out` as that result says.
pub open spec fn outcome(
    spec: Result<(Seq<bool>, Seq<u8>), GzError>,
    r: Result<(), GzError>,
    bits: Seq<bool>,
    out: Seq<u8>,
) -> bool {
    match spec {
        Ok((b, o)) => r is Ok && bits == b && out == o,
        Err(e) => r == Err::<(), GzError>(e),
    }
}

/// Where the `i`-th 3-bit code length of a dynamic block header belongs in
/// the code-length alphabet (RFC 1951, 3.2.7).
pub open spec fn cl_offset(i: usize) -> usize {
    match i {
        0 => 16,
        1 => 17,
        2 => 18,
        3 => 0,
        4 => 8,
        5 => 7,
        6 => 9,
        7 => 6,
        8 => 10,
        9 => 5,
        10 => 11,
        11 => 4,
        12 => 12,
        13 => 3,
        14 => 13,
        15 => 2,
        16 => 14,
        17 => 1,
        _ => 15,
    }
}

/// Where the `i`-th 3-bit code length of a dynamic block header belongs in
/// the code-length alphabet.
fn code_length_offset(i: usize) -> (r: usize)
    requires
        i < 19,
    ensures
        r == cl_offset(i),
        r < 19,
{
    match i {
        0 => 16,
        1 => 17,
        2 => 18,
        3 => 0,
        4 => 8,
        5 => 7,
        6 => 9,
        7 => 6,
        8 => 10,
        9 => 5,
        10 => 11,
        11 => 4,
        12 => 12,
        13 => 3,
        14 => 13,
        15 => 2,
        16 => 14,
        17 => 1,
        _ => 15,
    }
}

/// Base length of length symbol `265 + i` (RFC 1951, 3.2.5).
pub open spec fn length_base(i: u32) -> u32 {
    match i {
        0 => 11,
        1 => 13,
        2 => 15,
        3 => 17,
        4 => 19,
        5 => 23,
        6 => 27,
        7 => 31,
        8 => 35,
        9 => 43,
        10 => 51,
        11 => 59,
        12 => 67,
        13 => 83,
        14 => 99,
        15 => 115,
        16 => 131,
        17 => 163,
        18 => 195,
        _ => 227,
    }
}

/// Base distance of distance symbol `4 + i` (RFC 1951, 3.2.5).
pub open spec fn dist_base(i: u32) -> u32 {
    match i {
        0 => 5,
        1 => 7,
        2 => 9,
        3 => 13,
        4 => 17,
        5 => 25,
        6 => 33,
        7 => 49,
        8 => 65,
        9 => 97,
        10 => 129,
        11 => 193,
        12 => 257,
        13 => 385,
        14 => 513,
        15 => 769,
        16 => 1025,
        17 => 1537,
        18 => 2049,
        19 => 3073,
        20 => 4097,
        21 => 6145,
        22 => 8193,
        23 => 12289,
        24 => 16385,
        _ => 24577,
    }
}

/// Base length of length symbol `265 + i`.
fn extra_length_addend(i: u32) -> (r: u32)
    requires
        i < 20,
    ensures
        r == length_base(i),
        11 <= r <= 227,
{
    match i {
        0 => 11,
        1 => 13,
        2 => 15,
        3 => 17,
        4 => 19,
        5 => 23,
        6 => 27,
        7 => 31,
        8 => 35,
        9 => 43,
        10 => 51,
        11 => 59,
        12 => 67,
        13 => 83,
        14 => 99,
        15 => 115,
        16 => 131,
        17 => 163,
        18 => 195,
        _ => 227,
    }
}

/// Base distance of distance symbol `4 + i`.
fn extra_dist_addend(i: u32) -> (r: u32)
    requires
        i < 26,
    ensures
        r == dist_base(i),
        5 <= r <= 24577,
{
    match i {
        0 => 5,
        1 => 7,
        2 => 9,
        3 => 13,
        4 => 17,
        5 => 25,
        6 => 33,
        7 => 49,
        8 => 65,
        9 => 97,
        10 => 129,
        11 => 193,
        12 => 257,
        13 => 385,
        14 => 513,
        15 => 769,
        16 => 1025,
        17 => 1537,
        18 => 2049,
        19 => 3073,
        20 => 4097,
        21 => 6145,
        22 => 8193,
        23 => 12289,
        24 => 16385,
        _ => 24577,
    }
}

/// Reads `count` bits, least significant first; a stream that ends first
/// is malformed.
fn bits(stream: &mut GzBitReader, count: u32) -> (r: Result<u32, GzError>)
    requires
        count <= 32,
    ensures
        r is Ok ==> final(stream).bits().len() <= old(stream).bits().len(),
        r matches Ok(v) ==> count <= old(stream).bits().len() && v == bits_le(
            old(stream).bits().take(count as int),
        ) && v < pow2(count as nat) && final(stream).bits() == old(stream).bits().skip(
            count as int,
        ),
        r is Err ==> r == Err::<u32, GzError>(GzError::MalformedStream) && count > old(
            stream,
        ).bits().len(),
{
    let ghost b0 = stream.bits();
    match stream.read_bits(count) {
        Some(v) => {
            proof {
                lemma_bits_le_bound(b0.take(count as int));
                lemma2_to64();
                if count < 32 {
                    vstd::arithmetic::power2::lemma_pow2_strictly_increases(count as nat, 32);
                }
            }
            Ok(v)
        },
        None => Err(GzError::MalformedStream),
    }
}

/// Reads one symbol with `tree`, the canonical tree of `ranges`.
fn symbol(tree: &HuffmanNode, stream: &mut GzBitReader, Ghost(ranges): Ghost<Seq<HuffmanRange>>) -> (r:
    Result<u32, GzError>)
    requires
        tree is Node,
        is_canonical_tree(ranges, *tree),
    ensures
        match canon_decode(ranges, old(stream).bits()) {
            Some((v, k)) => r == Ok::<u32, GzError>(v) && 0 < k <= old(stream).bits().len()
                && final(stream).bits() == old(stream).bits().skip(k),
            None => r == Err::<u32, GzError>(GzError::MalformedStream),
        },
{
    let ghost b0 = stream.bits();
    match tree.read(stream) {
        Some(v) => {
            proof {
                let k = choose|k: int|
                    0 <= k <= b0.len() && leaf_at(*tree, b0.take(k)) == Some(v) && stream.bits()
                        == b0.skip(k);
                lemma_read_canonical(ranges, *tree, b0, v, k);
            }
            Ok(v)
        },
        None => {
            proof {
                lemma_read_canonical_none(ranges, *tree, b0);
            }
            Err(GzError::MalformedStream)
        },
    }
}

/// The ranges closed so far, and the open one, after the first `i` of the
/// code lengths `lengths[start..]`.
pub open spec fn runs_state(lengths: Seq<u32>, start: int, i: int) -> (Seq<HuffmanRange>, HuffmanRange)
    decreases i,
{
    if i <= 0 {
        (Seq::empty(), HuffmanRange { end: 0, bit_length: 0 })
    } else {
        let (rs, cur) = runs_state(lengths, start, i - 1);
        let rs2 = if i - 1 > 0 && lengths[start + i - 1] != lengths[start + i - 2] {
            rs.push(cur)
        } else {
            rs
        };
        (rs2, HuffmanRange { end: (i - 1) as u32, bit_length: lengths[start + i - 1] })
    }
}

/// Ranges for the code lengths `lengths[start..start + count]`: one range
/// for each run of equal lengths.
pub open spec fn runs(lengths: Seq<u32>, start: int, count: int) -> Seq<HuffmanRange> {
    let (rs, cur) = runs_state(lengths, start, count);
    rs.push(cur)
}

/// Ranges for the code lengths `lengths[start..start + count]`: one range
/// for each run of equal lengths.
fn lengths_to_ranges(lengths: &Vec<u32>, start: usize, count: usize) -> (r: Vec<HuffmanRange>)
    requires
        1 <= count <= 512,
        start + count <= lengths@.len(),
    ensures
        r@ == runs(lengths@, start as int, count as int),
{
    let mut ranges: Vec<HuffmanRange> = Vec::new();
    let mut range = HuffmanRange::new();
    let mut i: usize = 0;
    let n = lengths.len();
    while i < count
        invariant
            n == lengths@.len(),
            start + count <= lengths@.len(),
            i <= count <= 512,
            (ranges@, range) == runs_state(lengths@, start as int, i as int),
        decreases count - i,
    {
        if i > 0 && lengths[start + i] != lengths[start + i - 1] {
            ranges.push(range);
        }
        range.end = i as u32;
        range.bit_length = lengths[start + i];
        i = i + 1;
    }
    ranges.push(range);
    ranges
}

/// Builds the code-length tree of a dynamic block header from its
/// `hclen + 4` three-bit code lengths.
fn build_code_length_tree(stream: &mut GzBitReader, hclen: u32) -> (r: Result<
    (HuffmanNode, Ghost<Seq<HuffmanRange>>),
    GzError,
>)
    requires
        hclen < 16,
    ensures
        r matches Ok((t, g)) ==> t is Node && is_canonical_tree(g@, t) && 3 * (hclen + 4) <= old(
            stream,
        ).bits().len() && final(stream).bits() == old(stream).bits().skip(3 * (hclen + 4))
            && g@ == runs(cl_lengths(old(stream).bits(), hclen + 4), 0, 19) && builds(g@),
        r is Err ==> r == Err::<(HuffmanNode, Ghost<Seq<HuffmanRange>>), GzError>(
            GzError::MalformedStream,
        ) && (3 * (hclen + 4) > old(stream).bits().len() || !builds(
            runs(cl_lengths(old(stream).bits(), hclen + 4), 0, 19),
        )),
{
    let ghost b0 = stream.bits();
    let mut code_lengths: Vec<u32> = vec![0u32; 19];
    let mut i: usize = 0;
    assert(code_lengths@ =~= cl_lengths(b0, 0));
    proof {
        lemma_cl_lengths_len(b0, 0);
    }
    assert(b0.skip(0) =~= b0);
    while i < (hclen + 4) as usize
        invariant
            i <= hclen + 4 <= 19,
            b0 == old(stream).bits(),
            3 * i <= b0.len(),
            stream.bits() == b0.skip(3 * i),
            code_lengths@ == cl_lengths(b0, i as int),
            code_lengths@.len() == 19,
        decreases hclen + 4 - i,
    {
        let v = bits(stream, 3)?;
        code_lengths.set(code_length_offset(i), v);
        proof {
            assert(b0.skip(3 * i).skip(3) =~= b0.skip(3 * (i + 1)));
            lemma_cl_lengths_len(b0, i + 1);
        }
        i = i + 1;
    }
    let ranges = lengths_to_ranges(&code_lengths, 0, 19);
    match build_huffman_tree(ranges.as_slice()) {
        Some(t) => Ok((t, Ghost(ranges@))),
        None => Err(GzError::MalformedStream),
    }
}

/// Reads the header of a dynamic block and builds its literal/length tree
/// and its distance tree.
fn read_huffman_tree(stream: &mut GzBitReader) -> (r: Result<
    (HuffmanNode, HuffmanNode, Ghost<Seq<HuffmanRange>>, Ghost<Seq<HuffmanRange>>),
    GzError,
>)
    ensures
        r matches Ok((l, d, gl, gd)) ==> l is Node && d is Node && is_canonical_tree(gl@, l)
            && is_canonical_tree(gd@, d) && dyn_header(old(stream).bits()) == Ok::<
            (Seq<HuffmanRange>, Seq<HuffmanRange>, Seq<bool>),
            GzError,
        >((gl@, gd@, final(stream).bits())),
        r matches Err(e) ==> dyn_header(old(stream).bits()) == Err::<
            (Seq<HuffmanRange>, Seq<HuffmanRange>, Seq<bool>),
            GzError,
        >(e),
{
    proof {
        lemma2_to64();
    }
    let ghost b0 = stream.bits();
    let hlit = bits(stream, 5)?;
    let hdist = bits(stream, 5)?;
    let hclen = bits(stream, 4)?;
    proof {
        assert(b0.skip(5).skip(5) =~= b0.skip(10));
        assert(b0.skip(10).skip(4) =~= b0.skip(14));
    }
    let ghost b1 = stream.bits();
    let (code_lengths_root, Ghost(cl_ranges)) = build_code_length_tree(stream, hclen)?;
    let total = (hlit + hdist + 258) as usize;
    let mut alphabet: Vec<u32> = Vec::new();
    let ghost spec = code_lengths_from(cl_ranges, stream.bits(), Seq::empty(), total as int);
    assert(alphabet@ =~= Seq::<u32>::empty());
    while alphabet.len() < total
        invariant
            code_lengths_root is Node,
            is_canonical_tree(cl_ranges, code_lengths_root),
            total <= 320,
            alphabet@.len() <= total + 138,
            spec == code_lengths_from(cl_ranges, stream.bits(), alphabet@, total as int),
            total == hlit + hdist + 258,
            hlit < 32,
            hdist < 32,
            dyn_header(b0) == dyn_trees(hlit as int, hdist as int, spec),
            b0 == old(stream).bits(),
        decreases stream.bits().len(),
    {
        proof {
            lemma2_to64();
        }
        let ghost bc = stream.bits();
        let ghost acc = alphabet@;
        let code = symbol(&code_lengths_root, stream, Ghost(cl_ranges))?;
        if code <= 15 {
            alphabet.push(code);
        } else {
            if code > 18 {
                return Err(GzError::MalformedStream);
            }
            if code == 16 && alphabet.len() == 0 {
                return Err(GzError::MalformedStream);
            }
            let (repeat, value) = if code == 16 {
                let prev = alphabet[alphabet.len() - 1];
                (bits(stream, 2)? + 3, prev)
            } else if code == 17 {
                (bits(stream, 3)? + 3, 0)
            } else {
                (bits(stream, 7)? + 11, 0)
            };
            let mut k: u32 = 0;
            assert(alphabet@ =~= acc + Seq::new(0, |i: int| value));
            while k < repeat
                invariant
                    k <= repeat <= 138,
                    alphabet@.len() < total + k,
                    acc.len() < total,
                    alphabet@ == acc + Seq::new(k as nat, |i: int| value),
                decreases repeat - k,
            {
                alphabet.push(value);
                k = k + 1;
                assert(alphabet@ =~= acc + Seq::new(k as nat, |i: int| value));
            }
            assert(stream.bits().len() < bc.len());
        }
    }
    let nlit = (hlit + 257) as usize;
    let literals_ranges = lengths_to_ranges(&alphabet, 0, nlit);
    let distances_ranges = lengths_to_ranges(&alphabet, nlit, (hdist + 1) as usize);
    let literals_root = match build_huffman_tree(literals_ranges.as_slice()) {
        Some(t) => t,
        None => {
            return Err(GzError::MalformedStream);
        },
    };
    let distances_root = match build_huffman_tree(distances_ranges.as_slice()) {
        Some(t) => t,
        None => {
            return Err(GzError::MalformedStream);
        },
    };
    Ok((literals_root, distances_root, Ghost(literals_ranges@), Ghost(distances_ranges@)))
}

/// Ranges of the fixed literal/length code.
pub open spec fn fixed_ranges() -> Seq<HuffmanRange> {
    seq![
        HuffmanRange { end: 143, bit_length: 8 },
        HuffmanRange { end: 255, bit_length: 9 },
        HuffmanRange { end: 279, bit_length: 7 },
        HuffmanRange { end: 287, bit_length: 8 },
    ]
}

/// The tree of the fixed literal/length code.
pub fn build_fixed_huffman_tree() -> (r: Option<HuffmanNode>)
    ensures
        r is Some <==> builds(fixed_ranges()),
        r matches Some(t) ==> t is Node && is_canonical_tree(fixed_ranges(), t),
{
    let ranges = vec![
        HuffmanRange { end: 143, bit_length: 8 },
        HuffmanRange { end: 255, bit_length: 9 },
        HuffmanRange { end: 279, bit_length: 7 },
        HuffmanRange { end: 287, bit_length: 8 },
    ];
    assert(ranges@ =~= fixed_ranges());
    build_huffman_tree(ranges.as_slice())
}

/// Decodes the symbols of one compressed block up to its end-of-block
/// symbol, appending literals and back-references to `out`. Distances are
/// read with `distances_root`, or as five-bit numbers when it is absent.
fn inflate_huffman_codes(
    stream: &mut GzBitReader,
    literals_root: &HuffmanNode,
    distances_root: Option<&HuffmanNode>,
    out: &mut Buf,
    Ghost(lit): Ghost<Seq<HuffmanRange>>,
    Ghost(dist): Ghost<Option<Seq<HuffmanRange>>>,
) -> (r: Result<(), GzError>)
    requires
        literals_root is Node,
        is_canonical_tree(lit, *literals_root),
        match distances_root {
            None => dist is None,
            Some(d) => d is Node && dist is Some && is_canonical_tree(dist.unwrap(), *d),
        },
    ensures
        outcome(
            inflate_codes(lit, dist, old(stream).bits(), old(out)@),
            r,
            final(stream).bits(),
            final(out)@,
        ),
{
    let ghost spec = inflate_codes(lit, dist, stream.bits(), out@);
    loop
        invariant
            literals_root is Node,
            is_canonical_tree(lit, *literals_root),
            match distances_root {
                None => dist is None,
                Some(d) => d is Node && dist is Some && is_canonical_tree(dist.unwrap(), *d),
            },
            spec == inflate_codes(lit, dist, old(stream).bits(), old(out)@),
            spec == inflate_codes(lit, dist, stream.bits(), out@),
        decreases stream.bits().len(),
    {
        proof {
            lemma2_to64();
        }
        let ghost bc = stream.bits();
        let ghost oc = out@;
        let code = symbol(literals_root, stream, Ghost(lit))?;
        let ghost b1 = stream.bits();
        if code >= 286 {
            return Err(GzError::MalformedStream);
        }
        if code < END_OF_BLOCK {
            out.push(code as u8);
            assert(spec == inflate_codes(lit, dist, b1, out@));
        } else if code == END_OF_BLOCK {
            return Ok(());
        } else {
            let length: u32 = if code < 265 {
                code - 254
            } else if code < 285 {
                let extra = bits(stream, (code - 261) / 4)?;
                proof {
                    if (code - 261) / 4 < 5 {
                        vstd::arithmetic::power2::lemma_pow2_strictly_increases(
                            ((code - 261) / 4) as nat,
                            5,
                        );
                    }
                }
                extra + extra_length_addend(code - 265)
            } else {
                258
            };
            assert(match_length(code, b1) == Some((length as nat, stream.bits())));
            let ghost b2 = stream.bits();
            let dist_sym = match distances_root {
                None => match stream.read_bits_rev(5) {
                    Some(d) => d,
                    None => {
                        return Err(GzError::MalformedStream);
                    },
                },
                Some(tree) => symbol(tree, stream, Ghost(dist.unwrap()))?,
            };
            assert(dist_symbol(dist, b2) == Some((dist_sym, stream.bits())));
            let ghost b3 = stream.bits();
            if dist_sym > 29 {
                return Err(GzError::MalformedStream);
            }
            let distance: u32 = if dist_sym <= 3 {
                dist_sym + 1
            } else {
                let extra = bits(stream, (dist_sym - 2) / 2)?;
                proof {
                    if (dist_sym - 2) / 2 < 13 {
                        vstd::arithmetic::power2::lemma_pow2_strictly_increases(
                            ((dist_sym - 2) / 2) as nat,
                            13,
                        );
                    }
                }
                extra + extra_dist_addend(dist_sym - 4)
            };
            assert(match_distance(dist_sym, b3) == Some((distance as nat, stream.bits())));
            if distance as usize > out.len() {
                return Err(GzError::MalformedStream);
            }
            if out.len() > usize::MAX - MAX_MATCH {
                return Err(GzError::OutOfMemory);
            }
            assert(stream.bits().len() < bc.len());
            out.copy_back_pointer(distance as usize, length as usize);
            proof {
                lemma_copied_back(oc, out@, distance as int, length as nat);
            }
            assert(spec == inflate_codes(lit, dist, stream.bits(), out@));
        }
    }
}

/// Copies the bytes of a stored block to `out`.
fn inflate_stored(stream: &mut GzBitReader, out: &mut Buf) -> (r: Result<(), GzError>)
    ensures
        outcome(inflate_stored_spec(old(stream).bits(), old(out)@), r, final(stream).bits(), final(out)@),
        r is Ok ==> final(stream).bits().len() <= old(stream).bits().len(),
        r is Ok ==> extends(old(out)@, final(out)@),
{
    let ghost out0 = out@;
    let ghost bits0 = stream.bits();
    stream.align_to_byte();
    let ghost a = stream.bits();
    let len = bits(stream, 16)?;
    let nlen = bits(stream, 16)?;
    proof {
        assert(a.skip(16).skip(16) =~= a.skip(32));
        assert(a.len() <= bits0.len());
    }
    if len != (nlen ^ 0xffff) {
        return Err(GzError::MalformedStream);
    }
    let mut k: u32 = 0;
    assert(out@ =~= out0 + Seq::new(0, |i: int| stored_byte(a, i)));
    while k < len
        invariant
            k <= len,
            len == bits_le(a.take(16)),
            32 + 8 * k <= a.len(),
            a.len() <= old(stream).bits().len(),
            stream.bits() == a.skip(32 + 8 * k),
            out@ == out0 + Seq::new(k as nat, |i: int| stored_byte(a, i)),
            out0 == old(out)@,
            a == bits0.skip((bits0.len() % 8) as int),
            bits0 == old(stream).bits(),
            len as u32 == (bits_le(a.skip(16).take(16)) as u32 ^ 0xffffu32),
        decreases len - k,
    {
        let b = bits(stream, 8)?;
        proof {
            lemma2_to64();
            assert(b < 256);
            assert(stored_byte(a, k as int) == b as u8);
        }
        out.push(b as u8);
        proof {
            assert(a.skip(32 + 8 * k).skip(8) =~= a.skip(32 + 8 * (k + 1)));
            assert(out@ =~= out0 + Seq::new((k + 1) as nat, |i: int| stored_byte(a, i)));
        }
        k = k + 1;
    }
    proof {
        assert(out@.subrange(0, out0.len() as int) =~= out0);
    }
    Ok(())
}

/// Decodes the blocks of a deflate stream, up to and including the one
/// marked final, appending the data to `out`.
pub fn inflate(stream: &mut GzBitReader, out: &mut Buf) -> (r: Result<(), GzError>)
    ensures
        outcome(inflate_blocks(old(stream).bits(), old(out)@), r, final(stream).bits(), final(out)@),
        r is Ok ==> extends(old(out)@, final(out)@),
{
    let ghost out0 = out@;
    let ghost spec = inflate_blocks(stream.bits(), out@);
    proof {
        assert(out@.subrange(0, out0.len() as int) =~= out0);
    }
    let mut fixed_tree: Option<HuffmanNode> = None;
    loop
        invariant
            fixed_tree matches Some(t) ==> t is Node && is_canonical_tree(fixed_ranges(), t) && builds(
                fixed_ranges(),
            ),
            extends(out0, out@),
            out0 == old(out)@,
            spec == inflate_blocks(old(stream).bits(), old(out)@),
            spec == inflate_blocks(stream.bits(), out@),
        decreases stream.bits().len(),
    {
        let ghost prev = out@;
        let ghost b0 = stream.bits();
        let last_block = match stream.next_bit() {
            Some(b) => b,
            None => {
                return Err(GzError::MalformedStream);
            },
        };
        let block_format = bits(stream, 2)?;
        proof {
            assert(b0.skip(1).skip(2) =~= b0.skip(3));
        }
        let ghost bb = stream.bits();
        if block_format == 0 {
            inflate_stored(stream, out)?;
        } else if block_format == 1 {
            let tree = match fixed_tree {
                Some(t) => t,
                None => match build_fixed_huffman_tree() {
                    Some(t) => t,
                    None => {
                        return Err(GzError::MalformedStream);
                    },
                },
            };
            inflate_huffman_codes(stream, &tree, None, out, Ghost(fixed_ranges()), Ghost(None))?;
            fixed_tree = Some(tree);
            proof {
                lemma_inflate_codes_ok(fixed_ranges(), None, bb, prev);
            }
        } else if block_format == 2 {
            let (literals_tree, distances_tree, gl, gd) = read_huffman_tree(stream)?;
            let ghost b2 = stream.bits();
            proof {
                let n = bits_le(bb.skip(10).take(4)) + 4 as int;
                let clr = runs(cl_lengths(bb.skip(14), n), 0, 19);
                let hlit = bits_le(bb.take(5)) as int;
                let hdist = bits_le(bb.skip(5).take(5)) as int;
                lemma_code_lengths_from_ok(clr, bb.skip(14).skip(3 * n), Seq::empty(), hlit + hdist + 258);
            }
            inflate_huffman_codes(
                stream,
                &literals_tree,
                Some(&distances_tree),
                out,
                gl,
                Ghost(Some(gd@)),
            )?;
            proof {
                lemma_inflate_codes_ok(gl@, Some(gd@), b2, prev);
            }
        } else {
            return Err(GzError::BadBlockType);
        }
        proof {
            lemma_extends_trans(out0, prev, out@);
        }
        if last_block == 1 {
            return Ok(());
        }
    }
}

} // verus!
