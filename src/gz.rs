use vstd::prelude::*;
use crate::crc32;
use crate::crc32::crc32;
use crate::cvec::{Buf, CVec, Iter, le_u32};
use crate::error::GzError;
use crate::gz_reader::{
    GzBitReader, bits_le, byte_bits, bytes_bits, lemma_byte_bits_value, lemma_bytes_bits_byte,
    lemma_read_bits_split,
};
use crate::header;
use crate::header::{header_result, lemma_header_agree};
use crate::inflate::{inflate, inflate_blocks, inflate_stored_spec, stored_byte};

verus! {

/// The shortest member: a ten-byte header and an eight-byte footer.
pub const GZIP_MIN_LEN: usize = 18;

/// Offset of ISIZE from the end.
pub const GZIP_FILESIZE_OFFSET: usize = 4;

/// Offset of the CRC-32 from the end.
pub const GZIP_CRC_OFFSET: usize = 8;

/// Length of the footer.
pub const GZIP_FOOTER_LEN: usize = 8;

/// The CRC-32 that the footer of `s` records.
pub open spec fn footer_crc(s: Seq<u8>) -> u32 {
    le_u32(s, s.len() - 8) as u32
}

/// The size, modulo 2^32, that the footer of `s` records.
pub open spec fn footer_size(s: Seq<u8>) -> u32 {
    le_u32(s, s.len() - 4) as u32
}

/// The deflate stream of the member `s`, whose header ends at `e`: what
/// stands between the header and the footer.
pub open spec fn payload(s: Seq<u8>, e: int) -> Seq<u8> {
    if e <= s.len() - 8 {
        s.subrange(e, s.len() - 8)
    } else {
        Seq::empty()
    }
}

/// What the gzip member `s` decompresses to, or why it is refused.
pub open spec fn gunzip(s: Seq<u8>) -> Result<Seq<u8>, GzError> {
    if s.len() < GZIP_MIN_LEN {
        Err(GzError::TooShort)
    } else {
        match header_result(s) {
            Err(e) => Err(e),
            Ok(e) => match inflate_blocks(bytes_bits(payload(s, e)), Seq::empty()) {
                Err(err) => Err(err),
                Ok((_, o)) => if crc32(o) == footer_crc(s) {
                    Ok(o)
                } else {
                    Err(GzError::BadChecksum)
                },
            },
        }
    }
}

/// The simplest gzip member holding `x`: a plain header, one final stored
/// block, and the footer with the CRC-32 and size of `x`.
pub open spec fn stored_member(x: Seq<u8>) -> Seq<u8> {
    let n = x.len();
    let lo = (n % 256) as u8;
    let hi = (n / 256 % 256) as u8;
    let c = crc32(x);
    seq![0x1fu8, 0x8bu8, 8u8, 0u8, 0u8, 0u8, 0u8, 0u8, 0u8, 3u8, 1u8, lo, hi, (255 - lo) as u8, (255 - hi) as u8]
        + x + seq![
        (c % 256) as u8,
        (c / 256 % 256) as u8,
        (c / 65536 % 256) as u8,
        (c / 16777216) as u8,
        lo,
        hi,
        0u8,
        0u8,
    ]
}

proof fn lemma_two_bytes(s: Seq<u8>, i: int)
    requires
        0 <= i,
        i + 1 < s.len(),
    ensures
        bits_le(bytes_bits(s).skip(8 * i).take(16)) == s[i] + 256 * s[i + 1],
{
    let t = bytes_bits(s).skip(8 * i);
    crate::gz_reader::lemma_bytes_bits_len(s);
    lemma_read_bits_split(t, 8, 8);
    lemma_bytes_bits_byte(s, i);
    lemma_bytes_bits_byte(s, i + 1);
    assert(t.skip(8) =~= bytes_bits(s).skip(8 * (i + 1)));
    lemma_byte_bits_value(s[i]);
    lemma_byte_bits_value(s[i + 1]);
    vstd::arithmetic::power2::lemma2_to64();
}

/// The stored block of `stored_member(x)` after its first byte: LEN,
/// NLEN and the bytes of `x`.
pub open spec fn stored_rest(x: Seq<u8>) -> Seq<u8> {
    let n = x.len();
    let lo = (n % 256) as u8;
    let hi = (n / 256 % 256) as u8;
    seq![lo, hi, (255 - lo) as u8, (255 - hi) as u8] + x
}

proof fn lemma_stored_member_parts(x: Seq<u8>)
    requires
        x.len() < 65536,
    ensures
        stored_member(x).len() >= GZIP_MIN_LEN,
        header_result(stored_member(x)) == Ok::<int, GzError>(10),
        payload(stored_member(x), 10) == seq![1u8] + stored_rest(x),
        footer_crc(stored_member(x)) == crc32(x),
{
    let s = stored_member(x);
    let n = x.len();
    let c = crc32(x);
    assert(s.len() == 23 + n);
    assert(0u8 & 1u8 == 0u8 && 0u8 & 2u8 == 0u8 && 0u8 & 4u8 == 0u8 && 0u8 & 8u8 == 0u8 && 0u8 & 16u8
        == 0u8) by (bit_vector);
    assert(header_result(s) == Ok::<int, GzError>(10));
    assert(payload(s, 10) =~= seq![1u8] + stored_rest(x));
    let cc = c as int;
    assert((cc % 256) + 256 * (cc / 256 % 256) + 65536 * (cc / 65536 % 256) + 16777216 * (cc
        / 16777216) == cc) by (nonlinear_arith)
        requires
            0 <= cc,
    ;
    assert(footer_crc(s) == c);
}

proof fn lemma_first_byte_one(rest: Seq<u8>)
    ensures
        ({
            let bits = bytes_bits(seq![1u8] + rest);
            &&& bits.len() >= 3
            &&& bits[0]
            &&& bits_le(bits.skip(1).take(2)) == 0
            &&& bits.skip(3).len() % 8 == 5
            &&& bits.skip(3).skip(5) == bytes_bits(rest)
        }),
{
    let blk = seq![1u8] + rest;
    let bits = bytes_bits(blk);
    assert(blk.drop_first() =~= rest);
    assert(bits == byte_bits(1u8) + bytes_bits(rest));
    crate::gz_reader::lemma_bytes_bits_len(rest);
    assert((1u8 >> 0u8) & 1 == 1 && (1u8 >> 1u8) & 1 == 0 && (1u8 >> 2u8) & 1 == 0 && (1u8 >> 3u8) & 1
        == 0 && (1u8 >> 4u8) & 1 == 0 && (1u8 >> 5u8) & 1 == 0 && (1u8 >> 6u8) & 1 == 0 && (1u8
        >> 7u8) & 1 == 0) by (bit_vector);
    assert(bits.skip(1).take(2) =~= seq![false, false]);
    reveal_with_fuel(bits_le, 3);
    let m = rest.len();
    assert(bits.skip(3).len() == 5 + 8 * m);
    assert((5 + 8 * m) % 8 == 5) by (nonlinear_arith);
    assert(bits.skip(3).skip(5) =~= bytes_bits(rest));
}

proof fn lemma_stored_block(x: Seq<u8>)
    requires
        x.len() < 65536,
    ensures
        ({
            let a = bytes_bits(stored_rest(x));
            inflate_stored_spec(bytes_bits(seq![1u8] + stored_rest(x)).skip(3), Seq::empty()) == Ok::<
                (Seq<bool>, Seq<u8>),
                GzError,
            >((a.skip(32 + 8 * x.len() as int), x))
        }),
{
    let rest = stored_rest(x);
    let n = x.len();
    lemma_first_byte_one(rest);
    let a = bytes_bits(rest);
    crate::gz_reader::lemma_bytes_bits_len(rest);
    lemma_two_bytes(rest, 0);
    lemma_two_bytes(rest, 2);
    assert(a.skip(16) =~= bytes_bits(rest).skip(16));
    assert(a.skip(0) =~= a);
    let nl = n as int;
    assert(nl % 256 + 256 * (nl / 256 % 256) == nl) by (nonlinear_arith)
        requires
            0 <= nl < 65536,
    ;
    assert(rest[0] == (n % 256) as u8 && rest[1] == (n / 256 % 256) as u8);
    assert(rest[2] == (255 - (n % 256) as u8) as u8 && rest[3] == (255 - (n / 256 % 256) as u8) as u8);
    assert(bits_le(a.take(16)) == n);
    assert(bits_le(a.skip(16).take(16)) == 65535 - n);
    let nn = n as u32;
    let mm = (65535 - nn) as u32;
    assert(mm ^ 0xffffu32 == nn) by (bit_vector)
        requires
            nn < 65536,
            mm == 65535 - nn,
    ;
    let b1 = bytes_bits(seq![1u8] + rest).skip(3);
    assert(b1.skip((b1.len() % 8) as int) == a);
    assert(bits_le(a.skip(16).take(16)) as u32 == mm);
    assert(a.len() == 32 + 8 * n);
    assert forall|i: int| 0 <= i < n implies stored_byte(a, i) == x[i] by {
        lemma_bytes_bits_byte(rest, 4 + i);
        assert(a.skip(32 + 8 * i) == bytes_bits(rest).skip(8 * (4 + i)));
        lemma_byte_bits_value(rest[4 + i]);
    }
    assert(Seq::<u8>::empty() + Seq::new(n, |i: int| stored_byte(a, i)) =~= x);
}

/// Round trip: the member that stores `x` in one stored block
/// decompresses to `x`.
pub proof fn lemma_stored_round_trip(x: Seq<u8>)
    requires
        x.len() < 65536,
    ensures
        gunzip(stored_member(x)) == Ok::<Seq<u8>, GzError>(x),
{
    let rest = stored_rest(x);
    lemma_stored_member_parts(x);
    lemma_first_byte_one(rest);
    lemma_stored_block(x);
    let bits = bytes_bits(seq![1u8] + rest);
    assert(inflate_blocks(bits, Seq::empty()) is Ok);
}

/// Flipping any one bit of the stored CRC-32 of a member that decompresses
/// makes it fail with `BadChecksum`; and the output of a member that
/// decompresses has the stored CRC-32.
pub proof fn lemma_crc_flip(s: Seq<u8>, k: int, bit: u8)
    requires
        gunzip(s) is Ok,
        s.len() - 8 <= k < s.len() - 4,
        bit < 8,
    ensures
        crc32(gunzip(s)->Ok_0) == footer_crc(s),
        gunzip(s.update(k, s[k] ^ (1u8 << bit))) == Err::<Seq<u8>, GzError>(GzError::BadChecksum),
{
    let s2 = s.update(k, s[k] ^ (1u8 << bit));
    let e = header_result(s)->Ok_0;
    let b = s[k];
    assert(b ^ (1u8 << bit) != b) by (bit_vector)
        requires
            bit < 8,
    ;
    assert(e <= s.len() - 8) by {
        if e > s.len() - 8 {
            assert(payload(s, e) =~= Seq::<u8>::empty());
            assert(bytes_bits(Seq::<u8>::empty()) =~= Seq::<bool>::empty());
        }
    }
    lemma_header_agree(s, s2, e);
    assert(s2.len() == s.len());
    assert(payload(s2, e) == s2.subrange(e, s.len() - 8));
    assert(payload(s, e) == s.subrange(e, s.len() - 8));
    assert(s2.subrange(e, s.len() - 8) =~= s.subrange(e, s.len() - 8));
    assert(footer_crc(s2) != footer_crc(s));
}

/// Decompresses the gzip member `input`: the uncompressed bytes, or why
/// the member is refused.
pub fn decompress(input: Vec<u8>) -> (r: Result<Vec<u8>, GzError>)
    ensures
        r != Err::<Vec<u8>, GzError>(GzError::OutOfMemory) ==> match gunzip(input@) {
            Ok(o) => r matches Ok(out) && out@ == o,
            Err(e) => r == Err::<Vec<u8>, GzError>(e),
        },
        r == Err::<Vec<u8>, GzError>(GzError::OutOfMemory) ==> input@.len() >= GZIP_MIN_LEN
            && header_result(input@) is Ok,
{
    match decompress_gz(CVec::from_vec(input)) {
        Ok(out) => Ok(out.into_vec()),
        Err(e) => Err(e),
    }
}

/// Decompresses the gzip member in `buffer`.
pub fn decompress_gz(buffer: Buf) -> (r: Result<Buf, GzError>)
    ensures
        r != Err::<Buf, GzError>(GzError::OutOfMemory) ==> match gunzip(buffer@) {
            Ok(o) => r matches Ok(out) && out@ == o,
            Err(e) => r == Err::<Buf, GzError>(e),
        },
        r == Err::<Buf, GzError>(GzError::OutOfMemory) ==> buffer@.len() >= GZIP_MIN_LEN
            && header_result(buffer@) is Ok,
{
    if buffer.len() < GZIP_MIN_LEN {
        return Err(GzError::TooShort);
    }
    let out_len = get_uncompressed_len(&buffer);
    let crc = get_crc(&buffer);
    let header = header::parse_header(&buffer)?;
    let mut out_buf: Buf = match CVec::with_capacity(out_len) {
        Some(b) => b,
        None => {
            return Err(GzError::OutOfMemory);
        },
    };
    let body = buffer.limit_iter(header.header_len, buffer.len() - GZIP_FOOTER_LEN);
    proof {
        assert(body.rest() =~= payload(buffer@, header.header_len as int));
    }
    decompress_raw(body, &mut out_buf)?;
    if check_crc(&out_buf, crc) {
        Ok(out_buf)
    } else {
        Err(GzError::BadChecksum)
    }
}

/// Decompresses the deflate stream that `buffer` yields into `out_buf`,
/// which is emptied when that fails.
pub fn decompress_raw(buffer: Iter<u8>, out_buf: &mut Buf) -> (r: Result<(), GzError>)
    requires
        buffer.wf(),
    ensures
        r is Err ==> final(out_buf)@.len() == 0,
        match inflate_blocks(bytes_bits(buffer.rest()), old(out_buf)@) {
            Ok((b, o)) => r is Ok && final(out_buf)@ == o,
            Err(e) => r == Err::<(), GzError>(e),
        },
{
    let mut gz_reader = match GzBitReader::new(buffer) {
        Some(g) => g,
        None => {
            out_buf.clear();
            return Err(GzError::MalformedStream);
        },
    };
    match inflate(&mut gz_reader, out_buf) {
        Ok(()) => Ok(()),
        Err(e) => {
            out_buf.clear();
            Err(e)
        },
    }
}

/// The size that the footer records: the last four bytes, little-endian.
pub fn get_uncompressed_len(buffer: &Buf) -> (r: usize)
    requires
        buffer@.len() >= GZIP_FOOTER_LEN,
    ensures
        r == footer_size(buffer@),
{
    get_footer_word(buffer, buffer.len() - GZIP_FILESIZE_OFFSET) as usize
}

/// The CRC-32 that the footer records: the four bytes before the size,
/// little-endian.
pub fn get_crc(buffer: &Buf) -> (r: u32)
    requires
        buffer@.len() >= GZIP_FOOTER_LEN,
    ensures
        r == footer_crc(buffer@),
{
    get_footer_word(buffer, buffer.len() - GZIP_CRC_OFFSET)
}

fn get_footer_word(buffer: &Buf, index: usize) -> (r: u32)
    requires
        index + 4 <= buffer@.len(),
    ensures
        r == le_u32(buffer@, index as int) as u32,
{
    match buffer.get_wide(index) {
        Some(v) => v,
        None => 0,
    }
}

/// Whether the CRC-32 of `buffer` is `crc`.
pub fn check_crc(buffer: &Buf, crc: u32) -> (r: bool)
    ensures
        r == (crc32(buffer@) == crc),
{
    let it = buffer.iter();
    assert(it.rest() =~= buffer@);
    crc32::sum(it) == crc
}

} // verus!
