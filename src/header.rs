use vstd::prelude::*;
use crate::cvec::{Buf, Iter, le_u32};
use crate::error::GzError;

verus! {

/// The two bytes every gzip member starts with.
pub const GZ_MAGIC_0: u8 = 0x1f;

/// Second magic byte.
pub const GZ_MAGIC_1: u8 = 0x8b;

/// The deflate compression method.
pub const METHOD_DEFLATE: u8 = 8;

/// Flag bits of the header.
#[allow(non_snake_case)]
#[derive(Clone, Copy, Debug, PartialEq, Eq, Structural)]
pub struct Flags {
    pub FTEXT: bool,
    pub FHCRC: bool,
    pub FNAME: bool,
    pub FEXTRA: bool,
    pub FCOMMENT: bool,
}

/// The flags that the byte `f` sets.
pub open spec fn flags_of(f: u8) -> Flags {
    Flags {
        FTEXT: f & 1 != 0,
        FHCRC: f & 2 != 0,
        FNAME: f & 8 != 0,
        FEXTRA: f & 4 != 0,
        FCOMMENT: f & 16 != 0,
    }
}

impl Flags {
    /// Decodes a flag byte; the reserved bits are ignored.
    pub fn new(flags: u8) -> (r: Flags)
        ensures
            r == flags_of(flags),
    {
        Flags {
            FTEXT: flags & 1 != 0,
            FHCRC: flags & 2 != 0,
            FEXTRA: flags & 4 != 0,
            FNAME: flags & 8 != 0,
            FCOMMENT: flags & 16 != 0,
        }
    }
}

/// A parsed gzip header.
#[derive(Debug, PartialEq)]
pub struct GZHeader {
    pub header_len: usize,
    pub compression_method: u8,
    pub flags: Flags,
    pub mtime: u32,
    pub extra_flags: u8,
    pub os: u8,
    pub extra: Option<(String, Vec<u8>)>,
    pub fname: Option<String>,
    pub comment: Option<String>,
    pub crc: Option<u16>,
}

/// Bytes read as ISO-8859-1 text: each byte is the character of that code.
pub open spec fn latin1(b: Seq<u8>) -> Seq<char> {
    b.map_values(|x: u8| (x as u32) as char)
}

/// Position of the first zero byte of `s` at or after `p`.
pub open spec fn nul_from(s: Seq<u8>, p: int) -> Option<int>
    decreases s.len() - p,
{
    if p < 0 || p >= s.len() {
        None
    } else if s[p] == 0 {
        Some(p)
    } else {
        nul_from(s, p + 1)
    }
}

/// Little-endian 16-bit value at `i`.
pub open spec fn le_u16(s: Seq<u8>, i: int) -> nat {
    s[i] as nat + 256 * (s[i + 1] as nat)
}

/// End of the FEXTRA field (or of the fixed part when it is absent).
pub open spec fn extra_end(s: Seq<u8>) -> Option<int> {
    if flags_of(s[3]).FEXTRA {
        if s.len() < 14 || 14 + le_u16(s, 12) > s.len() {
            None
        } else {
            Some(14 + le_u16(s, 12) as int)
        }
    } else {
        Some(10)
    }
}

/// End of a zero-terminated field that starts at `p`, when `present`.
pub open spec fn string_end(s: Seq<u8>, present: bool, p: Option<int>) -> Option<int> {
    match p {
        None => None,
        Some(p) => if present {
            match nul_from(s, p) {
                Some(i) => Some(i + 1),
                None => None,
            }
        } else {
            Some(p)
        },
    }
}

/// End of the FNAME field.
pub open spec fn name_end(s: Seq<u8>) -> Option<int> {
    string_end(s, flags_of(s[3]).FNAME, extra_end(s))
}

/// End of the FCOMMENT field.
pub open spec fn comment_end(s: Seq<u8>) -> Option<int> {
    string_end(s, flags_of(s[3]).FCOMMENT, name_end(s))
}

/// End of the header.
pub open spec fn header_end(s: Seq<u8>) -> Option<int> {
    match comment_end(s) {
        None => None,
        Some(p) => if flags_of(s[3]).FHCRC {
            if p + 2 <= s.len() {
                Some(p + 2)
            } else {
                None
            }
        } else {
            Some(p)
        },
    }
}

/// The length of the header at the start of `s`, or why it is refused.
pub open spec fn header_result(s: Seq<u8>) -> Result<int, GzError> {
    if s.len() < 2 {
        Err(GzError::BadHeader)
    } else if s[0] != GZ_MAGIC_0 || s[1] != GZ_MAGIC_1 {
        Err(GzError::BadMagic)
    } else if s.len() < 3 {
        Err(GzError::BadHeader)
    } else if s[2] != METHOD_DEFLATE {
        Err(GzError::UnsupportedMethod)
    } else if s.len() < 10 {
        Err(GzError::BadHeader)
    } else {
        match header_end(s) {
            Some(e) => Ok(e),
            None => Err(GzError::BadHeader),
        }
    }
}

proof fn lemma_nul_from_agree(s: Seq<u8>, s2: Seq<u8>, p: int, i: int)
    requires
        nul_from(s, p) == Some(i),
        s2.len() == s.len(),
        forall|k: int| p <= k <= i ==> s2[k] == s[k],
    ensures
        nul_from(s2, p) == Some(i),
    decreases s.len() - p,
{
    lemma_nul_from_bound(s, p);
    assert(s2[p] == s[p]);
    if p < s.len() && s[p] != 0 {
        lemma_nul_from_agree(s, s2, p + 1, i);
    }
}

proof fn lemma_nul_from_bound(s: Seq<u8>, p: int)
    ensures
        nul_from(s, p) matches Some(i) ==> p <= i < s.len(),
    decreases s.len() - p,
{
    if 0 <= p < s.len() && s[p] != 0 {
        lemma_nul_from_bound(s, p + 1);
    }
}

/// The header of a member is read from the bytes before its end alone:
/// another sequence of the same length that agrees on those bytes has the
/// same header length.
pub proof fn lemma_header_agree(s: Seq<u8>, s2: Seq<u8>, e: int)
    requires
        header_result(s) == Ok::<int, GzError>(e),
        s2.len() == s.len(),
        forall|k: int| 0 <= k < e ==> s2[k] == s[k],
    ensures
        header_result(s2) == Ok::<int, GzError>(e),
        10 <= e <= s.len(),
{
    let x = extra_end(s).unwrap();
    assert(x >= 10);
    if flags_of(s[3]).FEXTRA {
        assert(x >= 14);
    }
    lemma_nul_from_bound(s, x);
    let y = name_end(s).unwrap();
    assert(y >= x);
    lemma_nul_from_bound(s, y);
    let z = comment_end(s).unwrap();
    assert(z >= y);
    assert(e >= z);
    assert(extra_end(s2) == extra_end(s));
    if flags_of(s[3]).FNAME {
        lemma_nul_from_agree(s, s2, x, y - 1);
    }
    assert(name_end(s2) == name_end(s));
    if flags_of(s[3]).FCOMMENT {
        lemma_nul_from_agree(s, s2, y, z - 1);
    }
    assert(comment_end(s2) == comment_end(s));
}

/// `h` holds the fields of the header at the start of `s`, which ends at `e`.
pub open spec fn header_fields(s: Seq<u8>, h: GZHeader, e: int) -> bool {
    let f = flags_of(s[3]);
    &&& h.header_len == e
    &&& h.compression_method == METHOD_DEFLATE
    &&& h.flags == f
    &&& h.mtime == le_u32(s, 4)
    &&& h.extra_flags == s[8]
    &&& h.os == s[9]
    &&& (if f.FEXTRA {
        h.extra matches Some((id, data)) && id@ == latin1(s.subrange(10, 12)) && data@ == s.subrange(
            14,
            extra_end(s).unwrap(),
        )
    } else {
        h.extra is None
    })
    &&& (if f.FNAME {
        h.fname matches Some(n) && n@ == latin1(
            s.subrange(extra_end(s).unwrap(), name_end(s).unwrap() - 1),
        )
    } else {
        h.fname is None
    })
    &&& (if f.FCOMMENT {
        h.comment matches Some(c) && c@ == latin1(
            s.subrange(name_end(s).unwrap(), comment_end(s).unwrap() - 1),
        )
    } else {
        h.comment is None
    })
    &&& (if f.FHCRC {
        h.crc == Some(le_u16(s, comment_end(s).unwrap()) as u16)
    } else {
        h.crc is None
    })
}

/// Relies on `String::push`: appends the character to the string.
#[verifier::external_body]
fn push_char(s: &mut String, c: char)
    ensures
        final(s)@ == old(s)@.push(c),
{
    s.push(c);
}

/// Reads the next byte, failing with `BadHeader` at the end.
fn next_byte(iter: &mut Iter<u8>) -> (r: Result<u8, GzError>)
    requires
        old(iter).wf(),
    ensures
        final(iter).wf(),
        final(iter).source() == old(iter).source(),
        final(iter).end() == old(iter).end(),
        old(iter).pos() <= old(iter).end() ==> final(iter).pos() <= final(iter).end(),
        old(iter).pos() < old(iter).end() ==> r == Ok::<u8, GzError>(
            old(iter).source()[old(iter).pos()],
        ) && final(iter).pos() == old(iter).pos() + 1,
        old(iter).pos() >= old(iter).end() ==> r == Err::<u8, GzError>(GzError::BadHeader),
{
    match iter.next() {
        Some(b) => Ok(*b),
        None => Err(GzError::BadHeader),
    }
}

/// Parses the gzip header at the start of `buffer`.
pub fn parse_header(buffer: &Buf) -> (r: Result<GZHeader, GzError>)
    ensures
        match header_result(buffer@) {
            Err(e) => r == Err::<GZHeader, GzError>(e),
            Ok(e) => r matches Ok(h) && header_fields(buffer@, h, e),
        },
{
    let ghost s = buffer@;
    let mut iter = buffer.iter();
    let m0 = next_byte(&mut iter)?;
    let m1 = next_byte(&mut iter)?;
    if m0 != GZ_MAGIC_0 || m1 != GZ_MAGIC_1 {
        return Err(GzError::BadMagic);
    }
    let comp_method = next_byte(&mut iter)?;
    if comp_method != METHOD_DEFLATE {
        return Err(GzError::UnsupportedMethod);
    }
    let flag_byte = next_byte(&mut iter)?;
    let flags = Flags::new(flag_byte);
    let mtime = match iter.next_wide() {
        Some(v) => v,
        None => {
            return Err(GzError::BadHeader);
        },
    };
    let extra_flags = next_byte(&mut iter)?;
    let os = next_byte(&mut iter)?;
    assert(iter.pos() == 10);
    let extra = get_extra(&flags, &mut iter)?;
    let fname = get_string(flags.FNAME, &mut iter)?;
    let comment = get_string(flags.FCOMMENT, &mut iter)?;
    let crc = get_crc(&flags, &mut iter)?;
    Ok(
        GZHeader {
            header_len: iter.index(),
            compression_method: comp_method,
            flags,
            mtime,
            extra_flags,
            os,
            extra,
            fname,
            comment,
            crc,
        },
    )
}

/// Reads the FEXTRA field when the flags announce it.
fn get_extra(flags: &Flags, iter: &mut Iter<u8>) -> (r: Result<Option<(String, Vec<u8>)>, GzError>)
    requires
        old(iter).wf(),
        old(iter).pos() == 10,
        old(iter).end() == old(iter).source().len(),
        old(iter).source().len() >= 10,
        *flags == flags_of(old(iter).source()[3]),
    ensures
        final(iter).wf(),
        final(iter).source() == old(iter).source(),
        final(iter).end() == old(iter).end(),
        r is Ok ==> final(iter).pos() <= final(iter).end(),
        ({
            let s = old(iter).source();
            match extra_end(s) {
                None => r == Err::<Option<(String, Vec<u8>)>, GzError>(GzError::BadHeader),
                Some(e) => final(iter).pos() == e && (r matches Ok(x) && if flags.FEXTRA {
                    x matches Some((id, data)) && id@ == latin1(s.subrange(10, 12)) && data@
                        == s.subrange(14, e)
                } else {
                    x is None
                }),
            }
        }),
{
    let ghost s = iter.source();
    if !flags.FEXTRA {
        return Ok(None);
    }
    let a = next_byte(iter)?;
    let b = next_byte(iter)?;
    let mut id = String::new();
    push_char(&mut id, a as char);
    push_char(&mut id, b as char);
    assert(id@ =~= latin1(s.subrange(10, 12)));
    let lo = next_byte(iter)?;
    let hi = next_byte(iter)?;
    let len: usize = lo as usize + 256 * (hi as usize);
    let mut data: Vec<u8> = Vec::new();
    let mut k: usize = 0;
    while k < len
        invariant
            iter.wf(),
            iter.source() == s,
            s == old(iter).source(),
            iter.end() == s.len(),
            old(iter).end() == s.len(),
            *flags == flags_of(s[3]),
            flags.FEXTRA,
            iter.pos() <= iter.end(),
            s.len() >= 14,
            len == le_u16(s, 12),
            k <= len,
            iter.pos() == 14 + k,
            data@ == s.subrange(14, 14 + k),
        decreases len - k,
    {
        let byte = next_byte(iter)?;
        data.push(byte);
        k = k + 1;
        assert(data@ =~= s.subrange(14, 14 + k));
    }
    Ok(Some((id, data)))
}

/// Reads a zero-terminated field when `flag` announces it, as ISO-8859-1
/// text without the terminator.
fn get_string(flag: bool, iter: &mut Iter<u8>) -> (r: Result<Option<String>, GzError>)
    requires
        old(iter).wf(),
        old(iter).pos() <= old(iter).end(),
        old(iter).end() == old(iter).source().len(),
    ensures
        final(iter).wf(),
        final(iter).source() == old(iter).source(),
        final(iter).end() == old(iter).end(),
        r is Ok ==> final(iter).pos() <= final(iter).end(),
        ({
            let s = old(iter).source();
            let p = old(iter).pos();
            match string_end(s, flag, Some(p)) {
                None => r == Err::<Option<String>, GzError>(GzError::BadHeader),
                Some(e) => final(iter).pos() == e && (r matches Ok(x) && if flag {
                    x matches Some(n) && n@ == latin1(s.subrange(p, e - 1))
                } else {
                    x is None
                }),
            }
        }),
{
    if !flag {
        return Ok(None);
    }
    let ghost s = iter.source();
    let ghost p = iter.pos();
    let mut text = String::new();
    loop
        invariant
            iter.wf(),
            iter.source() == s,
            s == old(iter).source(),
            iter.end() == s.len(),
            old(iter).end() == s.len(),
            p == old(iter).pos(),
            flag,
            0 <= p <= iter.pos(),
            iter.pos() <= iter.end(),
            nul_from(s, p) == nul_from(s, iter.pos()),
            text@ == latin1(s.subrange(p, iter.pos())),
        decreases s.len() - iter.pos(),
    {
        let byte = next_byte(iter)?;
        if byte == 0 {
            return Ok(Some(text));
        }
        push_char(&mut text, byte as char);
        assert(text@ =~= latin1(s.subrange(p, iter.pos())));
    }
}

/// Reads the FHCRC field when the flags announce it.
fn get_crc(flags: &Flags, iter: &mut Iter<u8>) -> (r: Result<Option<u16>, GzError>)
    requires
        old(iter).wf(),
    ensures
        final(iter).wf(),
        final(iter).source() == old(iter).source(),
        final(iter).end() == old(iter).end(),
        !flags.FHCRC ==> r == Ok::<Option<u16>, GzError>(None) && final(iter).pos() == old(iter).pos(),
        flags.FHCRC && old(iter).pos() + 2 > old(iter).end() ==> r == Err::<Option<u16>, GzError>(
            GzError::BadHeader,
        ),
        flags.FHCRC && old(iter).pos() + 2 <= old(iter).end() ==> r == Ok::<Option<u16>, GzError>(
            Some(le_u16(old(iter).source(), old(iter).pos()) as u16),
        ) && final(iter).pos() == old(iter).pos() + 2,
{
    if !flags.FHCRC {
        return Ok(None);
    }
    let lo = next_byte(iter)?;
    let hi = next_byte(iter)?;
    Ok(Some(lo as u16 + 256 * (hi as u16)))
}

} // verus!
