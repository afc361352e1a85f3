use vstd::prelude::*;
use vstd::arithmetic::power2::{pow2, lemma_pow2_unfold, lemma_pow2_pos};
use crate::cvec::Iter;

verus! {

/// The eight bits of a byte, least significant first.
pub open spec fn byte_bits(b: u8) -> Seq<bool> {
    Seq::new(8, |i: int| (b >> (i as u8)) & 1 == 1)
}

/// The bits of a byte sequence in stream order: bytes in order, each least
/// significant bit first.
pub open spec fn bytes_bits(s: Seq<u8>) -> Seq<bool>
    decreases s.len(),
{
    if s.len() == 0 {
        Seq::empty()
    } else {
        byte_bits(s[0]) + bytes_bits(s.drop_first())
    }
}

/// The number whose binary digits, least significant first, are `s`.
pub open spec fn bits_le(s: Seq<bool>) -> nat
    decreases s.len(),
{
    if s.len() == 0 {
        0
    } else {
        bits_le(s.drop_last()) + if s.last() {
            pow2((s.len() - 1) as nat)
        } else {
            0
        }
    }
}

/// The number whose binary digits, most significant first, are `s`.
pub open spec fn bits_be(s: Seq<bool>) -> nat
    decreases s.len(),
{
    if s.len() == 0 {
        0
    } else {
        2 * bits_be(s.drop_last()) + if s.last() {
            1nat
        } else {
            0
        }
    }
}

/// A byte sequence has eight bits per byte.
pub proof fn lemma_bytes_bits_len(s: Seq<u8>)
    ensures
        bytes_bits(s).len() == 8 * s.len(),
    decreases s.len(),
{
    if s.len() > 0 {
        lemma_bytes_bits_len(s.drop_first());
    }
}

/// A number of `s.len()` binary digits is below `2^s.len()`.
pub proof fn lemma_bits_le_bound(s: Seq<bool>)
    ensures
        bits_le(s) < pow2(s.len()),
    decreases s.len(),
{
    if s.len() == 0 {
        vstd::arithmetic::power2::lemma2_to64();
    } else {
        lemma_bits_le_bound(s.drop_last());
        lemma_pow2_unfold(s.len());
    }
}

/// Reading `n` bits and then `m` more gives the same bits as reading
/// `n + m` at once: the second number supplies the high part,
/// `read_bits(n + m) == read_bits(n) + 2^n * read_bits(m)`.
pub proof fn lemma_read_bits_split(s: Seq<bool>, n: nat, m: nat)
    requires
        n + m <= s.len(),
    ensures
        bits_le(s.take((n + m) as int)) == bits_le(s.take(n as int)) + pow2(n) * bits_le(
            s.skip(n as int).take(m as int),
        ),
    decreases m,
{
    if m == 0 {
        assert(s.skip(n as int).take(0) =~= Seq::<bool>::empty());
    } else {
        lemma_read_bits_split(s, n, (m - 1) as nat);
        let whole = s.take((n + m) as int);
        let tail = s.skip(n as int).take(m as int);
        assert(whole.drop_last() =~= s.take((n + m - 1) as int));
        assert(tail.drop_last() =~= s.skip(n as int).take(m - 1));
        assert(whole.last() == tail.last());
        vstd::arithmetic::power2::lemma_pow2_adds(n, (m - 1) as nat);
        if tail.last() {
            assert(pow2(n) * (bits_le(tail.drop_last()) + pow2((m - 1) as nat)) == pow2(n) * bits_le(
                tail.drop_last(),
            ) + pow2(n) * pow2((m - 1) as nat)) by (nonlinear_arith);
        }
    }
}

/// The eight bits of a byte, read least significant first, give the byte.
pub proof fn lemma_byte_bits_value(b: u8)
    ensures
        bits_le(byte_bits(b)) == b as nat,
{
    let s = byte_bits(b);
    vstd::arithmetic::power2::lemma2_to64();
    reveal_with_fuel(bits_le, 9);
    assert(s.drop_last().drop_last().drop_last().drop_last().drop_last().drop_last().drop_last().drop_last()
        =~= Seq::<bool>::empty());
    let b0 = (b >> 0u8) & 1;
    let b1 = (b >> 1u8) & 1;
    let b2 = (b >> 2u8) & 1;
    let b3 = (b >> 3u8) & 1;
    let b4 = (b >> 4u8) & 1;
    let b5 = (b >> 5u8) & 1;
    let b6 = (b >> 6u8) & 1;
    let b7 = (b >> 7u8) & 1;
    assert(b as nat == b0 as nat + 2 * b1 as nat + 4 * b2 as nat + 8 * b3 as nat + 16 * b4 as nat + 32
        * b5 as nat + 64 * b6 as nat + 128 * b7 as nat) by (bit_vector)
        requires
            b0 == (b >> 0u8) & 1,
            b1 == (b >> 1u8) & 1,
            b2 == (b >> 2u8) & 1,
            b3 == (b >> 3u8) & 1,
            b4 == (b >> 4u8) & 1,
            b5 == (b >> 5u8) & 1,
            b6 == (b >> 6u8) & 1,
            b7 == (b >> 7u8) & 1,
    ;
    assert(b0 == 0 || b0 == 1) by (bit_vector)
        requires
            b0 == (b >> 0u8) & 1,
    ;
    assert(b1 == 0 || b1 == 1) by (bit_vector)
        requires
            b1 == (b >> 1u8) & 1,
    ;
    assert(b2 == 0 || b2 == 1) by (bit_vector)
        requires
            b2 == (b >> 2u8) & 1,
    ;
    assert(b3 == 0 || b3 == 1) by (bit_vector)
        requires
            b3 == (b >> 3u8) & 1,
    ;
    assert(b4 == 0 || b4 == 1) by (bit_vector)
        requires
            b4 == (b >> 4u8) & 1,
    ;
    assert(b5 == 0 || b5 == 1) by (bit_vector)
        requires
            b5 == (b >> 5u8) & 1,
    ;
    assert(b6 == 0 || b6 == 1) by (bit_vector)
        requires
            b6 == (b >> 6u8) & 1,
    ;
    assert(b7 == 0 || b7 == 1) by (bit_vector)
        requires
            b7 == (b >> 7u8) & 1,
    ;
    assert(s[0] == (b0 == 1));
    assert(s[1] == (b1 == 1));
    assert(s[2] == (b2 == 1));
    assert(s[3] == (b3 == 1));
    assert(s[4] == (b4 == 1));
    assert(s[5] == (b5 == 1));
    assert(s[6] == (b6 == 1));
    assert(s[7] == (b7 == 1));
}

/// Byte `i` of `s` stands at bits `8 * i` to `8 * i + 8` of its bits.
pub proof fn lemma_bytes_bits_byte(s: Seq<u8>, i: int)
    requires
        0 <= i < s.len(),
    ensures
        bytes_bits(s).skip(8 * i).take(8) == byte_bits(s[i]),
    decreases i,
{
    lemma_bytes_bits_len(s);
    lemma_bytes_bits_len(s.drop_first());
    if i == 0 {
        assert(bytes_bits(s).skip(0).take(8) =~= byte_bits(s[0]));
    } else {
        lemma_bytes_bits_byte(s.drop_first(), i - 1);
        assert(bytes_bits(s).skip(8 * i) =~= bytes_bits(s.drop_first()).skip(8 * (i - 1)));
    }
}

/// Bit-level reader over a range of bytes.
pub struct GzBitReader<'a> {
    iter: Iter<'a, u8>,
    buf: u8,
    used: u8,
}

impl<'a> GzBitReader<'a> {
    #[verifier::type_invariant]
    closed spec fn inv(&self) -> bool {
        &&& self.iter.wf()
        &&& self.used <= 8
    }

    /// The bits still to be read.
    pub closed spec fn bits(&self) -> Seq<bool> {
        byte_bits(self.buf).subrange(self.used as int, 8) + bytes_bits(self.iter.rest())
    }

    /// A reader over the bytes that `iter` has still to yield; `None` when
    /// there are none.
    pub fn new(iter: Iter<'a, u8>) -> (r: Option<GzBitReader<'a>>)
        requires
            iter.wf(),
        ensures
            iter.rest().len() == 0 <==> r is None,
            r matches Some(g) ==> g.bits() == bytes_bits(iter.rest()),
    {
        let mut iter = iter;
        let ghost rest0 = iter.rest();
        match iter.next() {
            Some(b) => {
                let buf = *b;
                assert(iter.rest() =~= rest0.drop_first());
                assert(byte_bits(buf).subrange(0, 8) =~= byte_bits(buf));
                Some(GzBitReader { iter, buf, used: 0 })
            },
            None => None,
        }
    }

    /// The next bit, as 0 or 1; `None` when none is left.
    pub fn next_bit(&mut self) -> (r: Option<u32>)
        ensures
            old(self).bits().len() == 0 ==> r is None && final(self).bits() == old(self).bits(),
            old(self).bits().len() > 0 ==> r == Some(if old(self).bits()[0] {
                1u32
            } else {
                0u32
            }) && final(self).bits() == old(self).bits().drop_first(),
    {
        proof {
            use_type_invariant(&*self);
        }
        let ghost bits0 = self.bits();
        if self.used == 8 {
            let ghost rest0 = self.iter.rest();
            assert(byte_bits(self.buf).subrange(8, 8) =~= Seq::<bool>::empty());
            assert(bits0 =~= bytes_bits(rest0));
            let mut it = self.iter;
            match it.next() {
                Some(b) => {
                    self.iter = it;
                    self.buf = *b;
                    self.used = 0;
                    assert(self.iter.rest() =~= rest0.drop_first());
                    assert(byte_bits(self.buf).subrange(0, 8) =~= byte_bits(self.buf));
                },
                None => {
                    return None;
                },
            }
        }
        let bit: u32 = if (self.buf >> self.used) & 1 == 1 {
            1
        } else {
            0
        };
        assert(bit == 1 <==> self.bits()[0]);
        self.used = self.used + 1;
        assert(self.bits() =~= bits0.drop_first());
        Some(bit)
    }

    /// Skips the bits left in the current byte, so that the next bit read is
    /// the first of a byte.
    pub fn align_to_byte(&mut self)
        ensures
            final(self).bits() == old(self).bits().skip((old(self).bits().len() % 8) as int),
    {
        proof {
            use_type_invariant(&*self);
            lemma_bytes_bits_len(self.iter.rest());
            assert(self.bits().len() == (8 - self.used) + 8 * self.iter.rest().len());
            assert(self.bits().len() % 8 == (8 - self.used) % 8) by (nonlinear_arith)
                requires
                    self.bits().len() == (8 - self.used) + 8 * self.iter.rest().len(),
                    self.used <= 8,
            ;
        }
        let ghost bits0 = self.bits();
        let ghost u = self.used as int;
        let ghost head = byte_bits(self.buf).subrange(u, 8);
        if self.used == 0 {
            assert(bits0.len() % 8 == 0);
            assert(bits0.skip(0) =~= bits0);
            return;
        }
        self.used = 8;
        proof {
            assert(byte_bits(self.buf).subrange(8, 8) =~= Seq::<bool>::empty());
            assert(self.bits() =~= bytes_bits(self.iter.rest()));
            assert(bits0 == head + bytes_bits(self.iter.rest()));
            assert(head.len() == 8 - u);
            if u == 8 {
                assert(bits0.len() % 8 == 0);
            } else {
                assert((8 - u) % 8 == 8 - u);
            }
            assert(bits0.skip((bits0.len() % 8) as int) =~= bytes_bits(self.iter.rest()));
        }
    }

    /// Reads `count` bits, the first read becoming the least significant;
    /// `None` when fewer are left, which are then all used up.
    pub fn read_bits(&mut self, count: u32) -> (r: Option<u32>)
        requires
            count <= 32,
        ensures
            count > old(self).bits().len() ==> r is None && final(self).bits().len() == 0,
            count <= old(self).bits().len() ==> r == Some(
                bits_le(old(self).bits().take(count as int)) as u32,
            ) && final(self).bits() == old(self).bits().skip(count as int),
    {
        let ghost bits0 = self.bits();
        let mut value: u64 = 0;
        let mut weight: u64 = 1;
        let mut i: u32 = 0;
        proof {
            vstd::arithmetic::power2::lemma2_to64();
            assert(bits0.take(0) =~= Seq::<bool>::empty());
            assert(bits0.skip(0) =~= bits0);
        }
        while i < count
            invariant
                i <= count <= 32,
                i <= bits0.len(),
                bits0 == old(self).bits(),
                self.bits() == bits0.skip(i as int),
                value == bits_le(bits0.take(i as int)),
                weight == pow2(i as nat),
                value < weight,
                weight <= 0x1_0000_0000,
            decreases count - i,
        {
            let ghost before = self.bits();
            match self.next_bit() {
                Some(bit) => {
                    proof {
                        lemma_pow2_unfold((i + 1) as nat);
                        assert(bits0.take(i + 1).drop_last() =~= bits0.take(i as int));
                        assert(bits0.skip(i + 1) =~= before.drop_first());
                        if i + 1 < 32 {
                            vstd::arithmetic::power2::lemma_pow2_strictly_increases(
                                (i + 1) as nat,
                                32,
                            );
                            vstd::arithmetic::power2::lemma2_to64();
                        } else {
                            vstd::arithmetic::power2::lemma2_to64();
                        }
                    }
                    if bit == 1 {
                        value = value + weight;
                    }
                    weight = weight * 2;
                    i = i + 1;
                },
                None => {
                    assert(before.len() == bits0.len() - i);
                    return None;
                },
            }
        }
        Some(value as u32)
    }

    /// Reads `count` bits, the first read becoming the most significant;
    /// `None` when fewer are left, which are then all used up.
    pub fn read_bits_rev(&mut self, count: u32) -> (r: Option<u32>)
        requires
            count <= 32,
        ensures
            count > old(self).bits().len() ==> r is None && final(self).bits().len() == 0,
            count <= old(self).bits().len() ==> r == Some(
                bits_be(old(self).bits().take(count as int)) as u32,
            ) && final(self).bits() == old(self).bits().skip(count as int),
    {
        let ghost bits0 = self.bits();
        let mut value: u64 = 0;
        let mut i: u32 = 0;
        proof {
            vstd::arithmetic::power2::lemma2_to64();
            assert(bits0.take(0) =~= Seq::<bool>::empty());
            assert(bits0.skip(0) =~= bits0);
        }
        while i < count
            invariant
                i <= count <= 32,
                i <= bits0.len(),
                bits0 == old(self).bits(),
                self.bits() == bits0.skip(i as int),
                value == bits_be(bits0.take(i as int)),
                value < pow2(i as nat),
                pow2(i as nat) <= 0x1_0000_0000,
            decreases count - i,
        {
            let ghost before = self.bits();
            match self.next_bit() {
                Some(bit) => {
                    proof {
                        lemma_pow2_unfold((i + 1) as nat);
                        assert(bits0.take(i + 1).drop_last() =~= bits0.take(i as int));
                        assert(bits0.skip(i + 1) =~= before.drop_first());
                        vstd::arithmetic::power2::lemma2_to64();
                        if i + 1 < 32 {
                            vstd::arithmetic::power2::lemma_pow2_strictly_increases(
                                (i + 1) as nat,
                                32,
                            );
                        }
                    }
                    value = 2 * value + bit as u64;
                    i = i + 1;
                },
                None => {
                    assert(before.len() == bits0.len() - i);
                    return None;
                },
            }
        }
        Some(value as u32)
    }
}

} // verus!
