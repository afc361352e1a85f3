use vstd::prelude::*;
use crate::cvec::Iter;

verus! {

/// Reflected IEEE polynomial.
pub const IEEE: u32 = 0xedb88320;

/// One shift of the bitwise CRC-32 register.
pub open spec fn crc_step(v: u32) -> u32 {
    if v & 1 != 0 {
        IEEE ^ (v >> 1)
    } else {
        v >> 1
    }
}

/// `n` shifts of the bitwise CRC-32 register.
pub open spec fn crc_steps(v: u32, n: nat) -> u32
    decreases n,
{
    if n == 0 {
        v
    } else {
        crc_step(crc_steps(v, (n - 1) as nat))
    }
}

/// Entry `i` of the byte-wise lookup table.
pub open spec fn crc_table_entry(i: u32) -> u32 {
    crc_steps(i, 8)
}

/// The register after feeding one byte.
pub open spec fn crc_update(v: u32, b: u8) -> u32 {
    crc_table_entry((v ^ (b as u32)) & 0xff) ^ (v >> 8)
}

/// The register after feeding `s`, starting from all ones.
pub open spec fn crc_register(s: Seq<u8>) -> u32
    decreases s.len(),
{
    if s.len() == 0 {
        0xffffffffu32
    } else {
        crc_update(crc_register(s.drop_last()), s.last())
    }
}

/// CRC-32 of a byte sequence.
pub open spec fn crc32(s: Seq<u8>) -> u32 {
    crc_register(s) ^ 0xffffffffu32
}

/// Cyclic redundancy check with its lookup table.
struct Crc32 {
    table: Vec<u32>,
    value: u32,
}

impl Crc32 {
    spec fn table_ok(&self) -> bool {
        &&& self.table@.len() == 256
        &&& forall|i: int| 0 <= i < 256 ==> #[trigger] self.table@[i] == crc_table_entry(i as u32)
    }

    /// A fresh register with its table built.
    fn new() -> (c: Crc32)
        ensures
            c.table_ok(),
            c.value == 0xffffffffu32,
    {
        let mut table: Vec<u32> = Vec::new();
        let mut i: u32 = 0;
        while i < 256
            invariant
                i <= 256,
                table@.len() == i,
                forall|j: int| 0 <= j < i ==> #[trigger] table@[j] == crc_table_entry(j as u32),
            decreases 256 - i,
        {
            let mut v: u32 = i;
            let mut n: u32 = 0;
            while n < 8
                invariant
                    n <= 8,
                    v == crc_steps(i, n as nat),
                decreases 8 - n,
            {
                v = if v & 1 != 0 {
                    IEEE ^ (v >> 1)
                } else {
                    v >> 1
                };
                n = n + 1;
            }
            table.push(v);
            i = i + 1;
        }
        Crc32 { table, value: 0xffffffffu32 }
    }

    /// Feeds the bytes of `buf` into the register and returns the checksum.
    fn sum(&mut self, buf: Iter<u8>) -> (r: u32)
        requires
            old(self).table_ok(),
            old(self).value == 0xffffffffu32,
            buf.wf(),
        ensures
            r == crc32(buf.rest()),
    {
        let mut it = buf;
        let ghost done: Seq<u8> = Seq::empty();
        assert(done + it.rest() =~= buf.rest());
        loop
            invariant
                self.table_ok(),
                it.wf(),
                done + it.rest() == buf.rest(),
                self.value == crc_register(done),
            ensures
                done == buf.rest(),
                self.value == crc_register(done),
            decreases it.rest().len(),
        {
            let ghost rest0 = it.rest();
            let b = match it.next() {
                Some(b) => b,
                None => {
                    assert(done =~= buf.rest());
                    break;
                },
            };
            let y: u32 = self.value ^ (*b as u32);
            let x: u32 = y & 0xff;
            let idx = x as usize;
            assert(x < 256) by (bit_vector)
                requires
                    x == y & 0xff,
            ;
            self.value = self.table[idx] ^ (self.value >> 8);
            proof {
                let d2 = done.push(*b);
                assert(d2.drop_last() =~= done);
                assert(d2 + it.rest() =~= done + rest0);
                done = d2;
            }
        }
        self.value ^ 0xffffffffu32
    }
}

/// CRC-32 of the bytes that `buf` has still to yield.
pub fn sum(buf: Iter<u8>) -> (r: u32)
    requires
        buf.wf(),
    ensures
        r == crc32(buf.rest()),
{
    let mut c = Crc32::new();
    c.sum(buf)
}

} // verus!
