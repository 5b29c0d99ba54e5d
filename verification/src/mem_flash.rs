//! A flash kept in memory, with the CRC-32 of the ESP32 ROM.

use vstd::prelude::*;

use crate::platform::{erased_bytes, update_bytes, Platform};

verus! {

/// One bit step of the reflected CRC-32 (polynomial 0xEDB88320).
pub open spec fn crc_step(r: u32) -> u32 {
    if r & 1u32 == 1u32 {
        (r >> 1u32) ^ 0xEDB8_8320u32
    } else {
        r >> 1u32
    }
}

/// `n` bit steps.
pub open spec fn crc_bits(r: u32, n: nat) -> u32
    decreases n,
{
    if n == 0 {
        r
    } else {
        crc_bits(crc_step(r), (n - 1) as nat)
    }
}

/// The CRC register after feeding `data`, byte by byte, into register `r`.
pub open spec fn crc_register(r: u32, data: Seq<u8>) -> u32
    decreases data.len(),
{
    if data.len() == 0 {
        r
    } else {
        crc_register(crc_bits(r ^ (data[0] as u32), 8), data.drop_first())
    }
}

/// CRC-32 little endian as the ESP32 ROM computes it: the register starts at the
/// complement of `init` and the result is the complement of the final register.
pub open spec fn crc32_le(init: u32, data: Seq<u8>) -> u32 {
    !crc_register(!init, data)
}

/// Computes `crc32_le(init, data)`.
pub fn crc32_le_exec(init: u32, data: &[u8]) -> (c: u32)
    ensures
        c == crc32_le(init, data@),
{
    let mut reg: u32 = !init;
    let mut i: usize = 0;
    assert(data@.skip(0) =~= data@);
    while i < data.len()
        invariant
            i <= data@.len(),
            crc_register(!init, data@) == crc_register(reg, data@.skip(i as int)),
        decreases data@.len() - i,
    {
        let start: u32 = reg ^ (data[i] as u32);
        let mut r: u32 = start;
        let mut k: usize = 0;
        while k < 8
            invariant
                k <= 8,
                crc_bits(start, 8) == crc_bits(r, (8 - k) as nat),
            decreases 8 - k,
        {
            r = if r & 1 == 1 {
                (r >> 1) ^ 0xEDB8_8320
            } else {
                r >> 1
            };
            k += 1;
        }
        assert(data@.skip(i as int).drop_first() =~= data@.skip(i + 1));
        reg = r;
        i += 1;
    }
    assert(data@.skip(i as int).len() == 0);
    !reg
}

/// Feeding two pieces of data one after the other is feeding their concatenation.
proof fn lemma_crc_register_append(r: u32, a: Seq<u8>, b: Seq<u8>)
    ensures
        crc_register(crc_register(r, a), b) == crc_register(r, a + b),
    decreases a.len(),
{
    if a.len() > 0 {
        lemma_crc_register_append(crc_bits(r ^ (a[0] as u32), 8), a.drop_first(), b);
        assert((a + b).drop_first() =~= a.drop_first() + b);
        assert((a + b)[0] == a[0]);
    } else {
        assert(a + b =~= b);
    }
}

/// A checksum can be continued: the checksum of `b` started from the checksum of `a` is the
/// checksum of `a` followed by `b`.
pub proof fn lemma_crc32_le_continues(init: u32, a: Seq<u8>, b: Seq<u8>)
    ensures
        crc32_le(crc32_le(init, a), b) == crc32_le(init, a + b),
{
    lemma_crc_register_append(!init, a, b);
    let r = crc_register(!init, a);
    assert(!(!r) == r) by (bit_vector);
}

/// A flash kept in memory. Reads, writes and erases succeed exactly on ranges inside it.
pub struct MemFlash {
    data: Vec<u8>,
}

impl MemFlash {
    /// A fully erased flash of `size` bytes.
    pub fn new(size: usize) -> (f: Self)
        ensures
            f.flash() == erased_bytes(size as nat),
    {
        let data = vec![0xFFu8; size];
        assert(data@ =~= erased_bytes(size as nat));
        MemFlash { data }
    }

    /// A flash holding `bytes`.
    pub fn from_bytes(bytes: Vec<u8>) -> (f: Self)
        ensures
            f.flash() == bytes@,
    {
        MemFlash { data: bytes }
    }

    /// The contents of the flash.
    pub fn as_bytes(&self) -> (b: &[u8])
        ensures
            b@ == self.flash(),
    {
        self.data.as_slice()
    }
}

impl Platform for MemFlash {
    closed spec fn flash(&self) -> Seq<u8> {
        self.data@
    }

    open spec fn spec_crc32(init: u32, data: Seq<u8>) -> u32 {
        crc32_le(init, data)
    }

    fn crc32(init: u32, data: &[u8]) -> (r: u32) {
        crc32_le_exec(init, data)
    }

    fn read(&mut self, offset: usize, len: usize) -> (r: Result<Vec<u8>, ()>)
        ensures
            r is Ok <==> offset + len <= old(self).flash().len(),
    {
        if offset > self.data.len() || len > self.data.len() - offset {
            return Err(());
        }
        let mut out: Vec<u8> = Vec::with_capacity(len);
        let mut i: usize = 0;
        let n = self.data.len();
        while i < len
            invariant
                i <= len,
                n == self.data@.len(),
                offset + len <= self.data@.len(),
                out@ == self.data@.subrange(offset as int, offset + i),
            decreases len - i,
        {
            out.push(self.data[offset + i]);
            i += 1;
            assert(out@ =~= self.data@.subrange(offset as int, offset + i));
        }
        Ok(out)
    }

    fn write(&mut self, offset: usize, data: &[u8]) -> (r: Result<(), ()>)
        ensures
            r is Ok <==> offset + data@.len() <= old(self).flash().len(),
            r is Err ==> final(self).flash() == old(self).flash(),
    {
        if offset > self.data.len() || data.len() > self.data.len() - offset {
            return Err(());
        }
        let ghost before = self.data@;
        let mut i: usize = 0;
        let n = self.data.len();
        while i < data.len()
            invariant
                i <= data@.len(),
                n == before.len(),
                offset + data@.len() <= before.len(),
                self.data@.len() == before.len(),
                self.data@ =~= update_bytes(before, offset as int, data@.subrange(0, i as int)),
            decreases data@.len() - i,
        {
            self.data[offset + i] = data[i];
            i += 1;
            assert(self.data@ =~= update_bytes(before, offset as int, data@.subrange(0, i as int)));
        }
        assert(data@.subrange(0, data@.len() as int) =~= data@);
        Ok(())
    }

    fn erase(&mut self, from: usize, to: usize) -> (r: Result<(), ()>)
        ensures
            r is Ok <==> from <= to <= old(self).flash().len(),
            r is Err ==> final(self).flash() == old(self).flash(),
    {
        if from > to || to > self.data.len() {
            return Err(());
        }
        let ghost before = self.data@;
        let mut i: usize = from;
        while i < to
            invariant
                from <= i <= to <= before.len(),
                self.data@.len() == before.len(),
                self.data@ =~= update_bytes(before, from as int, erased_bytes((i - from) as nat)),
            decreases to - i,
        {
            self.data[i] = 0xFF;
            i += 1;
            assert(self.data@ =~= update_bytes(before, from as int, erased_bytes((i - from) as nat)));
        }
        Ok(())
    }
}

} // verus!
