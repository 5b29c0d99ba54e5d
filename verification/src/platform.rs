//! The flash and checksum services that the storage runs on.

use vstd::prelude::*;

verus! {

/// `s` with the bytes from `offset` on replaced by `data`.
pub open spec fn update_bytes(s: Seq<u8>, offset: int, data: Seq<u8>) -> Seq<u8> {
    Seq::new(
        s.len(),
        |i: int|
            if offset <= i < offset + data.len() {
                data[i - offset]
            } else {
                s[i]
            },
    )
}

/// `n` erased flash bytes.
pub open spec fn erased_bytes(n: nat) -> Seq<u8> {
    Seq::new(n, |i: int| 0xFFu8)
}

/// What the storage needs from the device it runs on: byte-addressed flash that can be
/// read, written and erased, and the CRC-32 function of the on-flash format.
///
/// A write is expected to make the written range read back as the written bytes; the
/// storage only ever writes to erased bytes or clears bits that are set.
pub trait Platform: Sized {
    /// The current contents of the flash.
    spec fn flash(&self) -> Seq<u8>;

    /// The checksum of `data`, continued from `init`.
    spec fn spec_crc32(init: u32, data: Seq<u8>) -> u32;

    fn crc32(init: u32, data: &[u8]) -> (r: u32)
        ensures
            r == Self::spec_crc32(init, data@),
    ;

    /// Reads `len` bytes at `offset`.
    fn read(&mut self, offset: usize, len: usize) -> (r: Result<Vec<u8>, ()>)
        ensures
            final(self).flash() == old(self).flash(),
            r matches Ok(bytes) ==> {
                &&& offset + len <= old(self).flash().len()
                &&& bytes@ == old(self).flash().subrange(offset as int, offset + len)
            },
    ;

    /// Writes `data` at `offset`.
    fn write(&mut self, offset: usize, data: &[u8]) -> (r: Result<(), ()>)
        ensures
            final(self).flash().len() == old(self).flash().len(),
            r is Ok ==> {
                &&& offset + data@.len() <= old(self).flash().len()
                &&& final(self).flash() == update_bytes(old(self).flash(), offset as int, data@)
            },
    ;

    /// Erases the bytes from `from` up to (excluding) `to`.
    fn erase(&mut self, from: usize, to: usize) -> (r: Result<(), ()>)
        ensures
            final(self).flash().len() == old(self).flash().len(),
            r is Ok ==> {
                &&& from <= to <= old(self).flash().len()
                &&& final(self).flash() == update_bytes(
                    old(self).flash(),
                    from as int,
                    erased_bytes((to - from) as nat),
                )
            },
    ;
}

} // verus!
