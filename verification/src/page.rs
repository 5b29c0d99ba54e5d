//! Pages: the in-memory picture of one flash sector and the operations on it.

use vstd::prelude::*;

use crate::error::Error;
use crate::platform::{update_bytes, Platform};
use crate::raw::{
    header_bytes, header_crc, item_hash, sized_data_bytes, ItemType, sized_size, item_crc_input, header_to_bytes, page_state_word, u32_le_bytes, u32_to_le,
    PageState, BITMAP_OFFSET,
    entry_state_bits, entry_state_of_bits, is_item_type_byte, item_bytes, item_crc,
    lemma_item_bytes_injective, item_type_byte, EntryMapState, Item, ENTRIES_PER_PAGE, ITEMS_OFFSET, ITEM_SIZE,
};
use crate::types::Key;

verus! {

/// State of a page in memory.
#[derive(Debug, Clone, Copy, PartialEq, Eq, Structural)]
pub enum ThinPageState {
    Uninitialized,
    Active,
    Full,
    Freeing,
    Corrupt,
    Invalid,
}

/// Compact page header kept in memory.
#[derive(Clone, Copy)]
pub struct ThinPageHeader {
    pub state: ThinPageState,
    pub sequence: u32,
    pub version: u8,
    pub crc: u32,
}

impl ThinPageHeader {
    /// The header of a page that was never written.
    pub fn uninitialzed() -> (h: Self)
        ensures
            h.state == ThinPageState::Uninitialized,
            h.sequence == 0,
            h.version == 0,
            h.crc == 0,
    {
        ThinPageHeader { state: ThinPageState::Uninitialized, sequence: 0, version: 0, crc: 0 }
    }
}

/// Entry of the per-page lookup list: the 24-bit hash of an item and its entry index.
#[derive(Clone, Copy)]
pub struct ItemHashListEntry {
    pub hash: u32,
    pub index: u8,
}

/// Namespace definition loaded from flash.
#[derive(Clone, Copy)]
pub struct Namespace {
    pub name: Key,
    pub index: u8,
}

/// In-memory representation of a flash page with minimal memory footprint.
pub struct ThinPage {
    pub address: usize,
    pub header: ThinPageHeader,
    pub entry_state_bitmap: [u8; 32],
    pub item_hash_list: Vec<ItemHashListEntry>,
    pub erased_entry_count: u8,
    pub used_entry_count: u8,
}

/// Largest page address: every offset within a page and the data it may refer to stays
/// far below `usize::MAX`.
pub open spec fn address_in_range(address: int) -> bool {
    0 <= address && address + 0x2_0000 <= usize::MAX
}

/// The two state bits of entry `i` in a bitmap.
pub open spec fn entry_bits(bitmap: Seq<u8>, i: int) -> u8 {
    (bitmap[i / 4] >> (((i % 4) * 2) as u8)) & 3u8
}

/// The state of entry `i` in a bitmap.
pub open spec fn entry_state_at(bitmap: Seq<u8>, i: int) -> EntryMapState {
    entry_state_of_bits(entry_bits(bitmap, i))
}

/// Number of entries among the first `n` whose state is `s`.
pub open spec fn count_state(bitmap: Seq<u8>, s: EntryMapState, n: int) -> nat
    decreases n,
{
    if n <= 0 {
        0
    } else {
        count_state(bitmap, s, n - 1) + if entry_state_at(bitmap, n - 1) == s {
            1nat
        } else {
            0nat
        }
    }
}

/// The bitmap after the entries `start..end` were set to `state`: their bits are ANDed
/// with the bits of the state, as a flash write can only clear bits.
pub open spec fn bitmap_after_set(old: Seq<u8>, new: Seq<u8>, start: int, end: int, state: EntryMapState) -> bool {
    &&& new.len() == 32
    &&& forall|i: int|
        0 <= i < 128 ==> #[trigger] entry_bits(new, i) == if start <= i < end {
            entry_bits(old, i) & entry_state_bits(state)
        } else {
            entry_bits(old, i)
        }
}

/// Flash offset of entry `index` of the page at `address`.
pub open spec fn entry_offset(address: int, index: int) -> int {
    address + ITEMS_OFFSET + ITEM_SIZE * index
}

/// The 32 stored bytes of entry `index` of the page at `address`.
pub open spec fn entry_bytes(flash: Seq<u8>, address: int, index: int) -> Seq<u8> {
    flash.subrange(entry_offset(address, index), entry_offset(address, index) + ITEM_SIZE)
}

/// Whether all bytes are erased.
pub open spec fn all_erased(b: Seq<u8>) -> bool {
    forall|i: int| 0 <= i < b.len() ==> b[i] == 0xFFu8
}

/// The item stored in a 32-byte entry, if the entry holds one: not erased, of a known
/// type, and with a matching CRC.
pub open spec fn stored_item<T: Platform>(b: Seq<u8>) -> Option<Item> {
    if all_erased(b) || !is_item_type_byte(b[1]) {
        None
    } else {
        let it = choose|it: Item| item_bytes(it) == b;
        if it.crc == item_crc::<T>(it) {
            Some(it)
        } else {
            None
        }
    }
}

/// What `stored_item` gives for the bytes of a known item.
pub proof fn lemma_stored_item_of<T: Platform>(it: Item)
    ensures
        stored_item::<T>(item_bytes(it)) == if all_erased(item_bytes(it)) || it.crc != item_crc::<T>(it) {
            None::<Item>
        } else {
            Some(it)
        },
{
    let b = item_bytes(it);
    assert(b[1] == item_type_byte(it.type_));
    assert(is_item_type_byte(b[1]));
    let c = choose|c: Item| item_bytes(c) == b;
    lemma_item_bytes_injective(c, it);
}

/// The shift of the bits of entry `index` within its bitmap byte.
pub open spec fn entry_shift(index: int) -> u8 {
    ((index % 4) * 2) as u8
}

proof fn lemma_set_bits(b: u8, k: u8, st: u8, t: u8)
    requires
        k < 4,
        t < 4,
        st < 4,
    ensures
        ((b & ((st << (2 * k)) | !(3u8 << (2 * k)))) >> (2 * t)) & 3u8 == if t == k {
            ((b >> (2 * k)) & 3u8) & st
        } else {
            (b >> (2 * t)) & 3u8
        },
{
    assert(((b & ((st << (2 * k)) | !(3u8 << (2 * k)))) >> (2 * t)) & 3u8 == if t == k {
        ((b >> (2 * k)) & 3u8) & st
    } else {
        (b >> (2 * t)) & 3u8
    }) by (bit_vector)
        requires
            k < 4,
            t < 4,
            st < 4,
    ;
}

proof fn lemma_bits_lt_4(b: u8, s: u8)
    ensures
        (b >> s) & 3u8 < 4,
{
    assert((b >> s) & 3u8 < 4) by (bit_vector);
}

impl ThinPage {
    /// The in-memory well-formedness of a page: an address that leaves room for all
    /// offsets, entry counters within the page, and lookup entries that name entries of
    /// the page and carry 24-bit hashes.
    pub open spec fn wf(&self) -> bool {
        &&& address_in_range(self.address as int)
        &&& self.used_entry_count + self.erased_entry_count <= ENTRIES_PER_PAGE
        &&& forall|j: int|
            0 <= j < self.item_hash_list@.len() ==> {
                &&& (#[trigger] self.item_hash_list@[j]).index < ENTRIES_PER_PAGE
                &&& self.item_hash_list@[j].hash < 0x100_0000
            }
    }

    /// Every lookup entry names an entry before the next one to be written.
    pub open spec fn listed_below_next_free(&self) -> bool {
        forall|j: int|
            0 <= j < self.item_hash_list@.len() ==> (#[trigger] self.item_hash_list@[j]).index < self.next_free()
    }

    /// Index of the next entry to be written.
    pub open spec fn next_free(&self) -> int {
        self.used_entry_count + self.erased_entry_count
    }

    /// A page that was never written, at `address`.
    pub fn uninitialized(address: usize) -> (p: Self)
        ensures
            p.address == address,
            p.header.state == ThinPageState::Uninitialized,
            p.header.sequence == 0,
            p.header.version == 0,
            p.header.crc == 0,
            p.entry_state_bitmap@ == Seq::new(32, |i: int| 0xFFu8),
            p.item_hash_list@.len() == 0,
            p.erased_entry_count == 0,
            p.used_entry_count == 0,
    {
        let p = ThinPage {
            address,
            header: ThinPageHeader::uninitialzed(),
            entry_state_bitmap: [0xFF; 32],
            item_hash_list: Vec::new(),
            erased_entry_count: 0,
            used_entry_count: 0,
        };
        assert(p.entry_state_bitmap@ =~= Seq::new(32, |i: int| 0xFFu8));
        p
    }

    /// The state of entry `item_index`.
    pub fn get_entry_state(&self, item_index: u8) -> (s: EntryMapState)
        requires
            item_index < 128,
        ensures
            s == entry_state_at(self.entry_state_bitmap@, item_index as int),
    {
        let idx = item_index / 4;
        let byte = self.entry_state_bitmap[idx as usize];
        let two_bits = (byte >> ((item_index % 4) * 2)) & 0b11;
        EntryMapState::from_bits(two_bits)
    }

    /// Index of the next entry to be written.
    pub fn get_next_free_entry(&self) -> (n: usize)
        ensures
            n == self.next_free(),
    {
        self.used_entry_count as usize + self.erased_entry_count as usize
    }

    /// Number of entries that can still be written.
    pub fn get_free_entry_count(&self) -> (n: usize)
        requires
            self.wf(),
        ensures
            n == ENTRIES_PER_PAGE - self.next_free(),
    {
        ENTRIES_PER_PAGE - self.get_next_free_entry()
    }

    /// Whether every entry of the page has been used.
    pub fn is_full(&self) -> (b: bool)
        ensures
            b == (self.next_free() == ENTRIES_PER_PAGE),
    {
        self.get_next_free_entry() == ENTRIES_PER_PAGE
    }

    /// The state of the page.
    pub fn get_state(&self) -> (s: &ThinPageState)
        ensures
            *s == self.header.state,
    {
        &self.header.state
    }

    /// Whether two pages stand for the same sector.
    pub fn same_page(&self, other: &ThinPage) -> (b: bool)
        ensures
            b == (self.address == other.address),
    {
        self.address == other.address
    }

    /// Counts the entries of the page by state: (empty, written, erased, illegal).
    pub fn get_entry_statistics(&self) -> (r: (u32, u32, u32, u32))
        ensures
            r.0 == count_state(self.entry_state_bitmap@, EntryMapState::Empty, 126),
            r.1 == count_state(self.entry_state_bitmap@, EntryMapState::Written, 126),
            r.2 == count_state(self.entry_state_bitmap@, EntryMapState::Erased, 126),
            r.3 == count_state(self.entry_state_bitmap@, EntryMapState::Illegal, 126),
            r.0 + r.1 + r.2 + r.3 == 126,
    {
        let ghost bm = self.entry_state_bitmap@;
        let mut empty: u32 = 0;
        let mut written: u32 = 0;
        let mut erased: u32 = 0;
        let mut illegal: u32 = 0;
        let mut i: u8 = 0;
        while i < 126
            invariant
                i <= 126,
                bm == self.entry_state_bitmap@,
                empty == count_state(bm, EntryMapState::Empty, i as int),
                written == count_state(bm, EntryMapState::Written, i as int),
                erased == count_state(bm, EntryMapState::Erased, i as int),
                illegal == count_state(bm, EntryMapState::Illegal, i as int),
                empty + written + erased + illegal == i,
            decreases 126 - i,
        {
            match self.get_entry_state(i) {
                EntryMapState::Empty => empty += 1,
                EntryMapState::Written => written += 1,
                EntryMapState::Erased => erased += 1,
                EntryMapState::Illegal => illegal += 1,
            }
            i += 1;
        }
        (empty, written, erased, illegal)
    }

    /// ANDs the bits of `state` into the bitmap entries `start..end`, in memory only.
    pub fn set_bitmap_range(&mut self, start: u8, end: u8, state: EntryMapState)
        requires
            start <= end <= 128,
        ensures
            bitmap_after_set(old(self).entry_state_bitmap@, final(self).entry_state_bitmap@, start as int, end as int, state),
            final(self).address == old(self).address,
            final(self).header == old(self).header,
            final(self).item_hash_list == old(self).item_hash_list,
            final(self).erased_entry_count == old(self).erased_entry_count,
            final(self).used_entry_count == old(self).used_entry_count,
    {
        let ghost old_bm = self.entry_state_bitmap@;
        let raw_state = state.to_bits();
        let mut item_index: u8 = start;
        while item_index < end
            invariant
                start <= item_index <= end <= 128,
                raw_state == entry_state_bits(state),
                raw_state < 4,
                self.entry_state_bitmap@.len() == 32,
                self.address == old(self).address,
                self.header == old(self).header,
                self.item_hash_list == old(self).item_hash_list,
                self.erased_entry_count == old(self).erased_entry_count,
                self.used_entry_count == old(self).used_entry_count,
                old_bm == old(self).entry_state_bitmap@,
                forall|i: int|
                    0 <= i < 128 ==> #[trigger] entry_bits(self.entry_state_bitmap@, i) == if start <= i
                        < item_index {
                        entry_bits(old_bm, i) & raw_state
                    } else {
                        entry_bits(old_bm, i)
                    },
            decreases end - item_index,
        {
            let k: u8 = item_index % 4;
            let mask: u8 = 0b11u8 << (k * 2);
            let bits: u8 = raw_state << (k * 2);
            let masked_bits: u8 = bits | !mask;
            let offset_in_map: u8 = item_index / 4;
            let ghost before = self.entry_state_bitmap@;
            let b = self.entry_state_bitmap[offset_in_map as usize];
            self.entry_state_bitmap[offset_in_map as usize] = b & masked_bits;
            proof {
                let after = self.entry_state_bitmap@;
                assert forall|i: int| 0 <= i < 128 implies #[trigger] entry_bits(after, i) == if start
                    <= i < item_index + 1 {
                    entry_bits(old_bm, i) & raw_state
                } else {
                    entry_bits(old_bm, i)
                } by {
                    let t: u8 = (i % 4) as u8;
                    assert(entry_bits(before, i) == if start <= i < item_index {
                        entry_bits(old_bm, i) & raw_state
                    } else {
                        entry_bits(old_bm, i)
                    });
                    if i / 4 == offset_in_map as int {
                        lemma_set_bits(b, k, raw_state, t);
                        assert(2 * t == ((i % 4) * 2) as u8);
                        assert(2 * k == ((item_index as int % 4) * 2) as u8);
                        if i == item_index as int {
                            assert(t == k);
                        } else {
                            assert(t != k);
                        }
                    } else {
                        assert(after[i / 4] == before[i / 4]);
                    }
                }
            }
            item_index += 1;
        }
    }

    /// Writes `bytes` to the flash, reporting a failure as `FlashError`.
    fn write_flash<T: Platform>(hal: &mut T, offset: usize, bytes: &[u8]) -> (r: Result<(), Error>)
        ensures
            final(hal).flash().len() == old(hal).flash().len(),
            r is Ok ==> final(hal).flash() == update_bytes(old(hal).flash(), offset as int, bytes@)
                && offset + bytes@.len() <= old(hal).flash().len(),
            r is Err ==> r == Err::<(), Error>(Error::FlashError),
    {
        match hal.write(offset, bytes) {
            Ok(()) => Ok(()),
            Err(()) => Err(Error::FlashError),
        }
    }

    /// Sets the entries `start..end` to `state`, in memory and on flash.
    pub fn set_entry_state_range<T: Platform>(
        &mut self,
        hal: &mut T,
        start: u8,
        end: u8,
        state: EntryMapState,
    ) -> (r: Result<(), Error>)
        requires
            old(self).wf(),
            start < end <= ENTRIES_PER_PAGE,
        ensures
            final(self).wf(),
            bitmap_after_set(old(self).entry_state_bitmap@, final(self).entry_state_bitmap@, start as int, end as int, state),
            final(self).address == old(self).address,
            final(self).header == old(self).header,
            final(self).item_hash_list == old(self).item_hash_list,
            final(self).erased_entry_count == old(self).erased_entry_count,
            final(self).used_entry_count == old(self).used_entry_count,
            final(hal).flash().len() == old(hal).flash().len(),
            r is Ok ==> final(hal).flash() == update_bytes(
                old(hal).flash(),
                old(self).address + BITMAP_OFFSET + start as int / 4,
                final(self).entry_state_bitmap@.subrange(start as int / 4, (end as int - 1) / 4 + 1),
            ),
            r is Err ==> r == Err::<(), Error>(Error::FlashError),
    {
        self.set_bitmap_range(start, end, state);
        let start_byte = (start / 4) as usize;
        let end_byte = ((end - 1) / 4) as usize;
        let bytes = vstd::slice::slice_subrange(self.entry_state_bitmap.as_slice(), start_byte, end_byte + 1);
        Self::write_flash(hal, self.address + BITMAP_OFFSET + start_byte, bytes)
    }

    /// Sets entry `item_index` to `state`, in memory and on flash.
    pub fn set_entry_state<T: Platform>(&mut self, hal: &mut T, item_index: usize, state: EntryMapState) -> (r: Result<(), Error>)
        requires
            old(self).wf(),
            item_index < ENTRIES_PER_PAGE,
        ensures
            final(self).wf(),
            bitmap_after_set(old(self).entry_state_bitmap@, final(self).entry_state_bitmap@, item_index as int, item_index + 1, state),
            final(self).address == old(self).address,
            final(self).header == old(self).header,
            final(self).item_hash_list == old(self).item_hash_list,
            final(self).erased_entry_count == old(self).erased_entry_count,
            final(self).used_entry_count == old(self).used_entry_count,
            final(hal).flash().len() == old(hal).flash().len(),
            r is Ok ==> final(hal).flash() == update_bytes(
                old(hal).flash(),
                old(self).address + BITMAP_OFFSET + item_index as int / 4,
                final(self).entry_state_bitmap@.subrange(item_index as int / 4, item_index as int / 4 + 1),
            ),
            r is Err ==> r == Err::<(), Error>(Error::FlashError),
    {
        let idx = item_index as u8;
        self.set_entry_state_range(hal, idx, idx + 1, state)
    }

    /// Writes the header of an active page with sequence number `next_sequence`.
    pub fn initialize<T: Platform>(&mut self, hal: &mut T, next_sequence: u32) -> (r: Result<(), Error>)
        requires
            old(self).wf(),
        ensures
            final(self).wf(),
            final(self).address == old(self).address,
            final(self).entry_state_bitmap == old(self).entry_state_bitmap,
            final(self).item_hash_list == old(self).item_hash_list,
            final(self).erased_entry_count == old(self).erased_entry_count,
            final(self).used_entry_count == old(self).used_entry_count,
            final(hal).flash().len() == old(hal).flash().len(),
            r is Ok ==> {
                &&& final(hal).flash() == update_bytes(
                    old(hal).flash(),
                    old(self).address as int,
                    header_bytes::<T>(page_state_word(PageState::Active), next_sequence, 0xFE),
                )
                &&& final(self).header == ThinPageHeader {
                    state: ThinPageState::Active,
                    sequence: next_sequence,
                    version: 0xFE,
                    crc: header_crc::<T>(next_sequence, 0xFE),
                }
            },
            r is Err ==> r == Err::<(), Error>(Error::FlashError) && final(self).header == old(self).header,
    {
        let (raw_header, crc) = header_to_bytes::<T>(PageState::Active.to_word(), next_sequence, 0xFE);
        Self::write_flash(hal, self.address, raw_header.as_slice())?;
        self.header.state = ThinPageState::Active;
        self.header.version = 0xFE;
        self.header.sequence = next_sequence;
        self.header.crc = crc;
        Ok(())
    }

    /// Marks the page as full, on flash and in memory.
    pub fn mark_as_full<T: Platform>(&mut self, hal: &mut T) -> (r: Result<(), Error>)
        requires
            old(self).wf(),
        ensures
            final(self).wf(),
            final(self).address == old(self).address,
            final(self).entry_state_bitmap == old(self).entry_state_bitmap,
            final(self).item_hash_list == old(self).item_hash_list,
            final(self).erased_entry_count == old(self).erased_entry_count,
            final(self).used_entry_count == old(self).used_entry_count,
            final(self).header.sequence == old(self).header.sequence,
            final(self).header.version == old(self).header.version,
            final(self).header.crc == old(self).header.crc,
            final(hal).flash().len() == old(hal).flash().len(),
            r is Ok ==> {
                &&& final(hal).flash() == update_bytes(
                    old(hal).flash(),
                    old(self).address as int,
                    u32_le_bytes(page_state_word(PageState::Full)),
                )
                &&& final(self).header.state == ThinPageState::Full
            },
            r is Err ==> r == Err::<(), Error>(Error::FlashError) && final(self).header == old(self).header,
    {
        let raw = u32_to_le(PageState::Full.to_word());
        Self::write_flash(hal, self.address, raw.as_slice())?;
        self.header.state = ThinPageState::Full;
        Ok(())
    }

    /// Loads the item stored at entry `item_index`.
    pub fn load_item<T: Platform>(&self, hal: &mut T, item_index: u8) -> (r: Result<Item, Error>)
        requires
            self.wf(),
            item_index < ENTRIES_PER_PAGE,
        ensures
            final(hal).flash() == old(hal).flash(),
            match r {
                Ok(it) => {
                    &&& entry_offset(self.address as int, item_index as int) + ITEM_SIZE <= old(hal).flash().len()
                    &&& entry_bytes(old(hal).flash(), self.address as int, item_index as int) == item_bytes(it)
                    &&& stored_item::<T>(item_bytes(it)) == Some(it)
                },
                Err(Error::KeyNotFound) => {
                    &&& entry_offset(self.address as int, item_index as int) + ITEM_SIZE <= old(hal).flash().len()
                    &&& stored_item::<T>(entry_bytes(old(hal).flash(), self.address as int, item_index as int)) is None
                },
                Err(Error::FlashError) => true,
                _ => false,
            },
    {
        let offset = self.address + ITEMS_OFFSET + ITEM_SIZE * (item_index as usize);
        let buf = match hal.read(offset, ITEM_SIZE) {
            Ok(b) => b,
            Err(()) => return Err(Error::FlashError),
        };
        let ghost b = buf@;
        let mut all_ff = true;
        let mut i: usize = 0;
        while i < ITEM_SIZE
            invariant
                i <= ITEM_SIZE,
                buf@ == b,
                b.len() == ITEM_SIZE,
                all_ff == (forall|j: int| 0 <= j < i ==> b[j] == 0xFFu8),
            decreases ITEM_SIZE - i,
        {
            if buf[i] != 0xFF {
                all_ff = false;
            }
            i += 1;
        }
        if all_ff {
            return Err(Error::KeyNotFound);
        }
        let item = match Item::from_bytes(buf.as_slice()) {
            Some(it) => it,
            None => return Err(Error::KeyNotFound),
        };
        proof {
            lemma_stored_item_of::<T>(item);
        }
        if item.crc != item.calculate_crc32::<T>() {
            return Err(Error::KeyNotFound);
        }
        Ok(item)
    }

    /// Writes an item into the next free entry, marks the entry written, and marks the
    /// page full once no entry is left.
    pub fn write_item<T: Platform>(
        &mut self,
        hal: &mut T,
        namespace_index: u8,
        key: Key,
        type_: ItemType,
        chunk_index: Option<u8>,
        span: u8,
        item_data: [u8; 8],
    ) -> (r: Result<(), Error>)
        requires
            old(self).wf(),
            1 <= span,
            old(self).next_free() + span <= ENTRIES_PER_PAGE,
        ensures
            final(self).wf(),
            final(self).address == old(self).address,
            final(self).erased_entry_count == old(self).erased_entry_count,
            final(hal).flash().len() == old(hal).flash().len(),
            namespace_index == 0 ==> final(self).item_hash_list@ == old(self).item_hash_list@,
            final(self).header.state == old(self).header.state || final(self).header.state == ThinPageState::Full,
            old(self).listed_below_next_free() ==> final(self).listed_below_next_free(),
            r is Err ==> r == Err::<(), Error>(Error::FlashError),
            r is Ok ==> {
                let idx = old(self).next_free();
                let it = new_item::<T>(namespace_index, type_, span, chunk_or_none(chunk_index), key, item_data);
                &&& entry_offset(old(self).address as int, idx) + ITEM_SIZE <= final(hal).flash().len()
                &&& entry_bytes(final(hal).flash(), old(self).address as int, idx) == item_bytes(it)
                &&& page_write_frame(old(hal).flash(), final(hal).flash(), old(self).address as int, idx, idx + 1)
                &&& final(self).used_entry_count == old(self).used_entry_count + span
                &&& bitmap_after_set(old(self).entry_state_bitmap@, final(self).entry_state_bitmap@, idx, idx + 1, EntryMapState::Written)
                &&& final(self).item_hash_list@ == if namespace_index != 0 {
                    old(self).item_hash_list@.push(
                        ItemHashListEntry {
                            hash: item_hash::<T>(namespace_index, key@, it.chunk_index),
                            index: idx as u8,
                        },
                    )
                } else {
                    old(self).item_hash_list@
                }
                &&& final(self).header.sequence == old(self).header.sequence
                &&& final(self).header.state == if final(self).next_free() == ENTRIES_PER_PAGE {
                    ThinPageState::Full
                } else {
                    old(self).header.state
                }
            },
    {
        let chunk = match chunk_index {
            Some(c) => c,
            None => 0xFF,
        };
        let mut item = Item {
            namespace_index,
            type_,
            span,
            chunk_index: chunk,
            crc: 0,
            key,
            data: item_data,
        };
        item.crc = item.calculate_crc32::<T>();
        let item_index = self.get_next_free_entry();
        let target_addr = self.address + ITEMS_OFFSET + ITEM_SIZE * item_index;
        let raw = item.to_bytes();
        let ghost f0 = hal.flash();
        Self::write_flash(hal, target_addr, raw.as_slice())?;
        let ghost f1 = hal.flash();
        self.set_entry_state(hal, item_index, EntryMapState::Written)?;
        let ghost f2 = hal.flash();
        self.used_entry_count = self.used_entry_count + span;
        if namespace_index != 0 {
            let hash = item.calculate_hash::<T>();
            self.item_hash_list.push(ItemHashListEntry { hash, index: item_index as u8 });
        }
        proof {
            assert(item == new_item::<T>(namespace_index, type_, span, chunk_or_none(chunk_index), key, item_data));
            assert(entry_bytes(f1, self.address as int, item_index as int) =~= item_bytes(item));
            assert(entry_bytes(f2, self.address as int, item_index as int) =~= item_bytes(item));
            assert(page_write_frame(f0, f2, self.address as int, item_index as int, item_index + 1));
        }
        if self.get_next_free_entry() == ENTRIES_PER_PAGE {
            self.mark_as_full::<T>(hal)?;
            proof {
                let f3 = hal.flash();
                assert(entry_bytes(f3, self.address as int, item_index as int) =~= item_bytes(item));
                assert(page_write_frame(f0, f3, self.address as int, item_index as int, item_index + 1));
            }
        }
        Ok(())
    }

    /// Writes a namespace entry: key `key`, namespace index 0, value `value`.
    pub fn write_namespace<T: Platform>(&mut self, hal: &mut T, key: Key, value: u8) -> (r: Result<(), Error>)
        requires
            old(self).wf(),
            old(self).next_free() < ENTRIES_PER_PAGE,
        ensures
            final(self).wf(),
            final(self).address == old(self).address,
            final(self).erased_entry_count == old(self).erased_entry_count,
            final(self).item_hash_list@ == old(self).item_hash_list@,
            final(self).header.state == old(self).header.state || final(self).header.state == ThinPageState::Full,
            old(self).listed_below_next_free() ==> final(self).listed_below_next_free(),
            final(hal).flash().len() == old(hal).flash().len(),
            r is Err ==> r == Err::<(), Error>(Error::FlashError),
            r is Ok ==> {
                let idx = old(self).next_free();
                let it = new_item::<T>(0, ItemType::U8, 1, 0xFF, key, namespace_data(value));
                &&& entry_bytes(final(hal).flash(), old(self).address as int, idx) == item_bytes(it)
                &&& page_write_frame(old(hal).flash(), final(hal).flash(), old(self).address as int, idx, idx + 1)
                &&& final(self).used_entry_count == old(self).used_entry_count + 1
                &&& final(self).header.sequence == old(self).header.sequence
            },
    {
        let buf: [u8; 8] = [value, 0xFF, 0xFF, 0xFF, 0xFF, 0xFF, 0xFF, 0xFF];
        assert(buf@ =~= namespace_data(value)@);
        assert(buf == namespace_data(value));
        self.write_item::<T>(hal, 0, key, ItemType::U8, None, 1, buf)
    }

    /// Writes a variable-sized item (string or blob chunk): its header entry followed by
    /// entries holding `data`.
    #[verifier::spinoff_prover]
    #[verifier::rlimit(40)]
    pub fn write_variable_sized_item<T: Platform>(
        &mut self,
        hal: &mut T,
        namespace_index: u8,
        key: Key,
        type_: ItemType,
        chunk_index: Option<u8>,
        data: &[u8],
    ) -> (r: Result<(), Error>)
        requires
            old(self).wf(),
        ensures
            final(self).wf(),
            final(self).address == old(self).address,
            final(self).erased_entry_count == old(self).erased_entry_count,
            final(hal).flash().len() == old(hal).flash().len(),
            old(self).listed_below_next_free() ==> final(self).listed_below_next_free(),
            ({
                let span = variable_span(data@.len());
                let idx = old(self).next_free();
                match r {
                    Err(Error::ValueTooLong) => span > ENTRIES_PER_PAGE && *final(self) == *old(self)
                        && final(hal).flash() == old(hal).flash(),
                    Err(Error::PageFull) => span <= ENTRIES_PER_PAGE && idx + span > ENTRIES_PER_PAGE
                        && *final(self) == *old(self) && final(hal).flash() == old(hal).flash(),
                    Err(Error::FlashError) => span <= ENTRIES_PER_PAGE && idx + span <= ENTRIES_PER_PAGE,
                    Ok(()) => {
                        let it = new_item::<T>(
                            namespace_index,
                            type_,
                            span as u8,
                            chunk_or_none(chunk_index),
                            key,
                            sized_data_array(data@.len() as u16, T::spec_crc32(0xFFFF_FFFF, data@)),
                        );
                        &&& span <= ENTRIES_PER_PAGE && idx + span <= ENTRIES_PER_PAGE
                        &&& it.data@ == sized_data_bytes(data@.len() as u16, T::spec_crc32(0xFFFF_FFFF, data@))
                        &&& entry_offset(old(self).address as int, idx + 1) + data@.len() <= final(hal).flash().len()
                        &&& entry_bytes(final(hal).flash(), old(self).address as int, idx) == item_bytes(it)
                        &&& final(hal).flash().subrange(
                            entry_offset(old(self).address as int, idx + 1),
                            entry_offset(old(self).address as int, idx + 1) + data@.len(),
                        ) == data@
                        &&& page_write_frame(old(hal).flash(), final(hal).flash(), old(self).address as int, idx, idx + span)
                        &&& final(self).used_entry_count == old(self).used_entry_count + span
                        &&& bitmap_after_set(old(self).entry_state_bitmap@, final(self).entry_state_bitmap@, idx, idx + span, EntryMapState::Written)
                        &&& final(self).item_hash_list@ == old(self).item_hash_list@.push(
                            ItemHashListEntry {
                                hash: item_hash::<T>(namespace_index, key@, it.chunk_index),
                                index: idx as u8,
                            },
                        )
                        &&& final(self).header.sequence == old(self).header.sequence
                        &&& final(self).header.state == if idx + span == ENTRIES_PER_PAGE {
                            ThinPageState::Full
                        } else {
                            old(self).header.state
                        }
                    },
                    _ => false,
                }
            }),
    {
        let data_entries = if data.len() % ITEM_SIZE == 0 {
            data.len() / ITEM_SIZE
        } else {
            data.len() / ITEM_SIZE + 1
        };
        let span = data_entries + 1;
        if span > ENTRIES_PER_PAGE {
            return Err(Error::ValueTooLong);
        }
        if span > self.get_free_entry_count() {
            return Err(Error::PageFull);
        }
        let start_index = self.get_next_free_entry();
        let data_crc = T::crc32(0xFFFF_FFFF, data);
        let item_data = crate::raw::sized_data(data.len() as u16, data_crc);
        assert(item_data@ == sized_data_bytes(data@.len() as u16, T::spec_crc32(0xFFFF_FFFF, data@)));
        assert(item_data =~= sized_data_array(data@.len() as u16, T::spec_crc32(0xFFFF_FFFF, data@)));
        let chunk = match chunk_index {
            Some(c) => c,
            None => 0xFF,
        };
        let mut item = Item {
            namespace_index,
            type_,
            span: span as u8,
            chunk_index: chunk,
            crc: 0,
            key,
            data: item_data,
        };
        item.crc = item.calculate_crc32::<T>();
        let header_addr = self.address + ITEMS_OFFSET + ITEM_SIZE * start_index;
        let raw = item.to_bytes();
        let ghost f0 = hal.flash();
        let ghost a = self.address as int;
        let ghost idx = start_index as int;
        let ghost ib = item_bytes(item);
        Self::write_flash(hal, header_addr, raw.as_slice())?;
        let ghost f1 = hal.flash();
        proof {
            lemma_update_reads(f0, header_addr as int, ib);
            lemma_update_frame(f0, a, header_addr as int, ib, idx, idx + span);
        }
        let data_addr = header_addr + ITEM_SIZE;
        Self::write_flash(hal, data_addr, data)?;
        let ghost f2 = hal.flash();
        proof {
            lemma_update_reads(f1, data_addr as int, data@);
            lemma_update_keeps(f1, data_addr as int, data@, header_addr as int, data_addr as int);
            lemma_update_frame(f1, a, data_addr as int, data@, idx, idx + span);
            lemma_frame_trans(f0, f1, f2, a, idx, idx + span);
        }
        self.set_entry_state_range(hal, start_index as u8, (start_index + span) as u8, EntryMapState::Written)?;
        let ghost f3 = hal.flash();
        proof {
            let bo = a + BITMAP_OFFSET + idx / 4;
            let bb = self.entry_state_bitmap@.subrange(idx / 4, (idx + span - 1) / 4 + 1);
            lemma_update_keeps(f2, bo, bb, header_addr as int, data_addr as int);
            lemma_update_keeps(f2, bo, bb, data_addr as int, data_addr + data@.len());
            lemma_update_frame(f2, a, bo, bb, idx, idx + span);
            lemma_frame_trans(f0, f2, f3, a, idx, idx + span);
        }
        let hash = item.calculate_hash::<T>();
        self.item_hash_list.push(ItemHashListEntry { hash, index: start_index as u8 });
        self.used_entry_count = self.used_entry_count + span as u8;
        proof {
            assert(item == new_item::<T>(namespace_index, type_, span as u8, chunk_or_none(chunk_index), key, sized_data_array(data@.len() as u16, T::spec_crc32(0xFFFF_FFFF, data@))));
        }
        if start_index + span == ENTRIES_PER_PAGE {
            self.mark_as_full::<T>(hal)?;
            proof {
                let f4 = hal.flash();
                let hb = u32_le_bytes(page_state_word(PageState::Full));
                lemma_update_keeps(f3, a, hb, header_addr as int, data_addr as int);
                lemma_update_keeps(f3, a, hb, data_addr as int, data_addr + data@.len());
                lemma_update_frame(f3, a, a, hb, idx, idx + span);
                lemma_frame_trans(f0, f3, f4, a, idx, idx + span);
            }
        }
        Ok(())
    }
}

impl ThinPage {
    /// Loads the data bytes that follow the variable-sized item stored at `item_index`.
    pub fn load_referenced_data<T: Platform>(&self, hal: &mut T, item_index: u8, item: &Item) -> (r: Result<Vec<u8>, Error>)
        requires
            self.wf(),
            item_index < ENTRIES_PER_PAGE,
        ensures
            final(hal).flash() == old(hal).flash(),
            match r {
                Ok(d) => {
                    let start = entry_offset(self.address as int, item_index + 1);
                    &&& is_data_type(item.type_)
                    &&& start + sized_size(item.data@) <= old(hal).flash().len()
                    &&& d@ == old(hal).flash().subrange(start, start + sized_size(item.data@))
                },
                Err(Error::ItemTypeMismatch(t)) => t == item.type_ && !is_data_type(t),
                Err(Error::FlashError) => is_data_type(item.type_),
                _ => false,
            },
    {
        match item.type_ {
            ItemType::Sized | ItemType::BlobData | ItemType::Blob => {},
            _ => return Err(Error::ItemTypeMismatch(item.type_)),
        }
        let size = item.sized_size() as usize;
        let offset = self.address + ITEMS_OFFSET + ITEM_SIZE * (item_index as usize + 1);
        match hal.read(offset, size) {
            Ok(buf) => Ok(buf),
            Err(()) => Err(Error::FlashError),
        }
    }

    /// Marks the entries `item_index..item_index + span` erased and drops the item from
    /// the lookup list.
    pub fn erase_item<T: Platform>(&mut self, hal: &mut T, item_index: u8, span: u8) -> (r: Result<(), Error>)
        requires
            old(self).wf(),
            1 <= span,
            item_index + span <= ENTRIES_PER_PAGE,
            span <= old(self).used_entry_count,
        ensures
            final(self).wf(),
            final(self).address == old(self).address,
            final(self).header == old(self).header,
            bitmap_after_set(old(self).entry_state_bitmap@, final(self).entry_state_bitmap@, item_index as int, item_index + span, EntryMapState::Erased),
            final(hal).flash().len() == old(hal).flash().len(),
            final(self).next_free() == old(self).next_free(),
            old(self).listed_below_next_free() ==> final(self).listed_below_next_free(),
            r is Err ==> r == Err::<(), Error>(Error::FlashError) && final(self).item_hash_list == old(self).item_hash_list,
            r is Ok ==> {
                &&& final(self).erased_entry_count == old(self).erased_entry_count + span
                &&& final(self).used_entry_count == old(self).used_entry_count - span
                &&& final(self).item_hash_list@ == old(self).item_hash_list@.filter(
                    |e: ItemHashListEntry| e.index != item_index,
                )
                &&& forall|j: int|
                    0 <= j < final(self).item_hash_list@.len() ==> (#[trigger] final(self).item_hash_list@[j]).index
                        != item_index && old(self).item_hash_list@.contains(final(self).item_hash_list@[j])
                &&& forall|j: int|
                    0 <= j < old(self).item_hash_list@.len() && (#[trigger] old(self).item_hash_list@[j]).index
                        != item_index ==> final(self).item_hash_list@.contains(old(self).item_hash_list@[j])
                &&& final(hal).flash() == update_bytes(
                    old(hal).flash(),
                    old(self).address + BITMAP_OFFSET + item_index as int / 4,
                    final(self).entry_state_bitmap@.subrange(item_index as int / 4, (item_index + span - 1) / 4 + 1),
                )
            },
    {
        self.set_entry_state_range(hal, item_index, item_index + span, EntryMapState::Erased)?;
        self.erased_entry_count = self.erased_entry_count + span;
        self.used_entry_count = self.used_entry_count - span;
        let ghost pred = |e: ItemHashListEntry| e.index != item_index;
        let ghost old_list = self.item_hash_list@;
        let mut kept: Vec<ItemHashListEntry> = Vec::new();
        let mut i: usize = 0;
        while i < self.item_hash_list.len()
            invariant
                i <= old_list.len(),
                self.item_hash_list@ == old_list,
                kept@ == old_list.take(i as int).filter(pred),
                pred == (|e: ItemHashListEntry| e.index != item_index),
                forall|j: int|
                    0 <= j < kept@.len() ==> {
                        &&& (#[trigger] kept@[j]).index < ENTRIES_PER_PAGE
                        &&& kept@[j].hash < 0x100_0000
                    },
                forall|j: int|
                    0 <= j < old_list.len() ==> {
                        &&& (#[trigger] old_list[j]).index < ENTRIES_PER_PAGE
                        &&& old_list[j].hash < 0x100_0000
                    },
            decreases old_list.len() - i,
        {
            let e = self.item_hash_list[i];
            proof {
                reveal(Seq::filter);
                assert(old_list.take(i + 1).drop_last() =~= old_list.take(i as int));
                assert(old_list.take(i + 1).last() == e);
                assert(pred(e) == (e.index != item_index));
            }
            if e.index != item_index {
                kept.push(e);
            }
            i += 1;
        }
        proof {
            assert(old_list.take(old_list.len() as int) =~= old_list);
            broadcast use vstd::seq_lib::group_filter_ensures;
            assert forall|j: int| 0 <= j < kept@.len() implies (#[trigger] kept@[j]).index != item_index
                && old_list.contains(kept@[j]) by {
                assert(pred(kept@[j]));
                assert(kept@.contains(kept@[j]));
                old_list.lemma_filter_contains_rev(pred, kept@[j]);
            }
            assert forall|j: int| 0 <= j < old_list.len() && (#[trigger] old_list[j]).index != item_index implies kept@.contains(old_list[j]) by {
                assert(pred(old_list[j]));
                old_list.lemma_filter_contains(pred, j);
            }
        }
        self.item_hash_list = kept;
        Ok(())
    }

    /// Iterates over the items of the lookup list of this page.
    pub fn items(&self) -> (it: IterPageItems<'_>)
        ensures
            it.page == self,
            it.position == 0,
    {
        IterPageItems { page: self, position: 0 }
    }
}

/// Iterator over the items of a page's lookup list; each step loads an item from flash.
pub struct IterPageItems<'a> {
    pub page: &'a ThinPage,
    pub position: usize,
}

impl<'a> IterPageItems<'a> {
    /// Continues with the items of another page.
    pub fn switch_to_page(&mut self, new_page: &'a ThinPage)
        ensures
            final(self).page == new_page,
            final(self).position == 0,
    {
        self.page = new_page;
        self.position = 0;
    }

    /// Whether no item is left.
    pub fn is_empty(&self) -> (b: bool)
        ensures
            b == (self.position >= self.page.item_hash_list@.len()),
    {
        self.position >= self.page.item_hash_list.len()
    }

    /// Loads the next item, or gives `None` when no item is left.
    pub fn next<T: Platform>(&mut self, hal: &mut T) -> (r: Option<Result<Item, Error>>)
        requires
            old(self).page.wf(),
        ensures
            final(self).page == old(self).page,
            final(hal).flash() == old(hal).flash(),
            old(self).position >= old(self).page.item_hash_list@.len() ==> r is None && final(self).position == old(self).position,
            old(self).position < old(self).page.item_hash_list@.len() ==> {
                let e = old(self).page.item_hash_list@[old(self).position as int];
                &&& final(self).position == old(self).position + 1
                &&& r matches Some(res) && match res {
                    Ok(it) => stored_item::<T>(entry_bytes(old(hal).flash(), old(self).page.address as int, e.index as int)) == Some(it),
                    Err(Error::KeyNotFound) => stored_item::<T>(entry_bytes(old(hal).flash(), old(self).page.address as int, e.index as int)) is None,
                    Err(Error::FlashError) => true,
                    _ => false,
                }
            },
    {
        if self.position >= self.page.item_hash_list.len() {
            return None;
        }
        let entry = self.page.item_hash_list[self.position];
        self.position = self.position + 1;
        Some(self.page.load_item(hal, entry.index))
    }
}

/// Whether items of this type are followed by data entries that can be loaded.
pub open spec fn is_data_type(t: ItemType) -> bool {
    t == ItemType::Sized || t == ItemType::BlobData || t == ItemType::Blob
}

/// Read after write for entries: an item written by `write_item` (or
/// `write_variable_sized_item`) is what `load_item` finds at its entry.
pub proof fn lemma_written_item_loads<T: Platform>(
    namespace_index: u8,
    type_: ItemType,
    span: u8,
    chunk_index: u8,
    key: Key,
    data: [u8; 8],
)
    requires
        span < 0xFF,
    ensures
        stored_item::<T>(item_bytes(new_item::<T>(namespace_index, type_, span, chunk_index, key, data)))
            == Some(new_item::<T>(namespace_index, type_, span, chunk_index, key, data)),
{
    let it = new_item::<T>(namespace_index, type_, span, chunk_index, key, data);
    lemma_stored_item_of::<T>(it);
    assert(item_bytes(it)[2] == span);
    assert(item_crc_input(it) == item_crc_input(Item { crc: 0, ..it }));
}

/// Entry states after an update: entries set from empty read back as the state that was
/// set, entries set to erased read back as erased, and entries outside the range keep
/// their state.
pub proof fn lemma_entry_state_after_set(old: Seq<u8>, new: Seq<u8>, start: int, end: int, state: EntryMapState, i: int)
    requires
        old.len() == 32,
        bitmap_after_set(old, new, start, end, state),
        0 <= i < 128,
    ensures
        start <= i < end && entry_state_at(old, i) == EntryMapState::Empty ==> entry_state_at(new, i) == state,
        start <= i < end && state == EntryMapState::Erased ==> entry_state_at(new, i) == EntryMapState::Erased,
        !(start <= i < end) ==> entry_state_at(new, i) == entry_state_at(old, i),
{
    let b = entry_bits(old, i);
    let s = entry_state_bits(state);
    assert(entry_bits(new, i) == if start <= i < end { b & s } else { b });
    lemma_bits_lt_4(old[i / 4], ((i % 4) * 2) as u8);
    assert(b < 4);
    assert(b == 3u8 ==> b & s == s) by (bit_vector)
        requires
            s < 4,
    ;
    assert(b & 0u8 == 0u8) by (bit_vector);
}

/// The chunk index stored for an optional chunk: none is stored as 0xFF.
pub open spec fn chunk_or_none(chunk_index: Option<u8>) -> u8 {
    match chunk_index {
        Some(c) => c,
        None => 0xFF,
    }
}

/// The item written for the given fields, with its CRC.
pub open spec fn new_item<T: Platform>(
    namespace_index: u8,
    type_: ItemType,
    span: u8,
    chunk_index: u8,
    key: Key,
    data: [u8; 8],
) -> Item {
    let base = Item { namespace_index, type_, span, chunk_index, crc: 0, key, data };
    Item { crc: item_crc::<T>(base), ..base }
}

/// The data of a namespace entry: its index followed by erased bytes.
pub open spec fn namespace_data(value: u8) -> [u8; 8] {
    choose|d: [u8; 8]| #[trigger] d@ == seq![value, 0xFFu8, 0xFFu8, 0xFFu8, 0xFFu8, 0xFFu8, 0xFFu8, 0xFFu8]
}

/// The data array of a variable-sized item of `size` bytes with data CRC `crc`.
pub open spec fn sized_data_array(size: u16, crc: u32) -> [u8; 8] {
    choose|d: [u8; 8]| #[trigger] d@ == sized_data_bytes(size, crc)
}

/// Number of entries used by a variable-sized item holding `len` bytes: its header
/// entry and one entry per started 32 bytes.
pub open spec fn variable_span(len: nat) -> int {
    if len % 32 == 0 {
        (len / 32 + 1) as int
    } else {
        (len / 32 + 2) as int
    }
}

/// The flash changed at most in the header and bitmap area of the page at `address`.
pub open spec fn header_area_frame(old: Seq<u8>, new: Seq<u8>, address: int) -> bool {
    &&& new.len() == old.len()
    &&& forall|k: int|
        0 <= k < old.len() && !(address <= k < address + ITEMS_OFFSET) ==> #[trigger] new[k] == old[k]
}

/// The flash changed only inside the page at `address`, and there only in its header
/// and bitmap and in the entries `from..to`.
pub open spec fn page_write_frame(old: Seq<u8>, new: Seq<u8>, address: int, from: int, to: int) -> bool {
    &&& new.len() == old.len()
    &&& forall|k: int|
        0 <= k < old.len() && !(address <= k < address + ITEMS_OFFSET) && !(entry_offset(address, from) <= k
            < entry_offset(address, to)) ==> #[trigger] new[k] == old[k]
}

/// A write inside the header and bitmap of a page, or inside its entries `from..to`,
/// stays within the frame of a page write.
pub proof fn lemma_update_frame(f: Seq<u8>, address: int, offset: int, data: Seq<u8>, from: int, to: int)
    requires
        0 <= offset,
        offset + data.len() <= f.len(),
        (address <= offset && offset + data.len() <= address + ITEMS_OFFSET) || (entry_offset(address, from)
            <= offset && offset + data.len() <= entry_offset(address, to)),
    ensures
        page_write_frame(f, update_bytes(f, offset, data), address, from, to),
{
}

/// Two changes within the frame of a page write are one such change.
pub proof fn lemma_frame_trans(f0: Seq<u8>, f1: Seq<u8>, f2: Seq<u8>, address: int, from: int, to: int)
    requires
        page_write_frame(f0, f1, address, from, to),
        page_write_frame(f1, f2, address, from, to),
    ensures
        page_write_frame(f0, f2, address, from, to),
{
    assert forall|k: int|
        0 <= k < f0.len() && !(address <= k < address + ITEMS_OFFSET) && !(entry_offset(address, from) <= k
            < entry_offset(address, to)) implies #[trigger] f2[k] == f0[k] by {
        assert(f1[k] == f0[k]);
    }
}

/// A write leaves the bytes outside its range as they were.
pub proof fn lemma_update_keeps(f: Seq<u8>, offset: int, data: Seq<u8>, lo: int, hi: int)
    requires
        0 <= lo <= hi <= f.len(),
        hi <= offset || offset + data.len() <= lo,
    ensures
        update_bytes(f, offset, data).subrange(lo, hi) == f.subrange(lo, hi),
{
    assert(update_bytes(f, offset, data).subrange(lo, hi) =~= f.subrange(lo, hi));
}

/// A write makes its range read back as the written bytes.
pub proof fn lemma_update_reads(f: Seq<u8>, offset: int, data: Seq<u8>)
    requires
        0 <= offset,
        offset + data.len() <= f.len(),
    ensures
        update_bytes(f, offset, data).subrange(offset, offset + data.len()) == data,
{
    assert(update_bytes(f, offset, data).subrange(offset, offset + data.len()) =~= data);
}

} // verus!
