//! The on-flash layout: page header, entry state bitmap and 32-byte items.

use vstd::prelude::*;

use crate::error::Error;
use crate::platform::Platform;
use crate::types::Key;

verus! {

/// Size of a flash sector, which is also the size of a page.
pub const FLASH_SECTOR_SIZE: usize = 4096;

/// Size of the page header at the start of each page.
pub const PAGE_HEADER_SIZE: usize = 32;

/// Size of the entry state bitmap that follows the page header.
pub const ENTRY_STATE_BITMAP_SIZE: usize = 32;

/// Size of one entry (item) slot.
pub const ITEM_SIZE: usize = 32;

/// Number of entry slots in a page.
pub const ENTRIES_PER_PAGE: usize = 126;

/// Offset of the entry state bitmap within a page.
pub const BITMAP_OFFSET: usize = 32;

/// Offset of the first entry slot within a page.
pub const ITEMS_OFFSET: usize = 64;

/// Largest amount of data that a variable-sized item can hold in one page.
pub const MAX_BLOB_DATA_PER_PAGE: usize = 4000;

/// Largest blob that can be stored, spread over at most 127 chunks.
pub const MAX_BLOB_SIZE: usize = 508000;

// ---------------------------------------------------------------------------------------
// little-endian integers

pub open spec fn u16_le(b0: u8, b1: u8) -> u16 {
    ((b0 as u16) | ((b1 as u16) << 8u16)) as u16
}

pub open spec fn u32_le(b: Seq<u8>) -> u32 {
    ((b[0] as u32) | ((b[1] as u32) << 8u32) | ((b[2] as u32) << 16u32) | ((b[3] as u32)
        << 24u32)) as u32
}

pub open spec fn u32_le_bytes(x: u32) -> Seq<u8> {
    seq![(x & 0xff) as u8, ((x >> 8u32) & 0xff) as u8, ((x >> 16u32) & 0xff) as u8, ((x >> 24u32) & 0xff) as u8]
}

pub open spec fn u64_le(b: Seq<u8>) -> u64 {
    ((b[0] as u64) | ((b[1] as u64) << 8u64) | ((b[2] as u64) << 16u64) | ((b[3] as u64)
        << 24u64) | ((b[4] as u64) << 32u64) | ((b[5] as u64) << 40u64) | ((b[6] as u64)
        << 48u64) | ((b[7] as u64) << 56u64)) as u64
}

/// Encoding a word and decoding it gives the word back.
pub proof fn lemma_u32_le_roundtrip(x: u32)
    ensures
        u32_le(u32_le_bytes(x)) == x,
        u32_le_bytes(x).len() == 4,
{
    let b = u32_le_bytes(x);
    let b0 = (x & 0xff) as u8;
    let b1 = ((x >> 8u32) & 0xff) as u8;
    let b2 = ((x >> 16u32) & 0xff) as u8;
    let b3 = ((x >> 24u32) & 0xff) as u8;
    assert(b[0] == b0 && b[1] == b1 && b[2] == b2 && b[3] == b3);
    assert(((b0 as u32) | ((b1 as u32) << 8u32) | ((b2 as u32) << 16u32) | ((b3 as u32)
        << 24u32)) == x) by (bit_vector)
        requires
            b0 == (x & 0xff) as u8,
            b1 == ((x >> 8u32) & 0xff) as u8,
            b2 == ((x >> 16u32) & 0xff) as u8,
            b3 == ((x >> 24u32) & 0xff) as u8,
    ;
}

/// Decoding four bytes and encoding the word gives the bytes back.
pub proof fn lemma_u32_le_bytes_roundtrip(b: Seq<u8>)
    requires
        b.len() == 4,
    ensures
        u32_le_bytes(u32_le(b)) == b,
{
    let b0 = b[0];
    let b1 = b[1];
    let b2 = b[2];
    let b3 = b[3];
    let x = u32_le(b);
    assert(x == ((b0 as u32) | ((b1 as u32) << 8u32) | ((b2 as u32) << 16u32) | ((b3 as u32)
        << 24u32)));
    assert((x & 0xff) as u8 == b0 && ((x >> 8u32) & 0xff) as u8 == b1 && ((x >> 16u32) & 0xff)
        as u8 == b2 && ((x >> 24u32) & 0xff) as u8 == b3) by (bit_vector)
        requires
            x == ((b0 as u32) | ((b1 as u32) << 8u32) | ((b2 as u32) << 16u32) | ((b3 as u32)
                << 24u32)),
    ;
    assert(u32_le_bytes(x) =~= b);
}

/// The four little-endian bytes of `x`.
pub fn u32_to_le(x: u32) -> (b: [u8; 4])
    ensures
        b@ == u32_le_bytes(x),
{
    let b = [(x & 0xff) as u8, ((x >> 8) & 0xff) as u8, ((x >> 16) & 0xff) as u8, ((x >> 24) & 0xff) as u8];
    assert(b@ =~= u32_le_bytes(x));
    b
}

/// The little-endian `u32` at `offset` in `b`.
pub fn read_u32_le(b: &[u8], offset: usize) -> (x: u32)
    requires
        offset + 4 <= b@.len(),
    ensures
        x == u32_le(b@.subrange(offset as int, offset + 4)),
{
    (b[offset] as u32) | ((b[offset + 1] as u32) << 8) | ((b[offset + 2] as u32) << 16) | ((
    b[offset + 3] as u32) << 24)
}

/// The little-endian `u16` at `offset` in `b`.
pub fn read_u16_le(b: &[u8], offset: usize) -> (x: u16)
    requires
        offset + 2 <= b@.len(),
    ensures
        x == u16_le(b@[offset as int], b@[offset + 1]),
{
    (b[offset] as u16) | ((b[offset + 1] as u16) << 8)
}

/// The little-endian `u64` made of the 8 bytes of `b`.
pub fn u64_from_le(b: &[u8; 8]) -> (x: u64)
    ensures
        x == u64_le(b@),
{
    (b[0] as u64) | ((b[1] as u64) << 8) | ((b[2] as u64) << 16) | ((b[3] as u64) << 24) | ((
    b[4] as u64) << 32) | ((b[5] as u64) << 40) | ((b[6] as u64) << 48) | ((b[7] as u64) << 56)
}

// ---------------------------------------------------------------------------------------
// page state

/// State of a page as stored in the first word of its header.
#[derive(Debug, Clone, Copy, PartialEq, Eq, Structural)]
pub enum PageState {
    Uninitialized,
    Active,
    Full,
    Freeing,
    Corrupt,
    Invalid,
}

pub open spec fn page_state_word(s: PageState) -> u32 {
    match s {
        PageState::Uninitialized => 0xFFFF_FFFF,
        PageState::Active => 0xFFFF_FFFE,
        PageState::Full => 0xFFFF_FFFC,
        PageState::Freeing => 0xFFFF_FFF8,
        PageState::Corrupt => 0xFFFF_FFF0,
        PageState::Invalid => 0,
    }
}

/// The state a header word stands for; words of no state read as `Invalid`.
pub open spec fn page_state_of_word(w: u32) -> PageState {
    if w == 0xFFFF_FFFF {
        PageState::Uninitialized
    } else if w == 0xFFFF_FFFE {
        PageState::Active
    } else if w == 0xFFFF_FFFC {
        PageState::Full
    } else if w == 0xFFFF_FFF8 {
        PageState::Freeing
    } else if w == 0xFFFF_FFF0 {
        PageState::Corrupt
    } else {
        PageState::Invalid
    }
}

impl PageState {
    pub fn to_word(&self) -> (w: u32)
        ensures
            w == page_state_word(*self),
    {
        match self {
            PageState::Uninitialized => 0xFFFF_FFFF,
            PageState::Active => 0xFFFF_FFFE,
            PageState::Full => 0xFFFF_FFFC,
            PageState::Freeing => 0xFFFF_FFF8,
            PageState::Corrupt => 0xFFFF_FFF0,
            PageState::Invalid => 0,
        }
    }

    pub fn from_word(w: u32) -> (s: PageState)
        ensures
            s == page_state_of_word(w),
    {
        if w == 0xFFFF_FFFF {
            PageState::Uninitialized
        } else if w == 0xFFFF_FFFE {
            PageState::Active
        } else if w == 0xFFFF_FFFC {
            PageState::Full
        } else if w == 0xFFFF_FFF8 {
            PageState::Freeing
        } else if w == 0xFFFF_FFF0 {
            PageState::Corrupt
        } else {
            PageState::Invalid
        }
    }
}

/// Decoding a written state word gives back the state.
pub proof fn lemma_page_state_roundtrip(s: PageState)
    ensures
        page_state_of_word(page_state_word(s)) == s,
{
}

// ---------------------------------------------------------------------------------------
// entry states

/// State of an entry slot: two bits in the entry state bitmap.
#[derive(Debug, Clone, Copy, PartialEq, Eq, Structural)]
pub enum EntryMapState {
    Empty,
    Written,
    Erased,
    Illegal,
}

pub open spec fn entry_state_bits(s: EntryMapState) -> u8 {
    match s {
        EntryMapState::Empty => 3,
        EntryMapState::Written => 2,
        EntryMapState::Erased => 0,
        EntryMapState::Illegal => 1,
    }
}

pub open spec fn entry_state_of_bits(b: u8) -> EntryMapState {
    if b == 3 {
        EntryMapState::Empty
    } else if b == 2 {
        EntryMapState::Written
    } else if b == 0 {
        EntryMapState::Erased
    } else {
        EntryMapState::Illegal
    }
}

impl EntryMapState {
    pub fn to_bits(&self) -> (b: u8)
        ensures
            b == entry_state_bits(*self),
            b < 4,
    {
        match self {
            EntryMapState::Empty => 3,
            EntryMapState::Written => 2,
            EntryMapState::Erased => 0,
            EntryMapState::Illegal => 1,
        }
    }

    pub fn from_bits(b: u8) -> (s: EntryMapState)
        ensures
            s == entry_state_of_bits(b),
    {
        if b == 3 {
            EntryMapState::Empty
        } else if b == 2 {
            EntryMapState::Written
        } else if b == 0 {
            EntryMapState::Erased
        } else {
            EntryMapState::Illegal
        }
    }
}

// ---------------------------------------------------------------------------------------
// item types

/// Type of a stored item.
#[derive(Debug, Clone, Copy, PartialEq, Eq, Structural)]
pub enum ItemType {
    U8,
    I8,
    U16,
    I16,
    U32,
    I32,
    U64,
    I64,
    Sized,
    Blob,
    BlobData,
    BlobIndex,
    Any,
}

pub open spec fn item_type_byte(t: ItemType) -> u8 {
    match t {
        ItemType::U8 => 0x01,
        ItemType::I8 => 0x11,
        ItemType::U16 => 0x02,
        ItemType::I16 => 0x12,
        ItemType::U32 => 0x04,
        ItemType::I32 => 0x14,
        ItemType::U64 => 0x08,
        ItemType::I64 => 0x18,
        ItemType::Sized => 0x21,
        ItemType::Blob => 0x41,
        ItemType::BlobData => 0x42,
        ItemType::BlobIndex => 0x48,
        ItemType::Any => 0xFF,
    }
}

/// Whether `b` is the byte of some item type.
pub open spec fn is_item_type_byte(b: u8) -> bool {
    exists|t: ItemType| item_type_byte(t) == b
}

/// Number of value bytes of a primitive type.
pub open spec fn primitive_width(t: ItemType) -> Option<usize> {
    match t {
        ItemType::U8 | ItemType::I8 => Some(1),
        ItemType::U16 | ItemType::I16 => Some(2),
        ItemType::U32 | ItemType::I32 => Some(4),
        ItemType::U64 | ItemType::I64 => Some(8),
        _ => None,
    }
}

/// Whether items of this type hold their value in the 8 data bytes of the item itself.
pub open spec fn is_scalar_type(t: ItemType) -> bool {
    primitive_width(t) is Some || t == ItemType::BlobIndex
}

/// Whether items of this type are followed by entries holding their data.
pub open spec fn is_variable_type(t: ItemType) -> bool {
    t == ItemType::Sized || t == ItemType::BlobData
}

impl ItemType {
    pub fn to_byte(&self) -> (b: u8)
        ensures
            b == item_type_byte(*self),
    {
        match self {
            ItemType::U8 => 0x01,
            ItemType::I8 => 0x11,
            ItemType::U16 => 0x02,
            ItemType::I16 => 0x12,
            ItemType::U32 => 0x04,
            ItemType::I32 => 0x14,
            ItemType::U64 => 0x08,
            ItemType::I64 => 0x18,
            ItemType::Sized => 0x21,
            ItemType::Blob => 0x41,
            ItemType::BlobData => 0x42,
            ItemType::BlobIndex => 0x48,
            ItemType::Any => 0xFF,
        }
    }

    pub fn from_byte(b: u8) -> (t: Option<ItemType>)
        ensures
            t matches Some(t) ==> item_type_byte(t) == b,
            t is None <==> !is_item_type_byte(b),
    {
        let t = if b == 0x01 {
            Some(ItemType::U8)
        } else if b == 0x11 {
            Some(ItemType::I8)
        } else if b == 0x02 {
            Some(ItemType::U16)
        } else if b == 0x12 {
            Some(ItemType::I16)
        } else if b == 0x04 {
            Some(ItemType::U32)
        } else if b == 0x14 {
            Some(ItemType::I32)
        } else if b == 0x08 {
            Some(ItemType::U64)
        } else if b == 0x18 {
            Some(ItemType::I64)
        } else if b == 0x21 {
            Some(ItemType::Sized)
        } else if b == 0x41 {
            Some(ItemType::Blob)
        } else if b == 0x42 {
            Some(ItemType::BlobData)
        } else if b == 0x48 {
            Some(ItemType::BlobIndex)
        } else if b == 0xFF {
            Some(ItemType::Any)
        } else {
            None
        };
        proof {
            if let Some(tt) = t {
                assert(item_type_byte(tt) == b);
            }
            if t is None {
                assert forall|t: ItemType| item_type_byte(t) != b by {
                    match t {
                        ItemType::U8 => {},
                        _ => {},
                    }
                }
            }
        }
        t
    }

    /// Number of value bytes of a primitive type; other types are refused.
    pub fn get_primitive_bytes_width(&self) -> (r: Result<usize, Error>)
        ensures
            match primitive_width(*self) {
                Some(w) => r == Ok::<usize, Error>(w),
                None => r == Err::<usize, Error>(Error::ItemTypeMismatch(*self)),
            },
    {
        match self {
            ItemType::U8 | ItemType::I8 => Ok(1),
            ItemType::U16 | ItemType::I16 => Ok(2),
            ItemType::U32 | ItemType::I32 => Ok(4),
            ItemType::U64 | ItemType::I64 => Ok(8),
            _ => Err(Error::ItemTypeMismatch(*self)),
        }
    }

    pub fn is_scalar(&self) -> (b: bool)
        ensures
            b == is_scalar_type(*self),
    {
        match self {
            ItemType::U8 | ItemType::I8 | ItemType::U16 | ItemType::I16 | ItemType::U32
            | ItemType::I32 | ItemType::U64 | ItemType::I64 | ItemType::BlobIndex => true,
            _ => false,
        }
    }

    pub fn is_variable(&self) -> (b: bool)
        ensures
            b == is_variable_type(*self),
    {
        match self {
            ItemType::Sized | ItemType::BlobData => true,
            _ => false,
        }
    }

    pub fn same(&self, other: &ItemType) -> (b: bool)
        ensures
            b == (*self == *other),
    {
        self.to_byte() == other.to_byte()
    }
}

/// Distinct types have distinct bytes.
pub proof fn lemma_item_type_byte_injective(a: ItemType, b: ItemType)
    requires
        item_type_byte(a) == item_type_byte(b),
    ensures
        a == b,
{
    match a {
        ItemType::U8 => {},
        _ => {},
    }
}

// ---------------------------------------------------------------------------------------
// items

/// One 32-byte entry: an item header, or the first entry of a variable-sized item.
///
/// Layout: namespace index, type, span, chunk index, CRC-32 (little endian), 16 key bytes,
/// 8 data bytes. The CRC covers every byte but its own four.
#[derive(Clone, Copy)]
pub struct Item {
    pub namespace_index: u8,
    pub type_: ItemType,
    pub span: u8,
    pub chunk_index: u8,
    pub crc: u32,
    pub key: Key,
    pub data: [u8; 8],
}

/// The 32 bytes of an item as stored on flash.
pub open spec fn item_bytes(it: Item) -> Seq<u8> {
    seq![it.namespace_index, item_type_byte(it.type_), it.span, it.chunk_index] + u32_le_bytes(
        it.crc,
    ) + it.key@ + it.data@
}

/// The bytes of a stored entry that its CRC covers.
pub open spec fn entry_crc_input(b: Seq<u8>) -> Seq<u8> {
    b.subrange(0, 4) + b.subrange(8, 32)
}

/// The bytes of an item that its CRC covers.
pub open spec fn item_crc_input(it: Item) -> Seq<u8> {
    seq![it.namespace_index, item_type_byte(it.type_), it.span, it.chunk_index] + it.key@
        + it.data@
}

/// The CRC that an item must carry.
pub open spec fn item_crc<T: Platform>(it: Item) -> u32 {
    T::spec_crc32(0xFFFF_FFFF, item_crc_input(it))
}

/// The bytes that the lookup hash of an item covers.
pub open spec fn hash_input(namespace_index: u8, key: Seq<u8>, chunk_index: u8) -> Seq<u8> {
    seq![namespace_index] + key + seq![chunk_index]
}

/// The 24-bit lookup hash of a (namespace, key, chunk) triple.
pub open spec fn item_hash<T: Platform>(namespace_index: u8, key: Seq<u8>, chunk_index: u8) -> u32 {
    T::spec_crc32(0xFFFF_FFFF, hash_input(namespace_index, key, chunk_index)) & 0xFF_FFFF
}

/// Size field of the data of a variable-sized item.
pub open spec fn sized_size(data: Seq<u8>) -> u16 {
    u16_le(data[0], data[1])
}

/// CRC of the data of a variable-sized item.
pub open spec fn sized_crc(data: Seq<u8>) -> u32 {
    u32_le(data.subrange(4, 8))
}

/// Total size field of a blob index.
pub open spec fn blob_index_size(data: Seq<u8>) -> u32 {
    u32_le(data.subrange(0, 4))
}

/// The data bytes of a variable-sized item: size, two reserved bytes, data CRC.
pub open spec fn sized_data_bytes(size: u16, crc: u32) -> Seq<u8> {
    seq![(size & 0xff) as u8, ((size >> 8u16) & 0xff) as u8, 0xFFu8, 0xFFu8] + u32_le_bytes(crc)
}

/// The data bytes of a blob index: total size, chunk count, first chunk, two reserved bytes.
pub open spec fn blob_index_data_bytes(size: u32, chunk_count: u8, chunk_start: u8) -> Seq<u8> {
    u32_le_bytes(size) + seq![chunk_count, chunk_start, 0xFFu8, 0xFFu8]
}

/// The checksum of a stored item covers its stored bytes except the four of the CRC field.
pub proof fn lemma_entry_crc_input(it: Item)
    ensures
        item_bytes(it).len() == 32,
        entry_crc_input(item_bytes(it)) == item_crc_input(it),
{
    lemma_u32_le_roundtrip(it.crc);
    assert(entry_crc_input(item_bytes(it)) =~= item_crc_input(it));
}

/// Two items with the same stored bytes are the same item.
pub proof fn lemma_item_bytes_injective(a: Item, b: Item)
    requires
        item_bytes(a) == item_bytes(b),
    ensures
        a == b,
{
    let ba = item_bytes(a);
    let bb = item_bytes(b);
    lemma_u32_le_roundtrip(a.crc);
    lemma_u32_le_roundtrip(b.crc);
    assert(ba[1] == item_type_byte(a.type_));
    assert(bb[1] == item_type_byte(b.type_));
    lemma_item_type_byte_injective(a.type_, b.type_);
    assert(ba.subrange(4, 8) =~= u32_le_bytes(a.crc));
    assert(bb.subrange(4, 8) =~= u32_le_bytes(b.crc));
    assert(ba.subrange(8, 24) =~= a.key@);
    assert(bb.subrange(8, 24) =~= b.key@);
    assert(ba.subrange(24, 32) =~= a.data@);
    assert(bb.subrange(24, 32) =~= b.data@);
    assert(ba[0] == a.namespace_index && bb[0] == b.namespace_index);
    assert(ba[2] == a.span && bb[2] == b.span);
    assert(ba[3] == a.chunk_index && bb[3] == b.chunk_index);
    assert(a.key.0@ =~= ba.subrange(8, 24));
    assert(b.key.0@ =~= bb.subrange(8, 24));
    assert(a.key.0 =~= b.key.0);
    assert(a.data =~= b.data);
}

/// Copies `src[offset..offset + N]` into a new array.
pub fn array_from<const N: usize>(src: &[u8], offset: usize, fill: u8) -> (a: [u8; N])
    requires
        offset + N <= src@.len(),
    ensures
        a@ == src@.subrange(offset as int, offset + N),
{
    let mut a = [fill; N];
    let mut i: usize = 0;
    let len = src.len();
    while i < N
        invariant
            i <= N,
            len == src@.len(),
            offset + N <= src@.len(),
            a@.len() == N,
            forall|j: int| 0 <= j < i ==> a@[j] == src@[offset + j],
        decreases N - i,
    {
        a[i] = src[offset + i];
        i += 1;
    }
    assert(a@ =~= src@.subrange(offset as int, offset + N));
    a
}

/// Whether two byte slices hold the same bytes.
pub fn same_bytes(a: &[u8], b: &[u8]) -> (r: bool)
    ensures
        r == (a@ == b@),
{
    if a.len() != b.len() {
        return false;
    }
    let mut i: usize = 0;
    while i < a.len()
        invariant
            i <= a@.len(),
            a@.len() == b@.len(),
            forall|j: int| 0 <= j < i ==> a@[j] == b@[j],
        decreases a@.len() - i,
    {
        if a[i] != b[i] {
            return false;
        }
        i += 1;
    }
    assert(a@ =~= b@);
    true
}

/// Appends the bytes of `src` to `v`.
pub fn push_all(v: &mut Vec<u8>, src: &[u8])
    ensures
        final(v)@ == old(v)@ + src@,
{
    let mut i: usize = 0;
    while i < src.len()
        invariant
            i <= src@.len(),
            v@ == old(v)@ + src@.subrange(0, i as int),
        decreases src@.len() - i,
    {
        v.push(src[i]);
        i += 1;
        assert(src@.subrange(0, i as int) =~= src@.subrange(0, i - 1) + seq![src@[i - 1]]);
    }
    assert(src@.subrange(0, src@.len() as int) =~= src@);
}

impl Item {
    /// The 32 bytes of the item as stored on flash.
    pub fn to_bytes(&self) -> (b: Vec<u8>)
        ensures
            b@ == item_bytes(*self),
    {
        let mut b: Vec<u8> = Vec::with_capacity(32);
        b.push(self.namespace_index);
        b.push(self.type_.to_byte());
        b.push(self.span);
        b.push(self.chunk_index);
        let crc = u32_to_le(self.crc);
        push_all(&mut b, crc.as_slice());
        push_all(&mut b, self.key.0.as_slice());
        push_all(&mut b, self.data.as_slice());
        assert(b@ =~= item_bytes(*self));
        b
    }

    /// Decodes a stored entry; entries whose type byte names no type give `None`.
    pub fn from_bytes(b: &[u8]) -> (r: Option<Item>)
        requires
            b@.len() == 32,
        ensures
            r matches Some(it) ==> item_bytes(it) == b@,
            r is None <==> !is_item_type_byte(b@[1]),
    {
        match ItemType::from_byte(b[1]) {
            None => None,
            Some(t) => {
                let crc = read_u32_le(b, 4);
                let key: [u8; 16] = array_from(b, 8, 0);
                let data: [u8; 8] = array_from(b, 24, 0);
                let it = Item {
                    namespace_index: b[0],
                    type_: t,
                    span: b[2],
                    chunk_index: b[3],
                    crc,
                    key: Key(key),
                    data,
                };
                proof {
                    lemma_u32_le_bytes_roundtrip(b@.subrange(4, 8));
                    assert(item_bytes(it) =~= b@);
                }
                Some(it)
            },
        }
    }

    /// The CRC that the item must carry, computed with the platform's checksum.
    pub fn calculate_crc32<T: Platform>(&self) -> (crc: u32)
        ensures
            crc == item_crc::<T>(*self),
    {
        let mut b: Vec<u8> = Vec::with_capacity(28);
        b.push(self.namespace_index);
        b.push(self.type_.to_byte());
        b.push(self.span);
        b.push(self.chunk_index);
        push_all(&mut b, self.key.0.as_slice());
        push_all(&mut b, self.data.as_slice());
        assert(b@ =~= item_crc_input(*self));
        T::crc32(0xFFFF_FFFF, b.as_slice())
    }

    /// The lookup hash of this item.
    pub fn calculate_hash<T: Platform>(&self) -> (h: u32)
        ensures
            h == item_hash::<T>(self.namespace_index, self.key@, self.chunk_index),
            h < 0x100_0000,
    {
        Self::calculate_hash_ref::<T>(self.namespace_index, &self.key, self.chunk_index)
    }

    /// The lookup hash of a (namespace, key, chunk) triple.
    pub fn calculate_hash_ref<T: Platform>(namespace_index: u8, key: &Key, chunk_index: u8) -> (h:
        u32)
        ensures
            h == item_hash::<T>(namespace_index, key@, chunk_index),
            h < 0x100_0000,
    {
        let mut b: Vec<u8> = Vec::with_capacity(18);
        b.push(namespace_index);
        push_all(&mut b, key.0.as_slice());
        b.push(chunk_index);
        assert(b@ =~= hash_input(namespace_index, key@, chunk_index));
        let c = T::crc32(0xFFFF_FFFF, b.as_slice());
        let h = c & 0xFF_FFFF;
        assert(c & 0xFF_FFFF < 0x100_0000) by (bit_vector);
        h
    }

    /// Whether two items are equal in every field.
    pub fn same_as(&self, other: &Item) -> (b: bool)
        ensures
            b == (*self == *other),
    {
        if self.namespace_index != other.namespace_index || !self.type_.same(&other.type_) || self.span
            != other.span || self.chunk_index != other.chunk_index || self.crc != other.crc
            || !self.key.equals(&other.key) {
            return false;
        }
        let mut i: usize = 0;
        while i < 8
            invariant
                i <= 8,
                self.data@.len() == 8,
                other.data@.len() == 8,
                forall|j: int| 0 <= j < i ==> self.data@[j] == other.data@[j],
            decreases 8 - i,
        {
            if self.data[i] != other.data[i] {
                return false;
            }
            i += 1;
        }
        assert(self.data =~= other.data);
        assert(self.key.0 =~= other.key.0);
        true
    }

    /// The value of a primitive item: its 8 data bytes, little endian.
    pub fn raw_u64(&self) -> (x: u64)
        ensures
            x == u64_le(self.data@),
    {
        u64_from_le(&self.data)
    }

    /// Size field of a variable-sized item.
    pub fn sized_size(&self) -> (s: u16)
        ensures
            s == sized_size(self.data@),
    {
        read_u16_le(self.data.as_slice(), 0)
    }

    /// Data CRC of a variable-sized item.
    pub fn sized_crc(&self) -> (c: u32)
        ensures
            c == sized_crc(self.data@),
    {
        read_u32_le(self.data.as_slice(), 4)
    }

    /// Total size field of a blob index.
    pub fn blob_size(&self) -> (s: u32)
        ensures
            s == blob_index_size(self.data@),
    {
        read_u32_le(self.data.as_slice(), 0)
    }

    /// Chunk count of a blob index.
    pub fn chunk_count(&self) -> (c: u8)
        ensures
            c == self.data@[4],
    {
        self.data[4]
    }

    /// First chunk index of a blob index.
    pub fn chunk_start(&self) -> (c: u8)
        ensures
            c == self.data@[5],
    {
        self.data[5]
    }
}

/// The data bytes of a variable-sized item.
pub fn sized_data(size: u16, crc: u32) -> (d: [u8; 8])
    ensures
        d@ == sized_data_bytes(size, crc),
{
    let c = u32_to_le(crc);
    let d = [(size & 0xff) as u8, ((size >> 8) & 0xff) as u8, 0xFF, 0xFF, c[0], c[1], c[2], c[3]];
    assert(d@ =~= sized_data_bytes(size, crc));
    d
}

/// The data bytes of a blob index.
pub fn blob_index_data(size: u32, chunk_count: u8, chunk_start: u8) -> (d: [u8; 8])
    ensures
        d@ == blob_index_data_bytes(size, chunk_count, chunk_start),
{
    let c = u32_to_le(size);
    let d = [c[0], c[1], c[2], c[3], chunk_count, chunk_start, 0xFF, 0xFF];
    assert(d@ =~= blob_index_data_bytes(size, chunk_count, chunk_start));
    d
}

/// The data of a variable-sized item read back its size and data CRC.
pub proof fn lemma_sized_data_fields(size: u16, crc: u32)
    ensures
        sized_size(sized_data_bytes(size, crc)) == size,
        sized_crc(sized_data_bytes(size, crc)) == crc,
        sized_data_bytes(size, crc).len() == 8,
{
    let d = sized_data_bytes(size, crc);
    lemma_u32_le_roundtrip(crc);
    assert(d.subrange(4, 8) =~= u32_le_bytes(crc));
    let b0 = (size & 0xff) as u8;
    let b1 = ((size >> 8u16) & 0xff) as u8;
    assert(((b0 as u16) | ((b1 as u16) << 8u16)) == size) by (bit_vector)
        requires
            b0 == (size & 0xff) as u8,
            b1 == ((size >> 8u16) & 0xff) as u8,
    ;
}

/// The data of a blob index read back its total size, chunk count and first chunk.
pub proof fn lemma_blob_index_data_fields(size: u32, chunk_count: u8, chunk_start: u8)
    ensures
        blob_index_size(blob_index_data_bytes(size, chunk_count, chunk_start)) == size,
        blob_index_data_bytes(size, chunk_count, chunk_start)[4] == chunk_count,
        blob_index_data_bytes(size, chunk_count, chunk_start)[5] == chunk_start,
        blob_index_data_bytes(size, chunk_count, chunk_start).len() == 8,
{
    let d = blob_index_data_bytes(size, chunk_count, chunk_start);
    lemma_u32_le_roundtrip(size);
    assert(d.subrange(0, 4) =~= u32_le_bytes(size));
}

// ---------------------------------------------------------------------------------------
// page header

/// The bytes of a page header that its CRC covers: sequence, version and reserved bytes.
pub open spec fn header_crc_input(b: Seq<u8>) -> Seq<u8> {
    b.subrange(4, 28)
}

/// Whether the CRC stored in a 32-byte page header matches the header.
pub open spec fn header_crc_ok<T: Platform>(b: Seq<u8>) -> bool {
    u32_le(b.subrange(28, 32)) == T::spec_crc32(0xFFFF_FFFF, header_crc_input(b))
}

/// The header written when a page is initialized: state, sequence, version, 19 erased
/// reserved bytes and the CRC.
pub open spec fn header_bytes<T: Platform>(state: u32, sequence: u32, version: u8) -> Seq<u8> {
    let body = u32_le_bytes(sequence) + seq![version] + Seq::new(19, |i: int| 0xFFu8);
    u32_le_bytes(state) + body + u32_le_bytes(T::spec_crc32(0xFFFF_FFFF, body))
}

/// The CRC of a header written with `sequence` and `version`.
pub open spec fn header_crc<T: Platform>(sequence: u32, version: u8) -> u32 {
    T::spec_crc32(0xFFFF_FFFF, u32_le_bytes(sequence) + seq![version] + Seq::new(19, |i: int| 0xFFu8))
}

/// A written header carries a matching CRC and reads back its fields.
pub proof fn lemma_header_bytes<T: Platform>(state: u32, sequence: u32, version: u8)
    ensures
        header_bytes::<T>(state, sequence, version).len() == 32,
        header_crc_ok::<T>(header_bytes::<T>(state, sequence, version)),
        u32_le(header_bytes::<T>(state, sequence, version).subrange(0, 4)) == state,
        u32_le(header_bytes::<T>(state, sequence, version).subrange(4, 8)) == sequence,
        header_bytes::<T>(state, sequence, version)[8] == version,
        u32_le(header_bytes::<T>(state, sequence, version).subrange(28, 32)) == header_crc::<T>(sequence, version),
{
    let b = header_bytes::<T>(state, sequence, version);
    let body = u32_le_bytes(sequence) + seq![version] + Seq::new(19, |i: int| 0xFFu8);
    let crc = T::spec_crc32(0xFFFF_FFFF, body);
    lemma_u32_le_roundtrip(state);
    lemma_u32_le_roundtrip(sequence);
    lemma_u32_le_roundtrip(crc);
    assert(b.subrange(0, 4) =~= u32_le_bytes(state));
    assert(b.subrange(4, 8) =~= u32_le_bytes(sequence));
    assert(b.subrange(28, 32) =~= u32_le_bytes(crc));
    assert(header_crc_input(b) =~= body);
}

/// The header bytes of a freshly initialized page and their CRC.
pub fn header_to_bytes<T: Platform>(state: u32, sequence: u32, version: u8) -> (r: (Vec<u8>, u32))
    ensures
        r.0@ == header_bytes::<T>(state, sequence, version),
        r.1 == header_crc::<T>(sequence, version),
{
    let mut body: Vec<u8> = Vec::with_capacity(24);
    let s = u32_to_le(sequence);
    push_all(&mut body, s.as_slice());
    body.push(version);
    let mut i: usize = 0;
    while i < 19
        invariant
            i <= 19,
            body@ == u32_le_bytes(sequence) + seq![version] + Seq::new(i as nat, |j: int| 0xFFu8),
        decreases 19 - i,
    {
        body.push(0xFF);
        i += 1;
        assert(body@ =~= u32_le_bytes(sequence) + seq![version] + Seq::new(i as nat, |j: int| 0xFFu8));
    }
    let crc = T::crc32(0xFFFF_FFFF, body.as_slice());
    let mut out: Vec<u8> = Vec::with_capacity(32);
    let st = u32_to_le(state);
    push_all(&mut out, st.as_slice());
    push_all(&mut out, body.as_slice());
    let c = u32_to_le(crc);
    push_all(&mut out, c.as_slice());
    assert(out@ =~= header_bytes::<T>(state, sequence, version));
    (out, crc)
}

} // verus!
