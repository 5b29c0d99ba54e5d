//! Loading the pages of a partition from flash.

use vstd::prelude::*;

use crate::blob::{
    entry_is, entry_order_key, lemma_entry_order_key_injective, BlobIndex, BlobIndexEntry,
    BlobIndexEntryBlobIndexData, BlobObservedData, ChunkData,
};
use crate::compaction::{lemma_no_duplicates_kept, no_duplicate_items};
use crate::error::Error;
use crate::nvs::{namespace_index_of, namespaces_unique, Nvs};
use crate::page::{
    all_erased, bitmap_after_set, entry_bits, entry_bytes, entry_state_at, entry_offset, header_area_frame, lemma_stored_item_of,
    stored_item, ItemHashListEntry, Namespace, ThinPage, ThinPageHeader, ThinPageState,
};
use crate::platform::{update_bytes, Platform};
use crate::raw::{
    array_from, blob_index_size, header_crc_ok, sized_crc, item_bytes, item_hash, read_u32_le, sized_size, u32_le, EntryMapState, Item, ItemType,
    PageState, page_state_of_word, BITMAP_OFFSET, ENTRIES_PER_PAGE, FLASH_SECTOR_SIZE, ITEMS_OFFSET,
    ITEM_SIZE,
};
use crate::types::{version_base, version_of, VersionOffset};

verus! {

/// What loading a sector gives: a page that can be initialized, or a page in use together
/// with the namespaces and the blob versions found on it.
pub enum LoadPageResult {
    Empty(ThinPage),
    Used(ThinPage, Vec<Namespace>, BlobIndex),
}

/// The in-memory state of a page whose header holds state `s`.
pub open spec fn thin_state(s: PageState) -> ThinPageState {
    match s {
        PageState::Uninitialized => ThinPageState::Uninitialized,
        PageState::Active => ThinPageState::Active,
        PageState::Full => ThinPageState::Full,
        PageState::Freeing => ThinPageState::Freeing,
        PageState::Corrupt => ThinPageState::Corrupt,
        PageState::Invalid => ThinPageState::Invalid,
    }
}

/// The header stored in the first 32 bytes of `b`.
pub open spec fn decoded_header(b: Seq<u8>) -> ThinPageHeader {
    ThinPageHeader {
        state: thin_state(page_state_of_word(u32_le(b.subrange(0, 4)))),
        sequence: u32_le(b.subrange(4, 8)),
        version: b[8],
        crc: u32_le(b.subrange(28, 32)),
    }
}

/// The state in which a sector holding `b` is loaded: an erased header is a page never
/// written; a header in state uninitialized that is not erased, or one whose CRC does not
/// match, is corrupt; otherwise the stored state counts.
pub open spec fn loaded_state<T: Platform>(b: Seq<u8>) -> ThinPageState {
    let s = decoded_header(b).state;
    if all_erased(b.subrange(0, 32)) {
        ThinPageState::Uninitialized
    } else if s == ThinPageState::Corrupt || s == ThinPageState::Invalid {
        s
    } else if s == ThinPageState::Uninitialized {
        ThinPageState::Corrupt
    } else if header_crc_ok::<T>(b.subrange(0, 32)) {
        s
    } else {
        ThinPageState::Corrupt
    }
}

/// Whether a sector holding `b` is loaded as a page in use.
pub open spec fn loads_as_used<T: Platform>(b: Seq<u8>) -> bool {
    let s = loaded_state::<T>(b);
    s == ThinPageState::Active || s == ThinPageState::Full || s == ThinPageState::Freeing
}

/// Every entry of the lookup list of `page` names an entry that holds a valid item of a
/// namespace other than 0, and carries that item's hash; the entries come in increasing
/// order.
pub open spec fn listed_valid<T: Platform>(page: ThinPage, flash: Seq<u8>) -> bool {
    &&& forall|j: int|
        0 <= j < page.item_hash_list@.len() ==> {
            let e = #[trigger] page.item_hash_list@[j];
            let found = stored_item::<T>(entry_bytes(flash, page.address as int, e.index as int));
            &&& found is Some
            &&& e.hash == item_hash::<T>(found->0.namespace_index, found->0.key@, found->0.chunk_index)
            &&& found->0.namespace_index != 0
        }
    &&& forall|j: int, k: int|
        0 <= j < k < page.item_hash_list@.len() ==> (#[trigger] page.item_hash_list@[j]).index
            < (#[trigger] page.item_hash_list@[k]).index
}

/// Every entry named by the lookup list of `page` is marked written in its bitmap.
pub open spec fn listed_written(page: ThinPage) -> bool {
    forall|j: int|
        0 <= j < page.item_hash_list@.len() ==> entry_state_at(
            page.entry_state_bitmap@,
            (#[trigger] page.item_hash_list@[j]).index as int,
        ) == EntryMapState::Written
}

/// Entry `i` of the sector at `address` holds the definition of namespace `n`.
pub open spec fn namespace_at<T: Platform>(flash: Seq<u8>, address: int, i: int, n: Namespace) -> bool {
    &&& stored_item::<T>(entry_bytes(flash, address, i)) is Some
    &&& stored_item::<T>(entry_bytes(flash, address, i))->0.namespace_index == 0
    &&& stored_item::<T>(entry_bytes(flash, address, i))->0.key == n.name
    &&& stored_item::<T>(entry_bytes(flash, address, i))->0.data@[0] == n.index
}

/// Some entry of the sector at `address` holds the definition of namespace `n`.
pub open spec fn namespace_in_sector<T: Platform>(flash: Seq<u8>, address: int, n: Namespace) -> bool {
    exists|i: int| 0 <= i < ENTRIES_PER_PAGE && #[trigger] namespace_at::<T>(flash, address, i, n)
}

/// Every namespace was found in an entry of the sector at `address`.
pub open spec fn namespaces_found<T: Platform>(namespaces: Seq<Namespace>, flash: Seq<u8>, address: int) -> bool {
    forall|k: int| 0 <= k < namespaces.len() ==> #[trigger] namespace_in_sector::<T>(flash, address, namespaces[k])
}

/// The entry state bitmap stored in the sector at `addr`.
pub open spec fn stored_bitmap(flash: Seq<u8>, addr: int) -> Seq<u8> {
    flash.subrange(addr + BITMAP_OFFSET, addr + ITEMS_OFFSET)
}

/// What the scan of a sector does at one entry.
pub enum ScanCase {
    /// The entry and the `n - 1` entries after it are counted as erased.
    Erased(u8),
    /// The entry is passed over.
    Skipped,
    /// The entry holds a blob item of the old format; it is counted as used.
    OldBlob,
    /// The entry holds `it`; `used` entries are counted as used.
    Found(Item, u8),
}

/// What the scan of the sector at `addr` does at entry `i`. An entry marked erased or
/// illegal counts as erased; an entry that holds no valid item (or one whose span does not
/// fit the page) is passed over, or, when it is marked written, erased with the span it
/// claims (one entry where that does not fit); an empty entry holding an item of type any
/// is passed over, one of type blob is counted as used; a string or blob chunk in an empty
/// entry whose data does not match its CRC is erased with its span; any other item is
/// found (an item in an empty entry other than a string or blob chunk counts one entry as
/// used, the others their span).
pub open spec fn scan_case<T: Platform>(flash: Seq<u8>, addr: int, i: int) -> ScanCase {
    let state = entry_state_at(stored_bitmap(flash, addr), i);
    let raw = entry_bytes(flash, addr, i);
    let raw_span = raw[2];
    let span_fits = raw_span >= 1 && i + raw_span <= ENTRIES_PER_PAGE;
    if state == EntryMapState::Illegal || state == EntryMapState::Erased {
        ScanCase::Erased(1)
    } else if !(stored_item::<T>(raw) is Some && span_fits) {
        if state == EntryMapState::Written {
            ScanCase::Erased(if span_fits { raw_span } else { 1 })
        } else {
            ScanCase::Skipped
        }
    } else {
        let it = stored_item::<T>(raw)->0;
        let start = entry_offset(addr, i + 1);
        let size = sized_size(it.data@) as int;
        let variable = it.type_ == ItemType::Sized || it.type_ == ItemType::BlobData;
        if state == EntryMapState::Empty && it.type_ == ItemType::Any {
            ScanCase::Skipped
        } else if state == EntryMapState::Empty && it.type_ == ItemType::Blob {
            ScanCase::OldBlob
        } else if state == EntryMapState::Empty && variable && (start + size > flash.len() || T::spec_crc32(
            0xFFFF_FFFF,
            flash.subrange(start, start + size),
        ) != sized_crc(it.data@)) {
            ScanCase::Erased(it.span)
        } else if state == EntryMapState::Empty && !variable {
            ScanCase::Found(it, 1)
        } else {
            ScanCase::Found(it, it.span)
        }
    }
}

/// One step of the scan of the sector at `addr`: where the scan goes on after entry `i`,
/// and the namespace recorded there, if any.
pub open spec fn scan_step<T: Platform>(flash: Seq<u8>, addr: int, i: int) -> (int, Option<Namespace>) {
    match scan_case::<T>(flash, addr, i) {
        ScanCase::Erased(n) => (i + n, None),
        ScanCase::Skipped => (i + 1, None),
        ScanCase::OldBlob => (i + 1, None),
        ScanCase::Found(it, _) => (
            i + it.span,
            if it.namespace_index == 0 {
                Some(Namespace { name: it.key, index: it.data@[0] })
            } else {
                None
            },
        ),
    }
}

/// Entries counted as erased at one step.
pub open spec fn step_erased(c: ScanCase) -> int {
    match c {
        ScanCase::Erased(n) => n as int,
        _ => 0,
    }
}

/// Entries counted as used at one step.
pub open spec fn step_used(c: ScanCase) -> int {
    match c {
        ScanCase::OldBlob => 1,
        ScanCase::Found(_, used) => used as int,
        _ => 0,
    }
}

/// The entries a step lists for lookup: the entry of an item found in a namespace other
/// than 0.
pub open spec fn step_listed(c: ScanCase, i: int) -> Seq<int> {
    match c {
        ScanCase::Found(it, _) => if it.namespace_index != 0 {
            seq![i]
        } else {
            Seq::empty()
        },
        _ => Seq::empty(),
    }
}

/// The entries listed for lookup by the scan of the sector at `addr` from entry `i` on.
pub open spec fn scanned_listed<T: Platform>(flash: Seq<u8>, addr: int, i: int) -> Seq<int>
    decreases ENTRIES_PER_PAGE - i,
{
    if i < 0 || i >= ENTRIES_PER_PAGE {
        Seq::empty()
    } else {
        let next = scan_step::<T>(flash, addr, i).0;
        if i < next <= ENTRIES_PER_PAGE {
            step_listed(scan_case::<T>(flash, addr, i), i) + scanned_listed::<T>(flash, addr, next)
        } else {
            Seq::empty()
        }
    }
}

/// The entries counted as erased by the scan of the sector at `addr` from entry `i` on.
pub open spec fn scanned_erased<T: Platform>(flash: Seq<u8>, addr: int, i: int) -> int
    decreases ENTRIES_PER_PAGE - i,
{
    if i < 0 || i >= ENTRIES_PER_PAGE {
        0
    } else {
        let next = scan_step::<T>(flash, addr, i).0;
        if i < next <= ENTRIES_PER_PAGE {
            step_erased(scan_case::<T>(flash, addr, i)) + scanned_erased::<T>(flash, addr, next)
        } else {
            0
        }
    }
}

/// The entries counted as used by the scan of the sector at `addr` from entry `i` on.
pub open spec fn scanned_used<T: Platform>(flash: Seq<u8>, addr: int, i: int) -> int
    decreases ENTRIES_PER_PAGE - i,
{
    if i < 0 || i >= ENTRIES_PER_PAGE {
        0
    } else {
        let next = scan_step::<T>(flash, addr, i).0;
        if i < next <= ENTRIES_PER_PAGE {
            step_used(scan_case::<T>(flash, addr, i)) + scanned_used::<T>(flash, addr, next)
        } else {
            0
        }
    }
}

/// The blob item a step records: a blob index item or blob data item found in a namespace
/// other than 0.
pub open spec fn step_blob_items(c: ScanCase) -> Seq<Item> {
    match c {
        ScanCase::Found(it, _) => if it.namespace_index != 0 && (it.type_ == ItemType::BlobIndex || it.type_
            == ItemType::BlobData) {
            seq![it]
        } else {
            Seq::empty()
        },
        _ => Seq::empty(),
    }
}

/// The blob items recorded by the scan of the sector at `addr` from entry `i` on.
pub open spec fn scanned_blob_items<T: Platform>(flash: Seq<u8>, addr: int, i: int) -> Seq<Item>
    decreases ENTRIES_PER_PAGE - i,
{
    if i < 0 || i >= ENTRIES_PER_PAGE {
        Seq::empty()
    } else {
        let next = scan_step::<T>(flash, addr, i).0;
        if i < next <= ENTRIES_PER_PAGE {
            step_blob_items(scan_case::<T>(flash, addr, i)) + scanned_blob_items::<T>(flash, addr, next)
        } else {
            Seq::empty()
        }
    }
}

/// The versions of some items and of the items that follow them.
proof fn lemma_item_versions_append(a: Seq<Item>, b: Seq<Item>)
    requires
        b.len() <= 1,
    ensures
        item_versions(a + b) == if b.len() == 0 {
            item_versions(a)
        } else {
            item_versions(a).insert(version_triple(b[0]))
        },
{
    if b.len() == 0 {
        assert(a + b =~= a);
    } else {
        assert forall|x: (u8, VersionOffset, Seq<u8>)| #[trigger] item_versions(a + b).contains(x) <==> item_versions(a).insert(
            version_triple(b[0]),
        ).contains(x) by {
            if item_versions(a + b).contains(x) {
                let k = choose|k: int| 0 <= k < (a + b).len() && x == version_triple(#[trigger] (a + b)[k]);
                if k < a.len() {
                    assert((a + b)[k] == a[k]);
                    assert(item_versions(a).contains(x));
                }
            }
            if item_versions(a).contains(x) {
                let k = choose|k: int| 0 <= k < a.len() && x == version_triple(#[trigger] a[k]);
                assert((a + b)[k] == a[k]);
            }
            if x == version_triple(b[0]) {
                assert((a + b)[a.len() as int] == b[0]);
            }
        }
        assert(item_versions(a + b) =~= item_versions(a).insert(version_triple(b[0])));
    }
}

/// The entry indices named by a lookup list, in order.
pub open spec fn listed_indices(list: Seq<ItemHashListEntry>) -> Seq<int> {
    list.map_values(|e: ItemHashListEntry| e.index as int)
}

/// The namespaces a step records: none or one.
pub open spec fn step_namespaces(x: Option<Namespace>) -> Seq<Namespace> {
    match x {
        Some(n) => seq![n],
        None => Seq::empty(),
    }
}

/// The namespaces recorded by the scan of the sector at `addr` from entry `i` on, in order.
pub open spec fn scanned_namespaces<T: Platform>(flash: Seq<u8>, addr: int, i: int) -> Seq<Namespace>
    decreases ENTRIES_PER_PAGE - i,
{
    if i < 0 || i >= ENTRIES_PER_PAGE {
        Seq::empty()
    } else {
        let (next, x) = scan_step::<T>(flash, addr, i);
        if i < next <= ENTRIES_PER_PAGE {
            step_namespaces(x) + scanned_namespaces::<T>(flash, addr, next)
        } else {
            Seq::empty()
        }
    }
}

/// Every namespace of `found` has an index in the namespace table `table`.
pub open spec fn namespaces_entered(table: Seq<Namespace>, found: Seq<Namespace>) -> bool {
    forall|k: int| 0 <= k < found.len() ==> #[trigger] namespace_index_of(table, found[k].name@) is Some
}

/// The scan of a sector reads only the flash from the sector on.
proof fn lemma_scan_reads_from_sector<T: Platform>(f: Seq<u8>, g: Seq<u8>, addr: int, i: int)
    requires
        f.len() == g.len(),
        0 <= addr,
        addr + FLASH_SECTOR_SIZE <= f.len(),
        forall|k: int| addr <= k < f.len() ==> #[trigger] f[k] == g[k],
    ensures
        scanned_namespaces::<T>(f, addr, i) == scanned_namespaces::<T>(g, addr, i),
    decreases ENTRIES_PER_PAGE - i,
{
    if 0 <= i < ENTRIES_PER_PAGE {
        assert(stored_bitmap(f, addr) =~= stored_bitmap(g, addr));
        assert(entry_bytes(f, addr, i) =~= entry_bytes(g, addr, i));
        let raw = entry_bytes(f, addr, i);
        if stored_item::<T>(raw) is Some {
            let it = stored_item::<T>(raw)->0;
            let start = entry_offset(addr, i + 1);
            let size = sized_size(it.data@) as int;
            if start + size <= f.len() {
                assert(f.subrange(start, start + size) =~= g.subrange(start, start + size));
            }
        }
        assert(scan_step::<T>(f, addr, i) == scan_step::<T>(g, addr, i));
        let next = scan_step::<T>(f, addr, i).0;
        if i < next <= ENTRIES_PER_PAGE {
            lemma_scan_reads_from_sector::<T>(f, g, addr, next);
        }
    }
}

/// The chunks seen of one blob version on the page with sequence `sequence`, after the
/// first `upto` entries: one record at most, with room left for the remaining entries.
pub open spec fn chunks_bounded(chunks: Seq<ChunkData>, sequence: u32, upto: int) -> bool {
    &&& chunks.len() <= 1
    &&& chunks.len() == 1 ==> {
        &&& chunks[0].page_sequence == sequence
        &&& chunks[0].chunk_count <= upto
        &&& chunks[0].data_size <= 0xFFFF * upto
    }
}

/// What holds after the first `upto` entries of a sector have been scanned.
pub open spec fn scan_state<T: Platform>(
    page: ThinPage,
    namespaces: Seq<Namespace>,
    blobs: BlobIndex,
    flash: Seq<u8>,
    upto: int,
) -> bool {
    &&& page.wf()
    &&& 0 <= upto <= ENTRIES_PER_PAGE
    &&& page.used_entry_count + page.erased_entry_count <= upto
    &&& listed_valid::<T>(page, flash)
    &&& forall|j: int| 0 <= j < page.item_hash_list@.len() ==> (#[trigger] page.item_hash_list@[j]).index < upto
    &&& listed_written(page)
    &&& forall|k: int| upto <= k < 128 ==> #[trigger] entry_bits(page.entry_state_bitmap@, k) == entry_bits(
        stored_bitmap(flash, page.address as int),
        k,
    )
    &&& namespaces_found::<T>(namespaces, flash, page.address as int)
    &&& blobs.wf()
    &&& forall|i: int|
        0 <= i < blobs.entries@.len() ==> chunks_bounded(
            (#[trigger] blobs.entries@[i]).observed.chunks_by_page@,
            page.header.sequence,
            upto,
        )
}

/// The header stored in the first 32 bytes of `b`.
fn decode_header(b: &[u8]) -> (h: ThinPageHeader)
    requires
        b@.len() >= 32,
    ensures
        h == decoded_header(b@),
{
    let state = match PageState::from_word(read_u32_le(b, 0)) {
        PageState::Uninitialized => ThinPageState::Uninitialized,
        PageState::Active => ThinPageState::Active,
        PageState::Full => ThinPageState::Full,
        PageState::Freeing => ThinPageState::Freeing,
        PageState::Corrupt => ThinPageState::Corrupt,
        PageState::Invalid => ThinPageState::Invalid,
    };
    ThinPageHeader { state, sequence: read_u32_le(b, 4), version: b[8], crc: read_u32_le(b, 28) }
}

/// Whether every byte of `b` is erased.
fn is_erased(b: &[u8]) -> (r: bool)
    ensures
        r == all_erased(b@),
{
    let mut i: usize = 0;
    while i < b.len()
        invariant
            i <= b@.len(),
            forall|j: int| 0 <= j < i ==> b@[j] == 0xFFu8,
        decreases b@.len() - i,
    {
        if b[i] != 0xFF {
            return false;
        }
        i += 1;
    }
    true
}

/// The item stored in the 32 bytes `b`, as `stored_item` describes it.
fn decode_entry<T: Platform>(b: &[u8]) -> (r: Option<Item>)
    requires
        b@.len() == ITEM_SIZE,
    ensures
        r == stored_item::<T>(b@),
        r matches Some(it) ==> item_bytes(it) == b@,
{
    if is_erased(b) {
        return None;
    }
    match Item::from_bytes(b) {
        None => None,
        Some(it) => {
            proof {
                lemma_stored_item_of::<T>(it);
            }
            if it.crc == it.calculate_crc32::<T>() {
                Some(it)
            } else {
                None
            }
        },
    }
}

/// A header-area change keeps every entry of the page.
proof fn lemma_entries_unchanged(f: Seq<u8>, g: Seq<u8>, address: int, i: int)
    requires
        header_area_frame(f, g, address),
        0 <= address,
        0 <= i < ENTRIES_PER_PAGE,
        address + FLASH_SECTOR_SIZE <= f.len(),
    ensures
        entry_bytes(g, address, i) == entry_bytes(f, address, i),
{
    assert(entry_bytes(g, address, i) =~= entry_bytes(f, address, i));
}

/// A write into the bitmap of a page stays within its header area.
proof fn lemma_bitmap_write_frame(f0: Seq<u8>, f: Seq<u8>, address: int, start: int, data: Seq<u8>)
    requires
        header_area_frame(f0, f, address),
        0 <= address,
        0 <= start,
        start + data.len() <= 32,
        address + BITMAP_OFFSET + start + data.len() <= f.len(),
    ensures
        header_area_frame(f0, update_bytes(f, address + BITMAP_OFFSET + start, data), address),
{
}

/// Scanning keeps its state when the flash only changes in the header area of the page.
proof fn lemma_scan_state_kept<T: Platform>(
    page: ThinPage,
    namespaces: Seq<Namespace>,
    f: Seq<u8>,
    g: Seq<u8>,
)
    requires
        header_area_frame(f, g, page.address as int),
        page.address + FLASH_SECTOR_SIZE <= f.len(),
        listed_valid::<T>(page, f),
        page.wf(),
        namespaces_found::<T>(namespaces, f, page.address as int),
    ensures
        listed_valid::<T>(page, g),
        namespaces_found::<T>(namespaces, g, page.address as int),
{
    let a = page.address as int;
    assert forall|j: int| 0 <= j < page.item_hash_list@.len() implies {
        let e = #[trigger] page.item_hash_list@[j];
        let found = stored_item::<T>(entry_bytes(g, a, e.index as int));
        &&& found is Some
        &&& e.hash == item_hash::<T>(found->0.namespace_index, found->0.key@, found->0.chunk_index)
        &&& found->0.namespace_index != 0
    } by {
        lemma_entries_unchanged(f, g, a, page.item_hash_list@[j].index as int);
    }
    assert forall|k: int| 0 <= k < namespaces.len() implies #[trigger] namespace_in_sector::<T>(g, a, namespaces[k]) by {
        assert(namespace_in_sector::<T>(f, a, namespaces[k]));
        let i = choose|i: int| 0 <= i < ENTRIES_PER_PAGE && #[trigger] namespace_at::<T>(f, a, i, namespaces[k]);
        lemma_entries_unchanged(f, g, a, i);
        assert(namespace_at::<T>(g, a, i, namespaces[k]));
    }
}

/// Bounds on the chunks seen after `upto` entries still hold after more entries.
proof fn lemma_chunks_grow(blobs: BlobIndex, sequence: u32, upto: int, next: int)
    requires
        0 <= upto <= next,
        forall|i: int|
            0 <= i < blobs.entries@.len() ==> chunks_bounded(
                (#[trigger] blobs.entries@[i]).observed.chunks_by_page@,
                sequence,
                upto,
            ),
    ensures
        forall|i: int|
            0 <= i < blobs.entries@.len() ==> chunks_bounded(
                (#[trigger] blobs.entries@[i]).observed.chunks_by_page@,
                sequence,
                next,
            ),
{
    assert(0xFFFF * upto <= 0xFFFF * next) by (nonlinear_arith)
        requires
            upto <= next,
    ;
}

/// The blob versions (namespace, version, key) that have an entry among `entries`.
pub open spec fn blob_versions(entries: Seq<BlobIndexEntry>) -> Set<(u8, VersionOffset, Seq<u8>)> {
    Set::new(
        |v: (u8, VersionOffset, Seq<u8>)|
            exists|j: int| 0 <= j < entries.len() && #[trigger] entry_is(entries[j], v.0, v.1, v.2),
    )
}

/// The blob version of a blob index item or blob data item, as a triple.
pub open spec fn version_triple(it: Item) -> (u8, VersionOffset, Seq<u8>) {
    (it.namespace_index, blob_version_of(it), it.key@)
}

/// The blob versions of the items `items`.
pub open spec fn item_versions(items: Seq<Item>) -> Set<(u8, VersionOffset, Seq<u8>)> {
    Set::new(|v: (u8, VersionOffset, Seq<u8>)| exists|k: int| 0 <= k < items.len() && v == version_triple(#[trigger] items[k]))
}

/// Recording an item in the entry of its version, or in a new entry at the end, adds its
/// version to the versions with an entry.
proof fn lemma_versions_after_record(
    old: Seq<BlobIndexEntry>,
    new: Seq<BlobIndexEntry>,
    v: (u8, VersionOffset, Seq<u8>),
    i: int,
)
    requires
        0 <= i <= old.len(),
        i < old.len() ==> new.len() == old.len() && entry_is(old[i], v.0, v.1, v.2) && entry_is(new[i], v.0, v.1, v.2)
            && forall|j: int| 0 <= j < new.len() && j != i ==> #[trigger] new[j] == old[j],
        i == old.len() ==> new.len() == old.len() + 1 && new.drop_last() == old && entry_is(new.last(), v.0, v.1, v.2),
    ensures
        blob_versions(new) == blob_versions(old).insert(v),
{
    assert forall|x: (u8, VersionOffset, Seq<u8>)| #[trigger] blob_versions(new).contains(x) <==> blob_versions(old).insert(
        v,
    ).contains(x) by {
        if blob_versions(new).contains(x) {
            let j = choose|j: int| 0 <= j < new.len() && #[trigger] entry_is(new[j], x.0, x.1, x.2);
            if i < old.len() {
                if j != i {
                    assert(new[j] == old[j]);
                    assert(blob_versions(old).contains(x));
                }
            } else if j < old.len() {
                assert(new[j] == new.drop_last()[j]);
                assert(blob_versions(old).contains(x));
            }
        }
        if blob_versions(old).contains(x) {
            let j = choose|j: int| 0 <= j < old.len() && #[trigger] entry_is(old[j], x.0, x.1, x.2);
            if i < old.len() {
                if j != i {
                    assert(new[j] == old[j]);
                } else {
                    assert(entry_is(new[i], x.0, x.1, x.2));
                }
            } else {
                assert(new[j] == new.drop_last()[j]);
            }
            assert(entry_is(new[j], x.0, x.1, x.2));
        }
        if x == v {
            if i < old.len() {
                assert(entry_is(new[i], x.0, x.1, x.2));
            } else {
                assert(entry_is(new[new.len() - 1], x.0, x.1, x.2));
            }
        }
    }
    assert(blob_versions(new) =~= blob_versions(old).insert(v));
}

/// The blob version that a blob index item or blob data item belongs to.
pub open spec fn blob_version_of(it: Item) -> VersionOffset {
    if it.type_ == ItemType::BlobIndex {
        version_of(it.data@[5])
    } else {
        version_of(it.chunk_index)
    }
}

/// What the blob index item `it`, stored at entry `item_index` of the page with sequence
/// number `sequence`, says about its blob.
pub open spec fn index_data_of(it: Item, item_index: int, sequence: u32) -> BlobIndexEntryBlobIndexData {
    BlobIndexEntryBlobIndexData {
        item_index: item_index as u8,
        page_sequence: sequence,
        size: blob_index_size(it.data@),
        chunk_count: it.data@[4],
    }
}

/// The chunks seen on the page with sequence number `sequence` after one more chunk of
/// `size` bytes is seen there.
pub open spec fn chunk_added(chunks: Seq<ChunkData>, sequence: u32, size: u32) -> Seq<ChunkData> {
    if chunks.len() == 0 {
        seq![ChunkData { page_sequence: sequence, chunk_count: 1, data_size: size }]
    } else {
        chunks.update(
            0,
            ChunkData {
                page_sequence: sequence,
                chunk_count: (chunks[0].chunk_count + 1) as u8,
                data_size: (chunks[0].data_size + size) as u32,
            },
        )
    }
}

/// `e` is the entry of the blob version of `it` after `it`, found at entry `item_index` of
/// the page with sequence number `sequence`, was recorded in an entry with index data
/// `index` and chunks `chunks`: an index item sets the index data, a data item adds a chunk.
pub open spec fn records_item(
    e: BlobIndexEntry,
    it: Item,
    item_index: int,
    sequence: u32,
    index: Option<BlobIndexEntryBlobIndexData>,
    chunks: Seq<ChunkData>,
) -> bool {
    &&& entry_is(e, it.namespace_index, blob_version_of(it), it.key@)
    &&& if it.type_ == ItemType::BlobIndex {
        e.index == Some(index_data_of(it, item_index, sequence)) && e.observed.chunks_by_page@ == chunks
    } else {
        e.index == index && e.observed.chunks_by_page@ == chunk_added(chunks, sequence, sized_size(it.data@) as u32)
    }
}

/// Records a blob index item or blob data item found at entry `item_index` of the page
/// with sequence number `sequence`.
fn record_blob(blobs: &mut BlobIndex, it: &Item, item_index: usize, sequence: u32)
    requires
        old(blobs).wf(),
        item_index < ENTRIES_PER_PAGE,
        forall|i: int|
            0 <= i < old(blobs).entries@.len() ==> chunks_bounded(
                (#[trigger] old(blobs).entries@[i]).observed.chunks_by_page@,
                sequence,
                item_index as int,
            ),
    ensures
        final(blobs).wf(),
        forall|i: int|
            0 <= i < final(blobs).entries@.len() ==> chunks_bounded(
                (#[trigger] final(blobs).entries@[i]).observed.chunks_by_page@,
                sequence,
                item_index + 1,
            ),
        (exists|i: int| 0 <= i < old(blobs).entries@.len() && #[trigger] entry_is(old(blobs).entries@[i], it.namespace_index, blob_version_of(*it), it.key@)) ==> exists|i: int| {
            &&& 0 <= i < old(blobs).entries@.len()
            &&& final(blobs).entries@.len() == old(blobs).entries@.len()
            &&& #[trigger] records_item(
                final(blobs).entries@[i],
                *it,
                item_index as int,
                sequence,
                old(blobs).entries@[i].index,
                old(blobs).entries@[i].observed.chunks_by_page@,
            )
            &&& forall|j: int| 0 <= j < final(blobs).entries@.len() && j != i ==> #[trigger] final(blobs).entries@[j] == old(blobs).entries@[j]
        },
        blob_versions(final(blobs).entries@) == blob_versions(old(blobs).entries@).insert(version_triple(*it)),
        !(exists|i: int| 0 <= i < old(blobs).entries@.len() && #[trigger] entry_is(old(blobs).entries@[i], it.namespace_index, blob_version_of(*it), it.key@)) ==> {
            &&& final(blobs).entries@.len() == old(blobs).entries@.len() + 1
            &&& final(blobs).entries@.drop_last() == old(blobs).entries@
            &&& records_item(final(blobs).entries@.last(), *it, item_index as int, sequence, None, Seq::empty())
        },
{
    let is_index = it.type_.same(&ItemType::BlobIndex);
    let version = if is_index {
        VersionOffset::from_u8(it.chunk_start())
    } else {
        VersionOffset::from_u8(it.chunk_index)
    };
    let size = it.sized_size() as u32;
    let index_data = BlobIndexEntryBlobIndexData {
        item_index: item_index as u8,
        page_sequence: sequence,
        size: it.blob_size(),
        chunk_count: it.chunk_count(),
    };
    let ghost old_entries = blobs.entries@;
    match blobs.find(it.namespace_index, version, &it.key) {
        Some(i) => {
            let mut e = blobs.take(i);
            let ghost blank = blobs.entries@[i as int];
            let ghost old_chunks = e.observed.chunks_by_page@;
            proof {
                assert(chunks_bounded(old_entries[i as int].observed.chunks_by_page@, sequence, item_index as int));
            }
            if is_index {
                e.index = Some(index_data);
            } else if e.observed.chunks_by_page.len() == 0 {
                e.observed.chunks_by_page.push(ChunkData { page_sequence: sequence, chunk_count: 1, data_size: size });
            } else {
                let c = e.observed.chunks_by_page[0];
                proof {
                    assert(c.data_size + size <= 0xFFFF * (item_index + 1)) by (nonlinear_arith)
                        requires
                            c.data_size <= 0xFFFF * item_index,
                            size <= 0xFFFF,
                    ;
                }
                e.observed.chunks_by_page.set(
                    0,
                    ChunkData {
                        page_sequence: sequence,
                        chunk_count: c.chunk_count + 1,
                        data_size: c.data_size + size,
                    },
                );
            }
            proof {
                assert(e.key@ == blank.key@);
                assert(entry_order_key(e) =~= entry_order_key(blank));
                if !is_index {
                    assert(e.observed.chunks_by_page@ =~= chunk_added(old_chunks, sequence, size));
                }
                assert(records_item(e, *it, item_index as int, sequence, old_entries[i as int].index, old_entries[i as int].observed.chunks_by_page@));
            }
            let ghost mid = blobs.entries@;
            blobs.replace(i, e);
            proof {
                assert(blobs.entries@[i as int] == e);
                assert forall|j: int| 0 <= j < blobs.entries@.len() && j != i implies #[trigger] blobs.entries@[j] == old_entries[j] by {
                    assert(blobs.entries@[j] == mid[j]);
                }
                lemma_versions_after_record(old_entries, blobs.entries@, version_triple(*it), i as int);
                assert forall|j: int| 0 <= j < blobs.entries@.len() implies chunks_bounded(
                    (#[trigger] blobs.entries@[j]).observed.chunks_by_page@,
                    sequence,
                    item_index + 1,
                ) by {
                    if j != i {
                        assert(blobs.entries@[j] == old_entries[j]);
                        assert(chunks_bounded(old_entries[j].observed.chunks_by_page@, sequence, item_index as int));
                        if old_entries[j].observed.chunks_by_page@.len() == 1 {
                            assert(0xFFFF * item_index <= 0xFFFF * (item_index + 1)) by (nonlinear_arith);
                        }
                    } else {
                        if old_entries[j].observed.chunks_by_page@.len() == 1 && is_index {
                            assert(0xFFFF * item_index <= 0xFFFF * (item_index + 1)) by (nonlinear_arith);
                        }
                    }
                }
            }
        },
        None => {
            let mut chunks: Vec<ChunkData> = Vec::new();
            if !is_index {
                chunks.push(ChunkData { page_sequence: sequence, chunk_count: 1, data_size: size });
            }
            let e = BlobIndexEntry {
                namespace_index: it.namespace_index,
                version,
                key: it.key,
                index: if is_index {
                    Some(index_data)
                } else {
                    None
                },
                observed: BlobObservedData { chunks_by_page: chunks },
            };
            proof {
                assert forall|j: int| 0 <= j < blobs.entries@.len() implies entry_order_key(
                    #[trigger] blobs.entries@[j],
                ) != entry_order_key(e) by {
                    if entry_order_key(blobs.entries@[j]) == entry_order_key(e) {
                        lemma_entry_order_key_injective(blobs.entries@[j], e);
                        assert(entry_is(blobs.entries@[j], it.namespace_index, version, it.key@));
                    }
                }
            }
            blobs.insert_new(e);
            proof {
                assert(blobs.entries@.drop_last() =~= old_entries);
                lemma_versions_after_record(old_entries, blobs.entries@, version_triple(*it), old_entries.len() as int);
                assert forall|j: int| 0 <= j < blobs.entries@.len() implies chunks_bounded(
                    (#[trigger] blobs.entries@[j]).observed.chunks_by_page@,
                    sequence,
                    item_index + 1,
                ) by {
                    if j < old_entries.len() {
                        assert(blobs.entries@[j] == old_entries[j]);
                        assert(chunks_bounded(old_entries[j].observed.chunks_by_page@, sequence, item_index as int));
                        if old_entries[j].observed.chunks_by_page@.len() == 1 {
                            assert(0xFFFF * item_index <= 0xFFFF * (item_index + 1)) by (nonlinear_arith);
                        }
                    } else {
                        assert(size <= 0xFFFF);
                        assert(0xFFFF <= 0xFFFF * (item_index + 1)) by (nonlinear_arith);
                    }
                }
            }
        },
    }
}

/// Entries below `upto` whose bits did not change keep the lookup list of a page marked
/// written.
proof fn lemma_listed_written_kept(before: ThinPage, after: ThinPage, upto: int)
    requires
        listed_written(before),
        after.item_hash_list@ == before.item_hash_list@,
        forall|j: int| 0 <= j < before.item_hash_list@.len() ==> (#[trigger] before.item_hash_list@[j]).index < upto,
        forall|i: int| 0 <= i < upto ==> #[trigger] entry_bits(after.entry_state_bitmap@, i) == entry_bits(
            before.entry_state_bitmap@,
            i,
        ),
    ensures
        listed_written(after),
{
    assert forall|j: int| 0 <= j < after.item_hash_list@.len() implies entry_state_at(
        after.entry_state_bitmap@,
        (#[trigger] after.item_hash_list@[j]).index as int,
    ) == EntryMapState::Written by {
        let i = before.item_hash_list@[j].index as int;
        assert(entry_bits(after.entry_state_bitmap@, i) == entry_bits(before.entry_state_bitmap@, i));
    }
}

impl<T: Platform> Nvs<T> {
    /// Marks the entries `item_index..item_index + n` of `page` erased, on flash and in
    /// memory, and counts them as erased.
    fn mark_erased(&mut self, page: &mut ThinPage, item_index: usize, n: u8, Ghost(f0): Ghost<Seq<u8>>) -> (r: Result<usize, Error>)
        requires
            1 <= n,
            item_index + n <= ENTRIES_PER_PAGE,
            old(page).address + FLASH_SECTOR_SIZE <= f0.len(),
            header_area_frame(f0, old(self).hal.flash(), old(page).address as int),
            old(page).wf(),
            old(page).used_entry_count + old(page).erased_entry_count <= item_index,
        ensures
            final(page).address == old(page).address,
            final(page).header == old(page).header,
            final(page).item_hash_list == old(page).item_hash_list,
            final(page).used_entry_count == old(page).used_entry_count,
            final(page).wf(),
            final(self).hal.flash().len() == old(self).hal.flash().len(),
            r is Ok ==> header_area_frame(f0, final(self).hal.flash(), old(page).address as int),
            final(self).pages == old(self).pages,
            final(self).free_pages == old(self).free_pages,
            final(self).namespaces == old(self).namespaces,
            final(self).base_address == old(self).base_address,
            final(self).sectors == old(self).sectors,
            forall|i: int|
                0 <= i < 128 && (i < item_index || i >= item_index + n) ==> #[trigger] entry_bits(
                    final(page).entry_state_bitmap@,
                    i,
                ) == entry_bits(old(page).entry_state_bitmap@, i),
            match r {
                Ok(next) => next == item_index + n && final(page).used_entry_count + final(page).erased_entry_count <= next
                    && final(page).erased_entry_count == old(page).erased_entry_count + n,
                Err(e) => e == Error::FlashError,
            },
    {
        let start = item_index as u8;
        let ghost f = self.hal.flash();
        match page.set_entry_state_range(&mut self.hal, start, start + n, EntryMapState::Erased) {
            Ok(()) => {},
            Err(e) => return Err(e),
        }
        proof {
            lemma_bitmap_write_frame(
                f0,
                f,
                page.address as int,
                start as int / 4,
                page.entry_state_bitmap@.subrange(start as int / 4, (start + n - 1) / 4 + 1),
            );
        }
        page.erased_entry_count = page.erased_entry_count + n;
        Ok(item_index + n as usize)
    }
    /// Scans entry `item_index` of a used page whose sector held `buf` when it was read:
    /// counts it, repairs its state in the bitmap, and records the item it holds. Gives the
    /// index of the next entry to scan.
    #[verifier::spinoff_prover]
    #[verifier::rlimit(100)]
    fn scan_entry(
        &mut self,
        page: &mut ThinPage,
        namespaces: &mut Vec<Namespace>,
        blobs: &mut BlobIndex,
        buf: &Vec<u8>,
        item_index: usize,
        Ghost(f0): Ghost<Seq<u8>>,
    ) -> (r: Result<usize, Error>)
        requires
            item_index < ENTRIES_PER_PAGE,
            old(page).address + FLASH_SECTOR_SIZE <= f0.len(),
            buf@ == f0.subrange(old(page).address as int, old(page).address + FLASH_SECTOR_SIZE),
            header_area_frame(f0, old(self).hal.flash(), old(page).address as int),
            scan_state::<T>(*old(page), old(namespaces)@, *old(blobs), f0, item_index as int),
        ensures
            final(page).address == old(page).address,
            final(page).header == old(page).header,
            final(self).hal.flash().len() == old(self).hal.flash().len(),
            final(self).pages == old(self).pages,
            final(self).free_pages == old(self).free_pages,
            final(self).namespaces == old(self).namespaces,
            final(self).base_address == old(self).base_address,
            final(self).sectors == old(self).sectors,
            match r {
                Ok(next) => {
                    &&& item_index < next <= ENTRIES_PER_PAGE
                    &&& scan_step::<T>(f0, old(page).address as int, item_index as int) == (
                        next as int,
                        scan_step::<T>(f0, old(page).address as int, item_index as int).1,
                    )
                    &&& final(namespaces)@ == old(namespaces)@ + step_namespaces(
                        scan_step::<T>(f0, old(page).address as int, item_index as int).1,
                    )
                    &&& final(page).erased_entry_count == old(page).erased_entry_count + step_erased(
                        scan_case::<T>(f0, old(page).address as int, item_index as int),
                    )
                    &&& final(page).used_entry_count == old(page).used_entry_count + step_used(
                        scan_case::<T>(f0, old(page).address as int, item_index as int),
                    )
                    &&& blob_versions(final(blobs).entries@) == if step_blob_items(
                        scan_case::<T>(f0, old(page).address as int, item_index as int),
                    ).len() == 0 {
                        blob_versions(old(blobs).entries@)
                    } else {
                        blob_versions(old(blobs).entries@).insert(
                            version_triple(step_blob_items(scan_case::<T>(f0, old(page).address as int, item_index as int))[0]),
                        )
                    }
                    &&& listed_indices(final(page).item_hash_list@) == listed_indices(old(page).item_hash_list@) + step_listed(
                        scan_case::<T>(f0, old(page).address as int, item_index as int),
                        item_index as int,
                    )
                    &&& scan_state::<T>(*final(page), final(namespaces)@, *final(blobs), f0, next as int)
                    &&& header_area_frame(f0, final(self).hal.flash(), old(page).address as int)
                },
                Err(e) => e == Error::FlashError,
            },
    {
        let ghost addr = page.address as int;
        let ghost old_page = *page;
        let ghost old_ns = namespaces@;
        let state = page.get_entry_state(item_index as u8);
        proof {
            assert(entry_bits(page.entry_state_bitmap@, item_index as int) == entry_bits(
                stored_bitmap(f0, addr),
                item_index as int,
            ));
            assert(state == entry_state_at(stored_bitmap(f0, addr), item_index as int));
        }
        if state == EntryMapState::Illegal || state == EntryMapState::Erased {
            page.erased_entry_count = page.erased_entry_count + 1;
            proof {
                lemma_chunks_grow(*blobs, page.header.sequence, item_index as int, item_index + 1);
            }
            return Ok(item_index + 1);
        }
        let off = ITEMS_OFFSET + ITEM_SIZE * item_index;
        let raw = vstd::slice::slice_subrange(buf.as_slice(), off, off + ITEM_SIZE);
        proof {
            assert(raw@ =~= entry_bytes(f0, addr, item_index as int));
        }
        let valid = decode_entry::<T>(raw);
        let raw_span = raw[2];
        let span_fits = raw_span >= 1 && item_index + raw_span as usize <= ENTRIES_PER_PAGE;
        let usable = match valid {
            Some(_) => span_fits,
            None => false,
        };
        if !usable {
            if state == EntryMapState::Written {
                let n: u8 = if span_fits {
                    raw_span
                } else {
                    1
                };
                let r = self.mark_erased(page, item_index, n, Ghost(f0));
                proof {
                    if r is Ok {
                        lemma_listed_written_kept(old_page, *page, item_index as int);
                        lemma_chunks_grow(*blobs, page.header.sequence, item_index as int, item_index + n);
                    }
                }
                return r;
            }
            proof {
                lemma_chunks_grow(*blobs, page.header.sequence, item_index as int, item_index + 1);
            }
            return Ok(item_index + 1);
        }
        let it = match valid {
            Some(it) => it,
            None => return Ok(item_index + 1),
        };
        proof {
            assert(item_bytes(it)[2] == it.span);
        }
        let span = it.span;
        if state == EntryMapState::Empty {
            match it.type_ {
                ItemType::Any => {
                    proof {
                        lemma_chunks_grow(*blobs, page.header.sequence, item_index as int, item_index + 1);
                    }
                    return Ok(item_index + 1);
                },
                ItemType::Blob => {
                    page.used_entry_count = page.used_entry_count + 1;
                    proof {
                        lemma_chunks_grow(*blobs, page.header.sequence, item_index as int, item_index + 1);
                    }
                    return Ok(item_index + 1);
                },
                ItemType::Sized | ItemType::BlobData => {
                    let data = match page.load_referenced_data(&mut self.hal, item_index as u8, &it) {
                        Ok(d) => d,
                        Err(e) => return Err(e),
                    };
                    let data_crc = T::crc32(0xFFFF_FFFF, data.as_slice());
                    proof {
                        let start = entry_offset(addr, item_index + 1);
                        let size = sized_size(it.data@) as int;
                        assert(data@ =~= f0.subrange(start, start + size));
                    }
                    if data_crc != it.sized_crc() {
                        let r = self.mark_erased(page, item_index, span, Ghost(f0));
                        proof {
                            if r is Ok {
                                lemma_listed_written_kept(old_page, *page, item_index as int);
                                lemma_chunks_grow(*blobs, page.header.sequence, item_index as int, item_index + span);
                            }
                        }
                        return r;
                    }
                    let ghost f = self.hal.flash();
                    match page.set_entry_state_range(&mut self.hal, item_index as u8, item_index as u8 + span, EntryMapState::Written) {
                        Ok(()) => {},
                        Err(e) => return Err(e),
                    }
                    proof {
                        lemma_bitmap_write_frame(
                            f0,
                            f,
                            addr,
                            item_index as int / 4,
                            page.entry_state_bitmap@.subrange(item_index as int / 4, (item_index + span - 1) / 4 + 1),
                        );
                    }
                    page.used_entry_count = page.used_entry_count + span;
                },
                _ => {
                    let ghost f = self.hal.flash();
                    match page.set_entry_state(&mut self.hal, item_index, EntryMapState::Written) {
                        Ok(()) => {},
                        Err(e) => return Err(e),
                    }
                    proof {
                        lemma_bitmap_write_frame(
                            f0,
                            f,
                            addr,
                            item_index as int / 4,
                            page.entry_state_bitmap@.subrange(item_index as int / 4, item_index as int / 4 + 1),
                        );
                    }
                    page.used_entry_count = page.used_entry_count + 1;
                },
            }
        } else {
            page.used_entry_count = page.used_entry_count + span;
        }
        let next = item_index + span as usize;
        if it.namespace_index == 0 {
            let ghost before = namespaces@;
            let n = Namespace { name: it.key, index: it.data[0] };
            namespaces.push(n);
            proof {
                assert(namespace_at::<T>(f0, addr, item_index as int, n));
                assert forall|k: int| 0 <= k < namespaces@.len() implies #[trigger] namespace_in_sector::<T>(f0, addr, namespaces@[k]) by {
                    if k < before.len() {
                        assert(namespaces@[k] == before[k]);
                    }
                }
                lemma_chunks_grow(*blobs, page.header.sequence, item_index as int, next as int);
            }
            return Ok(next);
        }
        if it.type_.same(&ItemType::BlobIndex) || it.type_.same(&ItemType::BlobData) {
            record_blob(blobs, &it, item_index, page.header.sequence);
            proof {
                lemma_chunks_grow(*blobs, page.header.sequence, item_index + 1, next as int);
            }
        } else {
            proof {
                lemma_chunks_grow(*blobs, page.header.sequence, item_index as int, next as int);
            }
        }
        proof {
            if state == EntryMapState::Empty {
                assert(entry_bits(old_page.entry_state_bitmap@, item_index as int) == 3u8);
                assert(3u8 & 2u8 == 2u8) by (bit_vector);
            }
            assert(entry_state_at(page.entry_state_bitmap@, item_index as int) == EntryMapState::Written);
            lemma_listed_written_kept(old_page, *page, item_index as int);
        }
        let hash = it.calculate_hash::<T>();
        let ghost before_list = page.item_hash_list@;
        page.item_hash_list.push(ItemHashListEntry { hash, index: item_index as u8 });
        proof {
            assert forall|j: int| 0 <= j < page.item_hash_list@.len() implies {
                let e = #[trigger] page.item_hash_list@[j];
                let found = stored_item::<T>(entry_bytes(f0, addr, e.index as int));
                &&& found is Some
                &&& e.hash == item_hash::<T>(found->0.namespace_index, found->0.key@, found->0.chunk_index)
                &&& found->0.namespace_index != 0
            } by {
                if j < before_list.len() {
                    assert(page.item_hash_list@[j] == before_list[j]);
                }
            }
            assert forall|j: int, k: int| 0 <= j < k < page.item_hash_list@.len() implies (#[trigger] page.item_hash_list@[j]).index
                < (#[trigger] page.item_hash_list@[k]).index by {
                if k < before_list.len() {
                    assert(page.item_hash_list@[j] == before_list[j]);
                    assert(page.item_hash_list@[k] == before_list[k]);
                } else {
                    assert(page.item_hash_list@[j] == before_list[j]);
                }
            }
        }
        Ok(next)
    }
    /// Loads the sector at `sector_address`: decodes its header and, for a page in use,
    /// scans its entries, repairing entry states that an interrupted write left behind,
    /// and collects its lookup list, its namespaces and its blob versions.
    pub fn load_sector(&mut self, sector_address: usize) -> (r: Result<LoadPageResult, Error>)
        requires
            old(self).wf(),
            old(self).sector_in_partition(sector_address as int),
        ensures
            final(self).pages == old(self).pages,
            final(self).free_pages == old(self).free_pages,
            final(self).namespaces == old(self).namespaces,
            final(self).base_address == old(self).base_address,
            final(self).sectors == old(self).sectors,
            final(self).flash().len() == old(self).flash().len(),
            match r {
                Ok(LoadPageResult::Empty(p)) => {
                    let b = old(self).flash().subrange(sector_address as int, sector_address + FLASH_SECTOR_SIZE);
                    &&& sector_address + FLASH_SECTOR_SIZE <= old(self).flash().len()
                    &&& !loads_as_used::<T>(b)
                    &&& final(self).flash() == old(self).flash()
                    &&& p.wf()
                    &&& p.address == sector_address
                    &&& p.header.state == loaded_state::<T>(b)
                    &&& p.item_hash_list@.len() == 0
                    &&& p.used_entry_count == 0
                    &&& p.erased_entry_count == 0
                    &&& all_erased(b.subrange(0, 32)) ==> {
                        &&& p.header.state == ThinPageState::Uninitialized
                        &&& p.header.sequence == 0
                        &&& p.header.version == 0
                        &&& p.header.crc == 0
                        &&& p.entry_state_bitmap@ == Seq::new(32, |i: int| 0xFFu8)
                    }
                    &&& !all_erased(b.subrange(0, 32)) ==> {
                        &&& p.header.sequence == decoded_header(b).sequence
                        &&& p.header.version == decoded_header(b).version
                        &&& p.header.crc == decoded_header(b).crc
                        &&& p.entry_state_bitmap@ == b.subrange(32, 64)
                    }
                },
                Ok(LoadPageResult::Used(p, namespaces, blobs)) => {
                    let b = old(self).flash().subrange(sector_address as int, sector_address + FLASH_SECTOR_SIZE);
                    &&& sector_address + FLASH_SECTOR_SIZE <= old(self).flash().len()
                    &&& loads_as_used::<T>(b)
                    &&& header_area_frame(old(self).flash(), final(self).flash(), sector_address as int)
                    &&& p.wf()
                    &&& p.address == sector_address
                    &&& p.header == decoded_header(b)
                    &&& listed_valid::<T>(p, final(self).flash())
                    &&& listed_written(p)
                    &&& namespaces_found::<T>(namespaces@, final(self).flash(), sector_address as int)
                    &&& namespaces@ == scanned_namespaces::<T>(old(self).flash(), sector_address as int, 0)
                    &&& listed_indices(p.item_hash_list@) == scanned_listed::<T>(old(self).flash(), sector_address as int, 0)
                    &&& p.erased_entry_count == scanned_erased::<T>(old(self).flash(), sector_address as int, 0)
                    &&& p.used_entry_count == scanned_used::<T>(old(self).flash(), sector_address as int, 0)
                    &&& blob_versions(blobs.entries@) == item_versions(
                        scanned_blob_items::<T>(old(self).flash(), sector_address as int, 0),
                    )
                    &&& blobs.wf()
                },
                Err(e) => e == Error::FlashError,
            },
    {
        let buf = match self.hal.read(sector_address, FLASH_SECTOR_SIZE) {
            Ok(b) => b,
            Err(()) => return Err(Error::FlashError),
        };
        let ghost f0 = self.hal.flash();
        let ghost b = buf@;
        let header_bytes = vstd::slice::slice_subrange(buf.as_slice(), 0, 32);
        proof {
            assert(header_bytes@ =~= b.subrange(0, 32));
        }
        if is_erased(header_bytes) {
            return Ok(LoadPageResult::Empty(ThinPage::uninitialized(sector_address)));
        }
        let header = decode_header(buf.as_slice());
        let bitmap: [u8; 32] = array_from(buf.as_slice(), 32, 0);
        let mut page = ThinPage {
            address: sector_address,
            header,
            entry_state_bitmap: bitmap,
            item_hash_list: Vec::new(),
            erased_entry_count: 0,
            used_entry_count: 0,
        };
        match page.header.state {
            ThinPageState::Corrupt | ThinPageState::Invalid => {
                return Ok(LoadPageResult::Empty(page));
            },
            ThinPageState::Uninitialized => {
                if !is_erased(buf.as_slice()) {
                    page.header.state = ThinPageState::Corrupt;
                } else {
                    proof {
                        assert(all_erased(b));
                        assert(all_erased(b.subrange(0, 32)));
                    }
                }
                return Ok(LoadPageResult::Empty(page));
            },
            _ => {},
        }
        let crc_input = vstd::slice::slice_subrange(buf.as_slice(), 4, 28);
        proof {
            assert(crc_input@ =~= crate::raw::header_crc_input(b.subrange(0, 32)));
            assert(b.subrange(0, 32).subrange(28, 32) =~= b.subrange(28, 32));
        }
        if header.crc != T::crc32(0xFFFF_FFFF, crc_input) {
            page.header.state = ThinPageState::Corrupt;
            return Ok(LoadPageResult::Empty(page));
        }
        let mut namespaces: Vec<Namespace> = Vec::new();
        let mut blobs = BlobIndex::new();
        let ghost mut blob_items: Seq<Item> = Seq::empty();
        proof {
            assert(blob_versions(blobs.entries@) =~= item_versions(blob_items));
        }
        let mut item_index: usize = 0;
        while item_index < ENTRIES_PER_PAGE
            invariant
                item_index <= ENTRIES_PER_PAGE,
                sector_address + FLASH_SECTOR_SIZE <= f0.len(),
                buf@ == f0.subrange(sector_address as int, sector_address + FLASH_SECTOR_SIZE),
                page.address == sector_address,
                page.header == header,
                header_area_frame(f0, self.hal.flash(), sector_address as int),
                f0 == old(self).flash(),
                scan_state::<T>(page, namespaces@, blobs, f0, item_index as int),
                namespaces@ + scanned_namespaces::<T>(f0, sector_address as int, item_index as int) == scanned_namespaces::<T>(
                    f0,
                    sector_address as int,
                    0,
                ),
                listed_indices(page.item_hash_list@) + scanned_listed::<T>(f0, sector_address as int, item_index as int)
                    == scanned_listed::<T>(f0, sector_address as int, 0),
                blob_items + scanned_blob_items::<T>(f0, sector_address as int, item_index as int) == scanned_blob_items::<T>(
                    f0,
                    sector_address as int,
                    0,
                ),
                blob_versions(blobs.entries@) == item_versions(blob_items),
                page.erased_entry_count + scanned_erased::<T>(f0, sector_address as int, item_index as int) == scanned_erased::<T>(
                    f0,
                    sector_address as int,
                    0,
                ),
                page.used_entry_count + scanned_used::<T>(f0, sector_address as int, item_index as int) == scanned_used::<T>(
                    f0,
                    sector_address as int,
                    0,
                ),
                self.pages == old(self).pages,
                self.free_pages == old(self).free_pages,
                self.namespaces == old(self).namespaces,
                self.base_address == old(self).base_address,
                self.sectors == old(self).sectors,
            decreases ENTRIES_PER_PAGE - item_index,
        {
            let ghost before_ns = namespaces@;
            let ghost before_items = blob_items;
            let ghost before_list = listed_indices(page.item_hash_list@);
            let ghost i0 = item_index as int;
            item_index = match self.scan_entry(&mut page, &mut namespaces, &mut blobs, &buf, item_index, Ghost(f0)) {
                Ok(next) => next,
                Err(e) => return Err(e),
            };
            proof {
                let x = scan_step::<T>(f0, sector_address as int, i0).1;
                assert(scanned_namespaces::<T>(f0, sector_address as int, i0) == step_namespaces(x) + scanned_namespaces::<T>(
                    f0,
                    sector_address as int,
                    item_index as int,
                ));
                assert(before_ns + (step_namespaces(x) + scanned_namespaces::<T>(f0, sector_address as int, item_index as int))
                    =~= (before_ns + step_namespaces(x)) + scanned_namespaces::<T>(f0, sector_address as int, item_index as int));
                let c = scan_case::<T>(f0, sector_address as int, i0);
                assert(scanned_listed::<T>(f0, sector_address as int, i0) == step_listed(c, i0) + scanned_listed::<T>(
                    f0,
                    sector_address as int,
                    item_index as int,
                ));
                assert(before_list + (step_listed(c, i0) + scanned_listed::<T>(f0, sector_address as int, item_index as int))
                    =~= (before_list + step_listed(c, i0)) + scanned_listed::<T>(f0, sector_address as int, item_index as int));
                assert(scanned_blob_items::<T>(f0, sector_address as int, i0) == step_blob_items(c) + scanned_blob_items::<T>(
                    f0,
                    sector_address as int,
                    item_index as int,
                ));
                assert(before_items + (step_blob_items(c) + scanned_blob_items::<T>(f0, sector_address as int, item_index as int))
                    =~= (before_items + step_blob_items(c)) + scanned_blob_items::<T>(f0, sector_address as int, item_index as int));
                lemma_item_versions_append(before_items, step_blob_items(c));
                blob_items = before_items + step_blob_items(c);
            }
        }
        proof {
            assert(namespaces@ + scanned_namespaces::<T>(f0, sector_address as int, item_index as int) =~= namespaces@);
            assert(listed_indices(page.item_hash_list@) + scanned_listed::<T>(f0, sector_address as int, item_index as int)
                =~= listed_indices(page.item_hash_list@));
            assert(blob_items + scanned_blob_items::<T>(f0, sector_address as int, item_index as int) =~= blob_items);
        }
        proof {
            lemma_scan_state_kept::<T>(page, namespaces@, f0, self.hal.flash());
        }
        Ok(LoadPageResult::Used(page, namespaces, blobs))
    }
    /// Adds the namespace `n`, replacing the index of a namespace of the same name.
    pub fn insert_namespace(&mut self, n: Namespace)
        requires
            namespaces_unique(old(self).namespaces@),
        ensures
            namespaces_unique(final(self).namespaces@),
            namespace_index_of(final(self).namespaces@, n.name@) == Some(n.index),
            forall|name: Seq<u8>| name != n.name@ ==> namespace_index_of(final(self).namespaces@, name)
                == namespace_index_of(old(self).namespaces@, name),
            final(self).hal == old(self).hal,
            final(self).pages == old(self).pages,
            final(self).free_pages == old(self).free_pages,
            final(self).base_address == old(self).base_address,
            final(self).sectors == old(self).sectors,
    {
        let ghost before = self.namespaces@;
        let mut i: usize = 0;
        while i < self.namespaces.len()
            invariant
                i <= self.namespaces@.len(),
                self.namespaces@ == before,
                before == old(self).namespaces@,
                namespaces_unique(before),
                forall|j: int| 0 <= j < i ==> (#[trigger] before[j]).name@ != n.name@,
                self.hal == old(self).hal,
                self.pages == old(self).pages,
                self.free_pages == old(self).free_pages,
                self.base_address == old(self).base_address,
                self.sectors == old(self).sectors,
            decreases self.namespaces@.len() - i,
        {
            if self.namespaces[i].name.equals(&n.name) {
                self.namespaces.set(i, n);
                proof {
                    let now = self.namespaces@;
                    assert(now == before.update(i as int, n));
                    assert forall|a: int, b: int| 0 <= a < b < now.len() implies (#[trigger] now[a]).name@ != (#[trigger] now[b]).name@ by {
                        if a == i {
                            assert(before[b].name@ != before[i as int].name@);
                        } else if b == i {
                            assert(before[a].name@ != before[i as int].name@);
                        } else {
                            assert(before[a].name@ != before[b].name@);
                        }
                    }
                    assert(now[i as int].name@ == n.name@);
                    lemma_namespace_index_of_at(now, i as int);
                    assert forall|name: Seq<u8>| name != n.name@ implies namespace_index_of(now, name)
                        == namespace_index_of(before, name) by {
                        if exists|j: int| 0 <= j < now.len() && (#[trigger] now[j]).name@ == name {
                            let j = choose|j: int| 0 <= j < now.len() && (#[trigger] now[j]).name@ == name;
                            assert(j != i);
                            assert(before[j] == now[j]);
                            lemma_namespace_index_of_at(now, j);
                            lemma_namespace_index_of_at(before, j);
                        } else {
                            assert forall|j: int| 0 <= j < before.len() implies (#[trigger] before[j]).name@ != name by {
                                if j != i {
                                    assert(before[j] == now[j]);
                                }
                            }
                        }
                    }
                }
                return;
            }
            i += 1;
        }
        self.namespaces.push(n);
        proof {
            let now = self.namespaces@;
            assert forall|a: int, b: int| 0 <= a < b < now.len() implies (#[trigger] now[a]).name@ != (#[trigger] now[b]).name@ by {
                if b == before.len() {
                    assert(now[a] == before[a]);
                } else {
                    assert(now[a] == before[a]);
                    assert(now[b] == before[b]);
                }
            }
            lemma_namespace_index_of_at(now, before.len() as int);
            assert forall|name: Seq<u8>| name != n.name@ implies namespace_index_of(now, name)
                == namespace_index_of(before, name) by {
                if exists|j: int| 0 <= j < before.len() && (#[trigger] before[j]).name@ == name {
                    let j = choose|j: int| 0 <= j < before.len() && (#[trigger] before[j]).name@ == name;
                    assert(now[j] == before[j]);
                    lemma_namespace_index_of_at(now, j);
                    lemma_namespace_index_of_at(before, j);
                } else {
                    assert forall|j: int| 0 <= j < now.len() implies (#[trigger] now[j]).name@ != name by {
                        if j < before.len() {
                            assert(now[j] == before[j]);
                        }
                    }
                }
            }
        }
    }

    /// Loads every sector of the partition: pages in use go to the used pages, the others
    /// to the free pages, and the namespaces found are entered in the namespace table.
    /// Then the state left by an interrupted operation is repaired: the newest active page
    /// is put last, an interrupted reclamation is completed, older copies of items are
    /// erased and inconsistent blob versions are deleted.
    pub fn load_sectors(&mut self) -> (r: Result<(), Error>)
        requires
            old(self).wf(),
        ensures
            final(self).wf(),
            final(self).base_address == old(self).base_address,
            final(self).sectors == old(self).sectors,
            r is Ok ==> no_duplicate_items::<T>(final(self).pages@, final(self).flash()),
            old(self).sectors == 0 && old(self).pages@.len() == 0 ==> r is Ok && final(self).same_state(*old(self)),
            r is Ok ==> final(self).pages@.len() + final(self).free_pages@.len() == old(self).pages@.len()
                + old(self).free_pages@.len() + old(self).sectors,
            r is Ok ==> crate::compaction::only_last_active(final(self).pages@),
            r is Ok ==> forall|s: int|
                0 <= s < old(self).sectors && loads_as_used::<T>(
                    old(self).flash().subrange(
                        old(self).base_address + s * FLASH_SECTOR_SIZE,
                        old(self).base_address + s * FLASH_SECTOR_SIZE + FLASH_SECTOR_SIZE,
                    ),
                ) ==> #[trigger] namespaces_entered(
                    final(self).namespaces@,
                    scanned_namespaces::<T>(old(self).flash(), old(self).base_address + s * FLASH_SECTOR_SIZE, 0),
                ),
    {
        let mut blob_index = BlobIndex::new();
        let mut sector_idx: usize = 0;
        while sector_idx < self.sectors
            invariant
                sector_idx <= self.sectors,
                self.wf(),
                blob_index.wf(),
                self.base_address == old(self).base_address,
                self.sectors == old(self).sectors,
                self.sectors == 0 ==> self.same_state(*old(self)) && blob_index.entries@.len() == 0,
                self.pages@.len() + self.free_pages@.len() == old(self).pages@.len() + old(self).free_pages@.len() + sector_idx,
                self.flash().len() == old(self).flash().len(),
                forall|k: int|
                    self.base_address + sector_idx * FLASH_SECTOR_SIZE <= k < self.flash().len() ==> #[trigger] self.flash()[k]
                        == old(self).flash()[k],
                forall|s: int|
                    0 <= s < sector_idx && loads_as_used::<T>(
                        old(self).flash().subrange(
                            old(self).base_address + s * FLASH_SECTOR_SIZE,
                            old(self).base_address + s * FLASH_SECTOR_SIZE + FLASH_SECTOR_SIZE,
                        ),
                    ) ==> #[trigger] namespaces_entered(
                        self.namespaces@,
                        scanned_namespaces::<T>(old(self).flash(), old(self).base_address + s * FLASH_SECTOR_SIZE, 0),
                    ),
            decreases self.sectors - sector_idx,
        {
            let sector_address = self.base_address + sector_idx * FLASH_SECTOR_SIZE;
            proof {
                assert(sector_idx * FLASH_SECTOR_SIZE + FLASH_SECTOR_SIZE <= self.sectors * FLASH_SECTOR_SIZE) by (nonlinear_arith)
                    requires
                        sector_idx < self.sectors,
                ;
                assert((sector_idx * FLASH_SECTOR_SIZE) % (FLASH_SECTOR_SIZE as int) == 0) by (nonlinear_arith);
                assert(sector_address - self.base_address == sector_idx * FLASH_SECTOR_SIZE);
            }
            let ghost before = *self;
            let ghost a = sector_address as int;
            let loaded = match self.load_sector(sector_address) {
                Ok(l) => l,
                Err(e) => return Err(e),
            };
            proof {
                assert(a + FLASH_SECTOR_SIZE <= before.flash().len());
                lemma_scan_reads_from_sector::<T>(before.flash(), old(self).flash(), a, 0);
                assert(before.flash().subrange(a, a + FLASH_SECTOR_SIZE) =~= old(self).flash().subrange(a, a + FLASH_SECTOR_SIZE));
                assert(a == old(self).base_address + sector_idx * FLASH_SECTOR_SIZE);
                assert(a + FLASH_SECTOR_SIZE == self.base_address + (sector_idx + 1) * FLASH_SECTOR_SIZE);
            }
            match loaded {
                LoadPageResult::Empty(page) => {
                    self.free_pages.push(page);
                    proof {
                        assert forall|i: int| 0 <= i < self.free_pages@.len() implies (#[trigger] self.free_pages@[i]).wf()
                            && self.in_partition(self.free_pages@[i]) by {
                            if i < self.free_pages@.len() - 1 {
                                assert(self.free_pages@[i] == before.free_pages@[i]);
                            }
                        }
                    }
                },
                LoadPageResult::Used(page, namespaces, blobs) => {
                    let ghost mid = *self;
                    self.pages.push(page);
                    proof {
                        self.lemma_push_page(mid, page);
                    }
                    let ghost loaded_flash = self.flash();
                    let mut k: usize = 0;
                    while k < namespaces.len()
                        invariant
                            k <= namespaces@.len(),
                            self.wf(),
                            self.base_address == old(self).base_address,
                            self.sectors == old(self).sectors,
                            self.pages@.len() + self.free_pages@.len() == old(self).pages@.len() + old(self).free_pages@.len()
                                + sector_idx + 1,
                            self.flash() == loaded_flash,
                            namespaces@ == scanned_namespaces::<T>(old(self).flash(), a, 0),
                            a == old(self).base_address + sector_idx * FLASH_SECTOR_SIZE,
                            forall|j: int| 0 <= j < k ==> #[trigger] namespace_index_of(self.namespaces@, namespaces@[j].name@) is Some,
                            forall|s: int|
                                0 <= s < sector_idx && loads_as_used::<T>(
                                    old(self).flash().subrange(
                                        old(self).base_address + s * FLASH_SECTOR_SIZE,
                                        old(self).base_address + s * FLASH_SECTOR_SIZE + FLASH_SECTOR_SIZE,
                                    ),
                                ) ==> #[trigger] namespaces_entered(
                                    self.namespaces@,
                                    scanned_namespaces::<T>(old(self).flash(), old(self).base_address + s * FLASH_SECTOR_SIZE, 0),
                                ),
                        decreases namespaces@.len() - k,
                    {
                        let ghost table = self.namespaces@;
                        let n = namespaces[k];
                        self.insert_namespace(n);
                        proof {
                            assert forall|name: Seq<u8>| namespace_index_of(table, name) is Some implies #[trigger] namespace_index_of(
                                self.namespaces@,
                                name,
                            ) is Some by {
                                if name != n.name@ {
                                    assert(namespace_index_of(self.namespaces@, name) == namespace_index_of(table, name));
                                }
                            }
                            assert forall|s: int|
                                0 <= s < sector_idx && loads_as_used::<T>(
                                    old(self).flash().subrange(
                                        old(self).base_address + s * FLASH_SECTOR_SIZE,
                                        old(self).base_address + s * FLASH_SECTOR_SIZE + FLASH_SECTOR_SIZE,
                                    ),
                                ) implies #[trigger] namespaces_entered(
                                    self.namespaces@,
                                    scanned_namespaces::<T>(old(self).flash(), old(self).base_address + s * FLASH_SECTOR_SIZE, 0),
                                ) by {
                                let found = scanned_namespaces::<T>(old(self).flash(), old(self).base_address + s * FLASH_SECTOR_SIZE, 0);
                                assert(namespaces_entered(table, found));
                                assert forall|j: int| 0 <= j < found.len() implies #[trigger] namespace_index_of(
                                    self.namespaces@,
                                    found[j].name@,
                                ) is Some by {
                                    assert(namespace_index_of(table, found[j].name@) is Some);
                                }
                            }
                            assert forall|j: int| 0 <= j < k + 1 implies #[trigger] namespace_index_of(
                                self.namespaces@,
                                namespaces@[j].name@,
                            ) is Some by {
                                if j < k {
                                    assert(namespace_index_of(table, namespaces@[j].name@) is Some);
                                }
                            }
                        }
                        k += 1;
                    }
                    proof {
                        assert(namespaces_entered(self.namespaces@, scanned_namespaces::<T>(old(self).flash(), a, 0)));
                    }
                    merge_blob_index(&mut blob_index, blobs);
                },
            }
            sector_idx += 1;
        }
        let ghost loaded = self.pages@;
        match self.ensure_active_page_order() {
            Ok(()) => {},
            Err(e) => return Err(e),
        }
        proof {
            assert forall|i: int| 0 <= i < self.pages@.len() - 1 implies (#[trigger] self.pages@[i]).header.state
                != ThinPageState::Active by {
                if !exists|k: int| 0 <= k < loaded.len() && (#[trigger] loaded[k]).header.state == ThinPageState::Active {
                    assert(self.pages@[i] == loaded[i]);
                }
            }
        }
        match self.continue_free_page() {
            Ok(()) => {},
            Err(e) => return Err(e),
        }
        let ghost freed = self.pages@;
        match self.cleanup_duplicate_entries() {
            Ok(()) => {},
            Err(e) => return Err(e),
        }
        let ghost cleaned = *self;
        let r = self.cleanup_dirty_blobs(blob_index);
        proof {
            if r is Ok {
                lemma_no_duplicates_kept::<T>(cleaned, self.pages@, self.flash());
                assert forall|i: int| 0 <= i < self.pages@.len() - 1 implies (#[trigger] self.pages@[i]).header.state
                    != ThinPageState::Active by {
                    assert(self.pages@[i].header == cleaned.pages@[i].header);
                    assert(cleaned.pages@[i].header == freed[i].header);
                }
            }
        }
        r
    }
}

/// Read after write for page headers: a sector whose header was written when its page was
/// initialized loads as an active page in use, with the sequence number and version that
/// were written.
pub proof fn lemma_initialized_header_loads<T: Platform>(b: Seq<u8>, sequence: u32)
    requires
        b.len() == FLASH_SECTOR_SIZE,
        b.subrange(0, 32) == crate::raw::header_bytes::<T>(crate::raw::page_state_word(PageState::Active), sequence, 0xFE),
    ensures
        loaded_state::<T>(b) == ThinPageState::Active,
        loads_as_used::<T>(b),
        decoded_header(b).sequence == sequence,
        decoded_header(b).version == 0xFE,
{
    let h = b.subrange(0, 32);
    crate::raw::lemma_header_bytes::<T>(crate::raw::page_state_word(PageState::Active), sequence, 0xFE);
    assert(h.subrange(0, 4) =~= b.subrange(0, 4));
    assert(h.subrange(4, 8) =~= b.subrange(4, 8));
    assert(h[8] == b[8]);
    assert(h[0] == b[0]);
    assert(crate::raw::u32_le_bytes(0xFFFF_FFFEu32)[0] == 0xFEu8) by (bit_vector);
    crate::raw::lemma_u32_le_roundtrip(0xFFFF_FFFEu32);
    assert(h.subrange(0, 4) =~= crate::raw::u32_le_bytes(0xFFFF_FFFEu32));
    assert(!all_erased(h));
}

/// In a table without repeated names, the index found for a name is that of its entry.
pub proof fn lemma_namespace_index_of_at(namespaces: Seq<Namespace>, i: int)
    requires
        namespaces_unique(namespaces),
        0 <= i < namespaces.len(),
    ensures
        namespace_index_of(namespaces, namespaces[i].name@) == Some(namespaces[i].index),
{
    let name = namespaces[i].name@;
    assert(namespaces[i].name@ == name);
    let k = choose|k: int| 0 <= k < namespaces.len() && (#[trigger] namespaces[k]).name@ == name;
    if k < i {
        assert(namespaces[k].name@ != namespaces[i].name@);
    } else if k > i {
        assert(namespaces[i].name@ != namespaces[k].name@);
    }
}

/// `f` is entry `a` together with what entry `b` of the same blob version, seen on another
/// page, adds: the index data of `b` where it has some, and the chunks of `b` after those
/// of `a`.
pub open spec fn merged_entry(f: BlobIndexEntry, a: BlobIndexEntry, b: BlobIndexEntry) -> bool {
    &&& f.namespace_index == a.namespace_index
    &&& f.version == a.version
    &&& f.key == a.key
    &&& f.index == (if b.index is Some { b.index } else { a.index })
    &&& f.observed.chunks_by_page@ == a.observed.chunks_by_page@ + b.observed.chunks_by_page@
}

/// Merging progress: `cur` is `old0` after the entries of `from0` from position `n` on were
/// merged into it.
#[verifier::opaque]
pub open spec fn merge_state(cur: Seq<BlobIndexEntry>, old0: Seq<BlobIndexEntry>, from0: Seq<BlobIndexEntry>, n: int) -> bool {
    let m = old0.len() as int;
    &&& 0 <= n <= from0.len()
    &&& cur.len() >= m
    &&& forall|i: int| 0 <= i < m ==> entry_order_key(#[trigger] cur[i]) == entry_order_key(old0[i])
    &&& forall|i: int, k: int|
        #![trigger old0[i], from0[k]]
        0 <= i < m && n <= k < from0.len() && entry_order_key(old0[i]) == entry_order_key(from0[k]) ==> merged_entry(
            cur[i],
            old0[i],
            from0[k],
        )
    &&& forall|i: int|
        0 <= i < m && (forall|k: int| n <= k < from0.len() ==> entry_order_key(old0[i]) != entry_order_key(#[trigger] from0[k]))
            ==> #[trigger] cur[i] == old0[i]
    &&& forall|j: int|
        m <= j < cur.len() ==> exists|k: int|
            n <= k < from0.len() && #[trigger] cur[j] == #[trigger] from0[k] && forall|i: int|
                0 <= i < m ==> entry_order_key(#[trigger] old0[i]) != entry_order_key(from0[k])
    &&& forall|k: int|
        n <= k < from0.len() && (forall|i: int| 0 <= i < m ==> entry_order_key(#[trigger] old0[i]) != entry_order_key(from0[k]))
            ==> exists|j: int| m <= j < cur.len() && #[trigger] cur[j] == #[trigger] from0[k]
}

/// Entries of a blob index without two entries of one blob version.
pub open spec fn unique_versions(s: Seq<BlobIndexEntry>) -> bool {
    forall|a: int, b: int| 0 <= a < b < s.len() ==> entry_order_key(#[trigger] s[a]) != entry_order_key(#[trigger] s[b])
}

proof fn lemma_merge_start(old0: Seq<BlobIndexEntry>, from0: Seq<BlobIndexEntry>)
    ensures
        merge_state(old0, old0, from0, from0.len() as int),
{
    reveal(merge_state);
}

/// When entry `i` of the merged entries belongs to the version of the next entry to merge,
/// it is an entry of the start that has not been merged with anything yet.
proof fn lemma_merge_found_is_old(cur: Seq<BlobIndexEntry>, old0: Seq<BlobIndexEntry>, from0: Seq<BlobIndexEntry>, n: int, i: int)
    requires
        merge_state(cur, old0, from0, n),
        unique_versions(from0),
        0 < n,
        0 <= i < cur.len(),
        entry_order_key(cur[i]) == entry_order_key(from0[n - 1]),
    ensures
        i < old0.len(),
        cur[i] == old0[i],
{
    reveal(merge_state);
    let m = old0.len() as int;
    if i >= m {
        let k = choose|k: int|
            n <= k < from0.len() && #[trigger] cur[i] == #[trigger] from0[k] && forall|i2: int|
                0 <= i2 < m ==> entry_order_key(#[trigger] old0[i2]) != entry_order_key(from0[k]);
        assert(entry_order_key(from0[n - 1]) != entry_order_key(from0[k]));
    }
    assert(entry_order_key(cur[i]) == entry_order_key(old0[i]));
    assert forall|k: int| n <= k < from0.len() implies entry_order_key(old0[i]) != entry_order_key(#[trigger] from0[k]) by {
        assert(entry_order_key(from0[n - 1]) != entry_order_key(from0[k]));
    }
}

/// Merging the next entry into the entry of its version.
proof fn lemma_merge_step_found(
    cur: Seq<BlobIndexEntry>,
    old0: Seq<BlobIndexEntry>,
    from0: Seq<BlobIndexEntry>,
    n: int,
    i: int,
    f: BlobIndexEntry,
)
    requires
        merge_state(cur, old0, from0, n),
        unique_versions(from0),
        unique_versions(cur),
        0 < n,
        0 <= i < old0.len(),
        cur[i] == old0[i],
        entry_order_key(old0[i]) == entry_order_key(from0[n - 1]),
        merged_entry(f, old0[i], from0[n - 1]),
        entry_order_key(f) == entry_order_key(old0[i]),
    ensures
        merge_state(cur.update(i, f), old0, from0, n - 1),
{
    reveal(merge_state);
    let m = old0.len() as int;
    let k0 = n - 1;
    let after = cur.update(i, f);
    assert forall|i2: int| 0 <= i2 < m implies entry_order_key(#[trigger] after[i2]) == entry_order_key(old0[i2]) by {
        if i2 != i {
            assert(after[i2] == cur[i2]);
        }
    }
    assert forall|i2: int, k: int|
        #![trigger old0[i2], from0[k]]
        0 <= i2 < m && k0 <= k < from0.len() && entry_order_key(old0[i2]) == entry_order_key(from0[k]) implies merged_entry(
            after[i2],
            old0[i2],
            from0[k],
        ) by {
        if i2 != i {
            assert(after[i2] == cur[i2]);
            if k == k0 {
                assert(entry_order_key(cur[i2]) == entry_order_key(old0[i2]));
                assert(entry_order_key(cur[i2]) != entry_order_key(cur[i]));
            }
        } else if k != k0 {
            assert(entry_order_key(from0[k0]) != entry_order_key(from0[k]));
        }
    }
    assert forall|i2: int|
        0 <= i2 < m && (forall|k: int| k0 <= k < from0.len() ==> entry_order_key(old0[i2]) != entry_order_key(#[trigger] from0[k]))
            implies #[trigger] after[i2] == old0[i2] by {
        if i2 == i {
            assert(entry_order_key(old0[i2]) != entry_order_key(from0[k0]));
        } else {
            assert(after[i2] == cur[i2]);
        }
    }
    assert forall|j: int|
        m <= j < after.len() implies exists|k: int|
            k0 <= k < from0.len() && #[trigger] after[j] == #[trigger] from0[k] && forall|i2: int|
                0 <= i2 < m ==> entry_order_key(#[trigger] old0[i2]) != entry_order_key(from0[k]) by {
        assert(after[j] == cur[j]);
    }
    assert forall|k: int|
        k0 <= k < from0.len() && (forall|i2: int| 0 <= i2 < m ==> entry_order_key(#[trigger] old0[i2]) != entry_order_key(from0[k]))
            implies exists|j: int| m <= j < after.len() && #[trigger] after[j] == #[trigger] from0[k] by {
        if k == k0 {
            assert(entry_order_key(old0[i]) == entry_order_key(from0[k]));
        } else {
            let j = choose|j: int| m <= j < cur.len() && #[trigger] cur[j] == #[trigger] from0[k];
            assert(after[j] == cur[j]);
        }
    }
}

/// Adding the next entry, whose version has no entry yet, at the end.
proof fn lemma_merge_step_new(cur: Seq<BlobIndexEntry>, old0: Seq<BlobIndexEntry>, from0: Seq<BlobIndexEntry>, n: int)
    requires
        merge_state(cur, old0, from0, n),
        0 < n,
        forall|j: int| 0 <= j < cur.len() ==> entry_order_key(#[trigger] cur[j]) != entry_order_key(from0[n - 1]),
    ensures
        merge_state(cur.push(from0[n - 1]), old0, from0, n - 1),
{
    reveal(merge_state);
    let m = old0.len() as int;
    let k0 = n - 1;
    let after = cur.push(from0[k0]);
    assert forall|i2: int| 0 <= i2 < m implies entry_order_key(#[trigger] old0[i2]) != entry_order_key(from0[k0]) by {
        assert(entry_order_key(cur[i2]) != entry_order_key(from0[k0]));
    }
    assert forall|i2: int| 0 <= i2 < m implies entry_order_key(#[trigger] after[i2]) == entry_order_key(old0[i2]) by {
        assert(after[i2] == cur[i2]);
    }
    assert forall|i2: int, k: int|
        #![trigger old0[i2], from0[k]]
        0 <= i2 < m && k0 <= k < from0.len() && entry_order_key(old0[i2]) == entry_order_key(from0[k]) implies merged_entry(
            after[i2],
            old0[i2],
            from0[k],
        ) by {
        assert(after[i2] == cur[i2]);
    }
    assert forall|i2: int|
        0 <= i2 < m && (forall|k: int| k0 <= k < from0.len() ==> entry_order_key(old0[i2]) != entry_order_key(#[trigger] from0[k]))
            implies #[trigger] after[i2] == old0[i2] by {
        assert(after[i2] == cur[i2]);
        assert forall|k: int| n <= k < from0.len() implies entry_order_key(old0[i2]) != entry_order_key(#[trigger] from0[k]) by {
            assert(k0 <= k);
        }
    }
    assert forall|j: int|
        m <= j < after.len() implies exists|k: int|
            k0 <= k < from0.len() && #[trigger] after[j] == #[trigger] from0[k] && forall|i2: int|
                0 <= i2 < m ==> entry_order_key(#[trigger] old0[i2]) != entry_order_key(from0[k]) by {
        if j == cur.len() {
            assert(after[j] == from0[k0]);
        } else {
            assert(after[j] == cur[j]);
        }
    }
    assert forall|k: int|
        k0 <= k < from0.len() && (forall|i2: int| 0 <= i2 < m ==> entry_order_key(#[trigger] old0[i2]) != entry_order_key(from0[k]))
            implies exists|j: int| m <= j < after.len() && #[trigger] after[j] == #[trigger] from0[k] by {
        if k == k0 {
            assert(after[cur.len() as int] == from0[k]);
        } else {
            let j = choose|j: int| m <= j < cur.len() && #[trigger] cur[j] == #[trigger] from0[k];
            assert(after[j] == cur[j]);
        }
    }
}

/// The entries of `cur` after the first `old0.len()` are entries of `from0` whose version has
/// no entry in `old0`, and every such entry of `from0` is among them.
pub open spec fn added_entries(cur: Seq<BlobIndexEntry>, old0: Seq<BlobIndexEntry>, from0: Seq<BlobIndexEntry>) -> bool {
    &&& forall|j: int| #![trigger cur[j]] old0.len() <= j < cur.len() ==> added_from(cur[j], old0, from0)
    &&& forall|k: int| #![trigger from0[k]] 0 <= k < from0.len() && new_version(old0, from0[k]) ==> added_to(cur, old0, from0[k])
}

/// No entry of `old0` belongs to the version of `e`.
pub open spec fn new_version(old0: Seq<BlobIndexEntry>, e: BlobIndexEntry) -> bool {
    forall|i: int| 0 <= i < old0.len() ==> entry_order_key(#[trigger] old0[i]) != entry_order_key(e)
}

/// `e` is an entry of `from0` whose version has no entry in `old0`.
pub open spec fn added_from(e: BlobIndexEntry, old0: Seq<BlobIndexEntry>, from0: Seq<BlobIndexEntry>) -> bool {
    exists|k: int| 0 <= k < from0.len() && e == #[trigger] from0[k] && new_version(old0, from0[k])
}

/// `e` stands in `cur` after the first `old0.len()` entries.
pub open spec fn added_to(cur: Seq<BlobIndexEntry>, old0: Seq<BlobIndexEntry>, e: BlobIndexEntry) -> bool {
    exists|j: int| old0.len() <= j < cur.len() && #[trigger] cur[j] == e
}

/// Adds the blob versions seen on one more page: the index item of a version seen again
/// replaces the recorded one, and its chunks are added to those recorded.
fn merge_blob_index(into: &mut BlobIndex, from: BlobIndex)
    requires
        old(into).wf(),
        from.wf(),
    ensures
        final(into).wf(),
        final(into).entries@.len() >= old(into).entries@.len(),
        forall|i: int, k: int|
            #![trigger old(into).entries@[i], from.entries@[k]]
            0 <= i < old(into).entries@.len() && 0 <= k < from.entries@.len() && entry_order_key(old(into).entries@[i])
                == entry_order_key(from.entries@[k]) ==> merged_entry(
                final(into).entries@[i],
                old(into).entries@[i],
                from.entries@[k],
            ),
        forall|i: int|
            0 <= i < old(into).entries@.len() && (forall|k: int|
                0 <= k < from.entries@.len() ==> entry_order_key(old(into).entries@[i]) != entry_order_key(
                    #[trigger] from.entries@[k],
                )) ==> #[trigger] final(into).entries@[i] == old(into).entries@[i],
        added_entries(final(into).entries@, old(into).entries@, from.entries@),
{
    let ghost from0 = from.entries@;
    let ghost old0 = into.entries@;
    proof {
        lemma_merge_start(old0, from0);
    }
    let mut rest = from;
    while rest.entries.len() > 0
        invariant
            into.wf(),
            from0.len() >= rest.entries@.len(),
            rest.entries@ == from0.take(rest.entries@.len() as int),
            unique_versions(from0),
            merge_state(into.entries@, old0, from0, rest.entries@.len() as int),
        decreases rest.entries@.len(),
    {
        let ghost n = rest.entries@.len() as int;
        let ghost before = into.entries@;
        let mut e = match rest.entries.pop() {
            Some(e) => e,
            None => {
                proof {
                    assert(false);
                }
                return;
            },
        };
        proof {
            assert(e == from0[n - 1]);
            assert(rest.entries@ =~= from0.take(n - 1));
        }
        match into.find(e.namespace_index, e.version, &e.key) {
            Some(i) => {
                proof {
                    assert(entry_order_key(into.entries@[i as int]) =~= entry_order_key(e));
                    lemma_merge_found_is_old(before, old0, from0, n, i as int);
                }
                let mut existing = into.take(i);
                let ghost blank = into.entries@[i as int];
                if e.index.is_some() {
                    existing.index = e.index;
                }
                existing.observed.chunks_by_page.append(&mut e.observed.chunks_by_page);
                proof {
                    assert(existing.key@ == blank.key@);
                    assert(entry_order_key(existing) =~= entry_order_key(blank));
                    assert(merged_entry(existing, old0[i as int], from0[n - 1]));
                }
                into.replace(i, existing);
                proof {
                    assert(into.entries@ =~= before.update(i as int, existing));
                    lemma_merge_step_found(before, old0, from0, n, i as int, existing);
                }
            },
            None => {
                proof {
                    assert forall|j: int| 0 <= j < into.entries@.len() implies entry_order_key(
                        #[trigger] into.entries@[j],
                    ) != entry_order_key(e) by {
                        if entry_order_key(into.entries@[j]) == entry_order_key(e) {
                            lemma_entry_order_key_injective(into.entries@[j], e);
                            assert(entry_is(into.entries@[j], e.namespace_index, e.version, e.key@));
                        }
                    }
                }
                into.insert_new(e);
                proof {
                    lemma_merge_step_new(before, old0, from0, n);
                }
            },
        }
    }
    proof {
        reveal(merge_state);
        let m = old0.len() as int;
        assert(rest.entries@.len() == 0);
        assert(from0 == from.entries@);
        assert(old0 == old(into).entries@);
        assert forall|j: int| #![trigger into.entries@[j]] old0.len() <= j < into.entries@.len() implies added_from(into.entries@[j], old0, from0) by {
            let k = choose|k: int|
                0 <= k < from0.len() && #[trigger] into.entries@[j] == #[trigger] from0[k] && forall|i: int|
                    0 <= i < m ==> entry_order_key(#[trigger] old0[i]) != entry_order_key(from0[k]);
            assert(into.entries@[j] == from0[k]);
            assert(new_version(old0, from0[k]));
        }
        assert forall|k: int| #![trigger from0[k]] 0 <= k < from0.len() && new_version(old0, from0[k]) implies added_to(into.entries@, old0, from0[k]) by {
            assert forall|i: int| 0 <= i < m implies entry_order_key(#[trigger] old0[i]) != entry_order_key(from0[k]) by {}
            let j = choose|j: int| m <= j < into.entries@.len() && #[trigger] into.entries@[j] == #[trigger] from0[k];
            assert(into.entries@[j] == from0[k]);
        }
        assert(added_entries(into.entries@, old0, from0));
    }
}

} // verus!
