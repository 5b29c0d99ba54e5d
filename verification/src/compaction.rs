//! Page reclamation: moving the live items of a page to a fresh page and erasing it.

use vstd::prelude::*;

use crate::blob::{bytes_lt, entry_order_key, BlobIndex, BlobIndexEntry, BlobIndexEntryBlobIndexData, ChunkData};
use crate::error::{is_storage_error, Error};
use crate::init::listed_indices;
use crate::items::{entries_erased, referenced_data};
use crate::nvs::{
    erased_kept, lemma_erased_kept_refl, lemma_erased_kept_trans, lemma_consistency_kept, lemma_lists_shrunk_refl, lemma_lists_shrunk_trans, lemma_lookup_missing_kept, listed_item,
    lists_consistent, lists_shrunk, lookup_missing, Nvs,
};
use crate::types::{version_base, version_of, ChunkIndex, Key, VersionOffset};
use crate::page::{
    chunk_or_none, entry_bytes, entry_offset, entry_state_at, header_area_frame, new_item, page_write_frame, sized_data_array,
    stored_item, variable_span, ThinPage, ThinPageState,
};
use crate::platform::{erased_bytes, update_bytes, Platform};
use crate::raw::{
    ITEM_SIZE, ITEMS_OFFSET, is_scalar_type, is_variable_type, item_bytes, page_state_word, sized_size, u32_le_bytes, u32_to_le, EntryMapState, Item,
    ItemType, PageState, ENTRIES_PER_PAGE, FLASH_SECTOR_SIZE,
};

verus! {

/// Points of a page as a candidate for reclamation: none for a page without erased
/// entries, else ten per erased entry plus the page's age in sequence numbers.
pub open spec fn reclaim_points(p: ThinPage, next_sequence: u32) -> int {
    if p.erased_entry_count == 0 {
        0
    } else {
        p.erased_entry_count * 10 + (next_sequence - p.header.sequence)
    }
}

/// Page `c` is the one reclaimed: the last of the pages with the most points.
pub open spec fn is_reclaim_choice(pages: Seq<ThinPage>, next_sequence: u32, c: int) -> bool {
    &&& 0 <= c < pages.len()
    &&& forall|j: int| 0 <= j < pages.len() ==> reclaim_points(#[trigger] pages[j], next_sequence) <= reclaim_points(pages[c], next_sequence)
    &&& forall|j: int| c < j < pages.len() ==> reclaim_points(#[trigger] pages[j], next_sequence) < reclaim_points(pages[c], next_sequence)
}

/// The page reclaimed is never one without erased entries while another used page has
/// some: a page's points are ten per erased entry plus its age, and none without erased
/// entries; among pages with erased entries, the one reclaimed has the most.
pub proof fn lemma_reclaim_prefers_erased(pages: Seq<ThinPage>, next_sequence: u32, c: int, j: int)
    requires
        forall|i: int| 0 <= i < pages.len() ==> (#[trigger] pages[i]).header.sequence < next_sequence,
        is_reclaim_choice(pages, next_sequence, c),
        0 <= j < pages.len(),
        pages[j].erased_entry_count > 0,
    ensures
        pages[c].erased_entry_count > 0,
        pages[j].erased_entry_count * 10 + (next_sequence - pages[j].header.sequence) <= pages[c].erased_entry_count * 10 + (
        next_sequence - pages[c].header.sequence),
{
    assert(reclaim_points(pages[j], next_sequence) <= reclaim_points(pages[c], next_sequence));
}

/// At most one page is the one reclaimed.
pub proof fn lemma_reclaim_choice_unique(pages: Seq<ThinPage>, next_sequence: u32, c1: int, c2: int)
    requires
        is_reclaim_choice(pages, next_sequence, c1),
        is_reclaim_choice(pages, next_sequence, c2),
    ensures
        c1 == c2,
{
    if c1 < c2 {
        assert(reclaim_points(pages[c2], next_sequence) < reclaim_points(pages[c1], next_sequence));
        assert(reclaim_points(pages[c1], next_sequence) <= reclaim_points(pages[c2], next_sequence));
    } else if c2 < c1 {
        assert(reclaim_points(pages[c1], next_sequence) < reclaim_points(pages[c2], next_sequence));
        assert(reclaim_points(pages[c2], next_sequence) <= reclaim_points(pages[c1], next_sequence));
    }
}

/// Whether a page in state `s` can be reclaimed: a full page, or one that is corrupt or
/// of no valid state.
pub open spec fn reclaimable(s: ThinPageState) -> bool {
    s == ThinPageState::Full || s == ThinPageState::Corrupt || s == ThinPageState::Invalid
}

/// Position `i` after the positions `a` and `b` were swapped.
pub open spec fn swapped_index(a: int, b: int, i: int) -> int {
    if i == a {
        b
    } else if i == b {
        a
    } else {
        i
    }
}

/// `new` is the page `old`, possibly moved from active to full.
pub open spec fn same_page_or_full(old: ThinPage, new: ThinPage) -> bool {
    &&& new.address == old.address
    &&& new.entry_state_bitmap == old.entry_state_bitmap
    &&& new.item_hash_list == old.item_hash_list
    &&& new.used_entry_count == old.used_entry_count
    &&& new.erased_entry_count == old.erased_entry_count
    &&& new.header.sequence == old.header.sequence
    &&& new.header.version == old.header.version
    &&& new.header.crc == old.header.crc
    &&& (new.header.state == old.header.state || (old.header.state == ThinPageState::Active
        && new.header.state == ThinPageState::Full))
}

/// Page `c` is the first active page with the largest sequence number.
pub open spec fn is_newest_active(pages: Seq<ThinPage>, c: int) -> bool {
    &&& 0 <= c < pages.len()
    &&& pages[c].header.state == ThinPageState::Active
    &&& forall|i: int|
        0 <= i < pages.len() && (#[trigger] pages[i]).header.state == ThinPageState::Active ==> pages[i].header.sequence
            <= pages[c].header.sequence
    &&& forall|i: int|
        0 <= i < c && (#[trigger] pages[i]).header.state == ThinPageState::Active ==> pages[i].header.sequence
            < pages[c].header.sequence
}

/// Number of chunks seen over all pages.
pub open spec fn total_chunks(chunks: Seq<ChunkData>) -> int
    decreases chunks.len(),
{
    if chunks.len() == 0 {
        0
    } else {
        total_chunks(chunks.drop_last()) + chunks.last().chunk_count
    }
}

/// Number of data bytes seen over all pages.
pub open spec fn total_size(chunks: Seq<ChunkData>) -> int
    decreases chunks.len(),
{
    if chunks.len() == 0 {
        0
    } else {
        total_size(chunks.drop_last()) + chunks.last().data_size
    }
}

/// The totals of a prefix do not exceed those of the whole.
proof fn lemma_totals_grow(chunks: Seq<ChunkData>, i: int)
    requires
        0 <= i <= chunks.len(),
    ensures
        total_chunks(chunks.take(i)) <= total_chunks(chunks),
        total_size(chunks.take(i)) <= total_size(chunks),
    decreases chunks.len() - i,
{
    if i < chunks.len() {
        lemma_totals_grow(chunks, i + 1);
        assert(chunks.take(i + 1).drop_last() =~= chunks.take(i));
    } else {
        assert(chunks.take(i) =~= chunks);
    }
}

/// A recorded blob version that needs no repair: its index item was seen, and its chunks
/// add up to what the index item says.
pub open spec fn blob_version_settled(e: BlobIndexEntry) -> bool {
    &&& e.index is Some
    &&& total_chunks(e.observed.chunks_by_page@) == e.index->0.chunk_count
    &&& total_size(e.observed.chunks_by_page@) == e.index->0.size
}

/// No recorded blob version needs repair, and no key is recorded in both versions.
pub open spec fn blobs_settled(entries: Seq<BlobIndexEntry>) -> bool {
    &&& forall|i: int| 0 <= i < entries.len() ==> blob_version_settled(#[trigger] entries[i])
    &&& forall|i: int, j: int|
        0 <= i < entries.len() && 0 <= j < entries.len() && (#[trigger] entries[i]).namespace_index
            == (#[trigger] entries[j]).namespace_index && entries[i].key@ == entries[j].key@ ==> entries[i].version
            == entries[j].version
}

/// Whether cleaning up deletes the index item of blob version `e` because its chunks do not
/// add up to it.
pub open spec fn index_dropped(entries: Seq<BlobIndexEntry>, e: BlobIndexEntry) -> bool {
    &&& e.index is Some
    &&& !blob_version_settled(e)
}

/// Entry `j` of `entries` is the second version, with an index item, of the key of the
/// first version `e`, whose index item was seen and whose chunks add up to it: both index
/// items of one key were seen.
pub open spec fn pair_at(entries: Seq<BlobIndexEntry>, e: BlobIndexEntry, j: int) -> bool {
    &&& e.version == VersionOffset::V0
    &&& blob_version_settled(e)
    &&& 0 <= j < entries.len()
    &&& entries[j].namespace_index == e.namespace_index
    &&& entries[j].key@ == e.key@
    &&& entries[j].version == VersionOffset::V1
    &&& entries[j].index is Some
}

/// Of the versions `e` and `other` of one key, both with an index item, the older: the one
/// whose index item lies on the page with the lower sequence number, or on the same page
/// at the lower entry index.
pub open spec fn older_version(e: BlobIndexEntry, other: BlobIndexEntry) -> VersionOffset {
    let a = e.index->0;
    let b = other.index->0;
    if b.page_sequence > a.page_sequence || (b.page_sequence == a.page_sequence && b.item_index > a.item_index) {
        e.version
    } else {
        other.version
    }
}

/// Where both index items of the key of `e` were seen, no lookup entry names an index item
/// of the older version any more.
pub open spec fn pair_resolved<T: Platform>(nvs: Nvs<T>, entries: Seq<BlobIndexEntry>, e: BlobIndexEntry) -> bool {
    forall|j: int|
        #[trigger] pair_at(entries, e, j) ==> no_listed_index::<T>(
            nvs.pages@,
            nvs.flash(),
            e.namespace_index,
            e.key@,
            older_version(e, entries[j]),
        )
}

/// What cleaning up leaves of blob version `e` of `entries` in `nvs`: where the version
/// needs repair, none of its data chunks is found; where its index item does not match its
/// chunks, the lookup of its key finds nothing; where both versions of its key have an
/// index item, none of the data chunks of the older version is found.
pub open spec fn blob_version_cleaned<T: Platform>(nvs: Nvs<T>, entries: Seq<BlobIndexEntry>, e: BlobIndexEntry) -> bool {
    &&& !blob_version_settled(e) ==> chunks_missing(nvs, e.namespace_index, e.key@, e.version)
    &&& index_dropped(entries, e) ==> lookup_missing::<T>(nvs.pages@, nvs.flash(), e.namespace_index, e.key@, 0xFF)
    &&& forall|j: int| #[trigger] pair_at(entries, e, j) ==> chunks_missing(
        nvs,
        e.namespace_index,
        e.key@,
        older_version(e, entries[j]),
    )
}

/// None of the data chunks of version `v` of `key` in namespace `ns` is found.
pub open spec fn chunks_missing<T: Platform>(nvs: Nvs<T>, ns: u8, key: Seq<u8>, v: VersionOffset) -> bool {
    forall|c: int|
        version_base(v) <= c < version_base(v) + 127 ==> #[trigger] lookup_missing::<T>(nvs.pages@, nvs.flash(), ns, key, c as u8)
}

/// No listed index item of a version appears while entries are only deleted.
proof fn lemma_no_listed_index_kept<T: Platform>(before: Nvs<T>, after: Nvs<T>, ns: u8, key: Seq<u8>, v: VersionOffset)
    requires
        before.wf(),
        lists_shrunk(before.pages@, after.pages@),
        before.header_areas_frame(before.flash(), after.flash()),
        no_listed_index::<T>(before.pages@, before.flash(), ns, key, v),
    ensures
        no_listed_index::<T>(after.pages@, after.flash(), ns, key, v),
{
    let pages0 = before.pages@;
    let flash0 = before.flash();
    assert forall|q: int, j: int|
        #![trigger after.pages@[q].item_hash_list@[j]]
        0 <= q < after.pages@.len() && 0 <= j < after.pages@[q].item_hash_list@.len() && entry_offset(
            after.pages@[q].address as int,
            after.pages@[q].item_hash_list@[j].index as int,
        ) + ITEM_SIZE <= after.flash().len() implies !(listed_item::<T>(after.pages@, after.flash(), q, j) is Some
        && is_version_index(listed_item::<T>(after.pages@, after.flash(), q, j)->0, ns, key, v)) by {
        let e = after.pages@[q].item_hash_list@[j];
        assert(after.pages@[q] == after.pages@[q]);
        assert(pages0[q].item_hash_list@.contains(e));
        let j0 = choose|j0: int| 0 <= j0 < pages0[q].item_hash_list@.len() && pages0[q].item_hash_list@[j0] == e;
        assert(pages0[q].item_hash_list@[j0] == e);
        let a = pages0[q].address as int;
        assert(pages0[q].wf() && before.in_partition(pages0[q]));
        before.lemma_entries_kept(pages0[q], flash0, after.flash(), entry_offset(a, e.index as int), entry_offset(a, e.index as int) + 32);
        assert(listed_item::<T>(after.pages@, after.flash(), q, j) == listed_item::<T>(pages0, flash0, q, j0));
    }
}

/// What was found missing stays missing while entries are only deleted.
proof fn lemma_cleaned_kept<T: Platform>(before: Nvs<T>, after: Nvs<T>, entries: Seq<BlobIndexEntry>, e: BlobIndexEntry)
    requires
        before.wf(),
        lists_consistent::<T>(before.pages@, before.flash()),
        lists_shrunk(before.pages@, after.pages@),
        before.header_areas_frame(before.flash(), after.flash()),
        blob_version_cleaned(before, entries, e),
    ensures
        blob_version_cleaned(after, entries, e),
{
    if !blob_version_settled(e) {
        lemma_chunks_missing_kept::<T>(before, after, e.namespace_index, e.key@, e.version);
    }
    if index_dropped(entries, e) {
        lemma_lookup_missing_kept::<T>(before, after.pages@, after.flash(), e.namespace_index, e.key@, 0xFF);
    }
    assert forall|j: int| #[trigger] pair_at(entries, e, j) implies chunks_missing(
        after,
        e.namespace_index,
        e.key@,
        older_version(e, entries[j]),
    ) by {
        lemma_chunks_missing_kept::<T>(before, after, e.namespace_index, e.key@, older_version(e, entries[j]));
    }
}

/// Missing chunks stay missing while entries are only deleted.
proof fn lemma_chunks_missing_kept<T: Platform>(before: Nvs<T>, after: Nvs<T>, ns: u8, key: Seq<u8>, v: VersionOffset)
    requires
        before.wf(),
        lists_consistent::<T>(before.pages@, before.flash()),
        lists_shrunk(before.pages@, after.pages@),
        before.header_areas_frame(before.flash(), after.flash()),
        chunks_missing(before, ns, key, v),
    ensures
        chunks_missing(after, ns, key, v),
{
    assert forall|c: int| version_base(v) <= c < version_base(v) + 127 implies #[trigger] lookup_missing::<T>(
        after.pages@,
        after.flash(),
        ns,
        key,
        c as u8,
    ) by {
        assert(lookup_missing::<T>(before.pages@, before.flash(), ns, key, c as u8));
        lemma_lookup_missing_kept::<T>(before, after.pages@, after.flash(), ns, key, c as u8);
    }
}

/// Resolved pairs stay resolved while entries are only deleted.
proof fn lemma_pair_resolved_kept<T: Platform>(before: Nvs<T>, after: Nvs<T>, entries: Seq<BlobIndexEntry>, e: BlobIndexEntry)
    requires
        before.wf(),
        lists_shrunk(before.pages@, after.pages@),
        before.header_areas_frame(before.flash(), after.flash()),
        pair_resolved(before, entries, e),
    ensures
        pair_resolved(after, entries, e),
{
    assert forall|j: int| #[trigger] pair_at(entries, e, j) implies no_listed_index::<T>(
        after.pages@,
        after.flash(),
        e.namespace_index,
        e.key@,
        older_version(e, entries[j]),
    ) by {
        lemma_no_listed_index_kept::<T>(before, after, e.namespace_index, e.key@, older_version(e, entries[j]));
    }
}

/// In entries without two entries of one blob version, entries of the same version are
/// the same entry.
proof fn lemma_same_version_same_entry(entries: Seq<BlobIndexEntry>, x: BlobIndexEntry, y: BlobIndexEntry)
    requires
        forall|a: int, b: int|
            0 <= a < b < entries.len() ==> entry_order_key(#[trigger] entries[a]) != entry_order_key(#[trigger] entries[b]),
        entries.contains(x),
        entries.contains(y),
        entry_order_key(x) == entry_order_key(y),
    ensures
        x == y,
{
    let a = choose|a: int| 0 <= a < entries.len() && entries[a] == x;
    let b = choose|b: int| 0 <= b < entries.len() && entries[b] == y;
    if a < b {
        assert(entry_order_key(entries[a]) != entry_order_key(entries[b]));
    } else if b < a {
        assert(entry_order_key(entries[b]) != entry_order_key(entries[a]));
    }
}

/// The first version of a key comes before its second version.
proof fn lemma_first_version_first(a: BlobIndexEntry, b: BlobIndexEntry)
    requires
        a.namespace_index == b.namespace_index,
        a.key@ == b.key@,
        a.version == VersionOffset::V0,
        b.version == VersionOffset::V1,
    ensures
        bytes_lt(entry_order_key(a), entry_order_key(b)),
{
    let ka = entry_order_key(a);
    let kb = entry_order_key(b);
    assert(ka.take(1) =~= kb.take(1));
    assert(ka[1] < kb[1]);
}

/// Item `it` is the blob index item of version `version` of `key` in namespace `ns`.
pub open spec fn is_version_index(it: Item, ns: u8, key: Seq<u8>, version: VersionOffset) -> bool {
    &&& it.namespace_index == ns
    &&& it.key@ == key
    &&& it.type_ == ItemType::BlobIndex
    &&& it.chunk_index == 0xFF
    &&& version_of(it.data@[5]) == version
}

/// No lookup entry names (an entry within the flash holding) the blob index item of version
/// `version` of `key` in namespace `ns`.
pub open spec fn no_listed_index<T: Platform>(pages: Seq<ThinPage>, flash: Seq<u8>, ns: u8, key: Seq<u8>, version: VersionOffset) -> bool {
    forall|p: int, j: int|
        #![trigger pages[p].item_hash_list@[j]]
        0 <= p < pages.len() && 0 <= j < pages[p].item_hash_list@.len() && entry_offset(
            pages[p].address as int,
            pages[p].item_hash_list@[j].index as int,
        ) + ITEM_SIZE <= flash.len() ==> !(listed_item::<T>(pages, flash, p, j) is Some
            && is_version_index(listed_item::<T>(pages, flash, p, j)->0, ns, key, version))
}

/// No lookup entry of page `p` names entry `index`.
pub open spec fn entry_unlisted(pages: Seq<ThinPage>, p: int, index: u8) -> bool {
    forall|j: int| 0 <= j < pages[p].item_hash_list@.len() ==> (#[trigger] pages[p].item_hash_list@[j]).index != index
}

/// Lookup lists that only lose entries keep an entry unlisted.
proof fn lemma_entry_unlisted_kept(before: Seq<ThinPage>, after: Seq<ThinPage>, p: int, index: u8)
    requires
        lists_shrunk(before, after),
        0 <= p < before.len(),
        entry_unlisted(before, p, index),
    ensures
        entry_unlisted(after, p, index),
{
    assert(after[p] == after[p]);
    assert forall|j: int| 0 <= j < after[p].item_hash_list@.len() implies (#[trigger] after[p].item_hash_list@[j]).index != index by {
        let e = after[p].item_hash_list@[j];
        assert(before[p].item_hash_list@.contains(e));
        let j0 = choose|j0: int| 0 <= j0 < before[p].item_hash_list@.len() && before[p].item_hash_list@[j0] == e;
        assert(before[p].item_hash_list@[j0].index != index);
    }
}

/// Whether the chunks seen of a blob version add up to what its index item says.
pub fn chunks_match(index: &BlobIndexEntryBlobIndexData, chunks: &Vec<ChunkData>) -> (b: bool)
    ensures
        b == (total_chunks(chunks@) == index.chunk_count && total_size(chunks@) == index.size),
{
    let mut count: u64 = 0;
    let mut size: u64 = 0;
    let mut i: usize = 0;
    while i < chunks.len()
        invariant
            i <= chunks@.len(),
            count == total_chunks(chunks@.take(i as int)),
            size == total_size(chunks@.take(i as int)),
            count <= 0xFF,
            size <= 0xFFFF_FFFF,
        decreases chunks@.len() - i,
    {
        proof {
            assert(chunks@.take(i + 1).drop_last() =~= chunks@.take(i as int));
        }
        count = count + chunks[i].chunk_count as u64;
        size = size + chunks[i].data_size as u64;
        if count > 0xFF || size > 0xFFFF_FFFF {
            proof {
                lemma_totals_grow(chunks@, i + 1);
            }
            return false;
        }
        i += 1;
    }
    proof {
        assert(chunks@.take(chunks@.len() as int) =~= chunks@);
    }
    count == index.chunk_count as u64 && size == index.size as u64
}

/// A stored item that may have an older copy: where it is and what it is stored under.
#[derive(Clone, Copy)]
pub struct DuplicateCandidate {
    pub page: usize,
    pub index: u8,
    pub sequence: u32,
    pub span: u8,
    pub hash: u32,
    pub namespace_index: u8,
    pub key: Key,
}

/// Whether candidates `a` and `b` are stored under the same hash, namespace and key.
pub open spec fn same_slot(a: DuplicateCandidate, b: DuplicateCandidate) -> bool {
    a.hash == b.hash && a.namespace_index == b.namespace_index && a.key@ == b.key@
}

/// Whether candidate `b` (at position `ib`) is newer than candidate `a` (at position `ia`):
/// on a page with a higher sequence number, or later on the same page, or, where both
/// agree, later in scan order.
pub open spec fn newer(b: DuplicateCandidate, ib: int, a: DuplicateCandidate, ia: int) -> bool {
    ||| b.sequence > a.sequence
    ||| b.sequence == a.sequence && b.index > a.index
    ||| b.sequence == a.sequence && b.index == a.index && ib > ia
}

/// Whether candidate `a` has a newer copy among the candidates.
pub open spec fn superseded(candidates: Seq<DuplicateCandidate>, a: int) -> bool {
    exists|b: int|
        0 <= b < candidates.len() && b != a && same_slot(candidates[a], #[trigger] candidates[b])
            && newer(candidates[b], b, candidates[a], a)
}

/// A stored item that duplicate cleanup considers: of a namespace other than 0, and
/// neither a blob index item nor blob data.
pub open spec fn plain_item(it: Item) -> bool {
    it.namespace_index != 0 && it.type_ != ItemType::BlobIndex && it.type_ != ItemType::BlobData
}

/// No two lookup entries that name different entries (within the flash) and carry the
/// same hash name valid plain items of the same namespace and key.
pub open spec fn no_duplicate_items<T: Platform>(pages: Seq<ThinPage>, flash: Seq<u8>) -> bool {
    forall|p1: int, j1: int, p2: int, j2: int|
        #![trigger pages[p1].item_hash_list@[j1], pages[p2].item_hash_list@[j2]]
        0 <= p1 < pages.len() && 0 <= j1 < pages[p1].item_hash_list@.len() && 0 <= p2 < pages.len() && 0 <= j2
            < pages[p2].item_hash_list@.len() && (p1 != p2 || pages[p1].item_hash_list@[j1].index
            != pages[p2].item_hash_list@[j2].index) && pages[p1].item_hash_list@[j1].hash
            == pages[p2].item_hash_list@[j2].hash && entry_offset(
            pages[p1].address as int,
            pages[p1].item_hash_list@[j1].index as int,
        ) + 32 <= flash.len() && entry_offset(pages[p2].address as int, pages[p2].item_hash_list@[j2].index as int) + 32
            <= flash.len() && listed_item::<T>(pages, flash, p1, j1) is Some && listed_item::<T>(
            pages,
            flash,
            p2,
            j2,
        ) is Some && plain_item(listed_item::<T>(pages, flash, p1, j1)->0) && plain_item(
            listed_item::<T>(pages, flash, p2, j2)->0,
        ) ==> !(listed_item::<T>(pages, flash, p1, j1)->0.namespace_index == listed_item::<T>(
            pages,
            flash,
            p2,
            j2,
        )->0.namespace_index && listed_item::<T>(pages, flash, p1, j1)->0.key@ == listed_item::<T>(
            pages,
            flash,
            p2,
            j2,
        )->0.key@)
}

/// Whether another listed entry carries the hash of entry `k`.
pub open spec fn hash_shared_at(listed: Seq<(usize, u8, u32)>, k: int) -> bool {
    exists|m: int| 0 <= m < listed.len() && m != k && (#[trigger] listed[m]).2 == listed[k].2
}

/// Whether listed entry `k` is entry `index` of page `q` with hash `hash`.
pub open spec fn listed_at(listed: Seq<(usize, u8, u32)>, k: int, q: int, index: u8, hash: u32) -> bool {
    listed[k].0 as int == q && listed[k].1 == index && listed[k].2 == hash
}

/// Whether lookup entry `e` of page `q` was listed.
pub open spec fn listed_has(listed: Seq<(usize, u8, u32)>, q: int, index: u8, hash: u32) -> bool {
    exists|k: int| 0 <= k < listed.len() && #[trigger] listed_at(listed, k, q, index, hash)
}

/// The item stored at the entry that listed entry `l` names.
pub open spec fn item_named<T: Platform>(pages: Seq<ThinPage>, flash: Seq<u8>, l: (usize, u8, u32)) -> Option<Item> {
    stored_item::<T>(entry_bytes(flash, pages[l.0 as int].address as int, l.1 as int))
}

/// Some candidate stands for listed entry `l`, whose entry holds item `it`.
pub open spec fn candidate_listed(candidates: Seq<DuplicateCandidate>, l: (usize, u8, u32), pages: Seq<ThinPage>, it: Item) -> bool {
    exists|c: int| 0 <= c < candidates.len() && #[trigger] candidate_for(candidates[c], l, pages, it)
}

/// Candidate `c` stands for listed entry `l`, whose entry holds item `it`.
pub open spec fn candidate_for(c: DuplicateCandidate, l: (usize, u8, u32), pages: Seq<ThinPage>, it: Item) -> bool {
    &&& c.page == l.0
    &&& c.index == l.1
    &&& c.hash == l.2
    &&& c.sequence == pages[l.0 as int].header.sequence
    &&& c.namespace_index == it.namespace_index
    &&& c.key@ == it.key@
    &&& c.span == it.span
}

/// No lookup entry of the page of candidate `c` names the entry of `c`.
pub open spec fn index_gone(pages: Seq<ThinPage>, c: DuplicateCandidate) -> bool {
    forall|j: int|
        0 <= j < pages[c.page as int].item_hash_list@.len() ==> (#[trigger] pages[c.page as int].item_hash_list@[j]).index
            != c.index
}

/// Lookup lists that only lose entries keep an entry unnamed.
proof fn lemma_index_gone_kept(before: Seq<ThinPage>, after: Seq<ThinPage>, c: DuplicateCandidate)
    requires
        lists_shrunk(before, after),
        index_gone(before, c),
        c.page < before.len(),
    ensures
        index_gone(after, c),
{
    let p = c.page as int;
    assert(after[p] == after[p]);
    assert forall|j: int| 0 <= j < after[p].item_hash_list@.len() implies (#[trigger] after[p].item_hash_list@[j]).index != c.index by {
        let e = after[p].item_hash_list@[j];
        assert(before[p].item_hash_list@.contains(e));
        let j0 = choose|j0: int| 0 <= j0 < before[p].item_hash_list@.len() && before[p].item_hash_list@[j0] == e;
        assert(before[p].item_hash_list@[j0].index != c.index);
    }
}

/// Whether candidate `a` has a newer copy among the candidates.
fn is_superseded(candidates: &Vec<DuplicateCandidate>, a: usize) -> (r: bool)
    requires
        a < candidates@.len(),
    ensures
        r == superseded(candidates@, a as int),
{
    let ca = candidates[a];
    let mut b: usize = 0;
    while b < candidates.len()
        invariant
            b <= candidates@.len(),
            a < candidates@.len(),
            ca == candidates@[a as int],
            forall|k: int|
                0 <= k < b ==> !(k != a && same_slot(ca, #[trigger] candidates@[k]) && newer(candidates@[k], k, ca, a as int)),
        decreases candidates@.len() - b,
    {
        let cb = candidates[b];
        if b != a && cb.hash == ca.hash && cb.namespace_index == ca.namespace_index && cb.key.equals(&ca.key) {
            if cb.sequence > ca.sequence || (cb.sequence == ca.sequence && (cb.index > ca.index || (cb.index
                == ca.index && b > a))) {
                return true;
            }
        }
        b += 1;
    }
    false
}

/// Whether another listed entry carries the hash of entry `k`.
fn hash_shared(listed: &Vec<(usize, u8, u32)>, k: usize) -> (r: bool)
    requires
        k < listed@.len(),
    ensures
        r == hash_shared_at(listed@, k as int),
{
    let h = listed[k].2;
    let mut m: usize = 0;
    while m < listed.len()
        invariant
            m <= listed@.len(),
            k < listed@.len(),
            h == listed@[k as int].2,
            forall|i: int| 0 <= i < m && i != k ==> (#[trigger] listed@[i]).2 != h,
        decreases listed@.len() - m,
    {
        if m != k && listed[m].2 == h {
            return true;
        }
        m += 1;
    }
    false
}

/// The item stored at entry `i` of the page at `address`, if that entry holds a valid one.
pub open spec fn item_at<T: Platform>(flash: Seq<u8>, address: int, i: int) -> Option<Item> {
    stored_item::<T>(entry_bytes(flash, address, i))
}

/// Whether copying the items of `source` takes the item at entry `i`: the entry is marked
/// written and holds a valid item with a span, of a type with a fixed value or with data.
pub open spec fn copy_takes<T: Platform>(flash: Seq<u8>, source: ThinPage, i: int) -> bool {
    &&& entry_state_at(source.entry_state_bitmap@, i) == EntryMapState::Written
    &&& item_at::<T>(flash, source.address as int, i) is Some
    &&& item_at::<T>(flash, source.address as int, i)->0.span >= 1
    &&& (is_scalar_type(item_at::<T>(flash, source.address as int, i)->0.type_) || is_variable_type(
        item_at::<T>(flash, source.address as int, i)->0.type_,
    ))
}

/// Where copying goes on after entry `i` of `source`: past the item stored there when the
/// entry is marked written and holds a valid item with a span, else at the next entry.
pub open spec fn copy_next<T: Platform>(flash: Seq<u8>, source: ThinPage, i: int) -> int {
    if entry_state_at(source.entry_state_bitmap@, i) == EntryMapState::Written && item_at::<T>(
        flash,
        source.address as int,
        i,
    ) is Some && item_at::<T>(flash, source.address as int, i)->0.span >= 1 {
        i + item_at::<T>(flash, source.address as int, i)->0.span
    } else {
        i + 1
    }
}

/// The entries of `source` whose items copying takes, from entry `i` on, in order.
pub open spec fn copied_entries<T: Platform>(flash: Seq<u8>, source: ThinPage, i: int) -> Seq<int>
    decreases ENTRIES_PER_PAGE - i,
{
    if i < 0 || i >= ENTRIES_PER_PAGE {
        Seq::empty()
    } else {
        let head = if copy_takes::<T>(flash, source, i) {
            seq![i]
        } else {
            Seq::empty()
        };
        let next = copy_next::<T>(flash, source, i);
        if i < next <= ENTRIES_PER_PAGE {
            head + copied_entries::<T>(flash, source, next)
        } else {
            head
        }
    }
}

/// The data of every item with data that copying takes from `source` lies within the
/// sector of `source`.
pub open spec fn copied_data_inside<T: Platform>(flash: Seq<u8>, source: ThinPage) -> bool {
    forall|i: int|
        0 <= i < ENTRIES_PER_PAGE && #[trigger] copy_takes::<T>(flash, source, i) && is_variable_type(
            item_at::<T>(flash, source.address as int, i)->0.type_,
        ) ==> entry_offset(source.address as int, i + 1) + sized_size(item_at::<T>(flash, source.address as int, i)->0.data@)
            <= source.address + FLASH_SECTOR_SIZE
}

/// One step of copying: the entries still to copy lose the entry at `i` when copying takes it.
proof fn lemma_copy_progress<T: Platform>(f: Seq<u8>, source: ThinPage, i: int, done: Seq<int>)
    requires
        0 <= i < ENTRIES_PER_PAGE,
        done + copied_entries::<T>(f, source, i) == copied_entries::<T>(f, source, 0),
    ensures
        (if copy_takes::<T>(f, source, i) {
            done.push(i)
        } else {
            done
        }) + copied_entries::<T>(f, source, copy_next::<T>(f, source, i)) == copied_entries::<T>(f, source, 0),
{
    let next = copy_next::<T>(f, source, i);
    let rest = copied_entries::<T>(f, source, next);
    if next > ENTRIES_PER_PAGE {
        assert(rest =~= Seq::<int>::empty());
    }
    if copy_takes::<T>(f, source, i) {
        assert(copied_entries::<T>(f, source, i) == seq![i] + rest);
        assert(done + (seq![i] + rest) =~= done.push(i) + rest);
    } else {
        assert(copied_entries::<T>(f, source, i) =~= rest);
    }
}

/// Bytes outside the sector at `tgt` that did not change read the same.
proof fn lemma_outside_sector(g: Seq<u8>, f: Seq<u8>, tgt: int, a: int, b: int)
    requires
        g.len() == f.len(),
        forall|k: int| 0 <= k < f.len() && !(tgt <= k < tgt + FLASH_SECTOR_SIZE) ==> #[trigger] g[k] == f[k],
        0 <= a <= b <= f.len(),
        b <= tgt || tgt + FLASH_SECTOR_SIZE <= a,
    ensures
        g.subrange(a, b) == f.subrange(a, b),
{
    assert forall|k: int| 0 <= k < b - a implies g.subrange(a, b)[k] == f.subrange(a, b)[k] by {
        assert(g[a + k] == f[a + k]);
    }
    assert(g.subrange(a, b) =~= f.subrange(a, b));
}

/// A write into the header or the entries `from..to` of the page at `tgt` leaves the flash
/// outside that sector unchanged.
proof fn lemma_page_write_in_sector(g: Seq<u8>, h: Seq<u8>, tgt: int, from: int, to: int)
    requires
        page_write_frame(g, h, tgt, from, to),
        0 <= from <= to <= ENTRIES_PER_PAGE,
    ensures
        forall|k: int| 0 <= k < g.len() && !(tgt <= k < tgt + FLASH_SECTOR_SIZE) ==> #[trigger] h[k] == g[k],
{
}

/// Writing the copy of the item at entry `i` of the page at `src` right after the copies
/// made so far extends them.
proof fn lemma_copy_written<T: Platform>(
    f0: Seq<u8>,
    g1: Seq<u8>,
    g2: Seq<u8>,
    src: int,
    tgt: int,
    t0: int,
    done: Seq<int>,
    i: int,
    idx: int,
    end: int,
)
    requires
        holds_copies::<T>(g1, f0, src, tgt, t0, done),
        copies_end::<T>(f0, src, t0, done) == idx,
        0 <= tgt,
        0 <= t0 <= idx < end <= ENTRIES_PER_PAGE,
        entry_offset(tgt, idx) <= g1.len(),
        forall|k: int| 0 <= k < done.len() ==> copy_span(item_at::<T>(f0, src, #[trigger] done[k])->0) >= 1,
        page_write_frame(g1, g2, tgt, idx, end),
        entry_bytes(g2, tgt, idx) == item_bytes(copy_item::<T>(f0, src, i, item_at::<T>(f0, src, i)->0)),
        is_variable_type(item_at::<T>(f0, src, i)->0.type_) ==> g2.subrange(
            entry_offset(tgt, idx + 1),
            entry_offset(tgt, idx + 1) + sized_size(item_at::<T>(f0, src, i)->0.data@),
        ) == referenced_data(f0, src, i, item_at::<T>(f0, src, i)->0),
    ensures
        holds_copies::<T>(g2, f0, src, tgt, t0, done.push(i)),
{
    lemma_holds_copies_frame::<T>(g1, g2, f0, src, tgt, t0, done);
    lemma_holds_copies_push::<T>(g2, f0, src, tgt, t0, done, i);
}

/// No used page but the last one is active.
pub open spec fn only_last_active(pages: Seq<ThinPage>) -> bool {
    forall|i: int| 0 <= i < pages.len() - 1 ==> (#[trigger] pages[i]).header.state != ThinPageState::Active
}

/// The number of entries the copy of item `it` takes: its span, or for an item with data,
/// one entry and one per started 32 bytes of its data.
pub open spec fn copy_span(it: Item) -> int {
    if is_variable_type(it.type_) {
        variable_span(sized_size(it.data@) as nat)
    } else {
        it.span as int
    }
}

/// The copy written for item `it`, stored at entry `i` of the page at `src`: the same
/// namespace, key, type and chunk, with the same value, or with the same data and its CRC.
pub open spec fn copy_item<T: Platform>(flash: Seq<u8>, src: int, i: int, it: Item) -> Item {
    if is_variable_type(it.type_) {
        new_item::<T>(
            it.namespace_index,
            it.type_,
            copy_span(it) as u8,
            it.chunk_index,
            it.key,
            sized_data_array(sized_size(it.data@), T::spec_crc32(0xFFFF_FFFF, referenced_data(flash, src, i, it))),
        )
    } else {
        new_item::<T>(it.namespace_index, it.type_, it.span, it.chunk_index, it.key, it.data)
    }
}

/// The entry after the copies of the items at entries `idxs` of the page at `src`,
/// written from entry `t` on.
pub open spec fn copies_end<T: Platform>(f: Seq<u8>, src: int, t: int, idxs: Seq<int>) -> int
    decreases idxs.len(),
{
    if idxs.len() == 0 {
        t
    } else {
        copies_end::<T>(f, src, t + copy_span(item_at::<T>(f, src, idxs[0])->0), idxs.drop_first())
    }
}

/// In flash `g`, the page at `tgt` holds from entry `t` on the copies, one after the other,
/// of the items at entries `idxs` of the page at `src` in flash `f`: each copy's entry, and
/// for an item with data the data that follows it.
pub open spec fn holds_copies<T: Platform>(g: Seq<u8>, f: Seq<u8>, src: int, tgt: int, t: int, idxs: Seq<int>) -> bool
    decreases idxs.len(),
{
    if idxs.len() == 0 {
        true
    } else {
        let i = idxs[0];
        let it = item_at::<T>(f, src, i)->0;
        &&& entry_bytes(g, tgt, t) == item_bytes(copy_item::<T>(f, src, i, it))
        &&& is_variable_type(it.type_) ==> g.subrange(
            entry_offset(tgt, t + 1),
            entry_offset(tgt, t + 1) + sized_size(it.data@),
        ) == referenced_data(f, src, i, it)
        &&& holds_copies::<T>(g, f, src, tgt, t + copy_span(it), idxs.drop_first())
    }
}

/// Whether the copy of item `it` gets a lookup entry: every item with data does, and an
/// item with a fixed value when it is not a namespace entry.
pub open spec fn copy_listed(it: Item) -> bool {
    is_variable_type(it.type_) || it.namespace_index != 0
}

/// The target entries, from entry `t` on, at which the copies of the items at entries
/// `idxs` of the page at `src` are listed for lookup.
pub open spec fn copy_positions<T: Platform>(f: Seq<u8>, src: int, t: int, idxs: Seq<int>) -> Seq<int>
    decreases idxs.len(),
{
    if idxs.len() == 0 {
        Seq::empty()
    } else {
        let it = item_at::<T>(f, src, idxs[0])->0;
        (if copy_listed(it) {
            seq![t]
        } else {
            Seq::empty()
        }) + copy_positions::<T>(f, src, t + copy_span(it), idxs.drop_first())
    }
}

/// Listing the copy of one more item.
proof fn lemma_copy_positions_push<T: Platform>(f: Seq<u8>, src: int, t: int, idxs: Seq<int>, i: int)
    ensures
        copy_positions::<T>(f, src, t, idxs.push(i)) == copy_positions::<T>(f, src, t, idxs) + (if copy_listed(
            item_at::<T>(f, src, i)->0,
        ) {
            seq![copies_end::<T>(f, src, t, idxs)]
        } else {
            Seq::empty()
        }),
    decreases idxs.len(),
{
    if idxs.len() == 0 {
        assert(idxs.push(i).drop_first() =~= Seq::<int>::empty());
        assert(idxs.push(i)[0] == i);
        let t2 = t + copy_span(item_at::<T>(f, src, i)->0);
        assert(copy_positions::<T>(f, src, t2, Seq::<int>::empty()) == Seq::<int>::empty());
        assert(copy_positions::<T>(f, src, t, idxs.push(i)) =~= copy_positions::<T>(f, src, t, idxs) + (if copy_listed(
            item_at::<T>(f, src, i)->0,
        ) {
            seq![copies_end::<T>(f, src, t, idxs)]
        } else {
            Seq::empty()
        }));
    } else {
        assert(idxs.push(i).drop_first() =~= idxs.drop_first().push(i));
        assert(idxs.push(i)[0] == idxs[0]);
        let it = item_at::<T>(f, src, idxs[0])->0;
        let t2 = t + copy_span(it);
        lemma_copy_positions_push::<T>(f, src, t2, idxs.drop_first(), i);
        let head = if copy_listed(it) {
            seq![t]
        } else {
            Seq::<int>::empty()
        };
        let tail = if copy_listed(item_at::<T>(f, src, i)->0) {
            seq![copies_end::<T>(f, src, t, idxs)]
        } else {
            Seq::<int>::empty()
        };
        assert(head + (copy_positions::<T>(f, src, t2, idxs.drop_first()) + tail) =~= (head + copy_positions::<T>(
            f,
            src,
            t2,
            idxs.drop_first(),
        )) + tail);
    }
}

/// Copies take at least one entry each.
proof fn lemma_copies_end_grows<T: Platform>(f: Seq<u8>, src: int, t: int, idxs: Seq<int>)
    requires
        forall|k: int| 0 <= k < idxs.len() ==> copy_span(item_at::<T>(f, src, #[trigger] idxs[k])->0) >= 1,
    ensures
        copies_end::<T>(f, src, t, idxs) >= t,
    decreases idxs.len(),
{
    if idxs.len() > 0 {
        assert forall|k: int| 0 <= k < idxs.drop_first().len() implies copy_span(
            item_at::<T>(f, src, #[trigger] idxs.drop_first()[k])->0,
        ) >= 1 by {
            assert(idxs.drop_first()[k] == idxs[k + 1]);
        }
        lemma_copies_end_grows::<T>(f, src, t + copy_span(item_at::<T>(f, src, idxs[0])->0), idxs.drop_first());
    }
}

/// One more copy ends where it starts plus its span.
proof fn lemma_copies_end_push<T: Platform>(f: Seq<u8>, src: int, t: int, idxs: Seq<int>, i: int)
    ensures
        copies_end::<T>(f, src, t, idxs.push(i)) == copies_end::<T>(f, src, t, idxs) + copy_span(item_at::<T>(f, src, i)->0),
    decreases idxs.len(),
{
    if idxs.len() == 0 {
        assert(idxs.push(i).drop_first() =~= Seq::<int>::empty());
        assert(idxs.push(i)[0] == i);
        let t2 = t + copy_span(item_at::<T>(f, src, i)->0);
        assert(copies_end::<T>(f, src, t2, Seq::<int>::empty()) == t2);
    } else {
        assert(idxs.push(i).drop_first() =~= idxs.drop_first().push(i));
        assert(idxs.push(i)[0] == idxs[0]);
        lemma_copies_end_push::<T>(f, src, t + copy_span(item_at::<T>(f, src, idxs[0])->0), idxs.drop_first(), i);
    }
}

/// The copies of two runs of items end where the copies of the second run, written after
/// those of the first, end.
proof fn lemma_copies_end_append<T: Platform>(f: Seq<u8>, src: int, t: int, a: Seq<int>, b: Seq<int>)
    ensures
        copies_end::<T>(f, src, t, a + b) == copies_end::<T>(f, src, copies_end::<T>(f, src, t, a), b),
    decreases a.len(),
{
    if a.len() == 0 {
        assert(a + b =~= b);
    } else {
        assert((a + b).drop_first() =~= a.drop_first() + b);
        assert((a + b)[0] == a[0]);
        lemma_copies_end_append::<T>(f, src, t + copy_span(item_at::<T>(f, src, a[0])->0), a.drop_first(), b);
    }
}

/// Every entry that copying takes is taken for a reason: it holds an item copying takes.
proof fn lemma_copied_entries_taken<T: Platform>(f: Seq<u8>, source: ThinPage, i: int)
    ensures
        forall|k: int|
            0 <= k < copied_entries::<T>(f, source, i).len() ==> copy_takes::<T>(
                f,
                source,
                #[trigger] copied_entries::<T>(f, source, i)[k],
            ),
    decreases ENTRIES_PER_PAGE - i,
{
    if 0 <= i < ENTRIES_PER_PAGE {
        let next = copy_next::<T>(f, source, i);
        if i < next <= ENTRIES_PER_PAGE {
            lemma_copied_entries_taken::<T>(f, source, next);
            let head = if copy_takes::<T>(f, source, i) {
                seq![i]
            } else {
                Seq::<int>::empty()
            };
            let rest = copied_entries::<T>(f, source, next);
            assert forall|k: int| 0 <= k < (head + rest).len() implies copy_takes::<T>(f, source, #[trigger] (head + rest)[k]) by {
                if k >= head.len() {
                    assert((head + rest)[k] == rest[k - head.len()]);
                }
            }
        }
    }
}

/// When the copy of the item at entry `i` does not fit, all the copies do not fit.
proof fn lemma_copies_overflow<T: Platform>(f: Seq<u8>, source: ThinPage, t0: int, done: Seq<int>, i: int)
    requires
        0 <= i < ENTRIES_PER_PAGE,
        done + copied_entries::<T>(f, source, i) == copied_entries::<T>(f, source, 0),
        copy_takes::<T>(f, source, i),
        copies_end::<T>(f, source.address as int, t0, done) + copy_span(item_at::<T>(f, source.address as int, i)->0)
            > ENTRIES_PER_PAGE,
    ensures
        copies_end::<T>(f, source.address as int, t0, copied_entries::<T>(f, source, 0)) > ENTRIES_PER_PAGE,
{
    let src = source.address as int;
    lemma_copy_progress::<T>(f, source, i, done);
    let rest = copied_entries::<T>(f, source, copy_next::<T>(f, source, i));
    lemma_copies_end_append::<T>(f, src, t0, done.push(i), rest);
    lemma_copies_end_push::<T>(f, src, t0, done, i);
    lemma_copied_entries_taken::<T>(f, source, copy_next::<T>(f, source, i));
    assert forall|k: int| 0 <= k < rest.len() implies copy_span(item_at::<T>(f, src, #[trigger] rest[k])->0) >= 1 by {
        assert(copy_takes::<T>(f, source, rest[k]));
    }
    lemma_copies_end_grows::<T>(f, src, copies_end::<T>(f, src, t0, done.push(i)), rest);
}

/// What copying from `source` into the sector at `tgt` needs of the flash `flash`: both
/// sectors lie within the flash, they are different, and the data of the
/// items copied lies within the source sector.
pub open spec fn copy_ready<T: Platform>(flash: Seq<u8>, source: ThinPage, tgt: int) -> bool {
    &&& source.address + FLASH_SECTOR_SIZE <= flash.len()
    &&& 0 <= tgt && tgt + FLASH_SECTOR_SIZE <= flash.len()
    &&& (source.address + FLASH_SECTOR_SIZE <= tgt || tgt + FLASH_SECTOR_SIZE <= source.address)
    &&& copied_data_inside::<T>(flash, source)
}

/// Two flash contents that agree on the entries of the page at `src`.
pub open spec fn same_entries(f: Seq<u8>, g: Seq<u8>, src: int) -> bool {
    &&& f.len() == g.len()
    &&& src + FLASH_SECTOR_SIZE <= f.len()
    &&& forall|k: int| src + ITEMS_OFFSET <= k < src + FLASH_SECTOR_SIZE ==> #[trigger] f[k] == g[k]
}

/// Copying from a page reads only its entries.
proof fn lemma_copied_entries_agree<T: Platform>(f: Seq<u8>, g: Seq<u8>, source: ThinPage, i: int)
    requires
        same_entries(f, g, source.address as int),
        0 <= source.address,
    ensures
        copied_entries::<T>(f, source, i) == copied_entries::<T>(g, source, i),
    decreases ENTRIES_PER_PAGE - i,
{
    if 0 <= i < ENTRIES_PER_PAGE {
        let src = source.address as int;
        assert(entry_bytes(f, src, i) =~= entry_bytes(g, src, i));
        let next = copy_next::<T>(f, source, i);
        if i < next <= ENTRIES_PER_PAGE {
            lemma_copied_entries_agree::<T>(f, g, source, next);
        }
    }
}

/// Copies of items read from one flash are copies of the same items read from another
/// flash that agrees on the source entries, when each item's data lies within the source.
proof fn lemma_holds_copies_source<T: Platform>(h: Seq<u8>, f: Seq<u8>, g: Seq<u8>, source: ThinPage, tgt: int, t: int, idxs: Seq<int>)
    requires
        same_entries(f, g, source.address as int),
        0 <= source.address,
        forall|k: int| 0 <= k < idxs.len() ==> 0 <= #[trigger] idxs[k] < ENTRIES_PER_PAGE && copy_takes::<T>(f, source, idxs[k]),
        copied_data_inside::<T>(f, source),
        holds_copies::<T>(h, f, source.address as int, tgt, t, idxs),
    ensures
        holds_copies::<T>(h, g, source.address as int, tgt, t, idxs),
        copies_end::<T>(f, source.address as int, t, idxs) == copies_end::<T>(g, source.address as int, t, idxs),
    decreases idxs.len(),
{
    if idxs.len() > 0 {
        let src = source.address as int;
        let i = idxs[0];
        assert(0 <= i < ENTRIES_PER_PAGE && copy_takes::<T>(f, source, i));
        assert(entry_bytes(f, src, i) =~= entry_bytes(g, src, i));
        let it = item_at::<T>(f, src, i)->0;
        if is_variable_type(it.type_) {
            assert(referenced_data(f, src, i, it) =~= referenced_data(g, src, i, it));
        }
        assert forall|k: int| 0 <= k < idxs.drop_first().len() implies 0 <= #[trigger] idxs.drop_first()[k] < ENTRIES_PER_PAGE
            && copy_takes::<T>(f, source, idxs.drop_first()[k]) by {
            assert(idxs.drop_first()[k] == idxs[k + 1]);
        }
        lemma_holds_copies_source::<T>(h, f, g, source, tgt, t + copy_span(it), idxs.drop_first());
    }
}

/// Agreeing on the source entries, two flash contents agree on whether the copied data
/// lies within the source.
proof fn lemma_data_inside_agree<T: Platform>(f: Seq<u8>, g: Seq<u8>, source: ThinPage)
    requires
        same_entries(f, g, source.address as int),
        0 <= source.address,
        copied_data_inside::<T>(f, source),
    ensures
        copied_data_inside::<T>(g, source),
{
    let src = source.address as int;
    assert forall|i: int|
        0 <= i < ENTRIES_PER_PAGE && #[trigger] copy_takes::<T>(g, source, i) && is_variable_type(
            item_at::<T>(g, src, i)->0.type_,
        ) implies entry_offset(src, i + 1) + sized_size(item_at::<T>(g, src, i)->0.data@) <= src + FLASH_SECTOR_SIZE by {
        assert(entry_bytes(f, src, i) =~= entry_bytes(g, src, i));
        assert(copy_takes::<T>(f, source, i));
    }
}

/// The entries that copying takes lie on the page.
proof fn lemma_copied_entries_range<T: Platform>(f: Seq<u8>, source: ThinPage, i: int)
    ensures
        forall|k: int|
            0 <= k < copied_entries::<T>(f, source, i).len() ==> 0 <= #[trigger] copied_entries::<T>(f, source, i)[k]
                < ENTRIES_PER_PAGE,
    decreases ENTRIES_PER_PAGE - i,
{
    if 0 <= i < ENTRIES_PER_PAGE {
        let next = copy_next::<T>(f, source, i);
        if i < next <= ENTRIES_PER_PAGE {
            lemma_copied_entries_range::<T>(f, source, next);
            let head = if copy_takes::<T>(f, source, i) {
                seq![i]
            } else {
                Seq::<int>::empty()
            };
            let rest = copied_entries::<T>(f, source, next);
            assert forall|k: int| 0 <= k < (head + rest).len() implies 0 <= #[trigger] (head + rest)[k] < ENTRIES_PER_PAGE by {
                if k >= head.len() {
                    assert((head + rest)[k] == rest[k - head.len()]);
                }
            }
        }
    }
}

/// Copies stay in place while the entries they occupy do not change.
proof fn lemma_holds_copies_frame<T: Platform>(g: Seq<u8>, h: Seq<u8>, f: Seq<u8>, src: int, tgt: int, t: int, idxs: Seq<int>)
    requires
        holds_copies::<T>(g, f, src, tgt, t, idxs),
        g.len() == h.len(),
        0 <= tgt,
        0 <= t,
        forall|k: int| 0 <= k < idxs.len() ==> copy_span(item_at::<T>(f, src, #[trigger] idxs[k])->0) >= 1,
        forall|k: int|
            entry_offset(tgt, t) <= k < entry_offset(tgt, copies_end::<T>(f, src, t, idxs)) && 0 <= k < g.len()
                ==> #[trigger] h[k] == g[k],
        entry_offset(tgt, copies_end::<T>(f, src, t, idxs)) <= g.len(),
    ensures
        holds_copies::<T>(h, f, src, tgt, t, idxs),
    decreases idxs.len(),
{
    if idxs.len() > 0 {
        let i = idxs[0];
        let it = item_at::<T>(f, src, i)->0;
        let t2 = t + copy_span(it);
        assert forall|k: int| 0 <= k < idxs.drop_first().len() implies copy_span(
            item_at::<T>(f, src, #[trigger] idxs.drop_first()[k])->0,
        ) >= 1 by {
            assert(idxs.drop_first()[k] == idxs[k + 1]);
        }
        lemma_copies_end_grows::<T>(f, src, t2, idxs.drop_first());
        assert(copies_end::<T>(f, src, t, idxs) == copies_end::<T>(f, src, t2, idxs.drop_first()));
        assert(entry_bytes(h, tgt, t) =~= entry_bytes(g, tgt, t));
        if is_variable_type(it.type_) {
            assert(h.subrange(entry_offset(tgt, t + 1), entry_offset(tgt, t + 1) + sized_size(it.data@)) =~= g.subrange(
                entry_offset(tgt, t + 1),
                entry_offset(tgt, t + 1) + sized_size(it.data@),
            ));
        }
        lemma_holds_copies_frame::<T>(g, h, f, src, tgt, t2, idxs.drop_first());
    }
}

/// Adding the copy of one more item at the end of the copies.
proof fn lemma_holds_copies_push<T: Platform>(g: Seq<u8>, f: Seq<u8>, src: int, tgt: int, t: int, idxs: Seq<int>, i: int)
    requires
        holds_copies::<T>(g, f, src, tgt, t, idxs),
        entry_bytes(g, tgt, copies_end::<T>(f, src, t, idxs)) == item_bytes(
            copy_item::<T>(f, src, i, item_at::<T>(f, src, i)->0),
        ),
        is_variable_type(item_at::<T>(f, src, i)->0.type_) ==> g.subrange(
            entry_offset(tgt, copies_end::<T>(f, src, t, idxs) + 1),
            entry_offset(tgt, copies_end::<T>(f, src, t, idxs) + 1) + sized_size(item_at::<T>(f, src, i)->0.data@),
        ) == referenced_data(f, src, i, item_at::<T>(f, src, i)->0),
    ensures
        holds_copies::<T>(g, f, src, tgt, t, idxs.push(i)),
    decreases idxs.len(),
{
    if idxs.len() == 0 {
        assert(idxs.push(i).drop_first() =~= Seq::<int>::empty());
        assert(idxs.push(i)[0] == i);
        let t2 = t + copy_span(item_at::<T>(f, src, i)->0);
        assert(holds_copies::<T>(g, f, src, tgt, t2, Seq::<int>::empty()));
    } else {
        assert(idxs.push(i).drop_first() =~= idxs.drop_first().push(i));
        assert(idxs.push(i)[0] == idxs[0]);
        lemma_holds_copies_push::<T>(g, f, src, tgt, t + copy_span(item_at::<T>(f, src, idxs[0])->0), idxs.drop_first(), i);
    }
}

impl<T: Platform> Nvs<T> {
    /// Erases the sector of `page` and adds it to the free pages, uninitialized.
    pub fn erase_page(&mut self, page: ThinPage) -> (r: Result<(), Error>)
        requires
            old(self).wf(),
            page.wf(),
            old(self).in_partition(page),
        ensures
            final(self).wf(),
            final(self).pages == old(self).pages,
            final(self).namespaces == old(self).namespaces,
            final(self).base_address == old(self).base_address,
            final(self).sectors == old(self).sectors,
            final(self).flash().len() == old(self).flash().len(),
            old(self).lists_below_next_free() ==> final(self).lists_below_next_free(),
            match r {
                Ok(()) => {
                    &&& final(self).flash() == update_bytes(old(self).flash(), page.address as int, erased_bytes(FLASH_SECTOR_SIZE as nat))
                    &&& final(self).free_pages@.len() == old(self).free_pages@.len() + 1
                    &&& final(self).free_pages@.drop_last() == old(self).free_pages@
                    &&& final(self).free_pages@.last().address == page.address
                    &&& final(self).free_pages@.last().header.state == ThinPageState::Uninitialized
                    &&& final(self).free_pages@.last().item_hash_list@.len() == 0
                    &&& final(self).free_pages@.last().used_entry_count == 0
                    &&& final(self).free_pages@.last().erased_entry_count == 0
                },
                Err(e) => e == Error::FlashError && final(self).free_pages == old(self).free_pages,
            },
    {
        match self.hal.erase(page.address, page.address + FLASH_SECTOR_SIZE) {
            Ok(()) => {},
            Err(()) => return Err(Error::FlashError),
        }
        let fresh = ThinPage::uninitialized(page.address);
        self.free_pages.push(fresh);
        proof {
            assert(self.free_pages@.drop_last() =~= old(self).free_pages@);
        }
        Ok(())
    }

    /// Copies the written items of `source` into `target`, then adds `target` to the used
    /// pages. Items already in `target` (from an interrupted copy) are not copied again.
    #[verifier::loop_isolation(false)]
    pub fn copy_items(&mut self, source: &ThinPage, target: ThinPage) -> (r: Result<(), Error>)
        requires
            old(self).wf(),
            source.wf(),
            target.wf(),
            old(self).in_partition(target),
        ensures
            final(self).wf(),
            final(self).free_pages == old(self).free_pages,
            final(self).namespaces == old(self).namespaces,
            final(self).base_address == old(self).base_address,
            final(self).sectors == old(self).sectors,
            final(self).flash().len() == old(self).flash().len(),
            r is Ok ==> {
                &&& final(self).pages@.len() == old(self).pages@.len() + 1
                &&& final(self).pages@.drop_last() == old(self).pages@
                &&& final(self).pages@.last().address == target.address
                &&& final(self).pages@.last().header.sequence == target.header.sequence
            },
            r is Err ==> final(self).pages == old(self).pages,
            r != Err::<(), Error>(Error::FlashFull),
            r != Err::<(), Error>(Error::CorruptedData),
            r matches Err(e) ==> is_storage_error(e),
            old(self).lists_below_next_free() && target.listed_below_next_free() ==> final(self).lists_below_next_free(),
            r == Err::<(), Error>(Error::PageFull) && target.item_hash_list@.len() == 0 && (source.address + FLASH_SECTOR_SIZE
                <= target.address || target.address + FLASH_SECTOR_SIZE <= source.address) && copied_data_inside::<T>(
                old(self).flash(),
                *source,
            ) ==> copies_end::<T>(
                old(self).flash(),
                source.address as int,
                target.next_free(),
                copied_entries::<T>(old(self).flash(), *source, 0),
            ) > ENTRIES_PER_PAGE,
            r is Ok ==> forall|k: int|
                0 <= k < old(self).flash().len() && !(target.address <= k < target.address + FLASH_SECTOR_SIZE)
                    ==> #[trigger] final(self).flash()[k] == old(self).flash()[k],
            r is Ok && target.item_hash_list@.len() == 0 && (source.address + FLASH_SECTOR_SIZE <= target.address
                || target.address + FLASH_SECTOR_SIZE <= source.address) && copied_data_inside::<T>(old(self).flash(), *source)
                ==> holds_copies::<T>(
                final(self).flash(),
                old(self).flash(),
                source.address as int,
                target.address as int,
                target.next_free(),
                copied_entries::<T>(old(self).flash(), *source, 0),
            ) && copies_end::<T>(
                old(self).flash(),
                source.address as int,
                target.next_free(),
                copied_entries::<T>(old(self).flash(), *source, 0),
            ) <= ENTRIES_PER_PAGE && listed_indices(final(self).pages@.last().item_hash_list@) == copy_positions::<T>(
                old(self).flash(),
                source.address as int,
                target.next_free(),
                copied_entries::<T>(old(self).flash(), *source, 0),
            ),
    {
        let ghost f0 = self.flash();
        let ghost src = source.address as int;
        let ghost tgt = target.address as int;
        let ghost t0 = target.next_free();
        let ghost list_empty = target.item_hash_list@.len() == 0;
        let ghost fresh = list_empty && (source.address + FLASH_SECTOR_SIZE <= target.address
            || target.address + FLASH_SECTOR_SIZE <= source.address) && copied_data_inside::<T>(f0, *source);
        let ghost mut done: Seq<int> = Seq::empty();
        let ghost target_addr = target.address;
        let ghost target_seq = target.header.sequence;
        let ghost target_below = target.listed_below_next_free();
        let mut target = target;
        let mut last_copied_entry = {
            let mut best: Option<u8> = None;
            let mut j: usize = 0;
            while j < target.item_hash_list.len()
                invariant
                    j <= target.item_hash_list@.len(),
                    target.wf(),
                    best matches Some(b) ==> b < ENTRIES_PER_PAGE,
                    target.item_hash_list@.len() == 0 ==> best is None,
                decreases target.item_hash_list@.len() - j,
            {
                let idx = target.item_hash_list[j].index;
                best = match best {
                    Some(b) => if idx >= b { Some(idx) } else { Some(b) },
                    None => Some(idx),
                };
                j += 1;
            }
            match best {
                Some(idx) => match target.load_item(&mut self.hal, idx) {
                    Ok(it) => Some(it),
                    Err(e) => return Err(e),
                },
                None => None,
            }
        };
        let ghost flash_len = self.flash().len();
        let mut item_index: usize = 0;
        while item_index < ENTRIES_PER_PAGE
            invariant
                item_index <= 400,
                self.wf(),
                source.wf(),
                target.wf(),
                target.address == target_addr,
                target.header.sequence == target_seq,
                self.in_partition(target),
                self.pages == old(self).pages,
                self.free_pages == old(self).free_pages,
                self.namespaces == old(self).namespaces,
                self.base_address == old(self).base_address,
                self.sectors == old(self).sectors,
                self.flash().len() == flash_len,
                flash_len == old(self).flash().len(),
                target_below ==> target.listed_below_next_free(),
                f0 == old(self).flash(),
                src == source.address,
                tgt == target.address,
                tgt == target_addr,
                forall|k: int| 0 <= k < f0.len() && !(tgt <= k < tgt + FLASH_SECTOR_SIZE) ==> #[trigger] self.flash()[k] == f0[k],
                fresh == (list_empty && (src + FLASH_SECTOR_SIZE <= tgt || tgt + FLASH_SECTOR_SIZE <= src)
                    && copied_data_inside::<T>(f0, *source)),
                fresh ==> {
                    &&& src + FLASH_SECTOR_SIZE <= tgt || tgt + FLASH_SECTOR_SIZE <= src
                    &&& copied_data_inside::<T>(f0, *source)
                    &&& 0 <= t0
                    &&& last_copied_entry is None
                    &&& done + copied_entries::<T>(f0, *source, item_index as int) == copied_entries::<T>(f0, *source, 0)
                    &&& target.next_free() == copies_end::<T>(f0, src, t0, done)
                    &&& holds_copies::<T>(self.flash(), f0, src, tgt, t0, done)
                    &&& listed_indices(target.item_hash_list@) == copy_positions::<T>(f0, src, t0, done)
                    &&& forall|k: int| 0 <= k < done.len() ==> copy_span(item_at::<T>(f0, src, #[trigger] done[k])->0) >= 1
                },
            decreases 400 - item_index,
        {
            let ghost i0 = item_index as int;
            let ghost g0 = self.flash();
            let ghost done0 = done;
            if source.get_entry_state(item_index as u8) != EntryMapState::Written {
                item_index += 1;
                proof {
                    if fresh {
                        lemma_copy_progress::<T>(f0, *source, i0, done);
                    }
                }
                continue;
            }
            let item = source.load_item(&mut self.hal, item_index as u8)?;
            proof {
                if fresh {
                    lemma_outside_sector(g0, f0, tgt, entry_offset(src, i0), entry_offset(src, i0) + ITEM_SIZE);
                    assert(item_at::<T>(f0, src, i0) == Some(item));
                }
            }
            if item.span == 0 {
                item_index += 1;
                proof {
                    if fresh {
                        lemma_copy_progress::<T>(f0, *source, i0, done);
                    }
                }
                continue;
            }
            let step = item.span as usize;
            let is_last = match &last_copied_entry {
                Some(last) => {
                    if item.same_as(last) {
                        last_copied_entry = None;
                    }
                    true
                },
                None => false,
            };
            if is_last {
                item_index += step;
                continue;
            }
            let chunk_index = if item.chunk_index == 0xFF {
                None
            } else {
                Some(item.chunk_index)
            };
            let ghost before_target = target;
            let ghost g1 = self.flash();
            if item.type_.is_scalar() {
                if target.get_next_free_entry() + step > ENTRIES_PER_PAGE {
                    proof {
                        if fresh {
                            lemma_copies_overflow::<T>(f0, *source, t0, done, i0);
                        }
                    }
                    return Err(Error::PageFull);
                }
                target.write_item::<T>(
                    &mut self.hal,
                    item.namespace_index,
                    item.key,
                    item.type_,
                    chunk_index,
                    item.span,
                    item.data,
                )?;
                proof {
                    lemma_page_write_in_sector(g1, self.flash(), tgt, before_target.next_free(), before_target.next_free() + 1);
                    if fresh {
                        assert(chunk_or_none(chunk_index) == item.chunk_index);
                        lemma_copies_end_grows::<T>(f0, src, t0, done);
                        assert(t0 <= before_target.next_free());
                        assert(before_target.next_free() < ENTRIES_PER_PAGE);
                        lemma_copy_written::<T>(f0, g1, self.flash(), src, tgt, t0, done, i0, before_target.next_free(), before_target.next_free() + 1);
                        lemma_copies_end_push::<T>(f0, src, t0, done, i0);
                        lemma_copy_positions_push::<T>(f0, src, t0, done, i0);
                        assert(listed_indices(target.item_hash_list@) =~= copy_positions::<T>(f0, src, t0, done.push(i0)));
                        done = done.push(i0);
                    }
                }
            } else if item.type_.is_variable() {
                let data = source.load_referenced_data(&mut self.hal, item_index as u8, &item)?;
                proof {
                    if fresh {
                        let start = entry_offset(src, i0 + 1);
                        assert(copy_takes::<T>(f0, *source, i0));
                        lemma_outside_sector(g1, f0, tgt, start, start + sized_size(item.data@));
                    }
                }
                match target.write_variable_sized_item::<T>(
                    &mut self.hal,
                    item.namespace_index,
                    item.key,
                    item.type_,
                    chunk_index,
                    data.as_slice(),
                ) {
                    Ok(()) => {},
                    Err(Error::ValueTooLong) => {
                        proof {
                            if fresh {
                                lemma_copies_overflow::<T>(f0, *source, t0, done, i0);
                            }
                        }
                        return Err(Error::PageFull);
                    },
                    Err(e) => {
                        proof {
                            if fresh && e == Error::PageFull {
                                lemma_copies_overflow::<T>(f0, *source, t0, done, i0);
                            }
                        }
                        return Err(e);
                    },
                }
                proof {
                    let span = variable_span(data@.len());
                    lemma_page_write_in_sector(g1, self.flash(), tgt, before_target.next_free(), before_target.next_free() + span);
                    if fresh {
                        assert(chunk_or_none(chunk_index) == item.chunk_index);
                        lemma_copies_end_grows::<T>(f0, src, t0, done);
                        assert(t0 <= before_target.next_free());
                        assert(before_target.next_free() < ENTRIES_PER_PAGE);
                        lemma_copy_written::<T>(f0, g1, self.flash(), src, tgt, t0, done, i0, before_target.next_free(), before_target.next_free() + span);
                        lemma_copies_end_push::<T>(f0, src, t0, done, i0);
                        lemma_copy_positions_push::<T>(f0, src, t0, done, i0);
                        assert(listed_indices(target.item_hash_list@) =~= copy_positions::<T>(f0, src, t0, done.push(i0)));
                        done = done.push(i0);
                    }
                }
            }
            proof {
                if fresh {
                    lemma_copy_progress::<T>(f0, *source, i0, done0);
                    assert(done == if copy_takes::<T>(f0, *source, i0) {
                        done0.push(i0)
                    } else {
                        done0
                    });
                }
            }
            item_index += step;
        }
        self.pages.push(target);
        proof {
            assert(self.pages@.drop_last() =~= old(self).pages@);
        }
        Ok(())
    }

    /// Marks `source` as being freed, initializes a free page with sequence number
    /// `next_sequence` and copies the items of `source` into it.
    pub fn free_page(&mut self, source: &ThinPage, next_sequence: u32) -> (r: Result<(), Error>)
        requires
            old(self).wf(),
            source.wf(),
        ensures
            final(self).wf(),
            final(self).namespaces == old(self).namespaces,
            final(self).base_address == old(self).base_address,
            final(self).sectors == old(self).sectors,
            final(self).flash().len() == old(self).flash().len(),
            r == Err::<(), Error>(Error::FlashFull) ==> old(self).free_pages@.len() == 0,
            r != Err::<(), Error>(Error::CorruptedData),
            r matches Err(e) ==> is_storage_error(e),
            old(self).lists_below_next_free() ==> final(self).lists_below_next_free(),
            r is Ok ==> {
                &&& old(self).free_pages@.len() > 0
                &&& final(self).free_pages@ == old(self).free_pages@.drop_last()
                &&& final(self).pages@.drop_last() == old(self).pages@
                &&& final(self).pages@.len() == old(self).pages@.len() + 1
                &&& final(self).pages@.last().address == old(self).free_pages@.last().address
                &&& final(self).pages@.last().header.sequence == next_sequence
            },
            r is Ok && old(self).free_pages@.last().item_hash_list@.len() == 0 && copy_ready::<T>(
                old(self).flash(),
                *source,
                old(self).free_pages@.last().address as int,
            ) ==> holds_copies::<T>(
                final(self).flash(),
                old(self).flash(),
                source.address as int,
                old(self).free_pages@.last().address as int,
                old(self).free_pages@.last().next_free(),
                copied_entries::<T>(old(self).flash(), *source, 0),
            ) && copies_end::<T>(
                old(self).flash(),
                source.address as int,
                old(self).free_pages@.last().next_free(),
                copied_entries::<T>(old(self).flash(), *source, 0),
            ) <= ENTRIES_PER_PAGE,
    {
        let ghost f0 = self.flash();
        let raw = u32_to_le(PageState::Freeing.to_word());
        match self.hal.write(source.address, raw.as_slice()) {
            Ok(()) => {},
            Err(()) => return Err(Error::FlashError),
        }
        let mut target = match self.free_pages.pop() {
            Some(p) => p,
            None => return Err(Error::FlashFull),
        };
        if target.header.state != ThinPageState::Uninitialized {
            match self.hal.erase(target.address, target.address + FLASH_SECTOR_SIZE) {
                Ok(()) => {},
                Err(()) => return Err(Error::FlashError),
            }
        }
        target.initialize(&mut self.hal, next_sequence)?;
        let ghost f3 = self.flash();
        let ghost t0 = target;
        let r = self.copy_items(source, target);
        proof {
            let src = source.address as int;
            let tgt = t0.address as int;
            if r is Ok && old(self).free_pages@.last().item_hash_list@.len() == 0 && copy_ready::<T>(f0, *source, tgt) {
                assert(t0.address == old(self).free_pages@.last().address);
                assert forall|k: int| src + ITEMS_OFFSET <= k < src + FLASH_SECTOR_SIZE implies #[trigger] f0[k] == f3[k] by {}
                assert(same_entries(f0, f3, src));
                assert forall|k: int| src + ITEMS_OFFSET <= k < src + FLASH_SECTOR_SIZE implies #[trigger] f3[k] == f0[k] by {}
                lemma_data_inside_agree::<T>(f0, f3, *source);
                lemma_copied_entries_agree::<T>(f0, f3, *source, 0);
                lemma_copied_entries_taken::<T>(f3, *source, 0);
                lemma_copied_entries_range::<T>(f3, *source, 0);
                lemma_holds_copies_source::<T>(self.flash(), f3, f0, *source, tgt, t0.next_free(), copied_entries::<T>(f3, *source, 0));
            }
        }
        r
    }

    /// Index of the page to reclaim: the last of the pages with the most points.
    pub fn pick_page_to_reclaim(&self, next_sequence: u32) -> (r: Option<usize>)
        requires
            forall|i: int| 0 <= i < self.pages@.len() ==> (#[trigger] self.pages@[i]).header.sequence < next_sequence,
            forall|i: int| 0 <= i < self.pages@.len() ==> (#[trigger] self.pages@[i]).wf(),
        ensures
            self.pages@.len() == 0 ==> r is None,
            self.pages@.len() > 0 ==> (r matches Some(i) && i < self.pages@.len() && (forall|j: int|
                0 <= j < self.pages@.len() ==> reclaim_points(#[trigger] self.pages@[j], next_sequence) <= reclaim_points(
                    self.pages@[i as int],
                    next_sequence,
                )) && (forall|j: int|
                i < j < self.pages@.len() ==> reclaim_points(#[trigger] self.pages@[j], next_sequence) < reclaim_points(
                    self.pages@[i as int],
                    next_sequence,
                ))),
            r matches Some(i) ==> forall|j: int|
                0 <= j < self.pages@.len() && (#[trigger] self.pages@[j]).erased_entry_count > 0 ==> self.pages@[i as int].erased_entry_count
                    > 0 && self.pages@[j].erased_entry_count * 10 + (next_sequence - self.pages@[j].header.sequence)
                    <= self.pages@[i as int].erased_entry_count * 10 + (next_sequence - self.pages@[i as int].header.sequence),
    {
        let mut best: Option<(u64, usize)> = None;
        let mut i: usize = 0;
        while i < self.pages.len()
            invariant
                i <= self.pages@.len(),
                forall|k: int| 0 <= k < self.pages@.len() ==> (#[trigger] self.pages@[k]).header.sequence < next_sequence,
                forall|k: int| 0 <= k < self.pages@.len() ==> (#[trigger] self.pages@[k]).wf(),
                i == 0 <==> best is None,
                best matches Some((pts, b)) ==> b < i && pts == reclaim_points(self.pages@[b as int], next_sequence)
                    && (forall|j: int| 0 <= j < i ==> reclaim_points(#[trigger] self.pages@[j], next_sequence) <= pts)
                    && (forall|j: int| b < j < i ==> reclaim_points(#[trigger] self.pages@[j], next_sequence) < pts),
            decreases self.pages@.len() - i,
        {
            let page = &self.pages[i];
            let points: u64 = if page.erased_entry_count == 0 {
                0
            } else {
                page.erased_entry_count as u64 * 10 + (next_sequence - page.header.sequence) as u64
            };
            best = match best {
                Some((pts, b)) => if points >= pts { Some((points, i)) } else { Some((pts, b)) },
                None => Some((points, i)),
            };
            i += 1;
        }
        match best {
            Some((_, b)) => Some(b),
            None => None,
        }
    }

    /// Reclaims one page: the page with the most points is moved to a fresh page (when it
    /// still holds live items) and erased.
    pub fn defragment(&mut self) -> (r: Result<(), Error>)
        requires
            old(self).wf(),
        ensures
            final(self).wf(),
            final(self).namespaces == old(self).namespaces,
            final(self).base_address == old(self).base_address,
            final(self).sectors == old(self).sectors,
            final(self).flash().len() == old(self).flash().len(),
            old(self).pages@.len() == 0 ==> r == Err::<(), Error>(Error::FlashFull),
            r == Err::<(), Error>(Error::FlashFull) ==> old(self).pages@.len() == 0 || !old(self).sequences_bounded()
                || old(self).free_pages@.len() == 0,
            old(self).sequences_bounded() && (exists|c: int|
                #[trigger] is_reclaim_choice(
                    old(self).pages@,
                    (Self::max_sequence(old(self).pages@, old(self).pages@.len() as int) + 1) as u32,
                    c,
                ) && !reclaimable(old(self).pages@[c].header.state)) ==> r == Err::<(), Error>(Error::CorruptedData),
            r matches Err(e) ==> is_storage_error(e),
            old(self).lists_below_next_free() ==> final(self).lists_below_next_free(),
            r is Ok ==> exists|c: int| {
                let n = old(self).pages@.len() as int;
                let page = old(self).pages@[c];
                let rest = old(self).pages@.update(c, old(self).pages@[n - 1]).drop_last();
                let copied = page.header.state == ThinPageState::Full && page.erased_entry_count != ENTRIES_PER_PAGE;
                &&& #[trigger] is_reclaim_choice(
                    old(self).pages@,
                    (Self::max_sequence(old(self).pages@, old(self).pages@.len() as int) + 1) as u32,
                    c,
                )
                &&& reclaimable(page.header.state)
                &&& final(self).pages@.take(n - 1) == rest
                &&& final(self).pages@.len() == if copied { n } else { n - 1 }
                &&& final(self).free_pages@.len() == if copied { old(self).free_pages@.len() } else { old(self).free_pages@.len() + 1 }
                &&& final(self).free_pages@.last().address == page.address
                &&& final(self).free_pages@.last().header.state == ThinPageState::Uninitialized
                &&& final(self).free_pages@.last().item_hash_list@.len() == 0
                &&& copied ==> final(self).pages@.last().header.sequence == Self::max_sequence(
                    old(self).pages@,
                    old(self).pages@.len() as int,
                ) + 1
                &&& copied && old(self).free_pages@.last().item_hash_list@.len() == 0 && copy_ready::<T>(
                    old(self).flash(),
                    page,
                    old(self).free_pages@.last().address as int,
                ) ==> holds_copies::<T>(
                    final(self).flash(),
                    old(self).flash(),
                    page.address as int,
                    old(self).free_pages@.last().address as int,
                    old(self).free_pages@.last().next_free(),
                    copied_entries::<T>(old(self).flash(), page, 0),
                )
            },
            r == Err::<(), Error>(Error::CorruptedData) ==> exists|c: int|
                #[trigger] is_reclaim_choice(
                    old(self).pages@,
                    (Self::max_sequence(old(self).pages@, old(self).pages@.len() as int) + 1) as u32,
                    c,
                ) && !reclaimable(old(self).pages@[c].header.state),
    {
        if !self.check_sequences_bounded() {
            return Err(Error::FlashFull);
        }
        let next_sequence = self.get_next_sequence();
        proof {
            assert forall|i: int| 0 <= i < self.pages@.len() implies (#[trigger] self.pages@[i]).header.sequence < next_sequence by {
                lemma_max_sequence_bound::<T>(self.pages@, self.pages@.len() as int, i);
            }
        }
        let next_page = match self.pick_page_to_reclaim(next_sequence) {
            Some(i) => i,
            None => return Err(Error::FlashFull),
        };
        proof {
            if exists|c: int|
                #[trigger] is_reclaim_choice(
                    old(self).pages@,
                    (Self::max_sequence(old(self).pages@, old(self).pages@.len() as int) + 1) as u32,
                    c,
                ) && !reclaimable(old(self).pages@[c].header.state) {
                let c = choose|c: int|
                    #[trigger] is_reclaim_choice(
                        old(self).pages@,
                        (Self::max_sequence(old(self).pages@, old(self).pages@.len() as int) + 1) as u32,
                        c,
                    ) && !reclaimable(old(self).pages@[c].header.state);
                assert(next_sequence == (Self::max_sequence(old(self).pages@, old(self).pages@.len() as int) + 1) as u32);
                assert(is_reclaim_choice(old(self).pages@, next_sequence, next_page as int));
                lemma_reclaim_choice_unique(old(self).pages@, next_sequence, c, next_page as int);
            }
        }
        let page = self.pages.swap_remove(next_page);
        proof {
            assert forall|i: int| 0 <= i < self.pages@.len() implies (#[trigger] self.pages@[i]).wf() by {
                if i == next_page as int {
                    assert(self.pages@[i] == old(self).pages@[old(self).pages@.len() - 1]);
                } else {
                    assert(self.pages@[i] == old(self).pages@[i]);
                }
            }
            assert(page.wf());
        }
        let ghost rest = self.pages@;
        proof {
            assert(is_reclaim_choice(old(self).pages@, next_sequence, next_page as int));
            assert(rest == old(self).pages@.update(next_page as int, old(self).pages@[old(self).pages@.len() - 1]).drop_last());
        }
        let r = match page.header.state {
            ThinPageState::Full => {
                if page.erased_entry_count as usize != ENTRIES_PER_PAGE {
                    self.free_page(&page, next_sequence)?;
                }
                let ghost g = self.flash();
                let r2 = self.erase_page(page);
                proof {
                    let f0 = old(self).flash();
                    let fl = old(self).free_pages@.last();
                    if r2 is Ok && page.erased_entry_count != ENTRIES_PER_PAGE && fl.item_hash_list@.len() == 0
                        && copy_ready::<T>(f0, page, fl.address as int) {
                        let tgt = fl.address as int;
                        let src = page.address as int;
                        let idxs = copied_entries::<T>(f0, page, 0);
                        lemma_copied_entries_taken::<T>(f0, page, 0);
                        assert forall|k: int| 0 <= k < idxs.len() implies copy_span(item_at::<T>(f0, src, #[trigger] idxs[k])->0)
                            >= 1 by {
                            assert(copy_takes::<T>(f0, page, idxs[k]));
                        }
                        lemma_holds_copies_frame::<T>(g, self.flash(), f0, src, tgt, fl.next_free(), idxs);
                    }
                }
                r2
            },
            ThinPageState::Corrupt | ThinPageState::Invalid => self.erase_page(page),
            _ => Err(Error::CorruptedData),
        };
        proof {
            let c = next_page as int;
            assert(next_sequence == (Self::max_sequence(old(self).pages@, old(self).pages@.len() as int) + 1) as u32);
            if r is Ok {
                assert(self.pages@.take(old(self).pages@.len() - 1) =~= rest);
                assert(is_reclaim_choice(
                    old(self).pages@,
                    (Self::max_sequence(old(self).pages@, old(self).pages@.len() as int) + 1) as u32,
                    c,
                ));
            }
            if r == Err::<(), Error>(Error::CorruptedData) {
                assert(is_reclaim_choice(
                    old(self).pages@,
                    (Self::max_sequence(old(self).pages@, old(self).pages@.len() as int) + 1) as u32,
                    c,
                ));
            }
        }
        r
    }

    /// Completes an interrupted reclamation: the items of a page marked as being freed are
    /// copied to the active page (or a fresh one) and the page is erased.
    pub fn continue_free_page(&mut self) -> (r: Result<(), Error>)
        requires
            old(self).wf(),
        ensures
            final(self).wf(),
            final(self).namespaces == old(self).namespaces,
            final(self).base_address == old(self).base_address,
            final(self).sectors == old(self).sectors,
            final(self).flash().len() == old(self).flash().len(),
            (forall|i: int| 0 <= i < old(self).pages@.len() ==> (#[trigger] old(self).pages@[i]).header.state
                != ThinPageState::Freeing) ==> r is Ok && final(self).same_state(*old(self)),
            r is Ok && (exists|i: int| 0 <= i < old(self).pages@.len() && (#[trigger] old(self).pages@[i]).header.state
                == ThinPageState::Freeing) ==> exists|c: int| {
                &&& 0 <= c < old(self).pages@.len()
                &&& #[trigger] old(self).pages@[c].header.state == ThinPageState::Freeing
                &&& forall|j: int| 0 <= j < c ==> (#[trigger] old(self).pages@[j]).header.state != ThinPageState::Freeing
                &&& final(self).free_pages@.last().address == old(self).pages@[c].address
                &&& final(self).free_pages@.last().header.state == ThinPageState::Uninitialized
                &&& final(self).free_pages@.last().item_hash_list@.len() == 0
            },
            r is Ok ==> final(self).pages@.len() + final(self).free_pages@.len() == old(self).pages@.len()
                + old(self).free_pages@.len(),
            r is Ok && only_last_active(old(self).pages@) ==> only_last_active(final(self).pages@),
    {
        let source_index = match self.position_of_state(ThinPageState::Freeing) {
            None => return Ok(()),
            Some(i) => i,
        };
        let source_page = self.pages.swap_remove(source_index);
        proof {
            self.lemma_swap_remove_wf(*old(self), source_index as int);
            if only_last_active(old(self).pages@) {
                let n = old(self).pages@.len() as int;
                assert forall|j: int| 0 <= j < self.pages@.len() && (#[trigger] self.pages@[j]).header.state == ThinPageState::Active
                    implies j == source_index by {
                    if j != source_index {
                        assert(self.pages@[j] == old(self).pages@[j]);
                    }
                }
            }
        }
        let ghost after_source = *self;
        let target_page = match self.position_of_state(ThinPageState::Active) {
            Some(idx) => {
                let p = self.pages.swap_remove(idx);
                proof {
                    self.lemma_swap_remove_wf(after_source, idx as int);
                    if only_last_active(old(self).pages@) {
                        let m = after_source.pages@.len() as int;
                        assert(idx == source_index);
                        assert forall|j: int| 0 <= j < self.pages@.len() implies (#[trigger] self.pages@[j]).header.state
                            != ThinPageState::Active by {
                            if j != idx {
                                assert(self.pages@[j] == after_source.pages@[j]);
                            } else {
                                assert(self.pages@[j] == after_source.pages@[m - 1]);
                            }
                        }
                    }
                }
                p
            },
            None => {
                let mut page = match self.free_pages.pop() {
                    Some(p) => p,
                    None => return Err(Error::FlashFull),
                };
                if page.header.state != ThinPageState::Uninitialized {
                    self.erase_page(page)?;
                    page = match self.free_pages.pop() {
                        Some(p) => p,
                        None => return Err(Error::FlashFull),
                    };
                }
                if !self.check_sequences_bounded() {
                    return Err(Error::FlashFull);
                }
                let next_sequence = self.get_next_sequence();
                page.initialize(&mut self.hal, next_sequence)?;
                page
            },
        };
        let ghost before_copy = self.pages@;
        proof {
            if only_last_active(old(self).pages@) {
                assert(forall|j: int| 0 <= j < before_copy.len() ==> (#[trigger] before_copy[j]).header.state != ThinPageState::Active);
            }
        }
        self.copy_items(&source_page, target_page)?;
        let ghost after_copy = self.pages@;
        let r = self.erase_page(source_page);
        proof {
            assert(old(self).pages@[source_index as int] == source_page);
            if only_last_active(old(self).pages@) {
                assert forall|i: int| 0 <= i < self.pages@.len() - 1 implies (#[trigger] self.pages@[i]).header.state
                    != ThinPageState::Active by {
                    assert(self.pages@[i] == after_copy.drop_last()[i]);
                    assert(after_copy.drop_last()[i] == before_copy[i]);
                }
            }
        }
        r
    }

    /// Moves the newest active page (the first of them, if several share the largest
    /// sequence number) to the end of the used pages, where the active page is taken from,
    /// and marks every other active page as full.
    pub fn ensure_active_page_order(&mut self) -> (r: Result<(), Error>)
        requires
            old(self).wf(),
        ensures
            final(self).wf(),
            final(self).namespaces == old(self).namespaces,
            final(self).free_pages == old(self).free_pages,
            final(self).base_address == old(self).base_address,
            final(self).sectors == old(self).sectors,
            final(self).pages@.len() == old(self).pages@.len(),
            final(self).flash().len() == old(self).flash().len(),
            r is Ok || r == Err::<(), Error>(Error::FlashError),
            r is Ok ==> old(self).header_areas_frame(old(self).flash(), final(self).flash()),
            (forall|i: int| 0 <= i < old(self).pages@.len() ==> (#[trigger] old(self).pages@[i]).header.state
                != ThinPageState::Active) ==> r is Ok && final(self).same_state(*old(self)),
            r is Ok && (exists|i: int| 0 <= i < old(self).pages@.len() && (#[trigger] old(self).pages@[i]).header.state
                == ThinPageState::Active) ==> exists|c: int| {
                let n = old(self).pages@.len() as int;
                &&& #[trigger] is_newest_active(old(self).pages@, c)
                &&& final(self).pages@[n - 1] == old(self).pages@[c]
                &&& forall|i: int|
                    0 <= i < n - 1 ==> same_page_or_full(old(self).pages@[swapped_index(c, n - 1, i)], #[trigger] final(self).pages@[i])
                        && final(self).pages@[i].header.state != ThinPageState::Active
            },
    {
        let n = self.pages.len();
        let mut best: Option<usize> = None;
        let mut count: usize = 0;
        let mut i: usize = 0;
        while i < n
            invariant
                i <= n,
                n == self.pages@.len(),
                self.pages == old(self).pages,
                count <= i,
                best is None <==> count == 0,
                best is None ==> forall|k: int| 0 <= k < i ==> (#[trigger] self.pages@[k]).header.state != ThinPageState::Active,
                best matches Some(b) ==> b < i && is_newest_active(self.pages@.take(i as int), b as int),
                count == 1 && best is Some ==> forall|k: int|
                    0 <= k < i && (#[trigger] self.pages@[k]).header.state == ThinPageState::Active ==> k == best->0,
            decreases n - i,
        {
            proof {
                assert(self.pages@.take(i + 1).drop_last() =~= self.pages@.take(i as int));
            }
            if self.pages[i].header.state == ThinPageState::Active {
                count += 1;
                best = match best {
                    None => Some(i),
                    Some(b) => if self.pages[i].header.sequence > self.pages[b].header.sequence {
                        Some(i)
                    } else {
                        Some(b)
                    },
                };
            }
            proof {
                let t = self.pages@.take(i + 1);
                if let Some(b) = best {
                    assert forall|k: int| 0 <= k < t.len() && (#[trigger] t[k]).header.state == ThinPageState::Active implies t[k].header.sequence
                        <= t[b as int].header.sequence by {
                        if k < i {
                            assert(t[k] == self.pages@.take(i as int)[k]);
                        }
                    }
                    assert forall|k: int| 0 <= k < b && (#[trigger] t[k]).header.state == ThinPageState::Active implies t[k].header.sequence
                        < t[b as int].header.sequence by {
                        assert(t[k] == self.pages@.take(i as int)[k]);
                    }
                }
            }
            i += 1;
        }
        proof {
            assert(self.pages@.take(n as int) =~= self.pages@);
        }
        let c = match best {
            None => return Ok(()),
            Some(c) => c,
        };
        let last = n - 1;
        if c != last {
            let p = self.pages.swap_remove(c);
            self.pages.push(p);
        }
        let ghost swapped = self.pages@;
        proof {
            assert forall|k: int| 0 <= k < n implies #[trigger] swapped[k] == old(self).pages@[swapped_index(c as int, last as int, k)] by {
            }
            assert forall|k: int| 0 <= k < self.pages@.len() implies (#[trigger] self.pages@[k]).wf() && self.in_partition(self.pages@[k]) by {
                assert(self.pages@[k] == old(self).pages@[swapped_index(c as int, last as int, k)]);
            }
            old(self).lemma_header_areas_frame_refl(self.flash());
        }
        proof {
            assert(is_newest_active(old(self).pages@.take(n as int), c as int));
            assert(old(self).pages@.take(n as int)[c as int] == old(self).pages@[c as int]);
        }
        if count > 1 {
            let mut idx: usize = 0;
            while idx < last
                invariant
                    idx <= last,
                    last + 1 == n,
                    c < n,
                    n == old(self).pages@.len(),
                    old(self).pages@[c as int].header.state == ThinPageState::Active,
                    n == self.pages@.len(),
                    swapped.len() == n,
                    self.wf(),
                    self.namespaces == old(self).namespaces,
                    self.free_pages == old(self).free_pages,
                    self.base_address == old(self).base_address,
                    self.sectors == old(self).sectors,
                    self.flash().len() == old(self).flash().len(),
                    old(self).header_areas_frame(old(self).flash(), self.flash()),
                    forall|k: int| 0 <= k < idx ==> same_page_or_full(swapped[k], #[trigger] self.pages@[k])
                        && self.pages@[k].header.state != ThinPageState::Active,
                    forall|k: int| idx <= k < n ==> #[trigger] self.pages@[k] == swapped[k],
                decreases last - idx,
            {
                if self.pages[idx].header.state == ThinPageState::Active {
                    let ghost before = *self;
                    let mut p = self.pages.remove(idx);
                    let res = p.mark_as_full(&mut self.hal);
                    self.pages.insert(idx, p);
                    proof {
                        assert forall|k: int| 0 <= k < self.pages@.len() implies (#[trigger] self.pages@[k]).wf() && self.in_partition(self.pages@[k]) by {
                            if k != idx {
                                assert(self.pages@[k] == before.pages@[k]);
                            }
                        }
                    }
                    match res {
                        Ok(()) => {},
                        Err(e) => {
                            assert(self.pages@.len() == n);
                            return Err(e);
                        },
                    }
                    proof {
                        let a = before.pages@[idx as int];
                        assert(header_area_frame(before.flash(), self.flash(), a.address as int));
                        before.lemma_page_header_frame(a, before.flash(), self.flash());
                        old(self).lemma_header_areas_frame_trans(old(self).flash(), before.flash(), self.flash());
                        assert forall|k: int| 0 <= k < n && k != idx implies #[trigger] self.pages@[k] == before.pages@[k] by {
                        }
                    }
                }
                idx += 1;
            }
        } else {
            proof {
                assert forall|k: int| 0 <= k < last implies self.pages@[k].header.state != ThinPageState::Active by {
                    assert(self.pages@[k] == old(self).pages@[swapped_index(c as int, last as int, k)]);
                }
            }
        }
        proof {
            assert(is_newest_active(old(self).pages@, c as int));
        }
        Ok(())
    }

    /// Settles the blob versions seen while loading: a version whose chunks do not add up
    /// to its index item is deleted with its chunks, chunks without an index item are
    /// deleted, and where both versions of a key have an index item, the older version (the
    /// one whose index item was written first) is deleted with its chunks.
    #[verifier::spinoff_prover]
    #[verifier::rlimit(60)]
    pub fn cleanup_dirty_blobs(&mut self, blob_index: BlobIndex) -> (r: Result<(), Error>)
        requires
            old(self).wf(),
            blob_index.wf(),
        ensures
            final(self).wf(),
            final(self).namespaces == old(self).namespaces,
            final(self).free_pages == old(self).free_pages,
            final(self).base_address == old(self).base_address,
            final(self).sectors == old(self).sectors,
            lists_shrunk(old(self).pages@, final(self).pages@),
            r is Ok ==> old(self).header_areas_frame(old(self).flash(), final(self).flash()),
            r is Ok || r == Err::<(), Error>(Error::FlashError) || r == Err::<(), Error>(Error::CorruptedData)
                || r == Err::<(), Error>(Error::KeyNotFound),
            blobs_settled(blob_index.entries@) ==> r is Ok && final(self).same_state(*old(self)),
            r is Ok ==> forall|i: int|
                0 <= i < blob_index.entries@.len() ==> pair_resolved(
                    *final(self),
                    blob_index.entries@,
                    #[trigger] blob_index.entries@[i],
                ),
            r is Ok && lists_consistent::<T>(old(self).pages@, old(self).flash()) ==> {
                &&& lists_consistent::<T>(final(self).pages@, final(self).flash())
                &&& forall|i: int|
                    0 <= i < blob_index.entries@.len() ==> blob_version_cleaned(
                        *final(self),
                        blob_index.entries@,
                        #[trigger] blob_index.entries@[i],
                    )
            },
    {
        let ghost all = blob_index.entries@;
        let mut blobs = blob_index;
        proof {
            lemma_lists_shrunk_refl(self.pages@);
            old(self).lemma_header_areas_frame_refl(self.flash());
        }
        loop
            invariant
                blobs.wf(),
                self.wf(),
                old(self).wf(),
                all == blob_index.entries@,
                blob_index.wf(),
                self.namespaces == old(self).namespaces,
                self.free_pages == old(self).free_pages,
                self.base_address == old(self).base_address,
                self.sectors == old(self).sectors,
                lists_shrunk(old(self).pages@, self.pages@),
                old(self).header_areas_frame(old(self).flash(), self.flash()),
                forall|i: int| 0 <= i < blobs.entries@.len() ==> all.contains(#[trigger] blobs.entries@[i]),
                blobs_settled(all) ==> self.same_state(*old(self)),
                forall|a: int, b: int|
                    0 <= a < all.len() && !blobs.entries@.contains(#[trigger] all[a]) && 0 <= b < blobs.entries@.len()
                        ==> !bytes_lt(entry_order_key(#[trigger] blobs.entries@[b]), entry_order_key(all[a])),
                lists_consistent::<T>(old(self).pages@, old(self).flash()) ==> forall|a: int|
                    0 <= a < all.len() && !blobs.entries@.contains(#[trigger] all[a]) ==> blob_version_cleaned(
                        *self,
                        all,
                        all[a],
                    ),
                forall|a: int|
                    0 <= a < all.len() && !blobs.entries@.contains(#[trigger] all[a]) ==> pair_resolved(*self, all, all[a]),
            decreases blobs.entries@.len(),
        {
            let ghost remaining = blobs.entries@;
            let e = match blobs.pop_first() {
                Some(e) => e,
                None => {
                    proof {
                        assert forall|i: int| 0 <= i < all.len() implies pair_resolved(*self, all, #[trigger] all[i]) by {
                            assert(!blobs.entries@.contains(all[i]));
                        }
                        if lists_consistent::<T>(old(self).pages@, old(self).flash()) {
                            lemma_consistency_kept::<T>(*old(self), self.pages@, self.flash());
                            assert forall|i: int| 0 <= i < all.len() implies blob_version_cleaned(
                                *self,
                                all,
                                #[trigger] all[i],
                            ) by {
                                assert(!blobs.entries@.contains(all[i]));
                            }
                        }
                    }
                    return Ok(());
                },
            };
            let ghost i0 = choose|i: int|
                0 <= i < remaining.len() && Some(e) == Some(remaining[i]) && blobs.entries@ == remaining.remove(i)
                    && forall|j: int|
                    0 <= j < remaining.len() ==> !bytes_lt(
                        entry_order_key(#[trigger] remaining[j]),
                        entry_order_key(remaining[i]),
                    );
            proof {
                assert(remaining[i0] == e);
                assert(all.contains(remaining[i0]));
                assert forall|k: int| 0 <= k < blobs.entries@.len() implies all.contains(#[trigger] blobs.entries@[k]) by {
                    if k < i0 {
                        assert(blobs.entries@[k] == remaining[k]);
                    } else {
                        assert(blobs.entries@[k] == remaining[k + 1]);
                    }
                }
            }
            let ghost before = *self;
            proof {
                if lists_consistent::<T>(old(self).pages@, old(self).flash()) {
                    lemma_consistency_kept::<T>(*old(self), before.pages@, before.flash());
                }
            }
            let r = match e.index {
                Some(index) => {
                    if !chunks_match(&index, &e.observed.chunks_by_page) {
                        match self.delete_key(e.namespace_index, &e.key, ChunkIndex::BlobIndex) {
                            Ok(()) => {
                                let ghost mid = *self;
                                proof {
                                    if lists_consistent::<T>(old(self).pages@, old(self).flash()) {
                                        crate::items::lemma_lookup_misses_after_delete::<T>(
                                            before,
                                            mid,
                                            e.namespace_index,
                                            e.key@,
                                            0xFF,
                                        );
                                    }
                                }
                                let r2 = self.delete_blob_data(e.namespace_index, &e.key, e.version);
                                proof {
                                    lemma_lists_shrunk_trans(before.pages@, mid.pages@, self.pages@);
                                    if r2 is Ok {
                                        before.lemma_header_areas_frame_trans(before.flash(), mid.flash(), self.flash());
                                        assert(pair_resolved(*self, all, e));
                                        if lists_consistent::<T>(old(self).pages@, old(self).flash()) {
                                            lemma_lookup_missing_kept::<T>(
                                                mid,
                                                self.pages@,
                                                self.flash(),
                                                e.namespace_index,
                                                e.key@,
                                                0xFF,
                                            );
                                            assert(blob_version_cleaned(*self, all, e));
                                        }
                                    }
                                }
                                r2
                            },
                            Err(err) => Err(err),
                        }
                    } else {
                        match blobs.find(e.namespace_index, e.version.invert(), &e.key) {
                            Some(j) => if let Some(other_index) = blobs.entries[j].index {
                                let other_is_newer = other_index.page_sequence > index.page_sequence || (
                                other_index.page_sequence == index.page_sequence && other_index.item_index > index.item_index);
                                let older = if other_is_newer {
                                    e.version
                                } else {
                                    e.version.invert()
                                };
                                let ghost other = blobs.entries@[j as int];
                                proof {
                                    assert(older == older_version(e, other));
                                    assert forall|j2: int| #[trigger] pair_at(all, e, j2) implies all[j2] == other by {
                                        assert(blobs.entries@.contains(other));
                                        assert(all.contains(other));
                                        assert(all.contains(all[j2]));
                                        assert(entry_order_key(all[j2]) =~= entry_order_key(other));
                                        lemma_same_version_same_entry(all, all[j2], other);
                                    }
                                }
                                match self.erase_index_version(e.namespace_index, &e.key, older) {
                                    Ok(()) => {
                                        let ghost mid = *self;
                                        let r2 = self.delete_blob_data(e.namespace_index, &e.key, older);
                                        proof {
                                            lemma_lists_shrunk_trans(before.pages@, mid.pages@, self.pages@);
                                            if r2 is Ok {
                                                before.lemma_header_areas_frame_trans(before.flash(), mid.flash(), self.flash());
                                                lemma_no_listed_index_kept::<T>(mid, *self, e.namespace_index, e.key@, older);
                                                assert(pair_resolved(*self, all, e));
                                                if lists_consistent::<T>(old(self).pages@, old(self).flash()) {
                                                    lemma_lists_shrunk_trans(old(self).pages@, before.pages@, mid.pages@);
                                                    old(self).lemma_header_areas_frame_trans(old(self).flash(), before.flash(), mid.flash());
                                                    lemma_consistency_kept::<T>(*old(self), mid.pages@, mid.flash());
                                                    assert(chunks_missing(*self, e.namespace_index, e.key@, older));
                                                    assert(blob_version_cleaned(*self, all, e));
                                                }
                                            }
                                        }
                                        r2
                                    },
                                    Err(err) => Err(err),
                                }
                            } else {
                                proof {
                                    lemma_lists_shrunk_refl(self.pages@);
                                    assert forall|k: int| 0 <= k < blobs.entries@.len() implies (#[trigger] blobs.entries@[k]).namespace_index
                                        != e.namespace_index || blobs.entries@[k].key@ != e.key@ || blobs.entries@[k].version
                                        != crate::types::other_version(e.version) || blobs.entries@[k].index is None by {
                                        if blobs.entries@[k].namespace_index == e.namespace_index && blobs.entries@[k].key@ == e.key@
                                            && blobs.entries@[k].version == crate::types::other_version(e.version) && k != j {
                                            assert(entry_order_key(blobs.entries@[k]) =~= entry_order_key(blobs.entries@[j as int]));
                                            if k < j {
                                                assert(entry_order_key(blobs.entries@[k]) != entry_order_key(blobs.entries@[j as int]));
                                            } else {
                                                assert(entry_order_key(blobs.entries@[j as int]) != entry_order_key(blobs.entries@[k]));
                                            }
                                        }
                                    }
                                    Self::lemma_no_second_index(all, remaining, blobs.entries@, e, i0);
                                    assert(pair_resolved(*self, all, e));
                                }
                                Ok(())
                            },
                            None => {
                                proof {
                                    lemma_lists_shrunk_refl(self.pages@);
                                    Self::lemma_no_second_index(all, remaining, blobs.entries@, e, i0);
                                    assert(pair_resolved(*self, all, e));
                                }
                                Ok(())
                            },
                        }
                    }
                },
                None => {
                    let r2 = self.delete_blob_data(e.namespace_index, &e.key, e.version);
                    proof {
                        assert(pair_resolved(*self, all, e));
                        if r2 is Ok && lists_consistent::<T>(old(self).pages@, old(self).flash()) {
                            assert(blob_version_cleaned(*self, all, e));
                        }
                    }
                    r2
                },
            };
            proof {
                lemma_lists_shrunk_trans(old(self).pages@, before.pages@, self.pages@);
                if r is Ok {
                    old(self).lemma_header_areas_frame_trans(old(self).flash(), before.flash(), self.flash());
                }
            }
            match r {
                Ok(()) => {},
                Err(err) => return Err(err),
            }
            proof {
                assert forall|a: int, b: int|
                    0 <= a < all.len() && !blobs.entries@.contains(#[trigger] all[a]) && 0 <= b < blobs.entries@.len()
                        implies !bytes_lt(entry_order_key(#[trigger] blobs.entries@[b]), entry_order_key(all[a])) by {
                    let bb = if b < i0 { b } else { b + 1 };
                    assert(blobs.entries@[b] == remaining[bb]);
                    if remaining.contains(all[a]) {
                        let k = choose|k: int| 0 <= k < remaining.len() && remaining[k] == all[a];
                        if k != i0 {
                            let kk = if k < i0 { k } else { k - 1 };
                            assert(blobs.entries@[kk] == all[a]);
                        }
                    }
                }
                assert forall|a: int|
                    0 <= a < all.len() && !blobs.entries@.contains(#[trigger] all[a]) implies pair_resolved(*self, all, all[a]) by {
                    if remaining.contains(all[a]) {
                        let k = choose|k: int| 0 <= k < remaining.len() && remaining[k] == all[a];
                        if k != i0 {
                            let kk = if k < i0 { k } else { k - 1 };
                            assert(blobs.entries@[kk] == all[a]);
                        }
                    } else {
                        lemma_pair_resolved_kept::<T>(before, *self, all, all[a]);
                    }
                }
                if lists_consistent::<T>(old(self).pages@, old(self).flash()) {
                    assert forall|a: int|
                        0 <= a < all.len() && !blobs.entries@.contains(#[trigger] all[a]) implies blob_version_cleaned(
                            *self,
                            all,
                            all[a],
                        ) by {
                        if remaining.contains(all[a]) {
                            let k = choose|k: int| 0 <= k < remaining.len() && remaining[k] == all[a];
                            if k != i0 {
                                let kk = if k < i0 { k } else { k - 1 };
                                assert(blobs.entries@[kk] == all[a]);
                            }
                        } else {
                            lemma_cleaned_kept::<T>(before, *self, all, all[a]);
                        }
                    }
                }
            }
        }
    }

    /// A settled blob version whose key's other version is not found among the entries not
    /// yet cleaned up loses no index item: its key has no second version with an index item.
    proof fn lemma_no_second_index(
        all: Seq<BlobIndexEntry>,
        remaining: Seq<BlobIndexEntry>,
        rest: Seq<BlobIndexEntry>,
        e: BlobIndexEntry,
        i0: int,
    )
        requires
            forall|a: int, b: int|
                0 <= a < b < all.len() ==> entry_order_key(#[trigger] all[a]) != entry_order_key(#[trigger] all[b]),
            0 <= i0 < remaining.len(),
            remaining[i0] == e,
            rest == remaining.remove(i0),
            blob_version_settled(e),
            forall|i: int| 0 <= i < remaining.len() ==> all.contains(#[trigger] remaining[i]),
            forall|a: int, b: int|
                0 <= a < all.len() && !remaining.contains(#[trigger] all[a]) && 0 <= b < remaining.len()
                    ==> !bytes_lt(entry_order_key(#[trigger] remaining[b]), entry_order_key(all[a])),
            forall|i: int|
                0 <= i < rest.len() ==> (#[trigger] rest[i]).namespace_index != e.namespace_index || rest[i].key@
                    != e.key@ || rest[i].version != crate::types::other_version(e.version) || rest[i].index is None,
        ensures
            forall|j: int| !(#[trigger] pair_at(all, e, j)),
    {
        if exists|j: int| #[trigger] pair_at(all, e, j) {
            let j = choose|j: int| #[trigger] pair_at(all, e, j);
            lemma_first_version_first(e, all[j]);
            if !remaining.contains(all[j]) {
                assert(!bytes_lt(entry_order_key(remaining[i0]), entry_order_key(all[j])));
            }
            let k = choose|k: int| 0 <= k < remaining.len() && remaining[k] == all[j];
            assert(k != i0);
            let kk = if k < i0 { k } else { k - 1 };
            assert(rest[kk] == all[j]);
        }
    }

    /// Erases every listed blob index item of version `version` of `key` in namespace `ns`.
    pub fn erase_index_version(&mut self, ns: u8, key: &Key, version: VersionOffset) -> (r: Result<(), Error>)
        requires
            old(self).wf(),
        ensures
            final(self).wf(),
            final(self).namespaces == old(self).namespaces,
            final(self).free_pages == old(self).free_pages,
            final(self).base_address == old(self).base_address,
            final(self).sectors == old(self).sectors,
            lists_shrunk(old(self).pages@, final(self).pages@),
            erased_kept(old(self).pages@, final(self).pages@),
            r is Ok ==> old(self).header_areas_frame(old(self).flash(), final(self).flash()),
            r is Ok || r == Err::<(), Error>(Error::FlashError) || r == Err::<(), Error>(Error::CorruptedData),
            r is Ok ==> no_listed_index::<T>(final(self).pages@, final(self).flash(), ns, key@, version),
    {
        let ghost pages0 = self.pages@;
        let ghost flash0 = self.flash();
        let mut found: Vec<(usize, u8, u8)> = Vec::new();
        let mut p: usize = 0;
        while p < self.pages.len()
            invariant
                p <= self.pages@.len(),
                self.wf(),
                self.pages@ == pages0,
                self.flash() == flash0,
                self.namespaces == old(self).namespaces,
                self.free_pages == old(self).free_pages,
                self.base_address == old(self).base_address,
                self.sectors == old(self).sectors,
                pages0 == old(self).pages@,
                flash0 == old(self).flash(),
                forall|k: int| 0 <= k < found@.len() ==> (#[trigger] found@[k]).0 < pages0.len() && found@[k].1 < ENTRIES_PER_PAGE,
                forall|q: int, j: int|
                    #![trigger pages0[q].item_hash_list@[j]]
                    0 <= q < p && 0 <= j < pages0[q].item_hash_list@.len() && listed_item::<T>(pages0, flash0, q, j) is Some
                        && is_version_index(listed_item::<T>(pages0, flash0, q, j)->0, ns, key@, version) ==> exists|k: int|
                        0 <= k < found@.len() && (#[trigger] found@[k]).0 == q && found@[k].1 == pages0[q].item_hash_list@[j].index,
            decreases self.pages@.len() - p,
        {
            let mut j: usize = 0;
            while j < self.pages[p].item_hash_list.len()
                invariant
                    p < self.pages@.len(),
                    j <= self.pages@[p as int].item_hash_list@.len(),
                    self.wf(),
                    self.pages@ == pages0,
                    self.flash() == flash0,
                    self.namespaces == old(self).namespaces,
                    self.free_pages == old(self).free_pages,
                    self.base_address == old(self).base_address,
                    self.sectors == old(self).sectors,
                    pages0 == old(self).pages@,
                    flash0 == old(self).flash(),
                    forall|k: int| 0 <= k < found@.len() ==> (#[trigger] found@[k]).0 < pages0.len() && found@[k].1 < ENTRIES_PER_PAGE,
                    forall|q: int, j2: int|
                        #![trigger pages0[q].item_hash_list@[j2]]
                        0 <= q <= p && 0 <= j2 < pages0[q].item_hash_list@.len() && (q < p || j2 < j) && listed_item::<T>(
                            pages0,
                            flash0,
                            q,
                            j2,
                        ) is Some && is_version_index(listed_item::<T>(pages0, flash0, q, j2)->0, ns, key@, version)
                            ==> exists|k: int|
                            0 <= k < found@.len() && (#[trigger] found@[k]).0 == q && found@[k].1
                                == pages0[q].item_hash_list@[j2].index,
                decreases self.pages@[p as int].item_hash_list@.len() - j,
            {
                let e = self.pages[p].item_hash_list[j];
                proof {
                    assert(self.pages@[p as int].wf());
                    assert(pages0[p as int].item_hash_list@[j as int] == e);
                }
                let ghost before = found@;
                match self.pages[p].load_item(&mut self.hal, e.index) {
                    Ok(it) => {
                        proof {
                            assert(listed_item::<T>(pages0, flash0, p as int, j as int) == Some(it));
                        }
                        if it.namespace_index == ns && it.key.equals(key) && it.type_.same(&ItemType::BlobIndex)
                            && it.chunk_index == 0xFF && VersionOffset::from_u8(it.chunk_start()) == version {
                            found.push((p, e.index, it.span));
                            proof {
                                assert(found@[before.len() as int] == (p, e.index, it.span));
                            }
                        }
                    },
                    Err(Error::KeyNotFound) => {},
                    Err(err) => {
                        proof {
                            lemma_lists_shrunk_refl(self.pages@);
                        }
                        return Err(err);
                    },
                }
                proof {
                    assert forall|q: int, j2: int|
                        #![trigger pages0[q].item_hash_list@[j2]]
                        0 <= q <= p && 0 <= j2 < pages0[q].item_hash_list@.len() && (q < p || j2 < j + 1) && listed_item::<T>(
                            pages0,
                            flash0,
                            q,
                            j2,
                        ) is Some && is_version_index(listed_item::<T>(pages0, flash0, q, j2)->0, ns, key@, version)
                            implies exists|k: int|
                            0 <= k < found@.len() && (#[trigger] found@[k]).0 == q && found@[k].1
                                == pages0[q].item_hash_list@[j2].index by {
                        if q == p && j2 == j {
                            assert(found@[before.len() as int].0 == q);
                        } else {
                            let k = choose|k: int|
                                0 <= k < before.len() && (#[trigger] before[k]).0 == q && before[k].1
                                    == pages0[q].item_hash_list@[j2].index;
                            assert(found@[k] == before[k]);
                        }
                    }
                }
                j += 1;
            }
            p += 1;
        }
        proof {
            lemma_lists_shrunk_refl(self.pages@);
            old(self).lemma_header_areas_frame_refl(self.flash());
        }
        let mut k: usize = 0;
        while k < found.len()
            invariant
                k <= found@.len(),
                self.wf(),
                self.pages@.len() == pages0.len(),
                self.namespaces == old(self).namespaces,
                self.free_pages == old(self).free_pages,
                self.base_address == old(self).base_address,
                self.sectors == old(self).sectors,
                pages0 == old(self).pages@,
                flash0 == old(self).flash(),
                lists_shrunk(old(self).pages@, self.pages@),
                erased_kept(old(self).pages@, self.pages@),
                old(self).header_areas_frame(old(self).flash(), self.flash()),
                forall|i: int| 0 <= i < found@.len() ==> (#[trigger] found@[i]).0 < pages0.len() && found@[i].1 < ENTRIES_PER_PAGE,
                forall|i: int| 0 <= i < k ==> entry_unlisted(self.pages@, (#[trigger] found@[i]).0 as int, found@[i].1),
            decreases found@.len() - k,
        {
            let (fp, fi, fs) = found[k];
            let ghost before = *self;
            match self.erase_entry(fp, fi, fs) {
                Ok(()) => {},
                Err(e) => {
                    proof {
                        lemma_lists_shrunk_trans(old(self).pages@, before.pages@, self.pages@);
                        lemma_erased_kept_trans(old(self).pages@, before.pages@, self.pages@);
                    }
                    return Err(e);
                },
            }
            proof {
                lemma_lists_shrunk_trans(old(self).pages@, before.pages@, self.pages@);
                lemma_erased_kept_trans(old(self).pages@, before.pages@, self.pages@);
                before.lemma_page_header_frame(before.pages@[fp as int], before.flash(), self.flash());
                old(self).lemma_header_areas_frame_trans(old(self).flash(), before.flash(), self.flash());
                assert forall|i: int| 0 <= i < k + 1 implies entry_unlisted(self.pages@, (#[trigger] found@[i]).0 as int, found@[i].1) by {
                    if i < k {
                        lemma_entry_unlisted_kept(before.pages@, self.pages@, found@[i].0 as int, found@[i].1);
                    }
                }
            }
            k += 1;
        }
        proof {
            assert forall|q: int, j: int|
                #![trigger self.pages@[q].item_hash_list@[j]]
                0 <= q < self.pages@.len() && 0 <= j < self.pages@[q].item_hash_list@.len() && entry_offset(
                    self.pages@[q].address as int,
                    self.pages@[q].item_hash_list@[j].index as int,
                ) + ITEM_SIZE <= self.flash().len() implies !(listed_item::<T>(
                    self.pages@,
                    self.flash(),
                    q,
                    j,
                ) is Some && is_version_index(listed_item::<T>(self.pages@, self.flash(), q, j)->0, ns, key@, version)) by {
                let e = self.pages@[q].item_hash_list@[j];
                assert(self.pages@[q] == self.pages@[q]);
                assert(pages0[q].item_hash_list@.contains(e));
                let j0 = choose|j0: int| 0 <= j0 < pages0[q].item_hash_list@.len() && pages0[q].item_hash_list@[j0] == e;
                assert(pages0[q].item_hash_list@[j0] == e);
                let a = pages0[q].address as int;
                assert(pages0[q].wf() && old(self).in_partition(pages0[q]));
                old(self).lemma_entries_kept(pages0[q], flash0, self.flash(), entry_offset(a, e.index as int), entry_offset(a, e.index as int) + 32);
                assert(listed_item::<T>(self.pages@, self.flash(), q, j) == listed_item::<T>(pages0, flash0, q, j0));
                if listed_item::<T>(pages0, flash0, q, j0) is Some && is_version_index(listed_item::<T>(pages0, flash0, q, j0)->0, ns, key@, version) {
                    let kk = choose|kk: int| 0 <= kk < found@.len() && (#[trigger] found@[kk]).0 == q && found@[kk].1 == pages0[q].item_hash_list@[j0].index;
                    assert(entry_unlisted(self.pages@, found@[kk].0 as int, found@[kk].1));
                }
            }
        }
        Ok(())
    }

    /// Erases the older copies of items stored twice: a write that completed before the
    /// old copy could be erased leaves both on flash. Only items of a namespace other than
    /// 0 that are neither blob index items nor blob data are considered; of the copies
    /// with the same hash, namespace and key, the one on the page with the highest
    /// sequence number, and there the one with the highest entry index, is kept.
    #[verifier::loop_isolation(false)]
    pub fn cleanup_duplicate_entries(&mut self) -> (r: Result<(), Error>)
        requires
            old(self).wf(),
        ensures
            final(self).wf(),
            final(self).namespaces == old(self).namespaces,
            final(self).free_pages == old(self).free_pages,
            final(self).base_address == old(self).base_address,
            final(self).sectors == old(self).sectors,
            lists_shrunk(old(self).pages@, final(self).pages@),
            r is Ok ==> old(self).header_areas_frame(old(self).flash(), final(self).flash()),
            r is Ok || r == Err::<(), Error>(Error::FlashError) || r == Err::<(), Error>(Error::CorruptedData)
                || r == Err::<(), Error>(Error::KeyNotFound),
            r is Ok ==> no_duplicate_items::<T>(final(self).pages@, final(self).flash()),
            r is Ok ==> forall|p1: int, j1: int, p2: int, j2: int|
                #![trigger old(self).pages@[p1].item_hash_list@[j1], old(self).pages@[p2].item_hash_list@[j2]]
                older_copy::<T>(old(self).pages@, old(self).flash(), p1, j1, p2, j2) ==> {
                    &&& forall|j: int|
                        0 <= j < final(self).pages@[p1].item_hash_list@.len() ==> (#[trigger] final(self).pages@[p1].item_hash_list@[j]).index != old(self).pages@[p1].item_hash_list@[j1].index
                    &&& entries_erased(
                        final(self).pages@[p1],
                        old(self).pages@[p1].item_hash_list@[j1].index as int,
                        listed_item::<T>(old(self).pages@, old(self).flash(), p1, j1)->0.span as int,
                    )
                },
            erased_kept(old(self).pages@, final(self).pages@),
            r is Ok && lists_unique(old(self).pages@) ==> forall|q: int, j: int|
                #![trigger old(self).pages@[q].item_hash_list@[j]]
                0 <= q < old(self).pages@.len() && 0 <= j < old(self).pages@[q].item_hash_list@.len() && !beaten_copy::<T>(
                    old(self).pages@,
                    old(self).flash(),
                    q,
                    j,
                ) ==> final(self).pages@[q].item_hash_list@.contains(old(self).pages@[q].item_hash_list@[j]),
            old(self).pages@.len() == 0 ==> r is Ok && final(self).same_state(*old(self)),
    {
        let mut listed: Vec<(usize, u8, u32)> = Vec::new();
        let mut p: usize = 0;
        let ghost pages0 = self.pages@;
        let ghost mut pos: Seq<(int, int)> = Seq::empty();
        while p < self.pages.len()
            invariant
                p <= self.pages@.len(),
                self.pages == old(self).pages,
                pages0 == self.pages@,
                forall|k: int|
                    0 <= k < listed@.len() ==> (#[trigger] listed@[k]).0 < p && listed@[k].1 < ENTRIES_PER_PAGE,
                forall|q: int, j: int|
                    0 <= q < p && 0 <= j < pages0[q].item_hash_list@.len() ==> #[trigger] listed_has(
                        listed@,
                        q,
                        pages0[q].item_hash_list@[j].index,
                        pages0[q].item_hash_list@[j].hash,
                    ),
                self.wf(),
                pages0.len() == 0 ==> listed@.len() == 0,
                pos.len() == listed@.len(),
                forall|k: int| 0 <= k < listed@.len() ==> listed_from(pages0, #[trigger] listed@[k], pos[k]),
                forall|k1: int, k2: int| 0 <= k1 < k2 < listed@.len() ==> pos_before(#[trigger] pos[k1], #[trigger] pos[k2]),
                forall|k: int| 0 <= k < listed@.len() ==> (#[trigger] pos[k]).0 < p,
            decreases self.pages@.len() - p,
        {
            let mut j: usize = 0;
            while j < self.pages[p].item_hash_list.len()
                invariant
                    p < self.pages@.len(),
                    j <= self.pages@[p as int].item_hash_list@.len(),
                    self.pages == old(self).pages,
                    pages0 == self.pages@,
                    self.wf(),
                    forall|k: int|
                        0 <= k < listed@.len() ==> (#[trigger] listed@[k]).0 <= p && listed@[k].1 < ENTRIES_PER_PAGE,
                    forall|q: int, j2: int|
                        0 <= q <= p && 0 <= j2 < pages0[q].item_hash_list@.len() && (q < p || j2 < j) ==> #[trigger] listed_has(
                            listed@,
                            q,
                            pages0[q].item_hash_list@[j2].index,
                            pages0[q].item_hash_list@[j2].hash,
                        ),
                    pos.len() == listed@.len(),
                    forall|k: int| 0 <= k < listed@.len() ==> listed_from(pages0, #[trigger] listed@[k], pos[k]),
                    forall|k1: int, k2: int| 0 <= k1 < k2 < listed@.len() ==> pos_before(#[trigger] pos[k1], #[trigger] pos[k2]),
                    forall|k: int| 0 <= k < listed@.len() ==> pos_before(#[trigger] pos[k], (p as int, j as int)),
                decreases self.pages@[p as int].item_hash_list@.len() - j,
            {
                let e = self.pages[p].item_hash_list[j];
                proof {
                    assert(self.pages@[p as int].wf());
                }
                let ghost before = listed@;
                let ghost before_pos = pos;
                listed.push((p, e.index, e.hash));
                proof {
                    pos = pos.push((p as int, j as int));
                    assert forall|k: int| 0 <= k < listed@.len() implies listed_from(pages0, #[trigger] listed@[k], pos[k]) by {
                        if k < before.len() {
                            assert(listed@[k] == before[k]);
                            assert(pos[k] == before_pos[k]);
                        }
                    }
                    assert forall|k1: int, k2: int| 0 <= k1 < k2 < listed@.len() implies pos_before(#[trigger] pos[k1], #[trigger] pos[k2]) by {
                        assert(pos[k1] == before_pos[k1]);
                        if k2 < before.len() {
                            assert(pos[k2] == before_pos[k2]);
                        }
                    }
                    assert forall|k: int| 0 <= k < listed@.len() implies pos_before(#[trigger] pos[k], (p as int, j + 1)) by {
                        if k < before.len() {
                            assert(pos[k] == before_pos[k]);
                        }
                    }
                    assert forall|q: int, j2: int|
                        0 <= q <= p && 0 <= j2 < pages0[q].item_hash_list@.len() && (q < p || j2 < j + 1) implies #[trigger] listed_has(
                            listed@,
                            q,
                            pages0[q].item_hash_list@[j2].index,
                            pages0[q].item_hash_list@[j2].hash,
                        ) by {
                        if q == p && j2 == j {
                            assert(listed_at(listed@, before.len() as int, q, e.index, e.hash));
                        } else {
                            assert(listed_has(before, q, pages0[q].item_hash_list@[j2].index, pages0[q].item_hash_list@[j2].hash));
                            let k = choose|k: int|
                                0 <= k < before.len() && #[trigger] listed_at(
                                    before,
                                    k,
                                    q,
                                    pages0[q].item_hash_list@[j2].index,
                                    pages0[q].item_hash_list@[j2].hash,
                                );
                            assert(listed@[k] == before[k]);
                            assert(listed_at(listed@, k, q, pages0[q].item_hash_list@[j2].index, pages0[q].item_hash_list@[j2].hash));
                        }
                    }
                }
                j += 1;
            }
            p += 1;
        }
        let mut candidates: Vec<DuplicateCandidate> = Vec::new();
        let ghost flash0 = self.flash();
        let ghost mut src_k: Seq<int> = Seq::empty();
        let mut k: usize = 0;
        while k < listed.len()
            invariant
                k <= listed@.len(),
                self.wf(),
                self.pages == old(self).pages,
                pages0 == self.pages@,
                flash0 == old(self).flash(),
                self.namespaces == old(self).namespaces,
                self.free_pages == old(self).free_pages,
                self.base_address == old(self).base_address,
                self.sectors == old(self).sectors,
                self.flash() == old(self).flash(),
                listed@.len() == 0 ==> candidates@.len() == 0,
                src_k.len() == candidates@.len(),
                forall|c: int|
                    0 <= c < candidates@.len() ==> {
                        &&& 0 <= #[trigger] src_k[c] < k
                        &&& item_named::<T>(pages0, flash0, listed@[src_k[c]]) is Some
                        &&& plain_item(item_named::<T>(pages0, flash0, listed@[src_k[c]])->0)
                        &&& candidate_for(
                            candidates@[c],
                            listed@[src_k[c]],
                            pages0,
                            item_named::<T>(pages0, flash0, listed@[src_k[c]])->0,
                        )
                    },
                forall|c1: int, c2: int| 0 <= c1 < c2 < candidates@.len() ==> #[trigger] src_k[c1] < #[trigger] src_k[c2],
                forall|i: int|
                    0 <= i < listed@.len() ==> (#[trigger] listed@[i]).0 < self.pages@.len() && listed@[i].1 < ENTRIES_PER_PAGE,
                forall|i: int|
                    0 <= i < candidates@.len() ==> (#[trigger] candidates@[i]).page < self.pages@.len() && candidates@[i].index
                        < ENTRIES_PER_PAGE,
                forall|k2: int|
                    0 <= k2 < k && #[trigger] hash_shared_at(listed@, k2) ==> {
                        &&& item_named::<T>(pages0, flash0, listed@[k2]) is Some
                        &&& entry_offset(pages0[listed@[k2].0 as int].address as int, listed@[k2].1 as int) + 32
                            <= flash0.len()
                        &&& plain_item(item_named::<T>(pages0, flash0, listed@[k2])->0) ==> candidate_listed(
                            candidates@,
                            listed@[k2],
                            pages0,
                            item_named::<T>(pages0, flash0, listed@[k2])->0,
                        )
                    },
            decreases listed@.len() - k,
        {
            let (page, index, hash) = listed[k];
            let ghost before = candidates@;
            if hash_shared(&listed, k) {
                let item = match self.pages[page].load_item(&mut self.hal, index) {
                    Ok(it) => it,
                    Err(e) => {
                        proof {
                            lemma_lists_shrunk_refl(self.pages@);
                        }
                        return Err(e);
                    },
                };
                if item.namespace_index != 0 && !item.type_.same(&ItemType::BlobIndex) && !item.type_.same(
                    &ItemType::BlobData,
                ) {
                    candidates.push(
                        DuplicateCandidate {
                            page,
                            index,
                            sequence: self.pages[page].header.sequence,
                            span: item.span,
                            hash,
                            namespace_index: item.namespace_index,
                            key: item.key,
                        },
                    );
                    proof {
                        assert(candidate_for(candidates@[before.len() as int], listed@[k as int], pages0, item));
                        let before_src = src_k;
                        src_k = src_k.push(k as int);
                        assert(item_named::<T>(pages0, flash0, listed@[k as int]) == Some(item));
                        assert forall|c: int| 0 <= c < candidates@.len() implies {
                            &&& 0 <= #[trigger] src_k[c] < k + 1
                            &&& item_named::<T>(pages0, flash0, listed@[src_k[c]]) is Some
                            &&& plain_item(item_named::<T>(pages0, flash0, listed@[src_k[c]])->0)
                            &&& candidate_for(
                                candidates@[c],
                                listed@[src_k[c]],
                                pages0,
                                item_named::<T>(pages0, flash0, listed@[src_k[c]])->0,
                            )
                        } by {
                            if c < before.len() {
                                assert(candidates@[c] == before[c]);
                                assert(src_k[c] == before_src[c]);
                            }
                        }
                        assert forall|c1: int, c2: int| 0 <= c1 < c2 < candidates@.len() implies #[trigger] src_k[c1] < #[trigger] src_k[c2] by {
                            assert(src_k[c1] == before_src[c1]);
                            if c2 < before.len() {
                                assert(src_k[c2] == before_src[c2]);
                            }
                        }
                    }
                }
                proof {
                    assert(item_named::<T>(pages0, flash0, listed@[k as int]) == Some(item));
                }
            }
            proof {
                assert forall|k2: int|
                    0 <= k2 < k + 1 && #[trigger] hash_shared_at(listed@, k2) implies {
                        &&& item_named::<T>(pages0, flash0, listed@[k2]) is Some
                        &&& entry_offset(pages0[listed@[k2].0 as int].address as int, listed@[k2].1 as int) + 32
                            <= flash0.len()
                        &&& plain_item(item_named::<T>(pages0, flash0, listed@[k2])->0) ==> candidate_listed(
                            candidates@,
                            listed@[k2],
                            pages0,
                            item_named::<T>(pages0, flash0, listed@[k2])->0,
                        )
                    } by {
                    if k2 < k {
                        let it2 = item_named::<T>(pages0, flash0, listed@[k2])->0;
                        if plain_item(it2) {
                            let c = choose|c: int| 0 <= c < before.len() && #[trigger] candidate_for(before[c], listed@[k2], pages0, it2);
                            assert(candidates@[c] == before[c]);
                        }
                    }
                }
            }
            k += 1;
        }
        proof {
            lemma_lists_shrunk_refl(self.pages@);
            old(self).lemma_header_areas_frame_refl(self.flash());
        }
        proof {
            assert forall|q: int, j: int|
                #![trigger pages0[q].item_hash_list@[j]]
                0 <= q < pages0.len() && 0 <= j < pages0[q].item_hash_list@.len() implies self.pages@[q].item_hash_list@.contains(
                    pages0[q].item_hash_list@[j],
                ) by {
                assert(self.pages@[q].item_hash_list@[j] == pages0[q].item_hash_list@[j]);
            }
        }
        let mut a: usize = 0;
        while a < candidates.len()
            invariant
                a <= candidates@.len(),
                self.wf(),
                self.pages@.len() == old(self).pages@.len(),
                self.namespaces == old(self).namespaces,
                self.free_pages == old(self).free_pages,
                self.base_address == old(self).base_address,
                self.sectors == old(self).sectors,
                lists_shrunk(old(self).pages@, self.pages@),
                old(self).header_areas_frame(old(self).flash(), self.flash()),
                candidates@.len() == 0 ==> self.same_state(*old(self)),
                forall|i: int|
                    0 <= i < candidates@.len() ==> (#[trigger] candidates@[i]).page < self.pages@.len() && candidates@[i].index
                        < ENTRIES_PER_PAGE,
                forall|a2: int|
                    0 <= a2 < a && #[trigger] superseded(candidates@, a2) ==> index_gone(self.pages@, candidates@[a2])
                        && entries_erased(
                        self.pages@[candidates@[a2].page as int],
                        candidates@[a2].index as int,
                        candidates@[a2].span as int,
                    ),
                erased_kept(old(self).pages@, self.pages@),
                lists_unique(pages0) ==> forall|q: int, j: int|
                    #![trigger pages0[q].item_hash_list@[j]]
                    0 <= q < pages0.len() && 0 <= j < pages0[q].item_hash_list@.len() && !beaten_copy::<T>(pages0, flash0, q, j)
                        ==> self.pages@[q].item_hash_list@.contains(pages0[q].item_hash_list@[j]),
            decreases candidates@.len() - a,
        {
            let ghost before = *self;
            if is_superseded(&candidates, a) {
                let c = candidates[a];
                match self.erase_entry(c.page, c.index, c.span) {
                    Ok(()) => {},
                    Err(e) => {
                        proof {
                            lemma_lists_shrunk_trans(old(self).pages@, before.pages@, self.pages@);
                            lemma_erased_kept_trans(old(self).pages@, before.pages@, self.pages@);
                        }
                        return Err(e);
                    },
                }
                proof {
                    if lists_unique(pages0) {
                        assert forall|q: int, j: int|
                            #![trigger pages0[q].item_hash_list@[j]]
                            0 <= q < pages0.len() && 0 <= j < pages0[q].item_hash_list@.len() && !beaten_copy::<T>(
                                pages0,
                                flash0,
                                q,
                                j,
                            ) implies self.pages@[q].item_hash_list@.contains(pages0[q].item_hash_list@[j]) by {
                            let e = pages0[q].item_hash_list@[j];
                            assert(before.pages@[q].item_hash_list@.contains(e));
                            if q == c.page {
                                lemma_unbeaten_not_erased::<T>(pages0, flash0, listed@, pos, candidates@, src_k, a as int, q, j);
                                let j0 = choose|j0: int|
                                    0 <= j0 < before.pages@[q].item_hash_list@.len() && before.pages@[q].item_hash_list@[j0] == e;
                                assert(before.pages@[q].item_hash_list@[j0].index != c.index);
                            } else {
                                assert(self.pages@[q] == before.pages@[q]);
                            }
                        }
                    }
                    lemma_lists_shrunk_trans(old(self).pages@, before.pages@, self.pages@);
                    lemma_erased_kept_trans(old(self).pages@, before.pages@, self.pages@);
                    before.lemma_page_header_frame(before.pages@[c.page as int], before.flash(), self.flash());
                    old(self).lemma_header_areas_frame_trans(old(self).flash(), before.flash(), self.flash());
                    assert forall|a2: int|
                        0 <= a2 < a + 1 && #[trigger] superseded(candidates@, a2) implies index_gone(self.pages@, candidates@[a2])
                            && entries_erased(
                            self.pages@[candidates@[a2].page as int],
                            candidates@[a2].index as int,
                            candidates@[a2].span as int,
                        ) by {
                        if a2 < a {
                            lemma_index_gone_kept(before.pages@, self.pages@, candidates@[a2]);
                            let c2 = candidates@[a2];
                            assert forall|k: int| c2.index <= k < c2.index + c2.span implies #[trigger] entry_state_at(
                                self.pages@[c2.page as int].entry_state_bitmap@,
                                k,
                            ) == EntryMapState::Erased by {
                                assert(entry_state_at(before.pages@[c2.page as int].entry_state_bitmap@, k) == EntryMapState::Erased);
                            }
                        }
                    }
                }
            }
            a += 1;
        }
        proof {
            lemma_no_duplicates_left::<T>(*old(self), self.pages@, self.flash(), listed@, candidates@);
            assert forall|p1: int, j1: int, p2: int, j2: int|
                #![trigger old(self).pages@[p1].item_hash_list@[j1], old(self).pages@[p2].item_hash_list@[j2]]
                older_copy::<T>(old(self).pages@, old(self).flash(), p1, j1, p2, j2) implies {
                    &&& forall|j: int|
                        0 <= j < self.pages@[p1].item_hash_list@.len() ==> (#[trigger] self.pages@[p1].item_hash_list@[j]).index
                            != old(self).pages@[p1].item_hash_list@[j1].index
                    &&& entries_erased(
                        self.pages@[p1],
                        old(self).pages@[p1].item_hash_list@[j1].index as int,
                        listed_item::<T>(old(self).pages@, old(self).flash(), p1, j1)->0.span as int,
                    )
                } by {
                lemma_older_copies_dropped::<T>(*old(self), self.pages@, listed@, candidates@, p1, j1, p2, j2);
            }
        }
        Ok(())
    }

    /// Index of the first used page in state `state`.
    pub fn position_of_state(&self, state: ThinPageState) -> (r: Option<usize>)
        ensures
            r matches Some(i) ==> i < self.pages@.len() && self.pages@[i as int].header.state == state && forall|j: int|
                0 <= j < i ==> (#[trigger] self.pages@[j]).header.state != state,
            r is None ==> forall|i: int| 0 <= i < self.pages@.len() ==> (#[trigger] self.pages@[i]).header.state != state,
    {
        let mut i: usize = 0;
        while i < self.pages.len()
            invariant
                i <= self.pages@.len(),
                forall|j: int| 0 <= j < i ==> (#[trigger] self.pages@[j]).header.state != state,
            decreases self.pages@.len() - i,
        {
            if self.pages[i].header.state == state {
                return Some(i);
            }
            i += 1;
        }
        None
    }

    /// After a `swap_remove` from the used pages, the storage is still well-formed.
    pub proof fn lemma_swap_remove_wf(&self, before: Self, i: int)
        requires
            before.wf(),
            0 <= i < before.pages@.len(),
            self.pages@ == before.pages@.update(i, before.pages@.last()).drop_last(),
            self.free_pages == before.free_pages,
            self.namespaces == before.namespaces,
            self.base_address == before.base_address,
            self.sectors == before.sectors,
        ensures
            self.wf(),
            before.pages@[i].wf(),
            before.in_partition(before.pages@[i]),
    {
        assert forall|k: int| 0 <= k < self.pages@.len() implies (#[trigger] self.pages@[k]).wf() by {
            if k == i {
                assert(self.pages@[k] == before.pages@[before.pages@.len() - 1]);
            } else {
                assert(self.pages@[k] == before.pages@[k]);
            }
        }
    }
}

/// The largest sequence number of the first `n` pages is one of theirs, or -1 for none.
pub proof fn lemma_max_sequence_attained<T: Platform>(pages: Seq<ThinPage>, n: int)
    requires
        0 <= n <= pages.len(),
    ensures
        n == 0 ==> Nvs::<T>::max_sequence(pages, n) == -1,
        n > 0 ==> exists|i: int| 0 <= i < n && Nvs::<T>::max_sequence(pages, n) == (#[trigger] pages[i]).header.sequence,
    decreases n,
{
    if n > 0 {
        lemma_max_sequence_attained::<T>(pages, n - 1);
        if Nvs::<T>::max_sequence(pages, n) == pages[n - 1].header.sequence {
        } else {
            let i = choose|i: int| 0 <= i < n - 1 && Nvs::<T>::max_sequence(pages, n - 1) == (#[trigger] pages[i]).header.sequence;
            assert(Nvs::<T>::max_sequence(pages, n) == pages[i].header.sequence);
        }
    }
}

/// No used page has a sequence number above the largest.
pub proof fn lemma_max_sequence_bound<T: Platform>(pages: Seq<ThinPage>, n: int, i: int)
    requires
        0 <= i < n <= pages.len(),
    ensures
        pages[i].header.sequence <= Nvs::<T>::max_sequence(pages, n),
    decreases n,
{
    if i < n - 1 {
        lemma_max_sequence_bound::<T>(pages, n - 1, i);
    }
}

/// After duplicate cleanup: every listed entry with a shared hash was checked, every
/// superseded candidate's entry is no longer listed, so no two listed plain items of the
/// same namespace and key with the same hash remain.
proof fn lemma_no_duplicates_left<T: Platform>(
    nvs0: Nvs<T>,
    fin: Seq<ThinPage>,
    f: Seq<u8>,
    listed: Seq<(usize, u8, u32)>,
    candidates: Seq<DuplicateCandidate>,
)
    requires
        nvs0.wf(),
        lists_shrunk(nvs0.pages@, fin),
        nvs0.header_areas_frame(nvs0.flash(), f),
        forall|i: int| 0 <= i < listed.len() ==> (#[trigger] listed[i]).0 < nvs0.pages@.len() && listed[i].1 < ENTRIES_PER_PAGE,
        forall|q: int, j: int|
            0 <= q < nvs0.pages@.len() && 0 <= j < nvs0.pages@[q].item_hash_list@.len() ==> #[trigger] listed_has(
                listed,
                q,
                nvs0.pages@[q].item_hash_list@[j].index,
                nvs0.pages@[q].item_hash_list@[j].hash,
            ),
        forall|k2: int|
            0 <= k2 < listed.len() && #[trigger] hash_shared_at(listed, k2) ==> {
                &&& item_named::<T>(nvs0.pages@, nvs0.flash(), listed[k2]) is Some
                &&& entry_offset(nvs0.pages@[listed[k2].0 as int].address as int, listed[k2].1 as int) + 32
                    <= nvs0.flash().len()
                &&& plain_item(item_named::<T>(nvs0.pages@, nvs0.flash(), listed[k2])->0) ==> candidate_listed(
                    candidates,
                    listed[k2],
                    nvs0.pages@,
                    item_named::<T>(nvs0.pages@, nvs0.flash(), listed[k2])->0,
                )
            },
        forall|a2: int| 0 <= a2 < candidates.len() && #[trigger] superseded(candidates, a2) ==> index_gone(fin, candidates[a2]),
    ensures
        no_duplicate_items::<T>(fin, f),
{
    let pages0 = nvs0.pages@;
    let flash0 = nvs0.flash();
    assert forall|p1: int, j1: int, p2: int, j2: int|
        #![trigger fin[p1].item_hash_list@[j1], fin[p2].item_hash_list@[j2]]
        0 <= p1 < fin.len() && 0 <= j1 < fin[p1].item_hash_list@.len() && 0 <= p2 < fin.len() && 0 <= j2
            < fin[p2].item_hash_list@.len() && (p1 != p2 || fin[p1].item_hash_list@[j1].index
            != fin[p2].item_hash_list@[j2].index) && fin[p1].item_hash_list@[j1].hash
            == fin[p2].item_hash_list@[j2].hash && entry_offset(fin[p1].address as int, fin[p1].item_hash_list@[j1].index as int)
            + 32 <= f.len() && entry_offset(fin[p2].address as int, fin[p2].item_hash_list@[j2].index as int) + 32
            <= f.len() && listed_item::<T>(fin, f, p1, j1) is Some && listed_item::<T>(
            fin,
            f,
            p2,
            j2,
        ) is Some && plain_item(listed_item::<T>(fin, f, p1, j1)->0) && plain_item(listed_item::<T>(fin, f, p2, j2)->0)
        implies !(listed_item::<T>(fin, f, p1, j1)->0.namespace_index == listed_item::<T>(fin, f, p2, j2)->0.namespace_index
            && listed_item::<T>(fin, f, p1, j1)->0.key@ == listed_item::<T>(fin, f, p2, j2)->0.key@) by {
        let e1 = fin[p1].item_hash_list@[j1];
        let e2 = fin[p2].item_hash_list@[j2];
        assert(fin[p1] == fin[p1]);
        assert(fin[p2] == fin[p2]);
        assert(pages0[p1].item_hash_list@.contains(e1));
        assert(pages0[p2].item_hash_list@.contains(e2));
        let j1o = choose|j: int| 0 <= j < pages0[p1].item_hash_list@.len() && pages0[p1].item_hash_list@[j] == e1;
        let j2o = choose|j: int| 0 <= j < pages0[p2].item_hash_list@.len() && pages0[p2].item_hash_list@[j] == e2;
        assert(listed_has(listed, p1, pages0[p1].item_hash_list@[j1o].index, pages0[p1].item_hash_list@[j1o].hash));
        assert(listed_has(listed, p2, pages0[p2].item_hash_list@[j2o].index, pages0[p2].item_hash_list@[j2o].hash));
        let k1 = choose|k: int| 0 <= k < listed.len() && #[trigger] listed_at(listed, k, p1, e1.index, e1.hash);
        let k2 = choose|k: int| 0 <= k < listed.len() && #[trigger] listed_at(listed, k, p2, e2.index, e2.hash);
        assert(listed[k1].0 as int == p1);
        assert(listed[k2].0 as int == p2);
        assert(listed[k1].1 == e1.index);
        assert(listed[k2].1 == e2.index);
        if k1 == k2 {
            assert(p1 == p2);
            assert(e1.index == e2.index);
        }
        assert(k1 != k2);
        assert(hash_shared_at(listed, k1));
        assert(hash_shared_at(listed, k2));
        let a1 = pages0[p1].address as int;
        let a2 = pages0[p2].address as int;
        assert(entry_offset(a1, e1.index as int) + 32 <= flash0.len());
        assert(entry_offset(a2, e2.index as int) + 32 <= flash0.len());
        assert(pages0[p1].wf() && nvs0.in_partition(pages0[p1]));
        assert(pages0[p2].wf() && nvs0.in_partition(pages0[p2]));
        nvs0.lemma_entries_kept(pages0[p1], flash0, f, entry_offset(a1, e1.index as int), entry_offset(a1, e1.index as int) + 32);
        nvs0.lemma_entries_kept(pages0[p2], flash0, f, entry_offset(a2, e2.index as int), entry_offset(a2, e2.index as int) + 32);
        let it1 = item_named::<T>(pages0, flash0, listed[k1])->0;
        let it2 = item_named::<T>(pages0, flash0, listed[k2])->0;
        assert(listed_item::<T>(fin, f, p1, j1) == Some(it1));
        assert(listed_item::<T>(fin, f, p2, j2) == Some(it2));
        if it1.namespace_index == it2.namespace_index && it1.key@ == it2.key@ {
            let c1 = choose|c: int| 0 <= c < candidates.len() && #[trigger] candidate_for(candidates[c], listed[k1], pages0, it1);
            let c2 = choose|c: int| 0 <= c < candidates.len() && #[trigger] candidate_for(candidates[c], listed[k2], pages0, it2);
            assert(c1 != c2);
            assert(same_slot(candidates[c1], candidates[c2]));
            assert(same_slot(candidates[c2], candidates[c1]));
            if newer(candidates[c2], c2, candidates[c1], c1) {
                assert(superseded(candidates, c1));
                assert(index_gone(fin, candidates[c1]));
                assert(fin[p1].item_hash_list@[j1].index != candidates[c1].index);
            } else {
                assert(newer(candidates[c1], c1, candidates[c2], c2));
                assert(superseded(candidates, c2));
                assert(index_gone(fin, candidates[c2]));
                assert(fin[p2].item_hash_list@[j2].index != candidates[c2].index);
            }
        }
    }
}

/// Lookup entry `j1` of page `p1` names an older copy of the plain item that entry `j2` of
/// page `p2` names: both name valid plain items of the same namespace and key under the
/// same hash, and the second lies on a page with a higher sequence number, or on a page
/// with the same sequence number at a higher entry index.
pub open spec fn older_copy<T: Platform>(pages: Seq<ThinPage>, flash: Seq<u8>, p1: int, j1: int, p2: int, j2: int) -> bool {
    &&& 0 <= p1 < pages.len()
    &&& 0 <= j1 < pages[p1].item_hash_list@.len()
    &&& 0 <= p2 < pages.len()
    &&& 0 <= j2 < pages[p2].item_hash_list@.len()
    &&& pages[p1].item_hash_list@[j1].hash == pages[p2].item_hash_list@[j2].hash
    &&& listed_item::<T>(pages, flash, p1, j1) is Some
    &&& listed_item::<T>(pages, flash, p2, j2) is Some
    &&& plain_item(listed_item::<T>(pages, flash, p1, j1)->0)
    &&& plain_item(listed_item::<T>(pages, flash, p2, j2)->0)
    &&& listed_item::<T>(pages, flash, p1, j1)->0.namespace_index == listed_item::<T>(pages, flash, p2, j2)->0.namespace_index
    &&& listed_item::<T>(pages, flash, p1, j1)->0.key@ == listed_item::<T>(pages, flash, p2, j2)->0.key@
    &&& (pages[p2].header.sequence > pages[p1].header.sequence || (pages[p2].header.sequence == pages[p1].header.sequence
        && pages[p2].item_hash_list@[j2].index > pages[p1].item_hash_list@[j1].index))
}

/// No page lists one entry index twice.
pub open spec fn lists_unique(pages: Seq<ThinPage>) -> bool {
    forall|p: int, j1: int, j2: int|
        0 <= p < pages.len() && 0 <= j1 < pages[p].item_hash_list@.len() && 0 <= j2 < pages[p].item_hash_list@.len() && j1
            != j2 ==> #[trigger] pages[p].item_hash_list@[j1].index != #[trigger] pages[p].item_hash_list@[j2].index
}

/// Lookup entry `j` of page `p` names a plain item of which another listed entry names a
/// copy at least as new: on a page with a higher sequence number, or on a page with the
/// same sequence number at the same or a higher entry index.
pub open spec fn beaten_copy<T: Platform>(pages: Seq<ThinPage>, flash: Seq<u8>, p: int, j: int) -> bool {
    exists|p2: int, j2: int|
        #![trigger pages[p2].item_hash_list@[j2]]
        0 <= p2 < pages.len() && 0 <= j2 < pages[p2].item_hash_list@.len() && (p2 != p || pages[p2].item_hash_list@[j2].index
            != pages[p].item_hash_list@[j].index) && pages[p2].item_hash_list@[j2].hash == pages[p].item_hash_list@[j].hash
            && listed_item::<T>(pages, flash, p, j) is Some && listed_item::<T>(pages, flash, p2, j2) is Some && plain_item(
            listed_item::<T>(pages, flash, p, j)->0,
        ) && plain_item(listed_item::<T>(pages, flash, p2, j2)->0) && listed_item::<T>(pages, flash, p, j)->0.namespace_index
            == listed_item::<T>(pages, flash, p2, j2)->0.namespace_index && listed_item::<T>(pages, flash, p, j)->0.key@
            == listed_item::<T>(pages, flash, p2, j2)->0.key@ && (pages[p2].header.sequence > pages[p].header.sequence || (
        pages[p2].header.sequence == pages[p].header.sequence && pages[p2].item_hash_list@[j2].index
            >= pages[p].item_hash_list@[j].index))
}

/// Position `(q, j)` (page, list position) of the lookup entry that listed entry `l` was
/// taken from.
pub open spec fn listed_from(pages: Seq<ThinPage>, l: (usize, u8, u32), pos: (int, int)) -> bool {
    &&& 0 <= pos.0 < pages.len()
    &&& 0 <= pos.1 < pages[pos.0].item_hash_list@.len()
    &&& l.0 as int == pos.0
    &&& l.1 == pages[pos.0].item_hash_list@[pos.1].index
    &&& l.2 == pages[pos.0].item_hash_list@[pos.1].hash
}

/// Position `a` comes before position `b`, page first.
pub open spec fn pos_before(a: (int, int), b: (int, int)) -> bool {
    a.0 < b.0 || (a.0 == b.0 && a.1 < b.1)
}

/// A superseded candidate never names the entry of a copy that nothing beats.
proof fn lemma_unbeaten_not_erased<T: Platform>(
    pages0: Seq<ThinPage>,
    flash0: Seq<u8>,
    listed: Seq<(usize, u8, u32)>,
    pos: Seq<(int, int)>,
    candidates: Seq<DuplicateCandidate>,
    src_k: Seq<int>,
    a: int,
    q: int,
    j: int,
)
    requires
        lists_unique(pages0),
        pos.len() == listed.len(),
        forall|k: int| 0 <= k < listed.len() ==> listed_from(pages0, #[trigger] listed[k], pos[k]),
        forall|k1: int, k2: int| 0 <= k1 < k2 < listed.len() ==> pos_before(#[trigger] pos[k1], #[trigger] pos[k2]),
        src_k.len() == candidates.len(),
        forall|c: int|
            0 <= c < candidates.len() ==> {
                &&& 0 <= #[trigger] src_k[c] < listed.len()
                &&& item_named::<T>(pages0, flash0, listed[src_k[c]]) is Some
                &&& plain_item(item_named::<T>(pages0, flash0, listed[src_k[c]])->0)
                &&& candidate_for(candidates[c], listed[src_k[c]], pages0, item_named::<T>(pages0, flash0, listed[src_k[c]])->0)
            },
        forall|c1: int, c2: int| 0 <= c1 < c2 < candidates.len() ==> #[trigger] src_k[c1] < #[trigger] src_k[c2],
        0 <= a < candidates.len(),
        superseded(candidates, a),
        0 <= q < pages0.len(),
        0 <= j < pages0[q].item_hash_list@.len(),
        !beaten_copy::<T>(pages0, flash0, q, j),
    ensures
        !(candidates[a].page == q && candidates[a].index == pages0[q].item_hash_list@[j].index),
{
    if candidates[a].page == q && candidates[a].index == pages0[q].item_hash_list@[j].index {
        let kc = src_k[a];
        let pc = pos[kc];
        assert(listed_from(pages0, listed[kc], pc));
        assert(pc.0 == q);
        if pc.1 != j {
            assert(pages0[q].item_hash_list@[pc.1].index != pages0[q].item_hash_list@[j].index);
        }
        assert(pc.1 == j);
        let b = choose|b: int|
            0 <= b < candidates.len() && b != a && same_slot(candidates[a], #[trigger] candidates[b]) && newer(
                candidates[b],
                b,
                candidates[a],
                a,
            );
        let kb = src_k[b];
        if b < a {
            assert(src_k[b] < src_k[a]);
        } else {
            assert(src_k[a] < src_k[b]);
        }
        let pb = pos[kb];
        assert(listed_from(pages0, listed[kb], pb));
        if kb < kc {
            assert(pos_before(pos[kb], pos[kc]));
        } else {
            assert(pos_before(pos[kc], pos[kb]));
        }
        if pb.0 == q {
            assert(pb.1 != j);
            assert(pages0[q].item_hash_list@[pb.1].index != pages0[q].item_hash_list@[j].index);
        }
        assert(listed_item::<T>(pages0, flash0, q, j) == item_named::<T>(pages0, flash0, listed[kc]));
        assert(listed_item::<T>(pages0, flash0, pb.0, pb.1) == item_named::<T>(pages0, flash0, listed[kb]));
        assert(pages0[pb.0].item_hash_list@[pb.1] == pages0[pb.0].item_hash_list@[pb.1]);
        assert(beaten_copy::<T>(pages0, flash0, q, j));
    }
}

/// The older copies of duplicated plain items are gone: their entry is no longer listed on
/// its page, and its entries are marked erased.
proof fn lemma_older_copies_dropped<T: Platform>(
    nvs0: Nvs<T>,
    fin: Seq<ThinPage>,
    listed: Seq<(usize, u8, u32)>,
    candidates: Seq<DuplicateCandidate>,
    p1: int,
    j1: int,
    p2: int,
    j2: int,
)
    requires
        nvs0.wf(),
        fin.len() == nvs0.pages@.len(),
        older_copy::<T>(nvs0.pages@, nvs0.flash(), p1, j1, p2, j2),
        forall|i: int| 0 <= i < listed.len() ==> (#[trigger] listed[i]).0 < nvs0.pages@.len() && listed[i].1 < ENTRIES_PER_PAGE,
        forall|q: int, j: int|
            0 <= q < nvs0.pages@.len() && 0 <= j < nvs0.pages@[q].item_hash_list@.len() ==> #[trigger] listed_has(
                listed,
                q,
                nvs0.pages@[q].item_hash_list@[j].index,
                nvs0.pages@[q].item_hash_list@[j].hash,
            ),
        forall|k2: int|
            0 <= k2 < listed.len() && #[trigger] hash_shared_at(listed, k2) ==> {
                &&& item_named::<T>(nvs0.pages@, nvs0.flash(), listed[k2]) is Some
                &&& plain_item(item_named::<T>(nvs0.pages@, nvs0.flash(), listed[k2])->0) ==> candidate_listed(
                    candidates,
                    listed[k2],
                    nvs0.pages@,
                    item_named::<T>(nvs0.pages@, nvs0.flash(), listed[k2])->0,
                )
            },
        forall|a2: int|
            0 <= a2 < candidates.len() && #[trigger] superseded(candidates, a2) ==> index_gone(fin, candidates[a2])
                && entries_erased(fin[candidates[a2].page as int], candidates[a2].index as int, candidates[a2].span as int),
    ensures
        forall|j: int|
            0 <= j < fin[p1].item_hash_list@.len() ==> (#[trigger] fin[p1].item_hash_list@[j]).index
                != nvs0.pages@[p1].item_hash_list@[j1].index,
        entries_erased(
            fin[p1],
            nvs0.pages@[p1].item_hash_list@[j1].index as int,
            listed_item::<T>(nvs0.pages@, nvs0.flash(), p1, j1)->0.span as int,
        ),
{
    let pages0 = nvs0.pages@;
    let e1 = pages0[p1].item_hash_list@[j1];
    let e2 = pages0[p2].item_hash_list@[j2];
    assert(listed_has(listed, p1, e1.index, e1.hash));
    assert(listed_has(listed, p2, e2.index, e2.hash));
    let k1 = choose|k: int| 0 <= k < listed.len() && #[trigger] listed_at(listed, k, p1, e1.index, e1.hash);
    let k2 = choose|k: int| 0 <= k < listed.len() && #[trigger] listed_at(listed, k, p2, e2.index, e2.hash);
    assert(k1 != k2);
    assert(hash_shared_at(listed, k1));
    assert(hash_shared_at(listed, k2));
    let it1 = item_named::<T>(pages0, nvs0.flash(), listed[k1])->0;
    let it2 = item_named::<T>(pages0, nvs0.flash(), listed[k2])->0;
    assert(listed_item::<T>(pages0, nvs0.flash(), p1, j1) == Some(it1));
    assert(listed_item::<T>(pages0, nvs0.flash(), p2, j2) == Some(it2));
    let c1 = choose|c: int| 0 <= c < candidates.len() && #[trigger] candidate_for(candidates[c], listed[k1], pages0, it1);
    let c2 = choose|c: int| 0 <= c < candidates.len() && #[trigger] candidate_for(candidates[c], listed[k2], pages0, it2);
    assert(c1 != c2);
    assert(same_slot(candidates[c1], candidates[c2]));
    assert(newer(candidates[c2], c2, candidates[c1], c1));
    assert(superseded(candidates, c1));
}

/// Erasing entries keeps a store free of duplicates: when the lookup lists only lose
/// entries and the flash changes only in the header areas, no duplicate appears.
pub proof fn lemma_no_duplicates_kept<T: Platform>(nvs0: Nvs<T>, fin: Seq<ThinPage>, f: Seq<u8>)
    requires
        nvs0.wf(),
        no_duplicate_items::<T>(nvs0.pages@, nvs0.flash()),
        lists_shrunk(nvs0.pages@, fin),
        nvs0.header_areas_frame(nvs0.flash(), f),
    ensures
        no_duplicate_items::<T>(fin, f),
{
    let pages0 = nvs0.pages@;
    let flash0 = nvs0.flash();
    assert forall|p1: int, j1: int, p2: int, j2: int|
        #![trigger fin[p1].item_hash_list@[j1], fin[p2].item_hash_list@[j2]]
        0 <= p1 < fin.len() && 0 <= j1 < fin[p1].item_hash_list@.len() && 0 <= p2 < fin.len() && 0 <= j2
            < fin[p2].item_hash_list@.len() && (p1 != p2 || fin[p1].item_hash_list@[j1].index
            != fin[p2].item_hash_list@[j2].index) && fin[p1].item_hash_list@[j1].hash
            == fin[p2].item_hash_list@[j2].hash && entry_offset(fin[p1].address as int, fin[p1].item_hash_list@[j1].index as int)
            + 32 <= f.len() && entry_offset(fin[p2].address as int, fin[p2].item_hash_list@[j2].index as int) + 32
            <= f.len() && listed_item::<T>(fin, f, p1, j1) is Some && listed_item::<T>(
            fin,
            f,
            p2,
            j2,
        ) is Some && plain_item(listed_item::<T>(fin, f, p1, j1)->0) && plain_item(listed_item::<T>(fin, f, p2, j2)->0)
        implies !(listed_item::<T>(fin, f, p1, j1)->0.namespace_index == listed_item::<T>(fin, f, p2, j2)->0.namespace_index
            && listed_item::<T>(fin, f, p1, j1)->0.key@ == listed_item::<T>(fin, f, p2, j2)->0.key@) by {
        let e1 = fin[p1].item_hash_list@[j1];
        let e2 = fin[p2].item_hash_list@[j2];
        assert(fin[p1] == fin[p1]);
        assert(fin[p2] == fin[p2]);
        assert(pages0[p1].item_hash_list@.contains(e1));
        assert(pages0[p2].item_hash_list@.contains(e2));
        let j1o = choose|j: int| 0 <= j < pages0[p1].item_hash_list@.len() && pages0[p1].item_hash_list@[j] == e1;
        let j2o = choose|j: int| 0 <= j < pages0[p2].item_hash_list@.len() && pages0[p2].item_hash_list@[j] == e2;
        let a1 = pages0[p1].address as int;
        let a2 = pages0[p2].address as int;
        assert(pages0[p1].wf() && nvs0.in_partition(pages0[p1]));
        assert(pages0[p2].wf() && nvs0.in_partition(pages0[p2]));
        nvs0.lemma_entries_kept(pages0[p1], flash0, f, entry_offset(a1, e1.index as int), entry_offset(a1, e1.index as int) + 32);
        nvs0.lemma_entries_kept(pages0[p2], flash0, f, entry_offset(a2, e2.index as int), entry_offset(a2, e2.index as int) + 32);
        assert(listed_item::<T>(fin, f, p1, j1) == listed_item::<T>(pages0, flash0, p1, j1o));
        assert(listed_item::<T>(fin, f, p2, j2) == listed_item::<T>(pages0, flash0, p2, j2o));
        assert(pages0[p1].item_hash_list@[j1o] == e1);
        assert(pages0[p2].item_hash_list@[j2o] == e2);
    }
}

} // verus!
