//! Item-level operations: get, set and delete of primitives, strings and blobs.

use vstd::prelude::*;
use vstd::string::StringSliceAdditionalSpecFns;

use crate::compaction::{chunks_missing, entry_unlisted};
use crate::error::{is_storage_error, ok_or_storage_error, Error};
use crate::nvs::{
    same_slot_items, scanned_before, is_candidate, item_matches, lemma_consistent_lookup_finds, lemma_consistency_kept, lemma_lookup_misses_deleted, lists_consistent, lemma_lists_shrunk_refl, lemma_lists_shrunk_trans, lemma_lookup_deterministic,
    lemma_erased_kept_refl, lemma_erased_kept_trans, erased_kept, lemma_lookup_exclusive, lemma_lookup_missing_kept, listed_item, lists_shrunk, lookup_found, lookup_missing, namespace_index_of,
    passed_before, Nvs,
};
use crate::page::{
    entry_bytes, entry_offset, entry_state_at, page_write_frame, stored_item, variable_span, ItemHashListEntry, Namespace, ThinPage,
    ThinPageState,
};
use crate::platform::Platform;
use crate::raw::{
    ITEM_SIZE, MAX_BLOB_DATA_PER_PAGE, primitive_width, blob_index_size, item_hash, sized_crc, sized_size, u64_le, Item, ItemType, ENTRIES_PER_PAGE, FLASH_SECTOR_SIZE,
    EntryMapState, MAX_BLOB_SIZE,
};
use crate::types::{chunk_field, str_from_utf8, version_base, version_of, ChunkIndex, Key, VersionOffset};

verus! {

/// The data bytes that follow the variable-sized item `it` stored at entry `index` of the
/// page at `address`.
pub open spec fn referenced_data(flash: Seq<u8>, address: int, index: int, it: Item) -> Seq<u8> {
    flash.subrange(entry_offset(address, index + 1), entry_offset(address, index + 1) + sized_size(it.data@))
}

/// The 8 data bytes of a primitive value of `width` bytes: the value's little-endian
/// bytes followed by erased bytes.
pub open spec fn primitive_bytes(width: int, value: u64) -> Seq<u8> {
    Seq::new(8, |i: int| if i < width { ((value >> ((8 * i) as u64)) & 0xff) as u8 } else { 0xFFu8 })
}

/// The data bytes of a primitive value of `width` bytes.
pub fn primitive_data(width: usize, value: u64) -> (d: [u8; 8])
    requires
        width <= 8,
    ensures
        d@ == primitive_bytes(width as int, value),
{
    let mut d = [0xFFu8; 8];
    let mut i: usize = 0;
    while i < width
        invariant
            i <= width <= 8,
            d@.len() == 8,
            forall|j: int| 0 <= j < i ==> d@[j] == ((value >> ((8 * j) as u64)) & 0xff) as u8,
            forall|j: int| i <= j < 8 ==> d@[j] == 0xFFu8,
        decreases width - i,
    {
        d[i] = ((value >> ((8 * i) as u64)) & 0xff) as u8;
        i += 1;
    }
    assert(d@ =~= primitive_bytes(width as int, value));
    d
}

/// Whether the flash holds, at an entry of a used page, a valid item of `key` in
/// namespace `ns` with chunk field 0xFF whose data is `data`.
pub open spec fn holds_value<T: Platform>(nvs: Nvs<T>, ns: u8, key: Seq<u8>, data: Seq<u8>) -> bool {
    exists|q: int, idx: int|
        0 <= q < nvs.pages@.len() && 0 <= idx < ENTRIES_PER_PAGE && #[trigger] value_at::<T>(
            nvs.flash(),
            nvs.pages@[q].address as int,
            idx,
            ns,
            key,
            data,
        )
}

/// Whether entry `idx` of the page at `address` holds a valid item of `key` in namespace
/// `ns` with chunk field 0xFF whose data is `data`.
pub open spec fn value_at<T: Platform>(flash: Seq<u8>, address: int, idx: int, ns: u8, key: Seq<u8>, data: Seq<u8>) -> bool {
    match stored_item::<T>(entry_bytes(flash, address, idx)) {
        Some(it) => it.namespace_index == ns && it.key@ == key && it.chunk_index == 0xFF && it.data@ == data,
        None => false,
    }
}

/// Whether entry `idx` of the page at `address` holds a valid string item of `key` in
/// namespace `ns` whose data are `buf` (the string's bytes and a NUL byte).
pub open spec fn string_at<T: Platform>(flash: Seq<u8>, address: int, idx: int, ns: u8, key: Seq<u8>, buf: Seq<u8>) -> bool {
    match stored_item::<T>(entry_bytes(flash, address, idx)) {
        Some(it) => it.namespace_index == ns && it.key@ == key && it.chunk_index == 0xFF && it.type_ == ItemType::Sized
            && sized_size(it.data@) == buf.len() && entry_offset(address, idx + 1) + buf.len() <= flash.len()
            && referenced_data(flash, address, idx, it) == buf && sized_crc(it.data@) == T::spec_crc32(0xFFFF_FFFF, buf),
        None => false,
    }
}

/// A variable-sized item written with its data is a valid string item holding them.
pub proof fn lemma_written_string<T: Platform>(
    flash: Seq<u8>,
    address: int,
    idx: int,
    ns: u8,
    key: Key,
    buf: Seq<u8>,
)
    requires
        1 <= buf.len() <= MAX_BLOB_DATA_PER_PAGE,
        ({
            let span = crate::page::variable_span(buf.len());
            let it = crate::page::new_item::<T>(
                ns,
                ItemType::Sized,
                span as u8,
                0xFF,
                key,
                crate::page::sized_data_array(buf.len() as u16, T::spec_crc32(0xFFFF_FFFF, buf)),
            );
            &&& it.data@ == crate::raw::sized_data_bytes(buf.len() as u16, T::spec_crc32(0xFFFF_FFFF, buf))
            &&& entry_bytes(flash, address, idx) == crate::raw::item_bytes(it)
            &&& flash.subrange(entry_offset(address, idx + 1), entry_offset(address, idx + 1) + buf.len()) == buf
            &&& entry_offset(address, idx + 1) + buf.len() <= flash.len()
        }),
    ensures
        string_at::<T>(flash, address, idx, ns, key@, buf),
{
    let span = crate::page::variable_span(buf.len());
    let d = crate::page::sized_data_array(buf.len() as u16, T::spec_crc32(0xFFFF_FFFF, buf));
    let it = crate::page::new_item::<T>(ns, ItemType::Sized, span as u8, 0xFF, key, d);
    crate::page::lemma_written_item_loads::<T>(ns, ItemType::Sized, span as u8, 0xFF, key, d);
    crate::raw::lemma_sized_data_fields(buf.len() as u16, T::spec_crc32(0xFFFF_FFFF, buf));
    assert(sized_size(it.data@) == buf.len());
}

/// A string item survives changes in the header areas of the partition when its data
/// stay within its page.
pub proof fn lemma_string_kept<T: Platform>(nvs: Nvs<T>, b: ThinPage, f: Seq<u8>, g: Seq<u8>, idx: int, ns: u8, key: Seq<u8>, buf: Seq<u8>)
    requires
        nvs.in_partition(b),
        nvs.header_areas_frame(f, g),
        0 <= idx < ENTRIES_PER_PAGE,
        entry_offset(b.address as int, idx + 1) + buf.len() <= b.address + crate::raw::FLASH_SECTOR_SIZE,
        string_at::<T>(f, b.address as int, idx, ns, key, buf),
    ensures
        string_at::<T>(g, b.address as int, idx, ns, key, buf),
{
    let lo = entry_offset(b.address as int, idx);
    let hi = entry_offset(b.address as int, idx + 1) + buf.len();
    nvs.lemma_entries_kept(b, f, g, lo, hi);
    assert(entry_bytes(g, b.address as int, idx) =~= entry_bytes(f, b.address as int, idx));
    let d0 = entry_offset(b.address as int, idx + 1);
    assert(g.subrange(d0, hi) =~= f.subrange(d0, hi));
}

/// Whether entry `idx` of the page at `address` holds a valid blob index of `key` in
/// namespace `ns` for a blob of `size` bytes.
pub open spec fn blob_index_at<T: Platform>(flash: Seq<u8>, address: int, idx: int, ns: u8, key: Seq<u8>, size: int) -> bool {
    match stored_item::<T>(entry_bytes(flash, address, idx)) {
        Some(it) => it.namespace_index == ns && it.key@ == key && it.chunk_index == 0xFF && it.type_
            == ItemType::BlobIndex && blob_index_size(it.data@) == size,
        None => false,
    }
}

/// Whether entry `idx` of the page at `address` holds a blob index of `key` in namespace
/// `ns` for a blob of `size` bytes whose chunks belong to version `v`.
pub open spec fn blob_version_index_at<T: Platform>(
    flash: Seq<u8>,
    address: int,
    idx: int,
    ns: u8,
    key: Seq<u8>,
    size: int,
    v: VersionOffset,
) -> bool {
    match stored_item::<T>(entry_bytes(flash, address, idx)) {
        Some(it) => it.namespace_index == ns && it.key@ == key && it.chunk_index == 0xFF && it.type_ == ItemType::BlobIndex
            && blob_index_size(it.data@) == size && it.data@[5] == version_base(v),
        None => false,
    }
}

/// Whether the flash holds, at an entry of a used page, a blob index of `key` for a blob
/// of `size` bytes whose chunks belong to version `v`.
pub open spec fn holds_blob_version<T: Platform>(nvs: Nvs<T>, ns: u8, key: Seq<u8>, size: int, v: VersionOffset) -> bool {
    exists|q: int, idx: int|
        0 <= q < nvs.pages@.len() && 0 <= idx < ENTRIES_PER_PAGE && #[trigger] blob_version_index_at::<T>(
            nvs.flash(),
            nvs.pages@[q].address as int,
            idx,
            ns,
            key,
            size,
            v,
        )
}

/// Whether the flash holds, at an entry of a used page, a blob index of `key` for a blob
/// of `size` bytes.
pub open spec fn holds_blob_index<T: Platform>(nvs: Nvs<T>, ns: u8, key: Seq<u8>, size: int) -> bool {
    exists|q: int, idx: int|
        0 <= q < nvs.pages@.len() && 0 <= idx < ENTRIES_PER_PAGE && #[trigger] blob_index_at::<T>(
            nvs.flash(),
            nvs.pages@[q].address as int,
            idx,
            ns,
            key,
            size,
        )
}

/// Whether the flash holds, at an entry of a used page, the string item `buf` of `key`.
pub open spec fn holds_string<T: Platform>(nvs: Nvs<T>, ns: u8, key: Seq<u8>, buf: Seq<u8>) -> bool {
    exists|q: int, idx: int|
        0 <= q < nvs.pages@.len() && 0 <= idx < ENTRIES_PER_PAGE && #[trigger] string_at::<T>(
            nvs.flash(),
            nvs.pages@[q].address as int,
            idx,
            ns,
            key,
            buf,
        )
}

/// Whether lookup entry `j` of used page `q` names a valid item of `key` in namespace
/// `ns` with chunk field 0xFF whose data is `data`.
pub open spec fn listed_value<T: Platform>(
    pages: Seq<ThinPage>,
    flash: Seq<u8>,
    q: int,
    j: int,
    ns: u8,
    key: Seq<u8>,
    data: Seq<u8>,
) -> bool {
    match listed_item::<T>(pages, flash, q, j) {
        Some(it) => item_matches(it, ns, key, 0xFF) && it.data@ == data,
        None => false,
    }
}

/// Whether a lookup entry of a used page names a valid item of `key` in namespace `ns`
/// with chunk field 0xFF whose data is `data`.
pub open spec fn lists_value<T: Platform>(nvs: Nvs<T>, ns: u8, key: Seq<u8>, data: Seq<u8>) -> bool {
    exists|q: int, j: int|
        0 <= q < nvs.pages@.len() && 0 <= j < nvs.pages@[q].item_hash_list@.len() && #[trigger] listed_value::<T>(
            nvs.pages@,
            nvs.flash(),
            q,
            j,
            ns,
            key,
            data,
        )
}

/// Read after write for values: when the lookup lists of a store are consistent and one
/// of them names an item of `key` in namespace `ns` holding `data` (as a successful
/// `set_primitive` leaves it), looking the key up finds an item holding `data`, every item
/// it can find holds `data`, and it does not come back empty.
pub proof fn lemma_lookup_finds_listed_value<T: Platform>(nvs: Nvs<T>, ns: u8, key: Seq<u8>, data: Seq<u8>)
    requires
        lists_consistent::<T>(nvs.pages@, nvs.flash()),
        lists_value::<T>(nvs, ns, key, data),
    ensures
        exists|p: int, i: u8, it: Item| #[trigger] found_in(nvs, ns, key, 0xFF, p, i, it) && it.data@ == data,
        forall|p: int, i: u8, it: Item| #[trigger] found_in(nvs, ns, key, 0xFF, p, i, it) ==> it.data@ == data,
        !lookup_missing::<T>(nvs.pages@, nvs.flash(), ns, key, 0xFF),
{
    let (q, j) = choose|q: int, j: int|
        0 <= q < nvs.pages@.len() && 0 <= j < nvs.pages@[q].item_hash_list@.len() && #[trigger] listed_value::<T>(
            nvs.pages@,
            nvs.flash(),
            q,
            j,
            ns,
            key,
            data,
        );
    lemma_consistent_lookup_finds::<T>(nvs.pages@, nvs.flash(), q, j);
    let it = listed_item::<T>(nvs.pages@, nvs.flash(), q, j)->0;
    let i = nvs.pages@[q].item_hash_list@[j].index;
    assert(found_in(nvs, ns, key, 0xFF, q, i, it));
    assert forall|p: int, i2: u8, it2: Item| #[trigger] found_in(nvs, ns, key, 0xFF, p, i2, it2) implies it2.data@ == data by {
        lemma_lookup_deterministic::<T>(nvs.pages@, nvs.flash(), ns, key, 0xFF, p, i2, it2, q, i, it);
    }
    lemma_lookup_exclusive::<T>(nvs.pages@, nvs.flash(), ns, key, 0xFF, q, i, it);
}

/// No two used pages share an address.
pub open spec fn addresses_distinct(pages: Seq<ThinPage>) -> bool {
    forall|a: int, b: int|
        0 <= a < pages.len() && 0 <= b < pages.len() && a != b ==> (#[trigger] pages[a]).address != (#[trigger] pages[b]).address
}

/// In a store with consistent lookup lists, every listed item of namespace `ns`, key `key`
/// and chunk `chunk` sits at the entry that the lookup finds.
proof fn lemma_only_found_copy<T: Platform>(
    pages: Seq<ThinPage>,
    flash: Seq<u8>,
    ns: u8,
    key: Seq<u8>,
    chunk: u8,
    k: int,
    j: int,
)
    requires
        lists_consistent::<T>(pages, flash),
        0 <= k < pages.len(),
        0 <= j < pages[k].item_hash_list@.len(),
        listed_item::<T>(pages, flash, k, j) is Some,
        item_matches(listed_item::<T>(pages, flash, k, j)->0, ns, key, chunk),
    ensures
        lookup_found::<T>(pages, flash, ns, key, chunk, k, pages[k].item_hash_list@[j].index, listed_item::<T>(pages, flash, k, j)->0),
{
    lemma_consistent_lookup_finds::<T>(pages, flash, k, j);
}

/// Replacing one item by another keeps the lookup lists consistent: the new lists hold
/// entries of the old lists (whose entries kept their bytes) and one new entry naming a
/// valid item, and every old entry naming an item of the new item's namespace, key and
/// chunk was dropped.
proof fn lemma_replace_keeps_consistency<T: Platform>(
    pages0: Seq<ThinPage>,
    f0: Seq<u8>,
    pages1: Seq<ThinPage>,
    f1: Seq<u8>,
    q: int,
    e_new: ItemHashListEntry,
    it_new: Item,
)
    requires
        lists_consistent::<T>(pages0, f0),
        pages1.len() == pages0.len(),
        forall|k: int| 0 <= k < pages1.len() ==> (#[trigger] pages1[k]).address == pages0[k].address,
        0 <= q < pages1.len(),
        entry_offset(pages1[q].address as int, e_new.index as int) + ITEM_SIZE <= f1.len(),
        stored_item::<T>(entry_bytes(f1, pages1[q].address as int, e_new.index as int)) == Some(it_new),
        e_new.hash == item_hash::<T>(it_new.namespace_index, it_new.key@, it_new.chunk_index),
        forall|k: int, j: int|
            #![trigger pages1[k].item_hash_list@[j]]
            0 <= k < pages1.len() && 0 <= j < pages1[k].item_hash_list@.len() ==> {
                let e = pages1[k].item_hash_list@[j];
                ||| k == q && e == e_new
                ||| {
                    &&& pages0[k].item_hash_list@.contains(e)
                    &&& entry_bytes(f1, pages0[k].address as int, e.index as int) == entry_bytes(f0, pages0[k].address as int, e.index as int)
                    &&& entry_offset(pages0[k].address as int, e.index as int) + ITEM_SIZE <= f1.len()
                    &&& (k == q ==> e.index != e_new.index)
                    &&& !(stored_item::<T>(entry_bytes(f0, pages0[k].address as int, e.index as int)) is Some && same_slot_items(
                        stored_item::<T>(entry_bytes(f0, pages0[k].address as int, e.index as int))->0,
                        it_new,
                    ))
                }
            },
    ensures
        lists_consistent::<T>(pages1, f1),
{
    assert forall|p: int, j: int|
        #![trigger pages1[p].item_hash_list@[j]]
        0 <= p < pages1.len() && 0 <= j < pages1[p].item_hash_list@.len() implies {
            &&& entry_offset(pages1[p].address as int, pages1[p].item_hash_list@[j].index as int) + ITEM_SIZE <= f1.len()
            &&& listed_item::<T>(pages1, f1, p, j) is Some
            &&& pages1[p].item_hash_list@[j].hash == item_hash::<T>(
                listed_item::<T>(pages1, f1, p, j)->0.namespace_index,
                listed_item::<T>(pages1, f1, p, j)->0.key@,
                listed_item::<T>(pages1, f1, p, j)->0.chunk_index,
            )
        } by {
        let e = pages1[p].item_hash_list@[j];
        if !(p == q && e == e_new) {
            let j0 = choose|j0: int| 0 <= j0 < pages0[p].item_hash_list@.len() && pages0[p].item_hash_list@[j0] == e;
            assert(pages0[p].item_hash_list@[j0] == e);
            assert(listed_item::<T>(pages1, f1, p, j) == listed_item::<T>(pages0, f0, p, j0));
        }
    }
    assert forall|p1: int, j1: int, p2: int, j2: int|
        #![trigger pages1[p1].item_hash_list@[j1], pages1[p2].item_hash_list@[j2]]
        0 <= p1 < pages1.len() && 0 <= j1 < pages1[p1].item_hash_list@.len() && 0 <= p2 < pages1.len() && 0 <= j2
            < pages1[p2].item_hash_list@.len() && (p1 != p2 || pages1[p1].item_hash_list@[j1].index
            != pages1[p2].item_hash_list@[j2].index) && listed_item::<T>(pages1, f1, p1, j1) is Some
            && listed_item::<T>(pages1, f1, p2, j2) is Some implies !same_slot_items(
            listed_item::<T>(pages1, f1, p1, j1)->0,
            listed_item::<T>(pages1, f1, p2, j2)->0,
        ) by {
        let e1 = pages1[p1].item_hash_list@[j1];
        let e2 = pages1[p2].item_hash_list@[j2];
        let new1 = p1 == q && e1 == e_new;
        let new2 = p2 == q && e2 == e_new;
        if new1 && new2 {
        } else if new1 {
            let k2 = choose|k: int| 0 <= k < pages0[p2].item_hash_list@.len() && pages0[p2].item_hash_list@[k] == e2;
            assert(pages0[p2].item_hash_list@[k2] == e2);
            assert(listed_item::<T>(pages1, f1, p2, j2) == listed_item::<T>(pages0, f0, p2, k2));
        } else if new2 {
            let k1 = choose|k: int| 0 <= k < pages0[p1].item_hash_list@.len() && pages0[p1].item_hash_list@[k] == e1;
            assert(pages0[p1].item_hash_list@[k1] == e1);
            assert(listed_item::<T>(pages1, f1, p1, j1) == listed_item::<T>(pages0, f0, p1, k1));
        } else {
            let k1 = choose|k: int| 0 <= k < pages0[p1].item_hash_list@.len() && pages0[p1].item_hash_list@[k] == e1;
            let k2 = choose|k: int| 0 <= k < pages0[p2].item_hash_list@.len() && pages0[p2].item_hash_list@[k] == e2;
            assert(pages0[p1].item_hash_list@[k1] == e1);
            assert(pages0[p2].item_hash_list@[k2] == e2);
            assert(listed_item::<T>(pages1, f1, p1, j1) == listed_item::<T>(pages0, f0, p1, k1));
            assert(listed_item::<T>(pages1, f1, p2, j2) == listed_item::<T>(pages0, f0, p2, k2));
        }
    }
}

/// Appending an entry to the last page's lookup list, with a write to that page at and
/// after its next free entry, keeps what a lookup finds.
proof fn lemma_lookup_found_after_append<T: Platform>(
    old: Nvs<T>,
    mid_pages: Seq<ThinPage>,
    mid_flash: Seq<u8>,
    e_new: ItemHashListEntry,
    span: int,
    ns: u8,
    key: Seq<u8>,
    chunk: u8,
    p: int,
    i: u8,
    it: Item,
)
    requires
        old.wf(),
        lists_consistent::<T>(old.pages@, old.flash()),
        old.lists_below_next_free(),
        addresses_distinct(old.pages@),
        old.pages@.len() > 0,
        mid_pages.len() == old.pages@.len(),
        forall|k: int| 0 <= k < old.pages@.len() - 1 ==> #[trigger] mid_pages[k] == old.pages@[k],
        mid_pages[old.pages@.len() - 1].address == old.pages@.last().address,
        mid_pages[old.pages@.len() - 1].item_hash_list@ == old.pages@.last().item_hash_list@.push(e_new),
        e_new.index == old.pages@.last().next_free(),
        0 <= span,
        old.pages@.last().next_free() + span <= ENTRIES_PER_PAGE,
        crate::page::page_write_frame(
            old.flash(),
            mid_flash,
            old.pages@.last().address as int,
            old.pages@.last().next_free(),
            old.pages@.last().next_free() + span,
        ),
        0 <= p < old.pages@.len(),
        lookup_found::<T>(old.pages@, old.flash(), ns, key, chunk, p, i, it),
    ensures
        lookup_found::<T>(mid_pages, mid_flash, ns, key, chunk, p, i, it),
{
    let pages0 = old.pages@;
    let f0 = old.flash();
    let q = pages0.len() - 1;
    let lq = pages0[q];
    assert(lq.wf() && old.in_partition(lq));
    let h = item_hash::<T>(ns, key, chunk);
    let jf = choose|j: int|
        #![trigger pages0[p].item_hash_list@[j]]
        is_candidate(pages0, p, j, h) && pages0[p].item_hash_list@[j].index == i && listed_item::<T>(pages0, f0, p, j) == Some(it)
            && item_matches(it, ns, key, chunk) && passed_before::<T>(pages0, f0, ns, key, chunk, p, j);
    assert forall|k: int, j: int|
        0 <= k < pages0.len() && 0 <= j < pages0[k].item_hash_list@.len() implies #[trigger] mid_pages[k].item_hash_list@[j]
        == pages0[k].item_hash_list@[j] && listed_item::<T>(mid_pages, mid_flash, k, j) == listed_item::<T>(pages0, f0, k, j) by {
        assert(pages0[k].item_hash_list@[j] == pages0[k].item_hash_list@[j]);
        let e = pages0[k].item_hash_list@[j];
        let a = pages0[k].address as int;
        let lo = entry_offset(a, e.index as int);
        assert(pages0[k].wf() && old.in_partition(pages0[k]));
        assert(lo + ITEM_SIZE <= f0.len());
        if k == q {
            assert(mid_pages[q].item_hash_list@[j] == e);
            assert(pages0[q].listed_below_next_free());
            assert(e.index < lq.next_free());
            assert forall|m: int| lo <= m < lo + ITEM_SIZE implies #[trigger] mid_flash[m] == f0[m] by {}
            assert(mid_flash.subrange(lo, lo + ITEM_SIZE) =~= f0.subrange(lo, lo + ITEM_SIZE));
        } else {
            assert(mid_pages[k] == pages0[k]);
            assert(pages0[k].address != lq.address);
            old.lemma_other_page_kept(lq, pages0[k], f0, mid_flash, lq.next_free(), lq.next_free() + span, lo, lo + ITEM_SIZE);
        }
        assert(entry_bytes(mid_flash, a, e.index as int) =~= entry_bytes(f0, a, e.index as int));
    }
    assert(mid_pages[p].item_hash_list@[jf] == pages0[p].item_hash_list@[jf]);
    assert(is_candidate(mid_pages, p, jf, h));
    assert forall|p2: int, j2: int|
        #![trigger mid_pages[p2].item_hash_list@[j2]]
        is_candidate(mid_pages, p2, j2, h) && scanned_before(p2, j2, p, jf) implies {
            &&& listed_item::<T>(mid_pages, mid_flash, p2, j2) is Some
            &&& !item_matches(listed_item::<T>(mid_pages, mid_flash, p2, j2)->0, ns, key, chunk)
        } by {
        if p2 == q && j2 >= pages0[q].item_hash_list@.len() {
            assert(p == q);
            assert(jf < pages0[q].item_hash_list@.len());
            assert(false);
        }
        assert(mid_pages[p2].item_hash_list@[j2] == pages0[p2].item_hash_list@[j2]);
        assert(pages0[p2].item_hash_list@[j2] == pages0[p2].item_hash_list@[j2]);
    }
    assert(passed_before::<T>(mid_pages, mid_flash, ns, key, chunk, p, jf));
}

/// Writing a new value of a key to the active page and erasing the old item keeps
/// consistent lookup lists consistent.
proof fn lemma_primitive_write_consistent<T: Platform>(
    old: Nvs<T>,
    mid_pages: Seq<ThinPage>,
    mid_flash: Seq<u8>,
    fin_pages: Seq<ThinPage>,
    fin_flash: Seq<u8>,
    e_new: ItemHashListEntry,
    it_new: Item,
    ns: u8,
    key: Seq<u8>,
    erased: bool,
    p_old: int,
    i_old: u8,
    it_old: Item,
)
    requires
        old.wf(),
        lists_consistent::<T>(old.pages@, old.flash()),
        old.lists_below_next_free(),
        addresses_distinct(old.pages@),
        old.pages@.len() > 0,
        mid_pages.len() == old.pages@.len(),
        forall|k: int| 0 <= k < old.pages@.len() - 1 ==> #[trigger] mid_pages[k] == old.pages@[k],
        mid_pages[old.pages@.len() - 1].address == old.pages@.last().address,
        mid_pages[old.pages@.len() - 1].item_hash_list@ == old.pages@.last().item_hash_list@.push(e_new),
        e_new.index == old.pages@.last().next_free(),
        old.pages@.last().next_free() < ENTRIES_PER_PAGE,
        crate::page::page_write_frame(old.flash(), mid_flash, old.pages@.last().address as int, e_new.index as int, e_new.index + 1),
        lists_shrunk(mid_pages, fin_pages),
        entry_offset(old.pages@.last().address as int, e_new.index as int) + ITEM_SIZE <= fin_flash.len(),
        stored_item::<T>(entry_bytes(fin_flash, old.pages@.last().address as int, e_new.index as int)) == Some(it_new),
        e_new.hash == item_hash::<T>(it_new.namespace_index, it_new.key@, it_new.chunk_index),
        item_matches(it_new, ns, key, 0xFF),
        erased ==> {
            &&& 0 <= p_old < old.pages@.len()
            &&& lookup_found::<T>(old.pages@, old.flash(), ns, key, 0xFF, p_old, i_old, it_old)
            &&& forall|j: int| 0 <= j < fin_pages[p_old].item_hash_list@.len() ==> (#[trigger] fin_pages[p_old].item_hash_list@[j]).index != i_old
            &&& old.header_areas_frame(mid_flash, fin_flash)
        },
        !erased ==> lookup_missing::<T>(old.pages@, old.flash(), ns, key, 0xFF) && fin_flash == mid_flash,
    ensures
        lists_consistent::<T>(fin_pages, fin_flash),
{
    let pages0 = old.pages@;
    let f0 = old.flash();
    let q = pages0.len() - 1;
    let lq = pages0[q];
    assert(lq.wf() && old.in_partition(lq));
    assert forall|k: int| 0 <= k < fin_pages.len() implies (#[trigger] fin_pages[k]).address == pages0[k].address by {
        assert(fin_pages[k].address == mid_pages[k].address);
    }
    assert forall|k: int, j: int|
        #![trigger fin_pages[k].item_hash_list@[j]]
        0 <= k < fin_pages.len() && 0 <= j < fin_pages[k].item_hash_list@.len() implies {
            let e = fin_pages[k].item_hash_list@[j];
            ||| k == q && e == e_new
            ||| {
                &&& pages0[k].item_hash_list@.contains(e)
                &&& entry_bytes(fin_flash, pages0[k].address as int, e.index as int) == entry_bytes(f0, pages0[k].address as int, e.index as int)
                &&& entry_offset(pages0[k].address as int, e.index as int) + ITEM_SIZE <= fin_flash.len()
                &&& (k == q ==> e.index != e_new.index)
                &&& !(stored_item::<T>(entry_bytes(f0, pages0[k].address as int, e.index as int)) is Some && same_slot_items(
                    stored_item::<T>(entry_bytes(f0, pages0[k].address as int, e.index as int))->0,
                    it_new,
                ))
            }
        } by {
        let e = fin_pages[k].item_hash_list@[j];
        assert(fin_pages[k] == fin_pages[k]);
        assert(mid_pages[k].item_hash_list@.contains(e));
        if !(k == q && e == e_new) {
            let jm = choose|jm: int| 0 <= jm < mid_pages[k].item_hash_list@.len() && mid_pages[k].item_hash_list@[jm] == e;
            if k < q {
                assert(mid_pages[k] == pages0[k]);
                assert(pages0[k].item_hash_list@[jm] == e);
            } else {
                assert(jm < pages0[q].item_hash_list@.len());
                assert(pages0[q].item_hash_list@[jm] == e);
            }
            let j0 = choose|j0: int| 0 <= j0 < pages0[k].item_hash_list@.len() && pages0[k].item_hash_list@[j0] == e;
            assert(pages0[k].item_hash_list@[j0] == e);
            let a = pages0[k].address as int;
            let lo = entry_offset(a, e.index as int);
            assert(pages0[k].wf() && old.in_partition(pages0[k]));
            assert(lo + ITEM_SIZE <= f0.len());
            if k == q {
                assert(pages0[q].listed_below_next_free());
                assert(e.index < e_new.index);
                assert forall|m: int| lo <= m < lo + ITEM_SIZE implies #[trigger] mid_flash[m] == f0[m] by {}
                assert(mid_flash.subrange(lo, lo + ITEM_SIZE) =~= f0.subrange(lo, lo + ITEM_SIZE));
            } else {
                assert(pages0[k].address != lq.address);
                old.lemma_other_page_kept(lq, pages0[k], f0, mid_flash, e_new.index as int, e_new.index + 1, lo, lo + ITEM_SIZE);
            }
            if erased {
                old.lemma_entries_kept(pages0[k], mid_flash, fin_flash, lo, lo + ITEM_SIZE);
            }
            assert(entry_bytes(fin_flash, a, e.index as int) =~= entry_bytes(f0, a, e.index as int));
            assert(listed_item::<T>(pages0, f0, k, j0) == stored_item::<T>(entry_bytes(f0, a, e.index as int)));
            if stored_item::<T>(entry_bytes(f0, a, e.index as int)) is Some && same_slot_items(
                stored_item::<T>(entry_bytes(f0, a, e.index as int))->0,
                it_new,
            ) {
                lemma_only_found_copy::<T>(pages0, f0, ns, key, 0xFF, k, j0);
                let it0 = listed_item::<T>(pages0, f0, k, j0)->0;
                if erased {
                    lemma_lookup_deterministic::<T>(pages0, f0, ns, key, 0xFF, k, e.index, it0, p_old, i_old, it_old);
                    assert(fin_pages[p_old].item_hash_list@[j].index != i_old);
                } else {
                    lemma_lookup_exclusive::<T>(pages0, f0, ns, key, 0xFF, k, e.index, it0);
                }
            }
        }
    }
    lemma_replace_keeps_consistency::<T>(pages0, f0, fin_pages, fin_flash, q, e_new, it_new);
}

/// Read after delete: in a store whose lookup lists are consistent, after `delete_key`
/// succeeds for a key (the item the lookup found is no longer listed, the lists only lost
/// entries and the flash changed only in the header areas), looking the key up finds
/// nothing, and the lookup lists are still consistent.
pub proof fn lemma_lookup_misses_after_delete<T: Platform>(before: Nvs<T>, after: Nvs<T>, ns: u8, key: Seq<u8>, chunk: u8)
    requires
        before.wf(),
        lists_consistent::<T>(before.pages@, before.flash()),
        lists_shrunk(before.pages@, after.pages@),
        before.header_areas_frame(before.flash(), after.flash()),
        exists|p: int, i: u8, it: Item|
            #[trigger] found_in(before, ns, key, chunk, p, i, it) && forall|j: int|
                0 <= j < after.pages@[p].item_hash_list@.len() ==> (#[trigger] after.pages@[p].item_hash_list@[j]).index != i,
    ensures
        lookup_missing::<T>(after.pages@, after.flash(), ns, key, chunk),
        lists_consistent::<T>(after.pages@, after.flash()),
{
    lemma_consistency_kept::<T>(before, after.pages@, after.flash());
    let (p, i, it) = choose|p: int, i: u8, it: Item|
        #[trigger] found_in(before, ns, key, chunk, p, i, it) && forall|j: int|
            0 <= j < after.pages@[p].item_hash_list@.len() ==> (#[trigger] after.pages@[p].item_hash_list@[j]).index != i;
    lemma_lookup_misses_deleted::<T>(before, after.pages@, after.flash(), ns, key, chunk, p, i, it);
}

/// Chunk `c` of `key` in namespace `ns` is found holding data `d`, as blob data whose data
/// CRC matches.
pub open spec fn chunk_found<T: Platform>(nvs: Nvs<T>, ns: u8, key: Seq<u8>, c: u8, d: Seq<u8>) -> bool {
    exists|p: int, i: u8, it: Item|
        #[trigger] found_in(nvs, ns, key, c, p, i, it) && it.type_ == ItemType::BlobData && d == referenced_data(
            nvs.flash(),
            nvs.pages@[p].address as int,
            i as int,
            it,
        ) && sized_crc(it.data@) == T::spec_crc32(0xFFFF_FFFF, d)
}

/// The lookup of chunk `c` of `key` in namespace `ns`, over the used pages `pages` and the
/// flash `flash`, finds at entry `i` of used page `p` the blob data item `it`, whose data
/// lies within the flash and matches its CRC.
pub open spec fn chunk_readable<T: Platform>(
    pages: Seq<ThinPage>,
    flash: Seq<u8>,
    ns: u8,
    key: Seq<u8>,
    c: u8,
    p: int,
    i: u8,
    it: Item,
) -> bool {
    &&& 0 <= p < pages.len()
    &&& lookup_found::<T>(pages, flash, ns, key, c, p, i, it)
    &&& it.type_ == ItemType::BlobData
    &&& entry_offset(pages[p].address as int, i + 1) + sized_size(it.data@) <= flash.len()
    &&& sized_crc(it.data@) == T::spec_crc32(0xFFFF_FFFF, referenced_data(flash, pages[p].address as int, i as int, it))
}

/// The data of chunk `c` of `key` in namespace `ns`, where its lookup finds a readable blob
/// data item.
pub open spec fn blob_chunk_data<T: Platform>(pages: Seq<ThinPage>, flash: Seq<u8>, ns: u8, key: Seq<u8>, c: u8) -> Option<Seq<u8>> {
    if exists|p: int, i: u8, it: Item| #[trigger] chunk_readable::<T>(pages, flash, ns, key, c, p, i, it) {
        let (p, i, it) = choose|p: int, i: u8, it: Item| #[trigger] chunk_readable::<T>(pages, flash, ns, key, c, p, i, it);
        Some(referenced_data(flash, pages[p].address as int, i as int, it))
    } else {
        None
    }
}

/// The chunks `start .. start + n` of `key` in namespace `ns`, taken from the last one back,
/// hold the tail of `data`: the last one holds its last bytes, the one before it the bytes
/// just before those, and so on.
pub open spec fn chunks_hold_tail<T: Platform>(
    pages: Seq<ThinPage>,
    flash: Seq<u8>,
    ns: u8,
    key: Seq<u8>,
    start: int,
    n: int,
    data: Seq<u8>,
) -> bool
    decreases n,
{
    if n <= 0 {
        true
    } else {
        match blob_chunk_data::<T>(pages, flash, ns, key, (start + n - 1) as u8) {
            Some(d) => d.len() <= data.len() && data.subrange(data.len() - d.len(), data.len() as int) == d
                && chunks_hold_tail::<T>(pages, flash, ns, key, start, n - 1, data.subrange(0, data.len() - d.len())),
            None => false,
        }
    }
}

/// A chunk found readable at one place is the chunk that `blob_chunk_data` gives.
proof fn lemma_blob_chunk_data_at<T: Platform>(nvs: Nvs<T>, ns: u8, key: Seq<u8>, c: u8, p: int, i: u8, it: Item)
    requires
        found_in(nvs, ns, key, c, p, i, it),
    ensures
        chunk_readable::<T>(nvs.pages@, nvs.flash(), ns, key, c, p, i, it) ==> blob_chunk_data::<T>(
            nvs.pages@,
            nvs.flash(),
            ns,
            key,
            c,
        ) == Some(referenced_data(nvs.flash(), nvs.pages@[p].address as int, i as int, it)),
        !chunk_readable::<T>(nvs.pages@, nvs.flash(), ns, key, c, p, i, it) ==> blob_chunk_data::<T>(
            nvs.pages@,
            nvs.flash(),
            ns,
            key,
            c,
        ) is None,
{
    if exists|p2: int, i2: u8, it2: Item| #[trigger] chunk_readable::<T>(nvs.pages@, nvs.flash(), ns, key, c, p2, i2, it2) {
        let (p2, i2, it2) = choose|p2: int, i2: u8, it2: Item| #[trigger] chunk_readable::<T>(
            nvs.pages@,
            nvs.flash(),
            ns,
            key,
            c,
            p2,
            i2,
            it2,
        );
        lemma_lookup_deterministic::<T>(nvs.pages@, nvs.flash(), ns, key, c, p, i, it, p2, i2, it2);
    }
}

/// No chunk is readable where the lookup finds nothing.
proof fn lemma_blob_chunk_data_missing<T: Platform>(nvs: Nvs<T>, ns: u8, key: Seq<u8>, c: u8)
    requires
        lookup_missing::<T>(nvs.pages@, nvs.flash(), ns, key, c),
    ensures
        blob_chunk_data::<T>(nvs.pages@, nvs.flash(), ns, key, c) is None,
{
    if exists|p2: int, i2: u8, it2: Item| #[trigger] chunk_readable::<T>(nvs.pages@, nvs.flash(), ns, key, c, p2, i2, it2) {
        let (p2, i2, it2) = choose|p2: int, i2: u8, it2: Item| #[trigger] chunk_readable::<T>(
            nvs.pages@,
            nvs.flash(),
            ns,
            key,
            c,
            p2,
            i2,
            it2,
        );
        lemma_lookup_exclusive::<T>(nvs.pages@, nvs.flash(), ns, key, c, p2, i2, it2);
    }
}

/// The data of the chunks `ds`, one after the other.
pub open spec fn concat_chunks(ds: Seq<Seq<u8>>) -> Seq<u8>
    decreases ds.len(),
{
    if ds.len() == 0 {
        Seq::empty()
    } else {
        concat_chunks(ds.drop_last()) + ds.last()
    }
}

/// The data of the chunks `start .. start + n` of `key` in namespace `ns`, in order, when
/// the lookup of each finds a readable blob data item.
pub open spec fn chunk_datas<T: Platform>(pages: Seq<ThinPage>, flash: Seq<u8>, ns: u8, key: Seq<u8>, start: int, n: int) -> Option<
    Seq<Seq<u8>>,
>
    decreases n,
{
    if n <= 0 {
        Some(Seq::empty())
    } else {
        match (chunk_datas::<T>(pages, flash, ns, key, start, n - 1), blob_chunk_data::<T>(pages, flash, ns, key, (start + n - 1) as u8)) {
            (Some(ds), Some(d)) => Some(ds.push(d)),
            _ => None,
        }
    }
}

/// The blob index `it` describes a blob that its chunks hold exactly: its size is within
/// the limit, its chunk range fits, every chunk is found as readable blob data holding at
/// least one byte, and their data add up to the size.
pub open spec fn blob_readable<T: Platform>(pages: Seq<ThinPage>, flash: Seq<u8>, ns: u8, key: Seq<u8>, it: Item) -> bool {
    &&& it.type_ == ItemType::BlobIndex
    &&& blob_index_size(it.data@) <= MAX_BLOB_SIZE
    &&& it.data@[5] + it.data@[4] <= 255
    &&& chunk_datas::<T>(pages, flash, ns, key, it.data@[5] as int, it.data@[4] as int) is Some
    &&& forall|k: int|
        0 <= k < it.data@[4] ==> (#[trigger] chunk_datas::<T>(pages, flash, ns, key, it.data@[5] as int, it.data@[4] as int)->0[k]).len()
            > 0
    &&& concat_chunks(chunk_datas::<T>(pages, flash, ns, key, it.data@[5] as int, it.data@[4] as int)->0).len() == blob_index_size(
        it.data@,
    )
}

/// Reading chunk `m` of a blob its chunks hold exactly: the chunk is found, and the data
/// read so far and this chunk's data stay within the size; all chunks read give the size.
proof fn lemma_readable_step<T: Platform>(pages: Seq<ThinPage>, flash: Seq<u8>, ns: u8, key: Seq<u8>, it: Item, m: int, ds: Seq<Seq<u8>>)
    requires
        blob_readable::<T>(pages, flash, ns, key, it),
        0 <= m <= it.data@[4],
        chunk_datas::<T>(pages, flash, ns, key, it.data@[5] as int, m) == Some(ds),
    ensures
        m < it.data@[4] ==> {
            &&& blob_chunk_data::<T>(pages, flash, ns, key, (it.data@[5] + m) as u8) is Some
            &&& concat_chunks(ds).len() + blob_chunk_data::<T>(pages, flash, ns, key, (it.data@[5] + m) as u8)->0.len()
                <= blob_index_size(it.data@)
            &&& concat_chunks(ds).len() < blob_index_size(it.data@)
            &&& chunk_datas::<T>(pages, flash, ns, key, it.data@[5] as int, m + 1) == Some(
                ds.push(blob_chunk_data::<T>(pages, flash, ns, key, (it.data@[5] + m) as u8)->0),
            )
        },
        m == it.data@[4] ==> concat_chunks(ds).len() == blob_index_size(it.data@),
{
    let start = it.data@[5] as int;
    let n = it.data@[4] as int;
    let full = chunk_datas::<T>(pages, flash, ns, key, start, n)->0;
    lemma_chunk_datas_prefix::<T>(pages, flash, ns, key, start, n, m);
    assert(ds == full.take(m));
    assert forall|k: int| 0 <= k < full.len() implies (#[trigger] full[k]).len() > 0 by {}
    if m < n {
        lemma_chunk_datas_prefix::<T>(pages, flash, ns, key, start, n, m + 1);
        let ds1 = full.take(m + 1);
        assert(chunk_datas::<T>(pages, flash, ns, key, start, m + 1) == Some(ds1));
        assert(blob_chunk_data::<T>(pages, flash, ns, key, (start + m) as u8) is Some);
        assert(ds1 == ds.push(blob_chunk_data::<T>(pages, flash, ns, key, (start + m) as u8)->0));
        assert(ds1.drop_last() =~= ds);
        lemma_concat_take_grows(full, m + 1, n);
        assert(full.take(n) =~= full);
        lemma_concat_take_grows(full, m, m + 1);
    } else {
        assert(full.take(n) =~= full);
    }
}

/// The chunks of a prefix are a prefix of the chunks.
proof fn lemma_chunk_datas_prefix<T: Platform>(pages: Seq<ThinPage>, flash: Seq<u8>, ns: u8, key: Seq<u8>, start: int, n: int, m: int)
    requires
        0 <= m <= n,
        chunk_datas::<T>(pages, flash, ns, key, start, n) is Some,
    ensures
        chunk_datas::<T>(pages, flash, ns, key, start, n)->0.len() == n,
        chunk_datas::<T>(pages, flash, ns, key, start, m) == Some(chunk_datas::<T>(pages, flash, ns, key, start, n)->0.take(m)),
    decreases n,
{
    if n > 0 {
        lemma_chunk_datas_prefix::<T>(pages, flash, ns, key, start, n - 1, if m < n { m } else { n - 1 });
        let full = chunk_datas::<T>(pages, flash, ns, key, start, n)->0;
        let prev = chunk_datas::<T>(pages, flash, ns, key, start, n - 1)->0;
        assert(full == prev.push(blob_chunk_data::<T>(pages, flash, ns, key, (start + n - 1) as u8)->0));
        if m == n {
            assert(full.take(m) =~= full);
        } else {
            assert(full.take(m) =~= prev.take(m));
        }
    } else {
        assert(chunk_datas::<T>(pages, flash, ns, key, start, n)->0.take(m) =~= Seq::<Seq<u8>>::empty());
    }
}

/// Data of a longer prefix of nonempty chunks is longer.
proof fn lemma_concat_take_grows(ds: Seq<Seq<u8>>, a: int, b: int)
    requires
        0 <= a <= b <= ds.len(),
        forall|k: int| 0 <= k < ds.len() ==> (#[trigger] ds[k]).len() > 0,
    ensures
        concat_chunks(ds.take(a)).len() + (b - a) <= concat_chunks(ds.take(b)).len(),
    decreases b - a,
{
    if a < b {
        lemma_concat_take_grows(ds, a, b - 1);
        assert(ds.take(b).drop_last() =~= ds.take(b - 1));
        assert(ds.take(b).last() == ds[b - 1]);
    }
}

/// A buffer of `size` bytes holding the first `n` bytes of `data`, the rest zero.
pub open spec fn filled(size: nat, data: Seq<u8>, n: int) -> Seq<u8> {
    Seq::new(size, |i: int| if i < n { data[i] } else { 0u8 })
}

/// The entries `i .. i + span` of `page` are marked erased in its bitmap.
pub open spec fn entries_erased(page: ThinPage, i: int, span: int) -> bool {
    &&& i + span <= ENTRIES_PER_PAGE
    &&& forall|k: int| i <= k < i + span ==> #[trigger] entry_state_at(page.entry_state_bitmap@, k) == EntryMapState::Erased
}

/// The key `key` of namespace `namespace` is looked up: the lookup finds `it` at entry
/// `index` of used page `p`.
pub open spec fn found_in<T: Platform>(nvs: Nvs<T>, ns: u8, key: Seq<u8>, chunk: u8, p: int, index: u8, it: Item) -> bool {
    0 <= p < nvs.pages@.len() && lookup_found::<T>(nvs.pages@, nvs.flash(), ns, key, chunk, p, index, it)
}

/// When a write may report that the flash is full: at most `reserve` free pages are left,
/// a used page carries one of the two largest sequence numbers, or the namespace is new and the
/// namespace table has used its last index.
pub open spec fn flash_full_allowed<T: Platform>(nvs: Nvs<T>, namespace: Key, reserve: int) -> bool {
    ||| nvs.free_pages@.len() <= reserve
    ||| exists|i: int| 0 <= i < nvs.pages@.len() && (#[trigger] nvs.pages@[i]).header.sequence >= u32::MAX - 1
    ||| namespace_index_of(nvs.namespaces@, namespace@) is None && exists|k: int|
        0 <= k < nvs.namespaces@.len() && (#[trigger] nvs.namespaces@[k]).index == 255
}

/// The store holds the same pages, free pages, namespaces and flash contents.
pub open spec fn unchanged_store<T: Platform>(a: Nvs<T>, b: Nvs<T>) -> bool {
    &&& a.pages@ == b.pages@
    &&& a.free_pages@ == b.free_pages@
    &&& a.namespaces@ == b.namespaces@
    &&& a.flash() == b.flash()
}

/// A write finds the store as it is: the namespace exists and the last used page is the
/// active page, with room left. The item a lookup finds then is the one a write replaces.
pub open spec fn old_item_replaced<T: Platform>(nvs: Nvs<T>, namespace: Key) -> bool {
    &&& namespace_index_of(nvs.namespaces@, namespace@) is Some
    &&& nvs.pages@.len() > 0
    &&& nvs.pages@.last().header.state == ThinPageState::Active
    &&& nvs.pages@.last().next_free() < ENTRIES_PER_PAGE
}

/// The result of the checks that every item operation makes on its arguments first:
/// both keys terminated and, where `need_namespace`, the namespace present.
pub open spec fn argument_error<T: Platform>(nvs: Nvs<T>, namespace: Key, key: Key, need_namespace: bool) -> Option<Error> {
    if key@[15] != 0 {
        Some(Error::KeyMalformed)
    } else if namespace@[15] != 0 {
        Some(Error::NamespaceMalformed)
    } else if need_namespace && namespace_index_of(nvs.namespaces@, namespace@) is None {
        Some(Error::NamespaceNotFound)
    } else {
        None
    }
}

impl<T: Platform> Nvs<T> {
    /// Reads the primitive value of `key` in `namespace`, stored with type `type_`.
    pub fn get_primitive(&mut self, namespace: &Key, key: &Key, type_: ItemType) -> (r: Result<u64, Error>)
        requires
            old(self).wf(),
        ensures
            final(self).same_state(*old(self)),
            match argument_error(*old(self), *namespace, *key, true) {
                Some(e) => r == Err::<u64, Error>(e),
                None => {
                    let ns = namespace_index_of(old(self).namespaces@, namespace@)->0;
                    match r {
                        Ok(v) => exists|p: int, i: u8, it: Item|
                            #[trigger] found_in(*old(self), ns, key@, 0xFF, p, i, it) && it.type_ == type_ && v == u64_le(it.data@),
                        Err(Error::ItemTypeMismatch(t)) => exists|p: int, i: u8, it: Item|
                            #[trigger] found_in(*old(self), ns, key@, 0xFF, p, i, it) && it.type_ != type_ && t == it.type_,
                        Err(Error::KeyNotFound) => lookup_missing::<T>(old(self).pages@, old(self).flash(), ns, key@, 0xFF),
                        Err(Error::FlashError) => true,
                        _ => false,
                    }
                },
            },
    {
        if !key.is_terminated() {
            return Err(Error::KeyMalformed);
        }
        if !namespace.is_terminated() {
            return Err(Error::NamespaceMalformed);
        }
        let namespace_index = match self.find_namespace(namespace) {
            Some(i) => i,
            None => return Err(Error::NamespaceNotFound),
        };
        let (page_index, item_index, item) = self.load_item(namespace_index, ChunkIndex::Any, key)?;
        proof {
            assert(found_in(*old(self), namespace_index, key@, 0xFF, page_index.0 as int, item_index.0, item));
        }
        if !item.type_.same(&type_) {
            return Err(Error::ItemTypeMismatch(item.type_));
        }
        Ok(item.raw_u64())
    }

    /// Reads the string value of `key` in `namespace`.
    pub fn get_string(&mut self, namespace: &Key, key: &Key) -> (r: Result<String, Error>)
        requires
            old(self).wf(),
        ensures
            final(self).same_state(*old(self)),
            match argument_error(*old(self), *namespace, *key, true) {
                Some(e) => r == Err::<String, Error>(e),
                None => {
                    let ns = namespace_index_of(old(self).namespaces@, namespace@)->0;
                    let flash = old(self).flash();
                    match r {
                        Ok(s) => exists|p: int, i: u8, it: Item| {
                            let d = referenced_data(flash, old(self).pages@[p].address as int, i as int, it);
                            &&& #[trigger] found_in(*old(self), ns, key@, 0xFF, p, i, it)
                            &&& it.type_ == ItemType::Sized
                            &&& sized_crc(it.data@) == T::spec_crc32(0xFFFF_FFFF, d)
                            &&& d.len() >= 1
                            &&& vstd::utf8::encode_utf8(s@) == d.take(d.len() - 1)
                        },
                        Err(Error::ItemTypeMismatch(t)) => exists|p: int, i: u8, it: Item|
                            #[trigger] found_in(*old(self), ns, key@, 0xFF, p, i, it) && it.type_ != ItemType::Sized && t == it.type_,
                        Err(Error::KeyNotFound) => lookup_missing::<T>(old(self).pages@, flash, ns, key@, 0xFF) || exists|p: int, i: u8, it: Item| {
                            let d = referenced_data(flash, old(self).pages@[p].address as int, i as int, it);
                            &&& #[trigger] found_in(*old(self), ns, key@, 0xFF, p, i, it)
                            &&& it.type_ == ItemType::Sized
                            &&& sized_crc(it.data@) != T::spec_crc32(0xFFFF_FFFF, d)
                        },
                        Err(Error::CorruptedData) => exists|p: int, i: u8, it: Item| {
                            let d = referenced_data(flash, old(self).pages@[p].address as int, i as int, it);
                            &&& #[trigger] found_in(*old(self), ns, key@, 0xFF, p, i, it)
                            &&& it.type_ == ItemType::Sized
                            &&& sized_crc(it.data@) == T::spec_crc32(0xFFFF_FFFF, d)
                            &&& (d.len() == 0 || !vstd::utf8::valid_utf8(d.take(d.len() - 1)))
                        },
                        Err(Error::FlashError) => true,
                        _ => false,
                    }
                },
            },
    {
        if !key.is_terminated() {
            return Err(Error::KeyMalformed);
        }
        if !namespace.is_terminated() {
            return Err(Error::NamespaceMalformed);
        }
        let namespace_index = match self.find_namespace(namespace) {
            Some(i) => i,
            None => return Err(Error::NamespaceNotFound),
        };
        let (page_index, item_index, item) = self.load_item(namespace_index, ChunkIndex::Any, key)?;
        proof {
            assert(found_in(*old(self), namespace_index, key@, 0xFF, page_index.0 as int, item_index.0, item));
        }
        if !item.type_.same(&ItemType::Sized) {
            return Err(Error::ItemTypeMismatch(item.type_));
        }
        let data = self.pages[page_index.0].load_referenced_data(&mut self.hal, item_index.0, &item)?;
        let crc = item.sized_crc();
        if crc != T::crc32(0xFFFF_FFFF, data.as_slice()) {
            return Err(Error::KeyNotFound);
        }
        if data.len() == 0 {
            return Err(Error::CorruptedData);
        }
        let text = vstd::slice::slice_subrange(data.as_slice(), 0, data.len() - 1);
        proof {
            assert(text@ == data@.take(data@.len() - 1));
        }
        match str_from_utf8(text) {
            Some(s) => Ok(s.to_owned()),
            None => Err(Error::CorruptedData),
        }
    }

    /// Reads the blob value of `key` in `namespace`: the chunks listed by its blob index,
    /// whose data must add up to exactly the size it records (else the blob is corrupted),
    /// or the data of a single-page blob of the older format.
    #[verifier::spinoff_prover]
    #[verifier::rlimit(100)]
    pub fn get_blob(&mut self, namespace: &Key, key: &Key) -> (r: Result<Vec<u8>, Error>)
        requires
            old(self).wf(),
        ensures
            final(self).same_state(*old(self)),
            match argument_error(*old(self), *namespace, *key, true) {
                Some(e) => r == Err::<Vec<u8>, Error>(e),
                None => {
                    let ns = namespace_index_of(old(self).namespaces@, namespace@)->0;
                    let flash = old(self).flash();
                    match r {
                        Ok(v) => exists|p: int, i: u8, it: Item| {
                            &&& #[trigger] found_in(*old(self), ns, key@, 0xFF, p, i, it)
                            &&& {
                                ||| it.type_ == ItemType::BlobIndex && v@.len() == blob_index_size(it.data@)
                                    && v@.len() <= MAX_BLOB_SIZE && it.data@[5] + it.data@[4] <= 255
                                    && exists|ds: Seq<Seq<u8>>| {
                                        &&& ds.len() == it.data@[4]
                                        &&& forall|k: int| 0 <= k < ds.len() ==> chunk_found::<T>(*old(self), ns, key@, (it.data@[5] + k) as u8, #[trigger] ds[k])
                                        &&& v@ == concat_chunks(ds)
                                    }
                                ||| it.type_ == ItemType::Blob && v@ == referenced_data(flash, old(self).pages@[p].address as int, i as int, it)
                                    && sized_crc(it.data@) == T::spec_crc32(0xFFFF_FFFF, v@)
                            }
                        },
                        Err(Error::ItemTypeMismatch(t)) => exists|p: int, i: u8, it: Item|
                            #[trigger] found_in(*old(self), ns, key@, 0xFF, p, i, it) && (it.type_ == ItemType::BlobIndex || (it.type_ != ItemType::Blob && t == it.type_)),
                        Err(Error::CorruptedData) => exists|p: int, i: u8, it: Item|
                            #[trigger] found_in(*old(self), ns, key@, 0xFF, p, i, it) && (it.type_ == ItemType::BlobIndex || it.type_ == ItemType::Blob),
                        Err(Error::KeyNotFound) => lookup_missing::<T>(old(self).pages@, flash, ns, key@, 0xFF) || exists|p: int, i: u8, it: Item|
                            #[trigger] found_in(*old(self), ns, key@, 0xFF, p, i, it) && it.type_ == ItemType::BlobIndex,
                        Err(Error::FlashError) => true,
                        _ => false,
                    }
                },
            },
            argument_error(*old(self), *namespace, *key, true) is None && (exists|p: int, i: u8, it: Item|
                #[trigger] found_in(*old(self), namespace_index_of(old(self).namespaces@, namespace@)->0, key@, 0xFF, p, i, it))
                && (forall|p: int, i: u8, it: Item|
                #[trigger] found_in(*old(self), namespace_index_of(old(self).namespaces@, namespace@)->0, key@, 0xFF, p, i, it)
                    ==> it.type_ == ItemType::BlobIndex && (blob_index_size(it.data@) > MAX_BLOB_SIZE || it.data@[5] + it.data@[4]
                    > 255)) ==> r == Err::<Vec<u8>, Error>(Error::CorruptedData) || r == Err::<Vec<u8>, Error>(Error::FlashError),
            argument_error(*old(self), *namespace, *key, true) is None && (exists|p: int, i: u8, it: Item|
                #[trigger] found_in(*old(self), namespace_index_of(old(self).namespaces@, namespace@)->0, key@, 0xFF, p, i, it)
                    && blob_readable::<T>(
                    old(self).pages@,
                    old(self).flash(),
                    namespace_index_of(old(self).namespaces@, namespace@)->0,
                    key@,
                    it,
                )) ==> r is Ok || r == Err::<Vec<u8>, Error>(Error::FlashError),
    {
        if !key.is_terminated() {
            return Err(Error::KeyMalformed);
        }
        if !namespace.is_terminated() {
            return Err(Error::NamespaceMalformed);
        }
        let namespace_index = match self.find_namespace(namespace) {
            Some(i) => i,
            None => return Err(Error::NamespaceNotFound),
        };
        let ghost old_self = *self;
        let (page_index, item_index, item) = match self.load_item(namespace_index, ChunkIndex::Any, key) {
            Ok(x) => x,
            Err(e) => {
                proof {
                    if e == Error::KeyNotFound && exists|p: int, i: u8, it: Item|
                        #[trigger] found_in(*old(self), namespace_index, key@, 0xFF, p, i, it) {
                        let (p, i, it) = choose|p: int, i: u8, it: Item| #[trigger] found_in(*old(self), namespace_index, key@, 0xFF, p, i, it);
                        lemma_lookup_exclusive::<T>(old(self).pages@, old(self).flash(), namespace_index, key@, 0xFF, p, i, it);
                    }
                }
                return Err(e);
            },
        };
        let ghost fits = exists|p: int, i: u8, it: Item|
            #[trigger] found_in(*old(self), namespace_index, key@, 0xFF, p, i, it) && blob_readable::<T>(
                old(self).pages@,
                old(self).flash(),
                namespace_index,
                key@,
                it,
            );
        proof {
            assert(found_in(*old(self), namespace_index, key@, 0xFF, page_index.0 as int, item_index.0, item));
            if fits {
                let (p, i, it) = choose|p: int, i: u8, it: Item|
                    #[trigger] found_in(*old(self), namespace_index, key@, 0xFF, p, i, it) && blob_readable::<T>(
                        old(self).pages@,
                        old(self).flash(),
                        namespace_index,
                        key@,
                        it,
                    );
                lemma_lookup_deterministic::<T>(
                    old(self).pages@,
                    old(self).flash(),
                    namespace_index,
                    key@,
                    0xFF,
                    p,
                    i,
                    it,
                    page_index.0 as int,
                    item_index.0,
                    item,
                );
                assert(blob_readable::<T>(old(self).pages@, old(self).flash(), namespace_index, key@, item));
            }
        }
        if item.type_.same(&ItemType::BlobIndex) {
            let size = item.blob_size();
            if size as usize > MAX_BLOB_SIZE {
                return Err(Error::CorruptedData);
            }
            let chunk_count = item.chunk_count();
            let chunk_start = item.chunk_start();
            if chunk_start as usize + chunk_count as usize > 255 {
                return Err(Error::CorruptedData);
            }
            let mut buf = vec![0u8; size as usize];
            let mut offset: usize = 0;
            let mut chunk: u8 = chunk_start;
            let end: u8 = chunk_start + chunk_count;
            let ghost mut ds: Seq<Seq<u8>> = Seq::empty();
            proof {
                assert(buf@ =~= filled(size as nat, concat_chunks(ds), 0));
            }
            while chunk < end
                invariant
                    chunk_start <= chunk <= end,
                    end == chunk_start + chunk_count,
                    chunk_count == item.data@[4],
                    chunk_start == item.data@[5],
                    offset <= buf@.len(),
                    buf@.len() == size,
                    self.wf(),
                    self.same_state(old_self),
                    old_self == *old(self),
                    found_in(*old(self), namespace_index, key@, 0xFF, page_index.0 as int, item_index.0, item),
                    blob_index_size(item.data@) <= MAX_BLOB_SIZE,
                    size == blob_index_size(item.data@),
                    item.type_ == ItemType::BlobIndex,
                    argument_error(*old(self), *namespace, *key, true) is None,
                    namespace_index_of(old(self).namespaces@, namespace@) == Some(namespace_index),
                    ds.len() == chunk - chunk_start,
                    fits == exists|p: int, i: u8, it: Item|
                        #[trigger] found_in(*old(self), namespace_index, key@, 0xFF, p, i, it) && blob_readable::<T>(
                            old(self).pages@,
                            old(self).flash(),
                            namespace_index,
                            key@,
                            it,
                        ),
                    fits ==> blob_readable::<T>(old(self).pages@, old(self).flash(), namespace_index, key@, item)
                        && chunk_datas::<T>(old(self).pages@, old(self).flash(), namespace_index, key@, chunk_start as int, chunk - chunk_start)
                        == Some(ds),
                    forall|k: int|
                        0 <= k < ds.len() ==> chunk_found::<T>(*old(self), namespace_index, key@, (chunk_start + k) as u8, #[trigger] ds[k]),
                    offset == if concat_chunks(ds).len() < size { concat_chunks(ds).len() as int } else { size as int },
                    concat_chunks(ds).len() <= size,
                    buf@ == filled(size as nat, concat_chunks(ds), offset as int),
                decreases end - chunk,
            {
                proof {
                    assert(found_in(*old(self), namespace_index, key@, 0xFF, page_index.0 as int, item_index.0, item));
                }
                if offset >= buf.len() {
                    proof {
                        if fits {
                            lemma_readable_step::<T>(old(self).pages@, old(self).flash(), namespace_index, key@, item, chunk - chunk_start, ds);
                        }
                        let ns = namespace_index_of(old(self).namespaces@, namespace@)->0;
                        assert(ns == namespace_index);
                        assert(argument_error(*old(self), *namespace, *key, true) is None);
                        assert(exists|p: int, i: u8, it: Item|
                            #[trigger] found_in(*old(self), ns, key@, 0xFF, p, i, it) && (it.type_ == ItemType::BlobIndex || it.type_ == ItemType::Blob));
                    }
                    return Err(Error::CorruptedData);
                }
                proof {
                    if fits {
                        lemma_readable_step::<T>(old(self).pages@, old(self).flash(), namespace_index, key@, item, chunk - chunk_start, ds);
                        assert((chunk_start + (chunk - chunk_start)) as u8 == chunk);
                    }
                }
                let (chunk_page, chunk_item_index, chunk_item) = match self.load_item(namespace_index, ChunkIndex::BlobData(chunk), key) {
                    Ok(x) => x,
                    Err(e) => {
                        proof {
                            if fits && e == Error::KeyNotFound {
                                lemma_blob_chunk_data_missing::<T>(*old(self), namespace_index, key@, chunk);
                            }
                        }
                        return Err(e);
                    },
                };
                proof {
                    lemma_blob_chunk_data_at::<T>(
                        *old(self),
                        namespace_index,
                        key@,
                        chunk,
                        chunk_page.0 as int,
                        chunk_item_index.0,
                        chunk_item,
                    );
                    let ns = namespace_index_of(old(self).namespaces@, namespace@)->0;
                    assert(ns == namespace_index);
                    assert(found_in(*old(self), ns, key@, 0xFF, page_index.0 as int, item_index.0, item));
                    assert(found_in(*old(self), namespace_index, key@, chunk, chunk_page.0 as int, chunk_item_index.0, chunk_item));
                }
                if !chunk_item.type_.same(&ItemType::BlobData) {
                    return Err(Error::ItemTypeMismatch(chunk_item.type_));
                }
                proof {
                    assert(self.pages@[chunk_page.0 as int].wf());
                }
                let data = self.pages[chunk_page.0].load_referenced_data(&mut self.hal, chunk_item_index.0, &chunk_item)?;
                let data_crc = chunk_item.sized_crc();
                if data_crc != T::crc32(0xFFFF_FFFF, data.as_slice()) {
                    return Err(Error::CorruptedData);
                }
                proof {
                    assert(data@ == referenced_data(
                        old(self).flash(),
                        old(self).pages@[chunk_page.0 as int].address as int,
                        chunk_item_index.0 as int,
                        chunk_item,
                    ));
                }
                proof {
                    if fits {
                        assert(blob_chunk_data::<T>(old(self).pages@, old(self).flash(), namespace_index, key@, chunk) == Some(data@));
                    }
                }
                let ghost all = concat_chunks(ds) + data@;
                let remaining = buf.len() - offset;
                if data.len() > remaining {
                    proof {
                        let ns = namespace_index_of(old(self).namespaces@, namespace@)->0;
                        assert(ns == namespace_index);
                        assert(found_in(*old(self), ns, key@, 0xFF, page_index.0 as int, item_index.0, item));
                    }
                    return Err(Error::CorruptedData);
                }
                let read_bytes = if data.len() < remaining { data.len() } else { remaining };
                let mut k: usize = 0;
                proof {
                    assert(concat_chunks(ds).len() == offset);
                    assert(buf@ =~= filled(size as nat, all, offset as int));
                }
                while k < read_bytes
                    invariant
                        k <= read_bytes,
                        read_bytes <= data@.len(),
                        offset + read_bytes <= buf@.len(),
                        buf@.len() == size,
                        all == concat_chunks(ds) + data@,
                        concat_chunks(ds).len() == offset,
                        buf@ == filled(size as nat, all, offset + k),
                    decreases read_bytes - k,
                {
                    buf[offset + k] = data[k];
                    k += 1;
                    proof {
                        assert(buf@ =~= filled(size as nat, all, offset + k));
                    }
                }
                proof {
                    let ds2 = ds.push(data@);
                    assert(ds2.drop_last() =~= ds);
                    assert(concat_chunks(ds2) == all);
                    assert(chunk_found::<T>(*old(self), namespace_index, key@, chunk, data@));
                    if fits {
                        assert(blob_chunk_data::<T>(old(self).pages@, old(self).flash(), namespace_index, key@, chunk) == Some(data@));
                    }
                    assert forall|k2: int| 0 <= k2 < ds2.len() implies chunk_found::<T>(*old(self), namespace_index, key@, (chunk_start + k2) as u8, #[trigger] ds2[k2]) by {
                        if k2 < ds.len() {
                            assert(ds2[k2] == ds[k2]);
                        }
                    }
                    ds = ds2;
                }
                offset += read_bytes;
                chunk += 1;
            }
            if offset != buf.len() {
                proof {
                    if fits {
                        lemma_readable_step::<T>(old(self).pages@, old(self).flash(), namespace_index, key@, item, chunk - chunk_start, ds);
                    }
                    let ns = namespace_index_of(old(self).namespaces@, namespace@)->0;
                    assert(ns == namespace_index);
                    assert(found_in(*old(self), ns, key@, 0xFF, page_index.0 as int, item_index.0, item));
                }
                return Err(Error::CorruptedData);
            }
            proof {
                assert(buf@ =~= concat_chunks(ds));
                assert(found_in(*old(self), namespace_index, key@, 0xFF, page_index.0 as int, item_index.0, item));
                assert(ds.len() == item.data@[4]);
                assert(forall|k: int| 0 <= k < ds.len() ==> chunk_found::<T>(*old(self), namespace_index, key@, (item.data@[5] + k) as u8, #[trigger] ds[k]));
            }
            Ok(buf)
        } else if item.type_.same(&ItemType::Blob) {
            let data = self.pages[page_index.0].load_referenced_data(&mut self.hal, item_index.0, &item)?;
            let crc = item.sized_crc();
            if crc != T::crc32(0xFFFF_FFFF, data.as_slice()) {
                return Err(Error::CorruptedData);
            }
            Ok(data)
        } else {
            Err(Error::ItemTypeMismatch(item.type_))
        }
    }

    /// The version of the blob index stored under `key` in `namespace`, if there is one.
    pub fn find_existing_blob_version(&mut self, namespace: &Key, key: &Key) -> (r: Option<VersionOffset>)
        requires
            old(self).wf(),
        ensures
            final(self).same_state(*old(self)),
            r matches Some(v) ==> exists|p: int, i: u8, it: Item|
                #[trigger] found_in(*old(self), namespace_index_of(old(self).namespaces@, namespace@)->0, key@, 0xFF, p, i, it)
                    && namespace_index_of(old(self).namespaces@, namespace@) is Some
                    && it.type_ == ItemType::BlobIndex && v == version_of(it.data@[5]),
            (namespace_index_of(old(self).namespaces@, namespace@) is None || exists|p: int, i: u8, it: Item|
                #[trigger] found_in(*old(self), namespace_index_of(old(self).namespaces@, namespace@)->0, key@, 0xFF, p, i, it)
                    && it.type_ != ItemType::BlobIndex) ==> r is None,
            namespace_index_of(old(self).namespaces@, namespace@) matches Some(ns) && lookup_missing::<T>(
                old(self).pages@,
                old(self).flash(),
                ns,
                key@,
                0xFF,
            ) ==> r is None,
    {
        let namespace_index = match self.find_namespace(namespace) {
            Some(idx) => idx,
            None => return None,
        };
        match self.load_item(namespace_index, ChunkIndex::Any, key) {
            Ok((page_index, item_index, item)) => {
                proof {
                    assert(found_in(*old(self), namespace_index, key@, 0xFF, page_index.0 as int, item_index.0, item));
                    assert forall|p: int, i: u8, it: Item| #[trigger] found_in(*old(self), namespace_index, key@, 0xFF, p, i, it) implies it == item by {
                        lemma_lookup_deterministic::<T>(old(self).pages@, old(self).flash(), namespace_index, key@, 0xFF, p, i, it, page_index.0 as int, item_index.0, item);
                    }
                }
                if item.type_.same(&ItemType::BlobIndex) {
                    Some(VersionOffset::from_u8(item.chunk_start()))
                } else {
                    None
                }
            },
            Err(_) => None,
        }
    }

    /// Erases the item stored under (`namespace_index`, `key`, `chunk_index`).
    pub fn delete_single(&mut self, namespace_index: u8, key: &Key, chunk_index: ChunkIndex) -> (r: Result<Item, Error>)
        requires
            old(self).wf(),
        ensures
            final(self).wf(),
            final(self).namespaces == old(self).namespaces,
            final(self).free_pages == old(self).free_pages,
            final(self).base_address == old(self).base_address,
            final(self).sectors == old(self).sectors,
            lists_shrunk(old(self).pages@, final(self).pages@),
            erased_kept(old(self).pages@, final(self).pages@),
            r is Ok ==> old(self).header_areas_frame(old(self).flash(), final(self).flash()),
            match r {
                Ok(it) => exists|p: int, i: u8|
                    #[trigger] found_in(*old(self), namespace_index, key@, chunk_field(chunk_index), p, i, it)
                        && (forall|j: int|
                        0 <= j < final(self).pages@[p].item_hash_list@.len()
                            ==> (#[trigger] final(self).pages@[p].item_hash_list@[j]).index != i)
                        && entries_erased(final(self).pages@[p], i as int, it.span as int),
                Err(Error::KeyNotFound) => lookup_missing::<T>(old(self).pages@, old(self).flash(), namespace_index, key@, chunk_field(chunk_index))
                    && final(self).same_state(*old(self)),
                Err(Error::CorruptedData) => exists|p: int, i: u8, it: Item|
                    #[trigger] found_in(*old(self), namespace_index, key@, chunk_field(chunk_index), p, i, it),
                Err(Error::FlashError) => true,
                _ => false,
            },
    {
        let (page_index, item_index, item) = match self.load_item(namespace_index, chunk_index, key) {
            Ok(x) => x,
            Err(e) => {
                proof {
                    lemma_lists_shrunk_refl(self.pages@);
                    lemma_erased_kept_refl(self.pages@);
                }
                return Err(e);
            },
        };
        proof {
            assert(found_in(*old(self), namespace_index, key@, chunk_field(chunk_index), page_index.0 as int, item_index.0, item));
            assert(self.pages@[page_index.0 as int].wf());
            let e = choose|j: int|
                #![trigger old(self).pages@[page_index.0 as int].item_hash_list@[j]]
                is_candidate(old(self).pages@, page_index.0 as int, j, item_hash::<T>(namespace_index, key@, chunk_field(chunk_index)))
                    && old(self).pages@[page_index.0 as int].item_hash_list@[j].index == item_index.0
                    && listed_item::<T>(old(self).pages@, old(self).flash(), page_index.0 as int, j) == Some(item)
                    && item_matches(item, namespace_index, key@, chunk_field(chunk_index))
                    && passed_before::<T>(old(self).pages@, old(self).flash(), namespace_index, key@, chunk_field(chunk_index), page_index.0 as int, j);
            assert(item_index.0 < ENTRIES_PER_PAGE);
        }
        let ghost before = *self;
        self.erase_entry(page_index.0, item_index.0, item.span)?;
        proof {
            before.lemma_page_header_frame(before.pages@[page_index.0 as int], before.flash(), self.flash());
            assert(entries_erased(self.pages@[page_index.0 as int], item_index.0 as int, item.span as int));
            assert(found_in(*old(self), namespace_index, key@, chunk_field(chunk_index), page_index.0 as int, item_index.0, item));
        }
        Ok(item)
    }

    /// Deletes the item stored under (`namespace_index`, `key`, `chunk_index`), and, when
    /// it is a blob index, the data chunks of its blob version.
    pub fn delete_key(&mut self, namespace_index: u8, key: &Key, chunk_index: ChunkIndex) -> (r: Result<(), Error>)
        requires
            old(self).wf(),
        ensures
            final(self).wf(),
            final(self).namespaces == old(self).namespaces,
            final(self).free_pages == old(self).free_pages,
            final(self).base_address == old(self).base_address,
            final(self).sectors == old(self).sectors,
            lists_shrunk(old(self).pages@, final(self).pages@),
            erased_kept(old(self).pages@, final(self).pages@),
            r is Ok ==> old(self).header_areas_frame(old(self).flash(), final(self).flash()),
            match r {
                Ok(()) => exists|p: int, i: u8, it: Item|
                    #[trigger] found_in(*old(self), namespace_index, key@, chunk_field(chunk_index), p, i, it)
                        && (forall|j: int|
                        0 <= j < final(self).pages@[p].item_hash_list@.len()
                            ==> (#[trigger] final(self).pages@[p].item_hash_list@[j]).index != i)
                        && entries_erased(final(self).pages@[p], i as int, it.span as int),
                Err(Error::KeyNotFound) => lookup_missing::<T>(old(self).pages@, old(self).flash(), namespace_index, key@, chunk_field(chunk_index))
                    && final(self).same_state(*old(self)),
                Err(Error::CorruptedData) => exists|p: int, i: u8, it: Item|
                    #[trigger] found_in(*old(self), namespace_index, key@, chunk_field(chunk_index), p, i, it),
                Err(Error::FlashError) => true,
                _ => false,
            },
            r is Ok && lists_consistent::<T>(old(self).pages@, old(self).flash()) ==> forall|p: int, i: u8, it: Item|
                #[trigger] found_in(*old(self), namespace_index, key@, chunk_field(chunk_index), p, i, it) && it.type_
                    == ItemType::BlobIndex ==> chunks_missing(*final(self), namespace_index, key@, version_of(it.data@[5])),
    {
        let item = self.delete_single(namespace_index, key, chunk_index)?;
        proof {
            let (p0, i0) = choose|p: int, i: u8|
                #[trigger] found_in(*old(self), namespace_index, key@, chunk_field(chunk_index), p, i, item)
                    && (forall|j: int|
                    0 <= j < self.pages@[p].item_hash_list@.len() ==> (#[trigger] self.pages@[p].item_hash_list@[j]).index != i)
                    && entries_erased(self.pages@[p], i as int, item.span as int);
            assert forall|p: int, i: u8, it: Item|
                #[trigger] found_in(*old(self), namespace_index, key@, chunk_field(chunk_index), p, i, it) implies it == item by {
                lemma_lookup_deterministic::<T>(
                    old(self).pages@,
                    old(self).flash(),
                    namespace_index,
                    key@,
                    chunk_field(chunk_index),
                    p,
                    i,
                    it,
                    p0,
                    i0,
                    item,
                );
            }
            if lists_consistent::<T>(old(self).pages@, old(self).flash()) {
                lemma_consistency_kept::<T>(*old(self), self.pages@, self.flash());
            }
        }
        let ghost mid = self.pages@;
        let ghost mid_flash = self.flash();
        if item.type_.same(&ItemType::BlobIndex) {
            let ghost before = *self;
            let r = self.delete_blob_data(item.namespace_index, key, VersionOffset::from_u8(item.chunk_start()));
            proof {
                lemma_lists_shrunk_trans(old(self).pages@, mid, self.pages@);
                lemma_erased_kept_trans(old(self).pages@, mid, self.pages@);
                let (p, i) = choose|p: int, i: u8|
                    #[trigger] found_in(*old(self), namespace_index, key@, chunk_field(chunk_index), p, i, item)
                        && (forall|j: int|
                        0 <= j < mid[p].item_hash_list@.len() ==> (#[trigger] mid[p].item_hash_list@[j]).index != i)
                        && entries_erased(mid[p], i as int, item.span as int);
                assert forall|k: int| i <= k < i + item.span implies #[trigger] entry_state_at(
                    self.pages@[p].entry_state_bitmap@,
                    k,
                ) == EntryMapState::Erased by {
                    assert(entry_state_at(mid[p].entry_state_bitmap@, k) == EntryMapState::Erased);
                }
                assert(found_in(*old(self), namespace_index, key@, chunk_field(chunk_index), p, i, item));
                assert forall|j: int| 0 <= j < self.pages@[p].item_hash_list@.len() implies (#[trigger] self.pages@[p].item_hash_list@[j]).index != i by {
                    let e = self.pages@[p].item_hash_list@[j];
                    assert(lists_shrunk(mid, self.pages@));
                    assert(mid[p].item_hash_list@.contains(e));
                }
            }
            r?;
            proof {
                old(self).lemma_header_areas_frame_trans(old(self).flash(), mid_flash, self.flash());
            }
        }
        Ok(())
    }

    /// Deletes the data chunks of blob version `chunk_start` of `key`; chunks that are
    /// not found are skipped.
    pub fn delete_blob_data(&mut self, namespace_index: u8, key: &Key, chunk_start: VersionOffset) -> (r: Result<(), Error>)
        requires
            old(self).wf(),
        ensures
            final(self).wf(),
            final(self).namespaces == old(self).namespaces,
            final(self).free_pages == old(self).free_pages,
            final(self).base_address == old(self).base_address,
            final(self).sectors == old(self).sectors,
            lists_shrunk(old(self).pages@, final(self).pages@),
            erased_kept(old(self).pages@, final(self).pages@),
            r is Ok ==> old(self).header_areas_frame(old(self).flash(), final(self).flash()),
            r is Ok || r == Err::<(), Error>(Error::FlashError) || r == Err::<(), Error>(Error::CorruptedData),
            r is Ok && lists_consistent::<T>(old(self).pages@, old(self).flash()) ==> {
                &&& lists_consistent::<T>(final(self).pages@, final(self).flash())
                &&& forall|c: int|
                    version_base(chunk_start) <= c < version_base(chunk_start) + 127 ==> #[trigger] lookup_missing::<T>(
                        final(self).pages@,
                        final(self).flash(),
                        namespace_index,
                        key@,
                        c as u8,
                    )
            },
    {
        let raw_chunk_start = chunk_start.base();
        let end: u8 = raw_chunk_start + 127;
        let mut chunk: u8 = raw_chunk_start;
        proof {
            lemma_lists_shrunk_refl(self.pages@);
            lemma_erased_kept_refl(self.pages@);
            old(self).lemma_header_areas_frame_refl(self.flash());
        }
        while chunk < end
            invariant
                raw_chunk_start <= chunk <= end,
                old(self).header_areas_frame(old(self).flash(), self.flash()),
                self.wf(),
                self.namespaces == old(self).namespaces,
                self.free_pages == old(self).free_pages,
                self.base_address == old(self).base_address,
                self.sectors == old(self).sectors,
                lists_shrunk(old(self).pages@, self.pages@),
                erased_kept(old(self).pages@, self.pages@),
                raw_chunk_start == version_base(chunk_start),
                end == raw_chunk_start + 127,
                old(self).wf(),
                lists_consistent::<T>(old(self).pages@, old(self).flash()) ==> forall|c: int|
                    raw_chunk_start <= c < chunk ==> #[trigger] lookup_missing::<T>(
                        self.pages@,
                        self.flash(),
                        namespace_index,
                        key@,
                        c as u8,
                    ),
            decreases end - chunk,
        {
            let ghost before = self.pages@;
            let ghost before_flash = self.flash();
            let ghost bs = *self;
            proof {
                if lists_consistent::<T>(old(self).pages@, old(self).flash()) {
                    lemma_consistency_kept::<T>(*old(self), bs.pages@, bs.flash());
                }
            }
            match self.delete_single(namespace_index, key, ChunkIndex::BlobData(chunk)) {
                Ok(_) => {
                    proof {
                        old(self).lemma_header_areas_frame_trans(old(self).flash(), before_flash, self.flash());
                        if lists_consistent::<T>(old(self).pages@, old(self).flash()) {
                            lemma_lookup_misses_after_delete::<T>(bs, *self, namespace_index, key@, chunk);
                            assert forall|c: int| raw_chunk_start <= c < chunk + 1 implies #[trigger] lookup_missing::<T>(
                                self.pages@,
                                self.flash(),
                                namespace_index,
                                key@,
                                c as u8,
                            ) by {
                                if c < chunk {
                                    lemma_lookup_missing_kept::<T>(bs, self.pages@, self.flash(), namespace_index, key@, c as u8);
                                }
                            }
                        }
                    }
                },
                Err(Error::KeyNotFound) => {},
                Err(e) => {
                    proof {
                        lemma_lists_shrunk_trans(old(self).pages@, before, self.pages@);
                        lemma_erased_kept_trans(old(self).pages@, before, self.pages@);
                    }
                    return Err(e);
                },
            }
            proof {
                lemma_lists_shrunk_trans(old(self).pages@, before, self.pages@);
                lemma_erased_kept_trans(old(self).pages@, before, self.pages@);
            }
            chunk += 1;
        }
        proof {
            if lists_consistent::<T>(old(self).pages@, old(self).flash()) {
                lemma_consistency_kept::<T>(*old(self), self.pages@, self.flash());
            }
        }
        Ok(())
    }

    /// Whether the blob version described by `blob_item` holds `data`: its size matches,
    /// and its chunks, from the last one back, hold the tail of `data`.
    pub fn blob_is_equal(&mut self, namespace_index: u8, key: &Key, blob_item: &Item, data: &[u8]) -> (r: Result<bool, Error>)
        requires
            old(self).wf(),
        ensures
            final(self).same_state(*old(self)),
            match r {
                Ok(b) => b == (blob_index_size(blob_item.data@) == data@.len() && chunks_hold_tail::<T>(
                    old(self).pages@,
                    old(self).flash(),
                    namespace_index,
                    key@,
                    blob_item.data@[5] as int,
                    blob_item.data@[4] as int,
                    data@,
                )),
                Err(Error::CorruptedData) => blob_index_size(blob_item.data@) == data@.len() && blob_item.data@[5]
                    + blob_item.data@[4] > 255,
                Err(Error::KeyNotFound) => blob_index_size(blob_item.data@) == data@.len() && !chunks_hold_tail::<T>(
                    old(self).pages@,
                    old(self).flash(),
                    namespace_index,
                    key@,
                    blob_item.data@[5] as int,
                    blob_item.data@[4] as int,
                    data@,
                ),
                Err(Error::FlashError) => true,
                _ => false,
            },
            blob_index_size(blob_item.data@) != data@.len() ==> r == Ok::<bool, Error>(false),
            blob_index_size(blob_item.data@) == data@.len() && blob_item.data@[5] + blob_item.data@[4] > 255 ==> r
                == Err::<bool, Error>(Error::CorruptedData),
    {
        let size = blob_item.blob_size();
        if size as usize != data.len() {
            return Ok(false);
        }
        let chunks = blob_item.chunk_count();
        let chunk_start = blob_item.chunk_start();
        if chunk_start as usize + chunks as usize > 255 {
            return Err(Error::CorruptedData);
        }
        let ghost old_self = *self;
        let ghost start = chunk_start as int;
        let ghost total = chunks_hold_tail::<T>(old_self.pages@, old_self.flash(), namespace_index, key@, start, chunks as int, data@);
        let mut to_len: usize = data.len();
        let mut chunk_index: u8 = chunk_start + chunks;
        proof {
            assert(data@.subrange(0, to_len as int) =~= data@);
        }
        while chunk_index > chunk_start
            invariant
                chunk_start <= chunk_index <= chunk_start + chunks,
                chunk_start + chunks <= 255,
                start == chunk_start,
                chunk_start == blob_item.data@[5],
                chunks == blob_item.data@[4],
                to_len <= data@.len(),
                self.wf(),
                self.same_state(old_self),
                old_self == *old(self),
                blob_index_size(blob_item.data@) == data@.len(),
                total == chunks_hold_tail::<T>(old_self.pages@, old_self.flash(), namespace_index, key@, start, chunks as int, data@),
                total == chunks_hold_tail::<T>(old_self.pages@, old_self.flash(), namespace_index, key@, start, chunk_index - start, data@.subrange(0, to_len as int)),
            decreases chunk_index - chunk_start,
        {
            let ghost n = chunk_index - start;
            let ghost dd = data@.subrange(0, to_len as int);
            chunk_index -= 1;
            proof {
                assert((start + n - 1) as u8 == chunk_index);
            }
            let (page_index, item_index, item) = match self.load_item(namespace_index, ChunkIndex::BlobData(chunk_index), key) {
                Ok(x) => x,
                Err(e) => {
                    proof {
                        if e == Error::KeyNotFound {
                            lemma_blob_chunk_data_missing::<T>(old_self, namespace_index, key@, chunk_index);
                        }
                    }
                    return Err(e);
                },
            };
            let ghost p = page_index.0 as int;
            let ghost i = item_index.0;
            proof {
                assert(found_in(old_self, namespace_index, key@, chunk_index, p, i, item));
                lemma_blob_chunk_data_at::<T>(old_self, namespace_index, key@, chunk_index, p, i, item);
            }
            if !item.type_.same(&ItemType::BlobData) {
                return Ok(false);
            }
            let chunk_size = item.sized_size() as usize;
            if chunk_size > to_len {
                return Ok(false);
            }
            let chunk_data = match self.pages[page_index.0].load_referenced_data(&mut self.hal, item_index.0, &item) {
                Ok(d) => d,
                Err(e) => {
                    return Err(e);
                },
            };
            proof {
                assert(chunk_data@ == referenced_data(old_self.flash(), old_self.pages@[p].address as int, i as int, item));
            }
            if item.sized_crc() != T::crc32(0xFFFF_FFFF, chunk_data.as_slice()) {
                return Ok(false);
            }
            let offset = to_len - chunk_size;
            let mut k: usize = 0;
            while k < chunk_size
                invariant
                    k <= chunk_size,
                    chunk_data@.len() == chunk_size,
                    offset + chunk_size == to_len,
                    to_len <= data@.len(),
                    self.same_state(old_self),
                    old_self == *old(self),
                    blob_index_size(blob_item.data@) == data@.len(),
                    forall|k2: int| 0 <= k2 < k ==> chunk_data@[k2] == #[trigger] data@[offset + k2],
                    dd == data@.subrange(0, to_len as int),
                    n > 0,
                    (start + n - 1) as u8 == chunk_index,
                    total == chunks_hold_tail::<T>(old_self.pages@, old_self.flash(), namespace_index, key@, start, n, dd),
                    total == chunks_hold_tail::<T>(old_self.pages@, old_self.flash(), namespace_index, key@, start, chunks as int, data@),
                    blob_chunk_data::<T>(old_self.pages@, old_self.flash(), namespace_index, key@, chunk_index) == Some(chunk_data@),
                    start == chunk_start,
                    chunk_start == blob_item.data@[5],
                    chunks == blob_item.data@[4],
                    chunk_start + chunks <= 255,
                decreases chunk_size - k,
            {
                if chunk_data[k] != data[offset + k] {
                    proof {
                        assert(dd.subrange(dd.len() - chunk_data@.len(), dd.len() as int)[k as int] == data@[offset + k]);
                    }
                    return Ok(false);
                }
                k += 1;
            }
            proof {
                assert forall|k2: int| 0 <= k2 < chunk_size implies #[trigger] dd.subrange(dd.len() - chunk_data@.len(), dd.len() as int)[k2]
                    == chunk_data@[k2] by {
                    assert(data@[offset + k2] == chunk_data@[k2]);
                }
                assert(dd.subrange(dd.len() - chunk_data@.len(), dd.len() as int) =~= chunk_data@);
                assert(dd.subrange(0, dd.len() - chunk_data@.len()) =~= data@.subrange(0, offset as int));
            }
            to_len = offset;
        }
        Ok(true)
    }

    /// Takes the active page out of the used pages, or, when there is none, initializes a
    /// free page (reclaiming a page first when only one free page is left).
    pub fn get_active_page(&mut self) -> (r: Result<ThinPage, Error>)
        requires
            old(self).wf(),
        ensures
            final(self).wf(),
            final(self).namespaces == old(self).namespaces,
            final(self).base_address == old(self).base_address,
            final(self).sectors == old(self).sectors,
            final(self).flash().len() == old(self).flash().len(),
            r matches Ok(page) ==> page.wf() && page.header.state == ThinPageState::Active && final(self).in_partition(page),
            r matches Err(e) ==> is_storage_error(e),
            r == Err::<ThinPage, Error>(Error::FlashFull) ==> old(self).free_pages@.len() <= 1 || !old(self).sequences_bounded(),
            r matches Ok(page) ==> (old(self).free_pages@.len() >= 2 && (forall|i: int|
                0 <= i < old(self).pages@.len() ==> (#[trigger] old(self).pages@[i]).header.sequence < u32::MAX - 1)
                ==> page.header.sequence < u32::MAX),
            old(self).free_pages@.len() >= 2 && r is Ok ==> (final(self).pages@ == old(self).pages@.drop_last()
                || final(self).pages@ == old(self).pages@) && final(self).free_pages@.len() + 1 >= old(self).free_pages@.len(),
            r matches Ok(page) ==> old(self).pages@.contains(page) || forall|i: int|
                0 <= i < final(self).pages@.len() ==> (#[trigger] final(self).pages@[i]).header.sequence
                    < page.header.sequence,
            old(self).lists_below_next_free() ==> final(self).lists_below_next_free() && (r matches Ok(page)
                ==> page.listed_below_next_free()),
            (old(self).pages@.len() > 0 && old(self).pages@.last().header.state == ThinPageState::Active) ==> (
            r == Ok::<ThinPage, Error>(old(self).pages@.last()) && final(self).pages@ == old(self).pages@.drop_last()
                && final(self).free_pages == old(self).free_pages && final(self).hal == old(self).hal),
    {
        if let Some(page) = self.take_active_page() {
            proof {
                assert(old(self).pages@[old(self).pages@.len() - 1] == page);
            }
            return Ok(page);
        }
        let ghost before_defragment = *self;
        if self.free_pages.len() == 1 {
            self.defragment()?;
        }
        let ghost after_defragment = *self;
        if let Some(page) = self.take_active_page() {
            proof {
                let n = old(self).pages@.len() as int;
                if before_defragment.free_pages@.len() == 1 {
                    let c = choose|c: int|
                        0 <= c < n && #[trigger] crate::compaction::is_reclaim_choice(
                            old(self).pages@,
                            (Self::max_sequence(old(self).pages@, old(self).pages@.len() as int) + 1) as u32,
                            c,
                        ) && after_defragment.pages@.take(n - 1) == old(self).pages@.update(c, old(self).pages@[n - 1]).drop_last()
                            && after_defragment.pages@.len() == (if old(self).pages@[c].header.state == ThinPageState::Full
                            && old(self).pages@[c].erased_entry_count != ENTRIES_PER_PAGE {
                            n
                        } else {
                            n - 1
                        }) && (old(self).pages@[c].header.state == ThinPageState::Full && old(self).pages@[c].erased_entry_count
                            != ENTRIES_PER_PAGE ==> after_defragment.pages@.last().header.sequence == Self::max_sequence(
                            old(self).pages@,
                            old(self).pages@.len() as int,
                        ) + 1);
                    let page0 = old(self).pages@[c];
                    let rest = old(self).pages@.update(c, old(self).pages@[n - 1]).drop_last();
                    let copied = page0.header.state == ThinPageState::Full && page0.erased_entry_count != ENTRIES_PER_PAGE;
                    let m = after_defragment.pages@.len() as int;
                    assert(page == after_defragment.pages@[m - 1]);
                    if copied {
                        assert forall|i: int| 0 <= i < self.pages@.len() implies (#[trigger] self.pages@[i]).header.sequence
                            < page.header.sequence by {
                            assert(self.pages@[i] == after_defragment.pages@.take(n - 1)[i]);
                            assert(rest[i] == old(self).pages@[if i == c { n - 1 } else { i }]);
                            crate::compaction::lemma_max_sequence_bound::<T>(
                                old(self).pages@,
                                n,
                                if i == c { n - 1 } else { i },
                            );
                        }
                    } else {
                        assert(after_defragment.pages@[m - 1] == after_defragment.pages@.take(n - 1)[m - 1]);
                        assert(rest[m - 1] == old(self).pages@[if m - 1 == c { n - 1 } else { m - 1 }]);
                        assert(old(self).pages@.contains(page));
                    }
                }
            }
            return Ok(page);
        }
        if self.free_pages.len() <= 1 {
            return Err(Error::FlashFull);
        }
        let mut page = match self.free_pages.pop() {
            Some(p) => p,
            None => return Err(Error::FlashFull),
        };
        proof {
            assert(page.wf());
            assert(self.in_partition(page));
        }
        if page.header.state != ThinPageState::Uninitialized {
            match self.hal.erase(page.address, page.address + FLASH_SECTOR_SIZE) {
                Ok(()) => {},
                Err(()) => return Err(Error::FlashError),
            }
        }
        if !self.check_sequences_bounded() {
            return Err(Error::FlashFull);
        }
        let next_sequence = self.get_next_sequence();
        page.initialize(&mut self.hal, next_sequence)?;
        proof {
            assert forall|i: int| 0 <= i < self.pages@.len() implies (#[trigger] self.pages@[i]).header.sequence
                < page.header.sequence by {
                crate::compaction::lemma_max_sequence_bound::<T>(self.pages@, self.pages@.len() as int, i);
            }
            if old(self).free_pages@.len() >= 2 && (forall|i: int|
                0 <= i < old(self).pages@.len() ==> (#[trigger] old(self).pages@[i]).header.sequence < u32::MAX - 1) {
                assert(self.pages@ == old(self).pages@);
                crate::compaction::lemma_max_sequence_attained::<T>(self.pages@, self.pages@.len() as int);
            }
        }
        Ok(page)
    }

    /// Removes the last used page when it is the active one.
    pub fn take_active_page(&mut self) -> (r: Option<ThinPage>)
        requires
            old(self).wf(),
        ensures
            final(self).wf(),
            final(self).namespaces == old(self).namespaces,
            final(self).free_pages == old(self).free_pages,
            final(self).base_address == old(self).base_address,
            final(self).sectors == old(self).sectors,
            final(self).hal == old(self).hal,
            old(self).lists_below_next_free() ==> final(self).lists_below_next_free() && (r matches Some(page)
                ==> page.listed_below_next_free()),
            if old(self).pages@.len() > 0 && old(self).pages@.last().header.state == ThinPageState::Active {
                r == Some(old(self).pages@.last()) && final(self).pages@ == old(self).pages@.drop_last()
                    && old(self).pages@.last().wf() && old(self).in_partition(old(self).pages@.last())
            } else {
                r is None && final(self).pages == old(self).pages
            },
    {
        let n = self.pages.len();
        if n > 0 && self.pages[n - 1].header.state == ThinPageState::Active {
            let page = self.pages.pop();
            proof {
                assert(old(self).pages@[n - 1].wf());
                assert(self.pages@ =~= old(self).pages@.drop_last());
            }
            page
        } else {
            None
        }
    }

    /// The largest namespace index in use, if any.
    pub fn max_namespace_index(&self) -> (r: Option<u8>)
        ensures
            r is None <==> self.namespaces@.len() == 0,
            r matches Some(m) ==> (exists|i: int| 0 <= i < self.namespaces@.len() && (#[trigger] self.namespaces@[i]).index == m)
                && forall|i: int| 0 <= i < self.namespaces@.len() ==> (#[trigger] self.namespaces@[i]).index <= m,
    {
        let mut best: Option<u8> = None;
        let mut i: usize = 0;
        while i < self.namespaces.len()
            invariant
                i <= self.namespaces@.len(),
                best is None <==> i == 0,
                best matches Some(m) ==> (exists|k: int| 0 <= k < i && (#[trigger] self.namespaces@[k]).index == m)
                    && forall|k: int| 0 <= k < i ==> (#[trigger] self.namespaces@[k]).index <= m,
            decreases self.namespaces@.len() - i,
        {
            let idx = self.namespaces[i].index;
            best = match best {
                Some(m) => if idx >= m { Some(idx) } else { Some(m) },
                None => Some(idx),
            };
            proof {
                assert(self.namespaces@[i as int].index == idx);
            }
            i += 1;
        }
        best
    }

    /// The index of `namespace`, creating the namespace (with the next free index, written
    /// to `page`) when it does not exist yet.
    pub fn get_or_create_namespace(&mut self, namespace: &Key, page: &mut ThinPage) -> (r: Result<u8, Error>)
        requires
            old(self).wf(),
            old(page).wf(),
        ensures
            final(self).wf(),
            final(page).wf(),
            final(page).address == old(page).address,
            final(page).header.state == old(page).header.state || final(page).header.state == ThinPageState::Full,
            r is Ok ==> final(page).header.sequence == old(page).header.sequence,
            r == Err::<u8, Error>(Error::FlashFull) || r == Err::<u8, Error>(Error::PageFull) ==> final(self).same_state(*old(self))
                && *final(page) == *old(page),
            old(page).listed_below_next_free() ==> final(page).listed_below_next_free(),
            final(self).pages == old(self).pages,
            final(self).free_pages == old(self).free_pages,
            final(self).base_address == old(self).base_address,
            final(self).sectors == old(self).sectors,
            final(self).flash().len() == old(self).flash().len(),
            match namespace_index_of(old(self).namespaces@, namespace@) {
                Some(i) => r == Ok::<u8, Error>(i) && final(self).same_state(*old(self)) && *final(page) == *old(page),
                None => match r {
                    Ok(i) => {
                        &&& final(self).namespaces@ == old(self).namespaces@.push(Namespace { name: *namespace, index: i })
                        &&& namespace_index_of(final(self).namespaces@, namespace@) == Some(i)
                        &&& (forall|k: int| 0 <= k < old(self).namespaces@.len() ==> (#[trigger] old(self).namespaces@[k]).index < i)
                        &&& (old(self).namespaces@.len() == 0 ==> i == 1)
                        &&& (old(self).namespaces@.len() > 0 ==> exists|k: int|
                            0 <= k < old(self).namespaces@.len() && (#[trigger] old(self).namespaces@[k]).index + 1 == i)
                        &&& old(page).next_free() < ENTRIES_PER_PAGE
                        &&& entry_bytes(final(self).flash(), old(page).address as int, old(page).next_free()) == crate::raw::item_bytes(
                            crate::page::new_item::<T>(0, ItemType::U8, 1, 0xFF, *namespace, crate::page::namespace_data(i)),
                        )
                        &&& page_write_frame(
                            old(self).flash(),
                            final(self).flash(),
                            old(page).address as int,
                            old(page).next_free(),
                            old(page).next_free() + 1,
                        )
                        &&& final(page).item_hash_list@ == old(page).item_hash_list@
                    },
                    Err(Error::FlashFull) => exists|k: int| 0 <= k < old(self).namespaces@.len() && (#[trigger] old(self).namespaces@[k]).index == 255,
                    Err(Error::PageFull) => old(page).next_free() >= ENTRIES_PER_PAGE && !exists|k: int|
                        0 <= k < old(self).namespaces@.len() && (#[trigger] old(self).namespaces@[k]).index == 255,
                    Err(Error::FlashError) => true,
                    _ => false,
                },
            },
            namespace_index_of(old(self).namespaces@, namespace@) is None && (exists|k: int|
                0 <= k < old(self).namespaces@.len() && (#[trigger] old(self).namespaces@[k]).index == 255) ==> r
                == Err::<u8, Error>(Error::FlashFull),
    {
        match self.find_namespace(namespace) {
            Some(ns_idx) => Ok(ns_idx),
            None => {
                let namespace_index = match self.max_namespace_index() {
                    Some(m) => {
                        if m == 255 {
                            return Err(Error::FlashFull);
                        }
                        m + 1
                    },
                    None => 1,
                };
                if page.is_full() {
                    return Err(Error::PageFull);
                }
                page.write_namespace(&mut self.hal, *namespace, namespace_index)?;
                let ghost old_ns = self.namespaces@;
                self.namespaces.push(Namespace { name: *namespace, index: namespace_index });
                proof {
                    assert forall|i: int, j: int| 0 <= i < j < self.namespaces@.len() implies (#[trigger] self.namespaces@[i]).name@
                        != (#[trigger] self.namespaces@[j]).name@ by {
                        if j == old_ns.len() {
                            assert(self.namespaces@[i] == old_ns[i]);
                        } else {
                            assert(self.namespaces@[i] == old_ns[i]);
                            assert(self.namespaces@[j] == old_ns[j]);
                        }
                    }
                    let n = old_ns.len() as int;
                    assert(self.namespaces@[n].name@ == namespace@);
                    let k = choose|k: int| 0 <= k < self.namespaces@.len() && (#[trigger] self.namespaces@[k]).name@ == namespace@;
                    if k < n {
                        assert(self.namespaces@[k] == old_ns[k]);
                    }
                }
                Ok(namespace_index)
            },
        }
    }

    /// Stores the primitive `value` of type `type_` under `key` in `namespace`, creating the
    /// namespace when needed. A stored item whose data bytes already equal the new ones is
    /// kept as it is; otherwise the new item is written to the active page and the old one
    /// is erased.
    #[verifier::spinoff_prover]
    #[verifier::rlimit(60)]
    pub fn set_primitive(&mut self, namespace: &Key, key: Key, type_: ItemType, value: u64) -> (r: Result<(), Error>)
        requires
            old(self).wf(),
        ensures
            final(self).wf(),
            final(self).base_address == old(self).base_address,
            final(self).sectors == old(self).sectors,
            match argument_error(*old(self), *namespace, key, false) {
                Some(e) => r == Err::<(), Error>(e) && final(self).same_state(*old(self)),
                None => {
                    &&& primitive_width(type_) is None ==> r == Err::<(), Error>(Error::ItemTypeMismatch(type_))
                        && final(self).same_state(*old(self))
                    &&& primitive_width(type_) is Some ==> ok_or_storage_error(r)
                    &&& r == Err::<(), Error>(Error::FlashFull) ==> flash_full_allowed(*old(self), *namespace, 2)
                    &&& primitive_width(type_) is Some && old_item_replaced(*old(self), *namespace) && (exists|p: int, i: u8, it: Item|
                        #[trigger] found_in(*old(self), namespace_index_of(old(self).namespaces@, namespace@)->0, key@, 0xFF, p, i, it)
                            && it.data@ == primitive_bytes(primitive_width(type_)->0 as int, value)) ==> unchanged_store(
                        *final(self),
                        *old(self),
                    ) && (r is Ok || r == Err::<(), Error>(Error::FlashError))
                    &&& r is Ok && primitive_width(type_) is Some && old_item_replaced(*old(self), *namespace) && lists_consistent::<T>(
                        old(self).pages@,
                        old(self).flash(),
                    ) && old(self).lists_below_next_free() && addresses_distinct(old(self).pages@) && namespace_index_of(
                        old(self).namespaces@,
                        namespace@,
                    )->0 != 0 ==> {
                        let ns = namespace_index_of(old(self).namespaces@, namespace@)->0;
                        let bytes = primitive_bytes(primitive_width(type_)->0 as int, value);
                        &&& lists_consistent::<T>(final(self).pages@, final(self).flash())
                        &&& lists_value::<T>(*final(self), ns, key@, bytes)
                        &&& exists|p: int, i: u8, it: Item| #[trigger] found_in(*final(self), ns, key@, 0xFF, p, i, it) && it.data@ == bytes
                        &&& forall|p: int, i: u8, it: Item| #[trigger] found_in(*final(self), ns, key@, 0xFF, p, i, it) ==> it.data@ == bytes
                    }
                    &&& r is Ok && primitive_width(type_) is Some && old_item_replaced(*old(self), *namespace) ==> forall|p: int, i: u8, it: Item|
                        #[trigger] found_in(*old(self), namespace_index_of(old(self).namespaces@, namespace@)->0, key@, 0xFF, p, i, it)
                            && it.data@ != primitive_bytes(primitive_width(type_)->0 as int, value) ==> entry_unlisted(
                            final(self).pages@,
                            p,
                            i,
                        ) && entries_erased(final(self).pages@[p], i as int, it.span as int)
                    &&& r is Ok ==> {
                        &&& primitive_width(type_) is Some
                        &&& namespace_index_of(final(self).namespaces@, namespace@) is Some
                        &&& holds_value::<T>(
                            *final(self),
                            namespace_index_of(final(self).namespaces@, namespace@)->0,
                            key@,
                            primitive_bytes(primitive_width(type_)->0 as int, value),
                        )
                        &&& old(self).lists_below_next_free() ==> final(self).lists_below_next_free()
                        &&& old(self).lists_below_next_free() && namespace_index_of(final(self).namespaces@, namespace@)->0 != 0 ==> {
                            &&& lists_value::<T>(
                                *final(self),
                                namespace_index_of(final(self).namespaces@, namespace@)->0,
                                key@,
                                primitive_bytes(primitive_width(type_)->0 as int, value),
                            )
                        }
                    }
                },
            },
    {
        let ghost below = old(self).lists_below_next_free();
        if !key.is_terminated() {
            return Err(Error::KeyMalformed);
        }
        if !namespace.is_terminated() {
            return Err(Error::NamespaceMalformed);
        }
        let width = type_.get_primitive_bytes_width()?;
        let raw_value = primitive_data(width, value);
        let ghost as_is = old_item_replaced(*old(self), *namespace);
        let mut page = self.get_active_page()?;
        let namespace_index = self.get_or_create_namespace(namespace, &mut page)?;
        if page.is_full() {
            page.mark_as_full(&mut self.hal)?;
            page = self.get_active_page()?;
        }
        if page.is_full() {
            return Err(Error::PageFull);
        }
        assert(below ==> self.lists_below_next_free() && page.listed_below_next_free());
        let ghost before_push = self.pages@;
        self.pages.push(page);
        proof {
            assert(self.pages@.last() == page);
            if below {
                assert forall|i: int| 0 <= i < self.pages@.len() implies (#[trigger] self.pages@[i]).listed_below_next_free() by {
                    if i < self.pages@.len() - 1 {
                        assert(self.pages@[i] == before_push[i]);
                    }
                }
            }
            assert forall|i: int| 0 <= i < self.pages@.len() implies (#[trigger] self.pages@[i]).wf() && self.in_partition(self.pages@[i]) by {
                if i < self.pages@.len() - 1 {
                    assert(self.pages@[i] == self.pages@.drop_last()[i]);
                }
            }
        }
        let ghost ns_final = self.namespaces@;
        assert(namespace_index_of(ns_final, namespace@) == Some(namespace_index));
        let ghost loaded_pages = self.pages@;
        proof {
            if as_is {
                assert(self.pages@ =~= old(self).pages@);
                assert(self.flash() == old(self).flash());
            }
        }
        let old_entry_location = match self.load_item(namespace_index, ChunkIndex::Any, &key) {
            Ok((page_index, item_index, item)) => {
                proof {
                    let j = choose|j: int|
                        #![trigger self.pages@[page_index.0 as int].item_hash_list@[j]]
                        is_candidate(self.pages@, page_index.0 as int, j, item_hash::<T>(namespace_index, key@, 0xFF))
                            && self.pages@[page_index.0 as int].item_hash_list@[j].index == item_index.0
                            && listed_item::<T>(self.pages@, self.flash(), page_index.0 as int, j) == Some(item)
                            && item_matches(item, namespace_index, key@, 0xFF)
                            && passed_before::<T>(self.pages@, self.flash(), namespace_index, key@, 0xFF, page_index.0 as int, j);
                    assert(0 <= j < loaded_pages[page_index.0 as int].item_hash_list@.len()
                        && loaded_pages[page_index.0 as int].item_hash_list@[j].index == item_index.0);
                }
                if crate::raw::same_bytes(item.data.as_slice(), raw_value.as_slice()) {
                    proof {
                        let j = choose|j: int|
                            #![trigger self.pages@[page_index.0 as int].item_hash_list@[j]]
                            is_candidate(self.pages@, page_index.0 as int, j, item_hash::<T>(namespace_index, key@, 0xFF))
                                && self.pages@[page_index.0 as int].item_hash_list@[j].index == item_index.0
                                && listed_item::<T>(self.pages@, self.flash(), page_index.0 as int, j) == Some(item)
                                && item_matches(item, namespace_index, key@, 0xFF)
                                && passed_before::<T>(self.pages@, self.flash(), namespace_index, key@, 0xFF, page_index.0 as int, j);
                        assert(self.pages@[page_index.0 as int].wf());
                        assert(stored_item::<T>(entry_bytes(self.flash(), self.pages@[page_index.0 as int].address as int, item_index.0 as int)) == Some(item));
                        assert(value_at::<T>(self.flash(), self.pages@[page_index.0 as int].address as int, item_index.0 as int, namespace_index, key@, raw_value@));
                        assert(holds_value::<T>(*self, namespace_index, key@, raw_value@));
                        assert(item.data@ == raw_value@);
                        assert(listed_value::<T>(self.pages@, self.flash(), page_index.0 as int, j, namespace_index, key@, raw_value@));
                        if as_is && lists_consistent::<T>(old(self).pages@, old(self).flash()) {
                            assert(lists_value::<T>(*self, namespace_index, key@, raw_value@));
                            lemma_lookup_finds_listed_value::<T>(*self, namespace_index, key@, raw_value@);
                        }
                    }
                    return Ok(());
                }
                proof {
                    if as_is {
                        assert forall|p: int, i: u8, it: Item|
                            #[trigger] found_in(*old(self), namespace_index, key@, 0xFF, p, i, it) implies p == page_index.0
                            && i == item_index.0 && it == item by {
                            lemma_lookup_deterministic::<T>(
                                old(self).pages@,
                                old(self).flash(),
                                namespace_index,
                                key@,
                                0xFF,
                                p,
                                i,
                                it,
                                page_index.0 as int,
                                item_index.0,
                                item,
                            );
                        }
                    }
                }
                Some((page_index, item_index, item))
            },
            Err(Error::FlashError) => return Err(Error::FlashError),
            Err(_) => {
                proof {
                    if as_is {
                        assert forall|p: int, i: u8, it: Item|
                            #[trigger] found_in(*old(self), namespace_index, key@, 0xFF, p, i, it) implies false by {
                            lemma_lookup_exclusive::<T>(old(self).pages@, old(self).flash(), namespace_index, key@, 0xFF, p, i, it);
                        }
                    }
                }
                None
            },
        };
        let mut page = match self.pages.pop() {
            Some(p) => p,
            None => return Err(Error::FlashFull),
        };
        let ghost idx = page.next_free();
        let ghost list_len = page.item_hash_list@.len();
        let ghost before_write = self.pages@;
        assert(below ==> page.listed_below_next_free());
        page.write_item::<T>(&mut self.hal, namespace_index, key, type_, None, 1, raw_value)?;
        let ghost it = crate::page::new_item::<T>(namespace_index, type_, 1, 0xFF, key, raw_value);
        proof {
            crate::page::lemma_written_item_loads::<T>(namespace_index, type_, 1, 0xFF, key, raw_value);
        }
        self.pages.push(page);
        proof {
            assert forall|i: int| 0 <= i < self.pages@.len() implies (#[trigger] self.pages@[i]).wf() && self.in_partition(self.pages@[i]) by {
                if i < self.pages@.len() - 1 {
                    assert(self.pages@[i] == self.pages@.drop_last()[i]);
                }
            }
            let q = self.pages@.len() - 1;
            assert(self.pages@[q] == page);
            assert(stored_item::<T>(entry_bytes(self.flash(), self.pages@[q].address as int, idx)) == Some(it));
            assert(value_at::<T>(self.flash(), self.pages@[q].address as int, idx, namespace_index, key@, raw_value@));
            if namespace_index != 0 {
                assert(self.pages@[q].item_hash_list@[list_len as int].index == idx);
                assert(listed_value::<T>(self.pages@, self.flash(), q, list_len as int, namespace_index, key@, raw_value@));
            }
            if below {
                assert forall|i: int| 0 <= i < self.pages@.len() implies (#[trigger] self.pages@[i]).listed_below_next_free() by {
                    if i < self.pages@.len() - 1 {
                        assert(self.pages@[i] == before_write[i]);
                    }
                }
            }
        }
        let ghost mid = *self;
        let ghost law = as_is && lists_consistent::<T>(old(self).pages@, old(self).flash()) && old(self).lists_below_next_free()
            && addresses_distinct(old(self).pages@) && namespace_index != 0;
        if let Some((page_index, item_index, old_item)) = old_entry_location {
            let ghost before = *self;
            let ghost q = self.pages@.len() - 1;
            if page_index.0 < self.pages.len() && (item_index.0 as usize) < ENTRIES_PER_PAGE {
                proof {
                    if below && page_index.0 == q {
                        let j0 = choose|j: int|
                            0 <= j < loaded_pages[q].item_hash_list@.len()
                                && loaded_pages[q].item_hash_list@[j].index == item_index.0;
                        assert(loaded_pages[q].item_hash_list@[j0].index == item_index.0);
                        assert(item_index.0 < idx);
                    }
                }
                self.erase_entry(page_index.0, item_index.0, old_item.span)?;
                proof {
                    before.lemma_page_header_frame(before.pages@[page_index.0 as int], before.flash(), self.flash());
                    before.lemma_entries_kept(before.pages@[q], before.flash(), self.flash(),
                        entry_offset(before.pages@[q].address as int, idx), entry_offset(before.pages@[q].address as int, idx) + 32);
                    assert(self.pages@[q].address == before.pages@[q].address);
                    assert(stored_item::<T>(entry_bytes(self.flash(), self.pages@[q].address as int, idx)) == Some(it));
                    assert(value_at::<T>(self.flash(), self.pages@[q].address as int, idx, namespace_index, key@, raw_value@));
                    let e_new = before.pages@[q].item_hash_list@[list_len as int];
                    if namespace_index == 0 {
                    } else if page_index.0 == q {
                        if below {
                            assert(e_new.index != item_index.0);
                            assert(self.pages@[q].item_hash_list@.contains(e_new));
                            let k = choose|k: int| 0 <= k < self.pages@[q].item_hash_list@.len() && self.pages@[q].item_hash_list@[k] == e_new;
                            assert(listed_value::<T>(self.pages@, self.flash(), q, k, namespace_index, key@, raw_value@));
                        }
                    } else {
                        assert(self.pages@[q] == before.pages@[q]);
                        assert(listed_value::<T>(self.pages@, self.flash(), q, list_len as int, namespace_index, key@, raw_value@));
                    }
                    if law {
                        assert(before.header_areas_frame(before.flash(), self.flash()));
                        assert(old(self).header_areas_frame(before.flash(), self.flash()));
                        assert(mid.pages@[q].item_hash_list@ =~= old(self).pages@.last().item_hash_list@.push(e_new));
                        lemma_primitive_write_consistent::<T>(
                            *old(self),
                            mid.pages@,
                            mid.flash(),
                            self.pages@,
                            self.flash(),
                            e_new,
                            it,
                            namespace_index,
                            key@,
                            true,
                            page_index.0 as int,
                            item_index.0,
                            old_item,
                        );
                    }
                }
            } else {
                proof {
                    if law {
                        assert(false);
                    }
                }
            }
        } else {
            proof {
                if law {
                    let q = self.pages@.len() - 1;
                    let e_new = mid.pages@[q].item_hash_list@[list_len as int];
                    lemma_lists_shrunk_refl(self.pages@);
                    assert(mid.pages@[q].item_hash_list@ =~= old(self).pages@.last().item_hash_list@.push(e_new));
                    lemma_primitive_write_consistent::<T>(
                        *old(self),
                        mid.pages@,
                        mid.flash(),
                        self.pages@,
                        self.flash(),
                        e_new,
                        it,
                        namespace_index,
                        key@,
                        false,
                        0,
                        0,
                        it,
                    );
                }
            }
        }
        proof {
            if law {
                lemma_lookup_finds_listed_value::<T>(*self, namespace_index, key@, raw_value@);
            }
        }
        Ok(())
    }

    /// Stores the string `value` under `key` in `namespace`. An equal stored string is
    /// kept as it is; otherwise the string (with a NUL byte) is written to the active page
    /// and the old item is deleted.
    #[verifier::spinoff_prover]
    #[verifier::rlimit(60)]
    pub fn set_str(&mut self, namespace: &Key, key: Key, value: &str) -> (r: Result<(), Error>)
        requires
            old(self).wf(),
        ensures
            final(self).wf(),
            final(self).base_address == old(self).base_address,
            final(self).sectors == old(self).sectors,
            match argument_error(*old(self), *namespace, key, false) {
                Some(e) => r == Err::<(), Error>(e) && final(self).same_state(*old(self)),
                None => {
                    &&& value.spec_bytes().len() + 1 > MAX_BLOB_DATA_PER_PAGE ==> r == Err::<(), Error>(Error::ValueTooLong)
                        && final(self).same_state(*old(self))
                    &&& value.spec_bytes().len() + 1 <= MAX_BLOB_DATA_PER_PAGE ==> ok_or_storage_error(r)
                    &&& r == Err::<(), Error>(Error::FlashFull) ==> flash_full_allowed(*old(self), *namespace, 2)
                    &&& r is Ok && value.spec_bytes().len() + 1 <= MAX_BLOB_DATA_PER_PAGE && old_item_replaced(*old(self), *namespace)
                        && lists_consistent::<T>(old(self).pages@, old(self).flash()) && old(self).lists_below_next_free()
                        && addresses_distinct(old(self).pages@) && old(self).pages@.last().next_free() + variable_span(
                        value.spec_bytes().len() + 1,
                    ) <= ENTRIES_PER_PAGE ==> forall|p: int, i: u8, it: Item|
                        #[trigger] found_in(*old(self), namespace_index_of(old(self).namespaces@, namespace@)->0, key@, 0xFF, p, i, it)
                            && !(it.type_ == ItemType::Sized && referenced_data(
                            old(self).flash(),
                            old(self).pages@[p].address as int,
                            i as int,
                            it,
                        ) == value.spec_bytes().push(0u8) && sized_crc(it.data@) == T::spec_crc32(
                            0xFFFF_FFFF,
                            value.spec_bytes().push(0u8),
                        )) ==> entry_unlisted(final(self).pages@, p, i) && entries_erased(final(self).pages@[p], i as int, it.span as int)
                    &&& value.spec_bytes().len() + 1 <= MAX_BLOB_DATA_PER_PAGE && namespace_index_of(old(self).namespaces@, namespace@)
                        is Some && (exists|p: int, i: u8, it: Item|
                        #[trigger] found_in(*old(self), namespace_index_of(old(self).namespaces@, namespace@)->0, key@, 0xFF, p, i, it)
                            && it.type_ == ItemType::Sized && referenced_data(
                            old(self).flash(),
                            old(self).pages@[p].address as int,
                            i as int,
                            it,
                        ) == value.spec_bytes().push(0u8) && sized_crc(it.data@) == T::spec_crc32(
                            0xFFFF_FFFF,
                            value.spec_bytes().push(0u8),
                        )) ==> final(self).same_state(*old(self)) && (r is Ok || r == Err::<(), Error>(Error::FlashError))
                    &&& r is Ok ==> {
                        &&& namespace_index_of(final(self).namespaces@, namespace@) is Some
                        &&& holds_string::<T>(
                            *final(self),
                            namespace_index_of(final(self).namespaces@, namespace@)->0,
                            key@,
                            value.spec_bytes().push(0u8),
                        )
                    }
                },
            },
    {
        if !key.is_terminated() {
            return Err(Error::KeyMalformed);
        }
        if !namespace.is_terminated() {
            return Err(Error::NamespaceMalformed);
        }
        let bytes = value.as_bytes();
        if bytes.len() >= MAX_BLOB_DATA_PER_PAGE {
            return Err(Error::ValueTooLong);
        }
        let mut buf: Vec<u8> = Vec::with_capacity(bytes.len() + 1);
        crate::raw::push_all(&mut buf, bytes);
        buf.push(0);
        let ghost target = value.spec_bytes().push(0u8);
        assert(buf@ =~= target);
        let old_entry_location = match self.find_namespace(namespace) {
            Some(namespace_index) => match self.load_item(namespace_index, ChunkIndex::Any, &key) {
                Ok((page_index, item_index, item)) => {
                    proof {
                        assert forall|p: int, i: u8, it: Item|
                            #[trigger] found_in(*old(self), namespace_index, key@, 0xFF, p, i, it) implies p == page_index.0
                            && i == item_index.0 && it == item by {
                            lemma_lookup_deterministic::<T>(
                                old(self).pages@,
                                old(self).flash(),
                                namespace_index,
                                key@,
                                0xFF,
                                p,
                                i,
                                it,
                                page_index.0 as int,
                                item_index.0,
                                item,
                            );
                        }
                    }
                    if !item.type_.same(&ItemType::Sized) {
                        true
                    } else {
                        let data = self.pages[page_index.0].load_referenced_data(&mut self.hal, item_index.0, &item)?;
                        proof {
                            assert(data@ == referenced_data(
                                old(self).flash(),
                                old(self).pages@[page_index.0 as int].address as int,
                                item_index.0 as int,
                                item,
                            ));
                        }
                        let crc = item.sized_crc();
                        if crc == T::crc32(0xFFFF_FFFF, buf.as_slice()) && crate::raw::same_bytes(data.as_slice(), buf.as_slice()) {
                            proof {
                                let j = choose|j: int|
                                    #![trigger self.pages@[page_index.0 as int].item_hash_list@[j]]
                                    is_candidate(self.pages@, page_index.0 as int, j, item_hash::<T>(namespace_index, key@, 0xFF))
                                        && self.pages@[page_index.0 as int].item_hash_list@[j].index == item_index.0
                                        && listed_item::<T>(self.pages@, self.flash(), page_index.0 as int, j) == Some(item)
                                        && item_matches(item, namespace_index, key@, 0xFF)
                                        && passed_before::<T>(self.pages@, self.flash(), namespace_index, key@, 0xFF, page_index.0 as int, j);
                                assert(self.pages@[page_index.0 as int].wf());
                                assert(string_at::<T>(self.flash(), self.pages@[page_index.0 as int].address as int, item_index.0 as int, namespace_index, key@, target));
                            }
                            return Ok(());
                        }
                        true
                    }
                },
                Err(Error::FlashError) => return Err(Error::FlashError),
                Err(_) => {
                    proof {
                        assert forall|p: int, i: u8, it: Item|
                            #[trigger] found_in(*old(self), namespace_index, key@, 0xFF, p, i, it) implies false by {
                            lemma_lookup_exclusive::<T>(old(self).pages@, old(self).flash(), namespace_index, key@, 0xFF, p, i, it);
                        }
                    }
                    false
                },
            },
            None => false,
        };
        let ghost s0 = *self;
        let mut page = self.get_active_page()?;
        let ghost s1 = *self;
        let ghost first_page = page;
        let namespace_index = self.get_or_create_namespace(namespace, &mut page)?;
        let ghost mut widx: int = page.next_free();
        let ghost page_before_write = page;
        let ghost flash_before_write = self.flash();
        let ghost law = old_item_replaced(*old(self), *namespace) && lists_consistent::<T>(old(self).pages@, old(self).flash())
            && old(self).lists_below_next_free() && addresses_distinct(old(self).pages@) && old(self).pages@.last().next_free()
            + variable_span(buf@.len()) <= ENTRIES_PER_PAGE;
        proof {
            if law {
                assert(page_before_write == old(self).pages@.last());
                assert(flash_before_write == old(self).flash());
                assert(self.pages@ =~= old(self).pages@.drop_last());
            }
        }
        match page.write_variable_sized_item::<T>(&mut self.hal, namespace_index, key, ItemType::Sized, None, buf.as_slice()) {
            Ok(()) => {
                proof {
                    lemma_written_string::<T>(self.flash(), page.address as int, widx, namespace_index, key, target);
                }
            },
            Err(Error::PageFull) => {
                page.mark_as_full::<T>(&mut self.hal)?;
                let ghost before_push = *self;
                self.pages.push(page);
                proof {
                    self.lemma_push_page(before_push, page);
                }
                let ghost s2 = *self;
                page = match self.get_active_page() {
                    Ok(p) => p,
                    Err(e) => {
                        proof {
                            if e == Error::FlashFull && !flash_full_allowed(*old(self), *namespace, 2) {
                                assert(s0.free_pages@.len() >= 3);
                                assert(s1.free_pages@.len() >= 2);
                                assert(first_page.header.sequence < u32::MAX);
                                assert(page.header.sequence == first_page.header.sequence);
                                assert forall|i: int| 0 <= i < s2.pages@.len() implies (#[trigger] s2.pages@[i]).header.sequence
                                    < u32::MAX by {
                                    if i < s2.pages@.len() - 1 {
                                        assert(s2.pages@[i] == s1.pages@[i]);
                                        if s1.pages@ == s0.pages@.drop_last() {
                                            assert(s1.pages@[i] == s0.pages@[i]);
                                        }
                                    }
                                }
                                assert(s2.sequences_bounded());
                            }
                        }
                        return Err(e);
                    },
                };
                proof {
                    widx = page.next_free();
                }
                page.write_variable_sized_item::<T>(&mut self.hal, namespace_index, key, ItemType::Sized, None, buf.as_slice())?;
                proof {
                    lemma_written_string::<T>(self.flash(), page.address as int, widx, namespace_index, key, target);
                }
            },
            Err(e) => return Err(e),
        }
        proof {
            assert(0 <= widx < ENTRIES_PER_PAGE);
        }
        let ghost before_push = *self;
        self.pages.push(page);
        let ghost q = self.pages@.len() - 1;
        proof {
            self.lemma_push_page(before_push, page);
            assert(self.pages@[q] == page);
            assert(string_at::<T>(self.flash(), self.pages@[q].address as int, widx, namespace_index, key@, target));
        }
        if old_entry_location {
            let ghost before = *self;
            self.delete_key(namespace_index, &key, ChunkIndex::Any)?;
            proof {
                let b = before.pages@[q];
                assert(self.pages@[q].address == b.address);
                lemma_string_kept::<T>(before, b, before.flash(), self.flash(), widx, namespace_index, key@, target);
                if law {
                    let e_new = before.pages@[q].item_hash_list@[page_before_write.item_hash_list@.len() as int];
                    assert(before.pages@[q].item_hash_list@ =~= old(self).pages@.last().item_hash_list@.push(e_new));
                    assert forall|k: int| 0 <= k < old(self).pages@.len() - 1 implies #[trigger] before.pages@[k] == old(self).pages@[k] by {
                        assert(before.pages@[k] == before_push.pages@[k]);
                    }
                    assert forall|p: int, i: u8, it: Item|
                        #[trigger] found_in(*old(self), namespace_index, key@, 0xFF, p, i, it) && !(it.type_ == ItemType::Sized
                            && referenced_data(old(self).flash(), old(self).pages@[p].address as int, i as int, it)
                            == value.spec_bytes().push(0u8) && sized_crc(it.data@) == T::spec_crc32(
                            0xFFFF_FFFF,
                            value.spec_bytes().push(0u8),
                        )) implies entry_unlisted(self.pages@, p, i) && entries_erased(self.pages@[p], i as int, it.span as int) by {
                        lemma_lookup_found_after_append::<T>(
                            *old(self),
                            before.pages@,
                            before.flash(),
                            e_new,
                            variable_span(buf@.len()),
                            namespace_index,
                            key@,
                            0xFF,
                            p,
                            i,
                            it,
                        );
                        let (p2, i2, it2) = choose|p2: int, i2: u8, it2: Item|
                            #[trigger] found_in(before, namespace_index, key@, 0xFF, p2, i2, it2) && (forall|j: int|
                                0 <= j < self.pages@[p2].item_hash_list@.len() ==> (#[trigger] self.pages@[p2].item_hash_list@[j]).index
                                    != i2) && entries_erased(self.pages@[p2], i2 as int, it2.span as int);
                        lemma_lookup_deterministic::<T>(before.pages@, before.flash(), namespace_index, key@, 0xFF, p, i, it, p2, i2, it2);
                    }
                }
            }
        } else {
            proof {
                if law {
                    assert forall|p: int, i: u8, it: Item|
                        #[trigger] found_in(*old(self), namespace_index, key@, 0xFF, p, i, it) && !(it.type_ == ItemType::Sized
                            && referenced_data(old(self).flash(), old(self).pages@[p].address as int, i as int, it)
                            == value.spec_bytes().push(0u8) && sized_crc(it.data@) == T::spec_crc32(
                            0xFFFF_FFFF,
                            value.spec_bytes().push(0u8),
                        )) implies false by {}
                }
            }
        }
        Ok(())
    }

    /// Stores the blob `data` under `key` in `namespace`: its data chunks are written to as
    /// many pages as needed under the version other than the stored one, then its blob
    /// index, and then the old version is deleted. An equal stored blob is kept.
    #[verifier::spinoff_prover]
    #[verifier::rlimit(60)]
    #[verifier::loop_isolation(false)]
    pub fn set_blob(&mut self, namespace: &Key, key: Key, data: &[u8]) -> (r: Result<(), Error>)
        requires
            old(self).wf(),
        ensures
            final(self).wf(),
            final(self).base_address == old(self).base_address,
            final(self).sectors == old(self).sectors,
            match argument_error(*old(self), *namespace, key, false) {
                Some(e) => r == Err::<(), Error>(e) && final(self).same_state(*old(self)),
                None => {
                    &&& data@.len() > MAX_BLOB_SIZE ==> r == Err::<(), Error>(Error::ValueTooLong)
                        && final(self).same_state(*old(self))
                    &&& data@.len() <= MAX_BLOB_SIZE ==> ok_or_storage_error(r)
                    &&& data@.len() <= MAX_BLOB_SIZE && namespace_index_of(old(self).namespaces@, namespace@) is Some && (exists|
                        p: int,
                        i: u8,
                        it: Item,
                    |
                        #[trigger] found_in(*old(self), namespace_index_of(old(self).namespaces@, namespace@)->0, key@, 0xFF, p, i, it)
                            && it.type_ == ItemType::BlobIndex && blob_index_size(it.data@) == data@.len() && it.data@[5]
                            + it.data@[4] <= 255 && chunks_hold_tail::<T>(
                            old(self).pages@,
                            old(self).flash(),
                            namespace_index_of(old(self).namespaces@, namespace@)->0,
                            key@,
                            it.data@[5] as int,
                            it.data@[4] as int,
                            data@,
                        )) ==> final(self).same_state(*old(self)) && (r is Ok || r == Err::<(), Error>(Error::FlashError))
                    &&& r is Ok && data@.len() <= MAX_BLOB_SIZE && namespace_index_of(old(self).namespaces@, namespace@) is Some
                        ==> forall|p: int, i: u8, it: Item|
                        #[trigger] found_in(*old(self), namespace_index_of(old(self).namespaces@, namespace@)->0, key@, 0xFF, p, i, it)
                            && it.type_ == ItemType::BlobIndex && !(blob_index_size(it.data@) == data@.len() && chunks_hold_tail::<T>(
                            old(self).pages@,
                            old(self).flash(),
                            namespace_index_of(old(self).namespaces@, namespace@)->0,
                            key@,
                            it.data@[5] as int,
                            it.data@[4] as int,
                            data@,
                        )) ==> holds_blob_version::<T>(
                            *final(self),
                            namespace_index_of(old(self).namespaces@, namespace@)->0,
                            key@,
                            data@.len() as int,
                            crate::types::other_version(version_of(it.data@[5])),
                        )
                    &&& r is Ok ==> {
                        &&& namespace_index_of(final(self).namespaces@, namespace@) is Some
                        &&& holds_blob_index::<T>(
                            *final(self),
                            namespace_index_of(final(self).namespaces@, namespace@)->0,
                            key@,
                            data@.len() as int,
                        )
                    }
                },
            },
    {
        if !key.is_terminated() {
            return Err(Error::KeyMalformed);
        }
        if !namespace.is_terminated() {
            return Err(Error::NamespaceMalformed);
        }
        if data.len() > MAX_BLOB_SIZE {
            return Err(Error::ValueTooLong);
        }
        let ghost equal_stored = namespace_index_of(old(self).namespaces@, namespace@) is Some && (exists|p: int, i: u8, it: Item|
            #[trigger] found_in(*old(self), namespace_index_of(old(self).namespaces@, namespace@)->0, key@, 0xFF, p, i, it)
                && it.type_ == ItemType::BlobIndex && blob_index_size(it.data@) == data@.len() && it.data@[5] + it.data@[4] <= 255
                && chunks_hold_tail::<T>(
                old(self).pages@,
                old(self).flash(),
                namespace_index_of(old(self).namespaces@, namespace@)->0,
                key@,
                it.data@[5] as int,
                it.data@[4] as int,
                data@,
            ));
        let (should_write, old_blob_version) = match self.find_namespace(namespace) {
            Some(namespace_index) => match self.load_item(namespace_index, ChunkIndex::Any, &key) {
                Ok((page_index, item_index, item)) => {
                    proof {
                        assert forall|p: int, i: u8, it: Item|
                            #[trigger] found_in(*old(self), namespace_index, key@, 0xFF, p, i, it) implies p == page_index.0
                            && i == item_index.0 && it == item by {
                            lemma_lookup_deterministic::<T>(
                                old(self).pages@,
                                old(self).flash(),
                                namespace_index,
                                key@,
                                0xFF,
                                p,
                                i,
                                it,
                                page_index.0 as int,
                                item_index.0,
                                item,
                            );
                        }
                    }
                    if !item.type_.same(&ItemType::BlobIndex) {
                        (true, None)
                    } else {
                        let ghost s2 = *self;
                        let equal = self.blob_is_equal(namespace_index, &key, &item, data)?;
                        proof {
                            assert(s2.pages@ == old(self).pages@);
                            assert(s2.flash() == old(self).flash());
                            if data@.len() <= MAX_BLOB_SIZE && (exists|p: int, i: u8, it: Item|
                                #[trigger] found_in(*old(self), namespace_index, key@, 0xFF, p, i, it)
                                    && it.type_ == ItemType::BlobIndex && blob_index_size(it.data@) == data@.len() && it.data@[5]
                                    + it.data@[4] <= 255 && chunks_hold_tail::<T>(
                                    old(self).pages@,
                                    old(self).flash(),
                                    namespace_index,
                                    key@,
                                    it.data@[5] as int,
                                    it.data@[4] as int,
                                    data@,
                                )) {
                                let (p, i, it) = choose|p: int, i: u8, it: Item|
                                    #[trigger] found_in(*old(self), namespace_index, key@, 0xFF, p, i, it)
                                        && it.type_ == ItemType::BlobIndex && blob_index_size(it.data@) == data@.len() && it.data@[5]
                                        + it.data@[4] <= 255 && chunks_hold_tail::<T>(
                                        old(self).pages@,
                                        old(self).flash(),
                                        namespace_index,
                                        key@,
                                        it.data@[5] as int,
                                        it.data@[4] as int,
                                        data@,
                                    );
                                assert(it == item);
                                assert(equal);
                            }
                        }
                        proof {
                            if !equal {
                                assert(!(blob_index_size(item.data@) == data@.len() && chunks_hold_tail::<T>(
                                    old(self).pages@,
                                    old(self).flash(),
                                    namespace_index,
                                    key@,
                                    item.data@[5] as int,
                                    item.data@[4] as int,
                                    data@,
                                )));
                            }
                        }
                        if equal {
                            proof {
                                let j = choose|j: int|
                                    #![trigger self.pages@[page_index.0 as int].item_hash_list@[j]]
                                    is_candidate(self.pages@, page_index.0 as int, j, item_hash::<T>(namespace_index, key@, 0xFF))
                                        && self.pages@[page_index.0 as int].item_hash_list@[j].index == item_index.0
                                        && listed_item::<T>(self.pages@, self.flash(), page_index.0 as int, j) == Some(item)
                                        && item_matches(item, namespace_index, key@, 0xFF)
                                        && passed_before::<T>(self.pages@, self.flash(), namespace_index, key@, 0xFF, page_index.0 as int, j);
                                assert(self.pages@[page_index.0 as int].wf());
                                assert(blob_index_at::<T>(self.flash(), self.pages@[page_index.0 as int].address as int, item_index.0 as int, namespace_index, key@, data@.len() as int));
                            }
                        }
                        (!equal, Some(VersionOffset::from_u8(item.chunk_start())))
                    }
                },
                Err(Error::FlashError) => return Err(Error::FlashError),
                Err(_) => {
                    proof {
                        assert forall|p: int, i: u8, it: Item|
                            #[trigger] found_in(*old(self), namespace_index, key@, 0xFF, p, i, it) implies false by {
                            lemma_lookup_exclusive::<T>(old(self).pages@, old(self).flash(), namespace_index, key@, 0xFF, p, i, it);
                        }
                    }
                    (true, None)
                },
            },
            None => (true, None),
        };
        proof {
            if equal_stored {
                assert(!should_write);
            }
        }
        if !should_write {
            return Ok(());
        }
        let mut page = self.get_active_page()?;
        let namespace_index = self.get_or_create_namespace(namespace, &mut page)?;
        let ghost before_push = *self;
        self.pages.push(page);
        proof {
            self.lemma_push_page(before_push, page);
        }
        let new_version_offset = match old_blob_version {
            Some(old_offset) => old_offset.invert(),
            None => VersionOffset::V0,
        };
        let version_base = new_version_offset.base();
        let mut chunk_count: u8 = 0;
        let mut offset: usize = 0;
        let mut stalls: usize = 0;
        let ghost ns_view = self.namespaces@;
        while offset < data.len()
            invariant
                self.wf(),
                offset <= data@.len(),
                chunk_count < 127,
                stalls <= self.sectors + 1,
                self.base_address == old(self).base_address,
                self.sectors == old(self).sectors,
                self.namespaces@ == ns_view,
                namespace_index_of(ns_view, namespace@) == Some(namespace_index),
                version_base == 0 || version_base == 0x80,
                argument_error(*old(self), *namespace, key, false) is None,
                data@.len() <= MAX_BLOB_SIZE,
            decreases data@.len() - offset, self.sectors + 1 - stalls,
        {
            let mut page = self.get_active_page()?;
            let free_entries = page.get_free_entry_count();
            if free_entries <= 1 {
                page.mark_as_full::<T>(&mut self.hal)?;
                let ghost before_push = *self;
                self.pages.push(page);
                proof {
                    self.lemma_push_page(before_push, page);
                }
                if stalls >= self.sectors {
                    return Err(Error::FlashFull);
                }
                stalls += 1;
                continue;
            }
            let remaining = data.len() - offset;
            let room = (free_entries - 1) * ITEM_SIZE;
            let data_len = if room < remaining { room } else { remaining };
            let chunk = vstd::slice::slice_subrange(data, offset, offset + data_len);
            match page.write_variable_sized_item::<T>(
                &mut self.hal,
                namespace_index,
                key,
                ItemType::BlobData,
                Some(version_base + chunk_count),
                chunk,
            ) {
                Ok(()) => {
                    offset += data_len;
                    let ghost before_push = *self;
                    self.pages.push(page);
                    proof {
                        self.lemma_push_page(before_push, page);
                    }
                    if offset < data.len() && chunk_count + 1 >= 127 {
                        return Err(Error::FlashFull);
                    }
                    if chunk_count < 126 {
                        chunk_count += 1;
                    }
                    stalls = 0;
                },
                Err(Error::PageFull) => {
                    page.mark_as_full::<T>(&mut self.hal)?;
                    let ghost before_push = *self;
                    self.pages.push(page);
                    proof {
                        self.lemma_push_page(before_push, page);
                    }
                    if stalls >= self.sectors {
                        return Err(Error::FlashFull);
                    }
                    stalls += 1;
                    continue;
                },
                Err(e) => return Err(e),
            }
        }
        let mut page = self.get_active_page()?;
        if page.is_full() {
            return Err(Error::PageFull);
        }
        let item_data = crate::raw::blob_index_data(data.len() as u32, chunk_count, version_base);
        let ghost widx = page.next_free();
        page.write_item::<T>(&mut self.hal, namespace_index, key, ItemType::BlobIndex, None, 1, item_data)?;
        let ghost it = crate::page::new_item::<T>(namespace_index, ItemType::BlobIndex, 1, 0xFF, key, item_data);
        proof {
            crate::page::lemma_written_item_loads::<T>(namespace_index, ItemType::BlobIndex, 1, 0xFF, key, item_data);
            crate::raw::lemma_blob_index_data_fields(data.len() as u32, chunk_count, version_base);
        }
        let ghost before_push = *self;
        self.pages.push(page);
        let ghost q = self.pages@.len() - 1;
        proof {
            self.lemma_push_page(before_push, page);
            assert(self.pages@[q] == page);
            assert(blob_index_at::<T>(self.flash(), self.pages@[q].address as int, widx, namespace_index, key@, data@.len() as int));
            assert(version_base == crate::types::version_base(new_version_offset));
            assert(blob_version_index_at::<T>(
                self.flash(),
                self.pages@[q].address as int,
                widx,
                namespace_index,
                key@,
                data@.len() as int,
                new_version_offset,
            ));
        }
        if old_blob_version.is_some() {
            let ghost before = *self;
            self.delete_key(namespace_index, &key, ChunkIndex::BlobIndex)?;
            proof {
                let b = before.pages@[q];
                assert(self.pages@[q].address == b.address);
                before.lemma_entries_kept(b, before.flash(), self.flash(), entry_offset(b.address as int, widx), entry_offset(b.address as int, widx) + 32);
                assert(entry_bytes(self.flash(), b.address as int, widx) =~= entry_bytes(before.flash(), b.address as int, widx));
                assert(blob_index_at::<T>(self.flash(), self.pages@[q].address as int, widx, namespace_index, key@, data@.len() as int));
                assert(blob_version_index_at::<T>(
                    self.flash(),
                    self.pages@[q].address as int,
                    widx,
                    namespace_index,
                    key@,
                    data@.len() as int,
                    new_version_offset,
                ));
            }
        }
        proof {
            assert(0 <= widx < ENTRIES_PER_PAGE);
            assert(holds_blob_version::<T>(*self, namespace_index, key@, data@.len() as int, new_version_offset));
        }
        Ok(())
    }
}

} // verus!
