//! The storage: pages of a partition, the namespace table, and item lookup.

use vstd::prelude::*;

use crate::error::Error;
use crate::page::{
    entry_bits, entry_bytes, entry_offset, entry_state_at, header_area_frame, stored_item, ItemHashListEntry, Namespace,
    ThinPage, ThinPageState,
};
use crate::raw::EntryMapState;
use crate::platform::{update_bytes, Platform};
use crate::raw::{item_hash, Item, ENTRIES_PER_PAGE, FLASH_SECTOR_SIZE, ITEMS_OFFSET, ITEM_SIZE};
use crate::types::{chunk_field, ChunkIndex, ItemIndex, Key, PageIndex};

verus! {

/// An NVS partition on the flash of platform `T`.
///
/// `pages` holds the pages in use (the active page last), `free_pages` the pages that
/// can be initialized, `namespaces` the namespace table.
pub struct Nvs<T: Platform> {
    pub hal: T,
    pub base_address: usize,
    pub sectors: usize,
    pub pages: Vec<ThinPage>,
    pub free_pages: Vec<ThinPage>,
    pub namespaces: Vec<Namespace>,
}

/// The item stored at entry `j` of the lookup list of page `p`.
pub open spec fn listed_item<T: Platform>(pages: Seq<ThinPage>, flash: Seq<u8>, p: int, j: int) -> Option<Item> {
    stored_item::<T>(entry_bytes(flash, pages[p].address as int, pages[p].item_hash_list@[j].index as int))
}

/// Whether an item is the one stored under (`namespace_index`, `key`, `chunk`).
pub open spec fn item_matches(it: Item, namespace_index: u8, key: Seq<u8>, chunk: u8) -> bool {
    it.namespace_index == namespace_index && it.key@ == key && it.chunk_index == chunk
}

/// Whether lookup-list position (`p1`, `j1`) is scanned before (`p2`, `j2`).
pub open spec fn scanned_before(p1: int, j1: int, p2: int, j2: int) -> bool {
    p1 < p2 || (p1 == p2 && j1 < j2)
}

/// Whether list entry `j` of page `p` is a candidate for hash `h`.
pub open spec fn is_candidate(pages: Seq<ThinPage>, p: int, j: int, h: u32) -> bool {
    0 <= p < pages.len() && 0 <= j < pages[p].item_hash_list@.len() && pages[p].item_hash_list@[j].hash == h
}

/// Every candidate scanned before (`p`, `j`) holds a valid item of another key.
pub open spec fn passed_before<T: Platform>(
    pages: Seq<ThinPage>,
    flash: Seq<u8>,
    namespace_index: u8,
    key: Seq<u8>,
    chunk: u8,
    p: int,
    j: int,
) -> bool {
    let h = item_hash::<T>(namespace_index, key, chunk);
    forall|p2: int, j2: int|
        #![trigger pages[p2].item_hash_list@[j2]]
        is_candidate(pages, p2, j2, h) && scanned_before(p2, j2, p, j) ==> {
            &&& listed_item::<T>(pages, flash, p2, j2) is Some
            &&& !item_matches(listed_item::<T>(pages, flash, p2, j2)->0, namespace_index, key, chunk)
        }
}

/// Lookup finds `it` at entry `index` of page `p`: the first candidate, in page order and
/// list order, whose stored item belongs to the key.
pub open spec fn lookup_found<T: Platform>(
    pages: Seq<ThinPage>,
    flash: Seq<u8>,
    namespace_index: u8,
    key: Seq<u8>,
    chunk: u8,
    p: int,
    index: u8,
    it: Item,
) -> bool {
    exists|j: int|
        #![trigger pages[p].item_hash_list@[j]]
        is_candidate(pages, p, j, item_hash::<T>(namespace_index, key, chunk)) && pages[p].item_hash_list@[j].index
            == index && listed_item::<T>(pages, flash, p, j) == Some(it) && item_matches(it, namespace_index, key, chunk)
            && passed_before::<T>(pages, flash, namespace_index, key, chunk, p, j)
}

/// Lookup finds nothing: every candidate holds another key, or the first candidate that
/// does not holds no valid item.
pub open spec fn lookup_missing<T: Platform>(
    pages: Seq<ThinPage>,
    flash: Seq<u8>,
    namespace_index: u8,
    key: Seq<u8>,
    chunk: u8,
) -> bool {
    ||| passed_before::<T>(pages, flash, namespace_index, key, chunk, pages.len() as int, 0)
    ||| exists|p: int, j: int|
        #![trigger pages[p].item_hash_list@[j]]
        is_candidate(pages, p, j, item_hash::<T>(namespace_index, key, chunk)) && listed_item::<T>(pages, flash, p, j) is None
            && passed_before::<T>(pages, flash, namespace_index, key, chunk, p, j)
}

/// A lookup finds at most one item: the first matching candidate.
pub proof fn lemma_lookup_deterministic<T: Platform>(
    pages: Seq<ThinPage>,
    flash: Seq<u8>,
    namespace_index: u8,
    key: Seq<u8>,
    chunk: u8,
    p1: int,
    i1: u8,
    it1: Item,
    p2: int,
    i2: u8,
    it2: Item,
)
    requires
        lookup_found::<T>(pages, flash, namespace_index, key, chunk, p1, i1, it1),
        lookup_found::<T>(pages, flash, namespace_index, key, chunk, p2, i2, it2),
    ensures
        p1 == p2 && i1 == i2 && it1 == it2,
{
    let h = item_hash::<T>(namespace_index, key, chunk);
    let j1 = choose|j: int|
        #![trigger pages[p1].item_hash_list@[j]]
        is_candidate(pages, p1, j, h) && pages[p1].item_hash_list@[j].index == i1 && listed_item::<T>(pages, flash, p1, j)
            == Some(it1) && item_matches(it1, namespace_index, key, chunk) && passed_before::<T>(pages, flash, namespace_index, key, chunk, p1, j);
    let j2 = choose|j: int|
        #![trigger pages[p2].item_hash_list@[j]]
        is_candidate(pages, p2, j, h) && pages[p2].item_hash_list@[j].index == i2 && listed_item::<T>(pages, flash, p2, j)
            == Some(it2) && item_matches(it2, namespace_index, key, chunk) && passed_before::<T>(pages, flash, namespace_index, key, chunk, p2, j);
    if scanned_before(p1, j1, p2, j2) {
        assert(pages[p1].item_hash_list@[j1] == pages[p1].item_hash_list@[j1]);
        assert(false);
    } else if scanned_before(p2, j2, p1, j1) {
        assert(pages[p2].item_hash_list@[j2] == pages[p2].item_hash_list@[j2]);
        assert(false);
    }
}

/// A lookup that finds an item does not also find nothing.
pub proof fn lemma_lookup_exclusive<T: Platform>(
    pages: Seq<ThinPage>,
    flash: Seq<u8>,
    namespace_index: u8,
    key: Seq<u8>,
    chunk: u8,
    p1: int,
    i1: u8,
    it1: Item,
)
    requires
        lookup_found::<T>(pages, flash, namespace_index, key, chunk, p1, i1, it1),
    ensures
        !lookup_missing::<T>(pages, flash, namespace_index, key, chunk),
{
    let h = item_hash::<T>(namespace_index, key, chunk);
    let j1 = choose|j: int|
        #![trigger pages[p1].item_hash_list@[j]]
        is_candidate(pages, p1, j, h) && pages[p1].item_hash_list@[j].index == i1 && listed_item::<T>(pages, flash, p1, j)
            == Some(it1) && item_matches(it1, namespace_index, key, chunk) && passed_before::<T>(pages, flash, namespace_index, key, chunk, p1, j);
    assert(pages[p1].item_hash_list@[j1] == pages[p1].item_hash_list@[j1]);
    if passed_before::<T>(pages, flash, namespace_index, key, chunk, pages.len() as int, 0) {
        assert(false);
    }
    if exists|p: int, j: int|
        #![trigger pages[p].item_hash_list@[j]]
        is_candidate(pages, p, j, h) && listed_item::<T>(pages, flash, p, j) is None && passed_before::<T>(pages, flash, namespace_index, key, chunk, p, j) {
        let (p, j) = choose|p: int, j: int|
            #![trigger pages[p].item_hash_list@[j]]
            is_candidate(pages, p, j, h) && listed_item::<T>(pages, flash, p, j) is None && passed_before::<T>(pages, flash, namespace_index, key, chunk, p, j);
        assert(pages[p].item_hash_list@[j] == pages[p].item_hash_list@[j]);
        if scanned_before(p1, j1, p, j) {
            assert(false);
        } else if scanned_before(p, j, p1, j1) {
            assert(false);
        } else {
            assert(false);
        }
    }
}

/// Two items are stored under the same namespace, key and chunk.
pub open spec fn same_slot_items(a: Item, b: Item) -> bool {
    a.namespace_index == b.namespace_index && a.key@ == b.key@ && a.chunk_index == b.chunk_index
}

/// The lookup lists of `pages` describe the flash: every entry names an entry (within the
/// flash) holding a valid item that carries the entry's hash, and no two entries naming
/// different entries name items stored under the same namespace, key and chunk.
pub open spec fn lists_consistent<T: Platform>(pages: Seq<ThinPage>, flash: Seq<u8>) -> bool {
    &&& forall|p: int, j: int|
        #![trigger pages[p].item_hash_list@[j]]
        0 <= p < pages.len() && 0 <= j < pages[p].item_hash_list@.len() ==> {
            &&& entry_offset(pages[p].address as int, pages[p].item_hash_list@[j].index as int) + ITEM_SIZE <= flash.len()
            &&& listed_item::<T>(pages, flash, p, j) is Some
            &&& pages[p].item_hash_list@[j].hash == item_hash::<T>(
                listed_item::<T>(pages, flash, p, j)->0.namespace_index,
                listed_item::<T>(pages, flash, p, j)->0.key@,
                listed_item::<T>(pages, flash, p, j)->0.chunk_index,
            )
        }
    &&& forall|p1: int, j1: int, p2: int, j2: int|
        #![trigger pages[p1].item_hash_list@[j1], pages[p2].item_hash_list@[j2]]
        0 <= p1 < pages.len() && 0 <= j1 < pages[p1].item_hash_list@.len() && 0 <= p2 < pages.len() && 0 <= j2
            < pages[p2].item_hash_list@.len() && (p1 != p2 || pages[p1].item_hash_list@[j1].index
            != pages[p2].item_hash_list@[j2].index) && listed_item::<T>(pages, flash, p1, j1) is Some
            && listed_item::<T>(pages, flash, p2, j2) is Some ==> !same_slot_items(
            listed_item::<T>(pages, flash, p1, j1)->0,
            listed_item::<T>(pages, flash, p2, j2)->0,
        )
}

/// The first position of a list that holds the entry index held at position `j`.
pub proof fn lemma_first_position(list: Seq<ItemHashListEntry>, j: int) -> (jm: int)
    requires
        0 <= j < list.len(),
    ensures
        0 <= jm <= j,
        list[jm].index == list[j].index,
        forall|k: int| 0 <= k < jm ==> (#[trigger] list[k]).index != list[j].index,
    decreases j,
{
    if exists|k: int| 0 <= k < j && (#[trigger] list[k]).index == list[j].index {
        let k = choose|k: int| 0 <= k < j && (#[trigger] list[k]).index == list[j].index;
        lemma_first_position(list, k)
    } else {
        j
    }
}

/// Read after write for lookups: in a store whose lookup lists are consistent, looking up
/// the namespace, key and chunk of a listed item finds that item, at its entry.
pub proof fn lemma_consistent_lookup_finds<T: Platform>(pages: Seq<ThinPage>, flash: Seq<u8>, p: int, j: int)
    requires
        lists_consistent::<T>(pages, flash),
        0 <= p < pages.len(),
        0 <= j < pages[p].item_hash_list@.len(),
    ensures
        listed_item::<T>(pages, flash, p, j) is Some,
        ({
            let it = listed_item::<T>(pages, flash, p, j)->0;
            lookup_found::<T>(
                pages,
                flash,
                it.namespace_index,
                it.key@,
                it.chunk_index,
                p,
                pages[p].item_hash_list@[j].index,
                it,
            )
        }),
{
    assert(pages[p].item_hash_list@[j] == pages[p].item_hash_list@[j]);
    let it = listed_item::<T>(pages, flash, p, j)->0;
    let ns = it.namespace_index;
    let key = it.key@;
    let chunk = it.chunk_index;
    let h = item_hash::<T>(ns, key, chunk);
    let jm = lemma_first_position(pages[p].item_hash_list@, j);
    assert(pages[p].item_hash_list@[jm] == pages[p].item_hash_list@[jm]);
    assert(listed_item::<T>(pages, flash, p, jm) == listed_item::<T>(pages, flash, p, j));
    assert(is_candidate(pages, p, jm, h));
    assert forall|p2: int, j2: int|
        #![trigger pages[p2].item_hash_list@[j2]]
        is_candidate(pages, p2, j2, h) && scanned_before(p2, j2, p, jm) implies {
            &&& listed_item::<T>(pages, flash, p2, j2) is Some
            &&& !item_matches(listed_item::<T>(pages, flash, p2, j2)->0, ns, key, chunk)
        } by {
        assert(pages[p2].item_hash_list@[j2] == pages[p2].item_hash_list@[j2]);
        if item_matches(listed_item::<T>(pages, flash, p2, j2)->0, ns, key, chunk) {
            assert(same_slot_items(listed_item::<T>(pages, flash, p2, j2)->0, it));
            if p2 == p && pages[p].item_hash_list@[j2].index == pages[p].item_hash_list@[jm].index {
                assert(j2 < jm);
                assert(pages[p].item_hash_list@[j2].index != pages[p].item_hash_list@[j].index);
            }
        }
    }
    assert(passed_before::<T>(pages, flash, ns, key, chunk, p, jm));
    assert(item_matches(it, ns, key, chunk));
}

/// Deleting keeps a store consistent: when the lookup lists only lose entries and the
/// flash changes only in the header areas, consistent lists stay consistent.
pub proof fn lemma_consistency_kept<T: Platform>(before: Nvs<T>, after_pages: Seq<ThinPage>, after_flash: Seq<u8>)
    requires
        before.wf(),
        lists_consistent::<T>(before.pages@, before.flash()),
        lists_shrunk(before.pages@, after_pages),
        before.header_areas_frame(before.flash(), after_flash),
    ensures
        lists_consistent::<T>(after_pages, after_flash),
{
    let pages0 = before.pages@;
    let flash0 = before.flash();
    assert forall|p: int, j: int|
        #![trigger after_pages[p].item_hash_list@[j]]
        0 <= p < after_pages.len() && 0 <= j < after_pages[p].item_hash_list@.len() implies {
            &&& entry_offset(after_pages[p].address as int, after_pages[p].item_hash_list@[j].index as int) + ITEM_SIZE
                <= after_flash.len()
            &&& listed_item::<T>(after_pages, after_flash, p, j) is Some
            &&& after_pages[p].item_hash_list@[j].hash == item_hash::<T>(
                listed_item::<T>(after_pages, after_flash, p, j)->0.namespace_index,
                listed_item::<T>(after_pages, after_flash, p, j)->0.key@,
                listed_item::<T>(after_pages, after_flash, p, j)->0.chunk_index,
            )
        } by {
        let e = after_pages[p].item_hash_list@[j];
        assert(after_pages[p] == after_pages[p]);
        assert(pages0[p].item_hash_list@.contains(e));
        let j0 = choose|j0: int| 0 <= j0 < pages0[p].item_hash_list@.len() && pages0[p].item_hash_list@[j0] == e;
        assert(pages0[p].item_hash_list@[j0] == e);
        let a = pages0[p].address as int;
        assert(pages0[p].wf() && before.in_partition(pages0[p]));
        before.lemma_entries_kept(pages0[p], flash0, after_flash, entry_offset(a, e.index as int), entry_offset(a, e.index as int) + ITEM_SIZE);
        assert(listed_item::<T>(after_pages, after_flash, p, j) == listed_item::<T>(pages0, flash0, p, j0));
    }
    assert forall|p1: int, j1: int, p2: int, j2: int|
        #![trigger after_pages[p1].item_hash_list@[j1], after_pages[p2].item_hash_list@[j2]]
        0 <= p1 < after_pages.len() && 0 <= j1 < after_pages[p1].item_hash_list@.len() && 0 <= p2 < after_pages.len()
            && 0 <= j2 < after_pages[p2].item_hash_list@.len() && (p1 != p2 || after_pages[p1].item_hash_list@[j1].index
            != after_pages[p2].item_hash_list@[j2].index) && listed_item::<T>(after_pages, after_flash, p1, j1) is Some
            && listed_item::<T>(after_pages, after_flash, p2, j2) is Some implies !same_slot_items(
            listed_item::<T>(after_pages, after_flash, p1, j1)->0,
            listed_item::<T>(after_pages, after_flash, p2, j2)->0,
        ) by {
        let e1 = after_pages[p1].item_hash_list@[j1];
        let e2 = after_pages[p2].item_hash_list@[j2];
        assert(after_pages[p1] == after_pages[p1]);
        assert(after_pages[p2] == after_pages[p2]);
        assert(pages0[p1].item_hash_list@.contains(e1));
        assert(pages0[p2].item_hash_list@.contains(e2));
        let k1 = choose|k: int| 0 <= k < pages0[p1].item_hash_list@.len() && pages0[p1].item_hash_list@[k] == e1;
        let k2 = choose|k: int| 0 <= k < pages0[p2].item_hash_list@.len() && pages0[p2].item_hash_list@[k] == e2;
        assert(pages0[p1].item_hash_list@[k1] == e1);
        assert(pages0[p2].item_hash_list@[k2] == e2);
        let a1 = pages0[p1].address as int;
        let a2 = pages0[p2].address as int;
        assert(pages0[p1].wf() && before.in_partition(pages0[p1]));
        assert(pages0[p2].wf() && before.in_partition(pages0[p2]));
        before.lemma_entries_kept(pages0[p1], flash0, after_flash, entry_offset(a1, e1.index as int), entry_offset(a1, e1.index as int) + ITEM_SIZE);
        before.lemma_entries_kept(pages0[p2], flash0, after_flash, entry_offset(a2, e2.index as int), entry_offset(a2, e2.index as int) + ITEM_SIZE);
        assert(listed_item::<T>(after_pages, after_flash, p1, j1) == listed_item::<T>(pages0, flash0, p1, k1));
        assert(listed_item::<T>(after_pages, after_flash, p2, j2) == listed_item::<T>(pages0, flash0, p2, k2));
    }
}

/// Read after delete for lookups: in a store whose lookup lists are consistent, once the
/// entry of the item that a lookup finds is no longer listed, while the lists only lost
/// entries and the flash changed only in the header areas (as a deletion leaves them),
/// the lookup finds nothing.
pub proof fn lemma_lookup_misses_deleted<T: Platform>(
    before: Nvs<T>,
    after_pages: Seq<ThinPage>,
    after_flash: Seq<u8>,
    ns: u8,
    key: Seq<u8>,
    chunk: u8,
    p: int,
    i: u8,
    it: Item,
)
    requires
        before.wf(),
        lists_consistent::<T>(before.pages@, before.flash()),
        0 <= p < before.pages@.len(),
        lookup_found::<T>(before.pages@, before.flash(), ns, key, chunk, p, i, it),
        lists_shrunk(before.pages@, after_pages),
        before.header_areas_frame(before.flash(), after_flash),
        forall|j: int| 0 <= j < after_pages[p].item_hash_list@.len() ==> (#[trigger] after_pages[p].item_hash_list@[j]).index != i,
    ensures
        lookup_missing::<T>(after_pages, after_flash, ns, key, chunk),
{
    let pages0 = before.pages@;
    let flash0 = before.flash();
    let h = item_hash::<T>(ns, key, chunk);
    let jf = choose|j: int|
        #![trigger pages0[p].item_hash_list@[j]]
        is_candidate(pages0, p, j, h) && pages0[p].item_hash_list@[j].index == i && listed_item::<T>(pages0, flash0, p, j)
            == Some(it) && item_matches(it, ns, key, chunk) && passed_before::<T>(pages0, flash0, ns, key, chunk, p, j);
    assert(pages0[p].item_hash_list@[jf] == pages0[p].item_hash_list@[jf]);
    assert forall|p2: int, j2: int|
        #![trigger after_pages[p2].item_hash_list@[j2]]
        is_candidate(after_pages, p2, j2, h) && scanned_before(p2, j2, after_pages.len() as int, 0) implies {
            &&& listed_item::<T>(after_pages, after_flash, p2, j2) is Some
            &&& !item_matches(listed_item::<T>(after_pages, after_flash, p2, j2)->0, ns, key, chunk)
        } by {
        let e = after_pages[p2].item_hash_list@[j2];
        assert(after_pages[p2] == after_pages[p2]);
        assert(pages0[p2].item_hash_list@.contains(e));
        let j0 = choose|j0: int| 0 <= j0 < pages0[p2].item_hash_list@.len() && pages0[p2].item_hash_list@[j0] == e;
        assert(pages0[p2].item_hash_list@[j0] == e);
        let a = pages0[p2].address as int;
        assert(pages0[p2].wf() && before.in_partition(pages0[p2]));
        before.lemma_entries_kept(pages0[p2], flash0, after_flash, entry_offset(a, e.index as int), entry_offset(a, e.index as int) + ITEM_SIZE);
        assert(listed_item::<T>(after_pages, after_flash, p2, j2) == listed_item::<T>(pages0, flash0, p2, j0));
        if item_matches(listed_item::<T>(pages0, flash0, p2, j0)->0, ns, key, chunk) {
            if p2 != p || pages0[p2].item_hash_list@[j0].index != pages0[p].item_hash_list@[jf].index {
                assert(same_slot_items(listed_item::<T>(pages0, flash0, p2, j0)->0, it));
            } else {
                assert(e.index == i);
                assert(after_pages[p].item_hash_list@[j2].index != i);
            }
        }
    }
    assert(passed_before::<T>(after_pages, after_flash, ns, key, chunk, after_pages.len() as int, 0));
}

/// A lookup that finds nothing keeps finding nothing: in a store whose lookup lists are
/// consistent, when the lists only lose entries and the flash changes only in the header
/// areas, a key that the lookup misses is still missed.
pub proof fn lemma_lookup_missing_kept<T: Platform>(
    before: Nvs<T>,
    after_pages: Seq<ThinPage>,
    after_flash: Seq<u8>,
    ns: u8,
    key: Seq<u8>,
    chunk: u8,
)
    requires
        before.wf(),
        lists_consistent::<T>(before.pages@, before.flash()),
        lookup_missing::<T>(before.pages@, before.flash(), ns, key, chunk),
        lists_shrunk(before.pages@, after_pages),
        before.header_areas_frame(before.flash(), after_flash),
    ensures
        lookup_missing::<T>(after_pages, after_flash, ns, key, chunk),
{
    let pages0 = before.pages@;
    let flash0 = before.flash();
    let h = item_hash::<T>(ns, key, chunk);
    if !passed_before::<T>(pages0, flash0, ns, key, chunk, pages0.len() as int, 0) {
        let (p, j) = choose|p: int, j: int|
            #![trigger pages0[p].item_hash_list@[j]]
            is_candidate(pages0, p, j, h) && listed_item::<T>(pages0, flash0, p, j) is None && passed_before::<T>(
                pages0,
                flash0,
                ns,
                key,
                chunk,
                p,
                j,
            );
        assert(pages0[p].item_hash_list@[j] == pages0[p].item_hash_list@[j]);
    }
    assert forall|p2: int, j2: int|
        #![trigger after_pages[p2].item_hash_list@[j2]]
        is_candidate(after_pages, p2, j2, h) && scanned_before(p2, j2, after_pages.len() as int, 0) implies {
            &&& listed_item::<T>(after_pages, after_flash, p2, j2) is Some
            &&& !item_matches(listed_item::<T>(after_pages, after_flash, p2, j2)->0, ns, key, chunk)
        } by {
        let e = after_pages[p2].item_hash_list@[j2];
        assert(after_pages[p2] == after_pages[p2]);
        assert(pages0[p2].item_hash_list@.contains(e));
        let j0 = choose|j0: int| 0 <= j0 < pages0[p2].item_hash_list@.len() && pages0[p2].item_hash_list@[j0] == e;
        assert(pages0[p2].item_hash_list@[j0] == e);
        let a = pages0[p2].address as int;
        assert(pages0[p2].wf() && before.in_partition(pages0[p2]));
        before.lemma_entries_kept(pages0[p2], flash0, after_flash, entry_offset(a, e.index as int), entry_offset(a, e.index as int) + ITEM_SIZE);
        assert(listed_item::<T>(after_pages, after_flash, p2, j2) == listed_item::<T>(pages0, flash0, p2, j0));
        assert(is_candidate(pages0, p2, j0, h));
    }
    assert(passed_before::<T>(after_pages, after_flash, ns, key, chunk, after_pages.len() as int, 0));
}

/// Entries marked erased in the bitmaps of the pages stay marked erased.
pub open spec fn erased_kept(old: Seq<ThinPage>, new: Seq<ThinPage>) -> bool {
    &&& new.len() == old.len()
    &&& forall|q: int, i: int|
        0 <= q < new.len() && 0 <= i < 128 && entry_state_at(old[q].entry_state_bitmap@, i) == EntryMapState::Erased
            ==> #[trigger] entry_state_at(new[q].entry_state_bitmap@, i) == EntryMapState::Erased
}

/// Keeping erased entries erased twice keeps them erased.
pub proof fn lemma_erased_kept_trans(a: Seq<ThinPage>, b: Seq<ThinPage>, c: Seq<ThinPage>)
    requires
        erased_kept(a, b),
        erased_kept(b, c),
    ensures
        erased_kept(a, c),
{
    assert forall|q: int, i: int|
        0 <= q < c.len() && 0 <= i < 128 && entry_state_at(a[q].entry_state_bitmap@, i) == EntryMapState::Erased implies #[trigger] entry_state_at(
            c[q].entry_state_bitmap@,
            i,
        ) == EntryMapState::Erased by {
        assert(entry_state_at(b[q].entry_state_bitmap@, i) == EntryMapState::Erased);
    }
}

/// Unchanged pages keep erased entries erased.
pub proof fn lemma_erased_kept_refl(a: Seq<ThinPage>)
    ensures
        erased_kept(a, a),
{
}

/// Pages keep their places, addresses and headers, and their lookup lists only lose
/// entries.
pub open spec fn lists_shrunk(old: Seq<ThinPage>, new: Seq<ThinPage>) -> bool {
    &&& new.len() == old.len()
    &&& forall|q: int|
        #![trigger new[q]]
        0 <= q < new.len() ==> {
            &&& new[q].address == old[q].address
            &&& new[q].header == old[q].header
            &&& forall|j: int|
                0 <= j < new[q].item_hash_list@.len() ==> old[q].item_hash_list@.contains(
                    #[trigger] new[q].item_hash_list@[j],
                )
        }
}

/// Shrinking twice is shrinking.
pub proof fn lemma_lists_shrunk_trans(a: Seq<ThinPage>, b: Seq<ThinPage>, c: Seq<ThinPage>)
    requires
        lists_shrunk(a, b),
        lists_shrunk(b, c),
    ensures
        lists_shrunk(a, c),
{
    assert forall|q: int| #![trigger c[q]] 0 <= q < c.len() implies {
        &&& c[q].address == a[q].address
        &&& forall|j: int|
            0 <= j < c[q].item_hash_list@.len() ==> a[q].item_hash_list@.contains(
                #[trigger] c[q].item_hash_list@[j],
            )
    } by {
        assert(b[q].address == a[q].address);
        assert forall|j: int| 0 <= j < c[q].item_hash_list@.len() implies a[q].item_hash_list@.contains(
            #[trigger] c[q].item_hash_list@[j],
        ) by {
            let e = c[q].item_hash_list@[j];
            assert(b[q].item_hash_list@.contains(e));
            let k = choose|k: int| 0 <= k < b[q].item_hash_list@.len() && b[q].item_hash_list@[k] == e;
            assert(a[q].item_hash_list@.contains(b[q].item_hash_list@[k]));
        }
    }
}

/// Lists that did not change have shrunk.
pub proof fn lemma_lists_shrunk_refl(a: Seq<ThinPage>)
    ensures
        lists_shrunk(a, a),
{
    assert forall|q: int| #![trigger a[q]] 0 <= q < a.len() implies forall|j: int|
        0 <= j < a[q].item_hash_list@.len() ==> a[q].item_hash_list@.contains(
            #[trigger] a[q].item_hash_list@[j],
        ) by {
        assert forall|j: int| 0 <= j < a[q].item_hash_list@.len() implies a[q].item_hash_list@.contains(
            #[trigger] a[q].item_hash_list@[j],
        ) by {
        }
    }
}

/// The index of namespace `name` in a namespace table.
pub open spec fn namespace_index_of(namespaces: Seq<Namespace>, name: Seq<u8>) -> Option<u8> {
    if exists|i: int| 0 <= i < namespaces.len() && (#[trigger] namespaces[i]).name@ == name {
        let i = choose|i: int| 0 <= i < namespaces.len() && (#[trigger] namespaces[i]).name@ == name;
        Some(namespaces[i].index)
    } else {
        None
    }
}

/// No namespace name appears twice.
pub open spec fn namespaces_unique(namespaces: Seq<Namespace>) -> bool {
    forall|i: int, j: int|
        0 <= i < j < namespaces.len() ==> (#[trigger] namespaces[i]).name@ != (#[trigger] namespaces[j]).name@
}

impl<T: Platform> Nvs<T> {
    /// Opens the partition of `partition_size` bytes at flash offset `partition_offset` on
    /// the flash of `hal` and loads its pages. Both must be multiples of the sector size.
    pub fn new(partition_offset: usize, partition_size: usize, hal: T) -> (r: Result<Nvs<T>, Error>)
        requires
            partition_offset + partition_size + 0x2_0000 <= usize::MAX,
        ensures
            partition_offset % FLASH_SECTOR_SIZE != 0 ==> (r matches Err(e) && e == Error::InvalidPartitionOffset),
            partition_offset % FLASH_SECTOR_SIZE == 0 && partition_size % FLASH_SECTOR_SIZE != 0 ==> (r matches Err(e)
                && e == Error::InvalidPartitionSize),
            r matches Ok(nvs) ==> {
                &&& nvs.wf()
                &&& nvs.base_address == partition_offset
                &&& nvs.sectors * FLASH_SECTOR_SIZE == partition_size
                &&& crate::compaction::no_duplicate_items::<T>(nvs.pages@, nvs.flash())
                &&& nvs.pages@.len() + nvs.free_pages@.len() == nvs.sectors
                &&& crate::compaction::only_last_active(nvs.pages@)
                &&& forall|s: int|
                    0 <= s < nvs.sectors && crate::init::loads_as_used::<T>(
                        hal.flash().subrange(
                            partition_offset + s * FLASH_SECTOR_SIZE,
                            partition_offset + s * FLASH_SECTOR_SIZE + FLASH_SECTOR_SIZE,
                        ),
                    ) ==> #[trigger] crate::init::namespaces_entered(
                        nvs.namespaces@,
                        crate::init::scanned_namespaces::<T>(hal.flash(), partition_offset + s * FLASH_SECTOR_SIZE, 0),
                    )
            },
    {
        if partition_offset % FLASH_SECTOR_SIZE != 0 {
            return Err(Error::InvalidPartitionOffset);
        }
        if partition_size % FLASH_SECTOR_SIZE != 0 {
            return Err(Error::InvalidPartitionSize);
        }
        let sectors = partition_size / FLASH_SECTOR_SIZE;
        let mut nvs = Nvs {
            hal,
            base_address: partition_offset,
            sectors,
            pages: Vec::new(),
            free_pages: Vec::new(),
            namespaces: Vec::new(),
        };
        let ghost nvs0 = nvs;
        match nvs.load_sectors() {
            Ok(()) => {
                proof {
                    assert(nvs0.flash() == hal.flash());
                    assert forall|s: int|
                        0 <= s < nvs.sectors && crate::init::loads_as_used::<T>(
                            hal.flash().subrange(
                                partition_offset + s * FLASH_SECTOR_SIZE,
                                partition_offset + s * FLASH_SECTOR_SIZE + FLASH_SECTOR_SIZE,
                            ),
                        ) implies #[trigger] crate::init::namespaces_entered(
                        nvs.namespaces@,
                        crate::init::scanned_namespaces::<T>(hal.flash(), partition_offset + s * FLASH_SECTOR_SIZE, 0),
                    ) by {
                        assert(crate::init::namespaces_entered(
                            nvs.namespaces@,
                            crate::init::scanned_namespaces::<T>(nvs0.flash(), nvs0.base_address + s * FLASH_SECTOR_SIZE, 0),
                        ));
                    }
                }
                Ok(nvs)
            },
            Err(e) => Err(e),
        }
    }

    /// The well-formedness of the storage: the partition fits the address space, every
    /// page is well-formed, and every namespace name appears once.
    pub open spec fn wf(&self) -> bool {
        &&& self.base_address + self.sectors * FLASH_SECTOR_SIZE + 0x2_0000 <= usize::MAX
        &&& forall|i: int| 0 <= i < self.pages@.len() ==> (#[trigger] self.pages@[i]).wf() && self.in_partition(self.pages@[i])
        &&& forall|i: int| 0 <= i < self.free_pages@.len() ==> (#[trigger] self.free_pages@[i]).wf() && self.in_partition(self.free_pages@[i])
        &&& namespaces_unique(self.namespaces@)
    }

    /// Every lookup entry of every page, used or free, names an entry before the next one
    /// to be written on its page.
    pub open spec fn lists_below_next_free(&self) -> bool {
        &&& forall|i: int| 0 <= i < self.pages@.len() ==> (#[trigger] self.pages@[i]).listed_below_next_free()
        &&& forall|i: int| 0 <= i < self.free_pages@.len() ==> (#[trigger] self.free_pages@[i]).listed_below_next_free()
    }

    /// Whether `page` stands for a sector of the partition.
    pub open spec fn in_partition(&self, page: ThinPage) -> bool {
        self.sector_in_partition(page.address as int)
    }

    /// Whether `address` is the start of a sector of the partition.
    pub open spec fn sector_in_partition(&self, address: int) -> bool {
        &&& self.base_address <= address
        &&& address + FLASH_SECTOR_SIZE <= self.base_address + self.sectors * FLASH_SECTOR_SIZE
        &&& (address - self.base_address) % (FLASH_SECTOR_SIZE as int) == 0
    }

    /// Same pages, namespaces, partition and flash contents.
    pub open spec fn same_state(&self, other: Self) -> bool {
        &&& self.base_address == other.base_address
        &&& self.sectors == other.sectors
        &&& self.pages == other.pages
        &&& self.free_pages == other.free_pages
        &&& self.namespaces == other.namespaces
        &&& self.hal.flash() == other.hal.flash()
    }

    /// The contents of the flash.
    pub open spec fn flash(&self) -> Seq<u8> {
        self.hal.flash()
    }

    /// Whether every used page's sequence number leaves room for a next one.
    pub open spec fn sequences_bounded(&self) -> bool {
        forall|i: int| 0 <= i < self.pages@.len() ==> (#[trigger] self.pages@[i]).header.sequence < u32::MAX
    }

    /// The largest sequence number of the used pages.
    pub open spec fn max_sequence(pages: Seq<ThinPage>, n: int) -> int
        decreases n,
    {
        if n <= 0 {
            -1
        } else {
            let m = Self::max_sequence(pages, n - 1);
            let s = pages[n - 1].header.sequence as int;
            if s > m {
                s
            } else {
                m
            }
        }
    }

    /// The sequence number for the next page to be initialized: one more than the largest
    /// in use, or 0 when no page is in use.
    pub fn get_next_sequence(&self) -> (s: u32)
        requires
            self.sequences_bounded(),
        ensures
            s == Self::max_sequence(self.pages@, self.pages@.len() as int) + 1,
    {
        let mut best: Option<u32> = None;
        let mut i: usize = 0;
        while i < self.pages.len()
            invariant
                i <= self.pages@.len(),
                self.sequences_bounded(),
                match best {
                    Some(b) => b == Self::max_sequence(self.pages@, i as int) && i > 0,
                    None => i == 0,
                },
                Self::max_sequence(self.pages@, i as int) < u32::MAX,
            decreases self.pages@.len() - i,
        {
            let s = self.pages[i].header.sequence;
            best = match best {
                Some(b) => if s > b { Some(s) } else { Some(b) },
                None => Some(s),
            };
            i += 1;
        }
        match best {
            Some(current) => current + 1,
            None => 0,
        }
    }

    /// Whether every used page's sequence number leaves room for a next one.
    pub fn check_sequences_bounded(&self) -> (b: bool)
        ensures
            b == self.sequences_bounded(),
    {
        let mut i: usize = 0;
        while i < self.pages.len()
            invariant
                i <= self.pages@.len(),
                forall|j: int| 0 <= j < i ==> (#[trigger] self.pages@[j]).header.sequence < u32::MAX,
            decreases self.pages@.len() - i,
        {
            if self.pages[i].header.sequence == u32::MAX {
                return false;
            }
            i += 1;
        }
        true
    }

    /// The index of namespace `name`, if it exists.
    pub fn find_namespace(&self, name: &Key) -> (r: Option<u8>)
        requires
            namespaces_unique(self.namespaces@),
        ensures
            r == namespace_index_of(self.namespaces@, name@),
    {
        let mut i: usize = 0;
        while i < self.namespaces.len()
            invariant
                i <= self.namespaces@.len(),
                namespaces_unique(self.namespaces@),
                forall|j: int| 0 <= j < i ==> (#[trigger] self.namespaces@[j]).name@ != name@,
            decreases self.namespaces@.len() - i,
        {
            if self.namespaces[i].name.equals(name) {
                proof {
                    let k = choose|k: int| 0 <= k < self.namespaces@.len() && (#[trigger] self.namespaces@[k]).name@ == name@;
                    if k < i {
                        assert(self.namespaces@[k].name@ != self.namespaces@[i as int].name@);
                    } else if k > i {
                        assert(self.namespaces@[i as int].name@ != self.namespaces@[k].name@);
                    }
                }
                return Some(self.namespaces[i].index);
            }
            i += 1;
        }
        None
    }

    /// Finds the item stored under (`namespace_index`, `key`, `chunk_index`), scanning the
    /// lookup lists of the used pages in order.
    pub fn load_item(&mut self, namespace_index: u8, chunk_index: ChunkIndex, key: &Key) -> (r: Result<
        (PageIndex, ItemIndex, Item),
        Error,
    >)
        requires
            old(self).wf(),
        ensures
            final(self).same_state(*old(self)),
            match r {
                Ok((p, i, it)) => p.0 < old(self).pages@.len() && lookup_found::<T>(
                    old(self).pages@,
                    old(self).flash(),
                    namespace_index,
                    key@,
                    chunk_field(chunk_index),
                    p.0 as int,
                    i.0,
                    it,
                ),
                Err(Error::KeyNotFound) => lookup_missing::<T>(
                    old(self).pages@,
                    old(self).flash(),
                    namespace_index,
                    key@,
                    chunk_field(chunk_index),
                ),
                Err(Error::FlashError) => true,
                _ => false,
            },
    {
        let item_chunk_index = chunk_index.field();
        let hash = Item::calculate_hash_ref::<T>(namespace_index, key, item_chunk_index);
        let ghost pages = self.pages@;
        let ghost flash = self.hal.flash();
        let ghost c = chunk_field(chunk_index);
        let ghost old_self = *self;
        assert(self.same_state(old_self));
        let mut page_index: usize = 0;
        while page_index < self.pages.len()
            invariant
                page_index <= pages.len(),
                self.pages@ == pages,
                self.hal.flash() == flash,
                self.same_state(old_self),
                old_self == *old(self),
                old_self.wf(),
                item_chunk_index == c,
                c == chunk_field(chunk_index),
                hash == item_hash::<T>(namespace_index, key@, c),
                passed_before::<T>(pages, flash, namespace_index, key@, c, page_index as int, 0),
            decreases pages.len() - page_index,
        {
            let mut j: usize = 0;
            let len = self.pages[page_index].item_hash_list.len();
            while j < len
                invariant
                    page_index < pages.len(),
                    j <= len,
                    len == pages[page_index as int].item_hash_list@.len(),
                    self.pages@ == pages,
                    self.hal.flash() == flash,
                    self.same_state(old_self),
                old_self == *old(self),
                    old_self.wf(),
                    item_chunk_index == c,
                    c == chunk_field(chunk_index),
                c == chunk_field(chunk_index),
                    hash == item_hash::<T>(namespace_index, key@, c),
                    passed_before::<T>(pages, flash, namespace_index, key@, c, page_index as int, j as int),
                decreases len - j,
            {
                let cache_entry = self.pages[page_index].item_hash_list[j];
                if cache_entry.hash == hash {
                    proof {
                        assert(pages[page_index as int].wf());
                    }
                    let loaded = self.pages[page_index].load_item(&mut self.hal, cache_entry.index);
                    let item = match loaded {
                        Ok(it) => it,
                        Err(e) => {
                            proof {
                                if e == Error::KeyNotFound {
                                    assert(pages[page_index as int].item_hash_list@[j as int] == cache_entry);
                                    assert(is_candidate(pages, page_index as int, j as int, hash));
                                    assert(listed_item::<T>(pages, flash, page_index as int, j as int) is None);
                                }
                            }
                            return Err(e);
                        },
                    };
                    if item.namespace_index == namespace_index && item.key.equals(key)
                        && item.chunk_index == item_chunk_index {
                        proof {
                            assert(is_candidate(pages, page_index as int, j as int, hash));
                            assert(listed_item::<T>(pages, flash, page_index as int, j as int) == Some(item));
                            assert(pages[page_index as int].item_hash_list@[j as int] == cache_entry);
                            assert(item_matches(item, namespace_index, key@, c));
                            assert(passed_before::<T>(pages, flash, namespace_index, key@, c, page_index as int, j as int));
                            assert(lookup_found::<T>(pages, flash, namespace_index, key@, c, page_index as int, cache_entry.index, item));
                        }
                        return Ok((PageIndex(page_index), ItemIndex(cache_entry.index), item));
                    }
                    proof {
                        assert(listed_item::<T>(pages, flash, page_index as int, j as int) == Some(item));
                    }
                }
                j += 1;
            }
            page_index += 1;
        }
        Err(Error::KeyNotFound)
    }

    /// Erases the item at entry `item_index` of used page `page_index`, whose span is
    /// `span`. A span that does not fit the page's entries is reported as corrupted data.
    pub fn erase_entry(&mut self, page_index: usize, item_index: u8, span: u8) -> (r: Result<(), Error>)
        requires
            old(self).wf(),
            page_index < old(self).pages@.len(),
            item_index < ENTRIES_PER_PAGE,
        ensures
            final(self).wf(),
            final(self).namespaces == old(self).namespaces,
            final(self).free_pages == old(self).free_pages,
            final(self).base_address == old(self).base_address,
            final(self).sectors == old(self).sectors,
            lists_shrunk(old(self).pages@, final(self).pages@),
            forall|q: int| 0 <= q < final(self).pages@.len() && q != page_index ==> #[trigger] final(self).pages@[q] == old(self).pages@[q],
            final(self).pages@[page_index as int].header == old(self).pages@[page_index as int].header,
            final(self).flash().len() == old(self).flash().len(),
            old(self).lists_below_next_free() ==> final(self).lists_below_next_free(),
            erased_kept(old(self).pages@, final(self).pages@),
            r is Ok ==> item_index + span <= ENTRIES_PER_PAGE,
            r is Ok ==> forall|k: int|
                item_index <= k < item_index + span ==> #[trigger] entry_state_at(
                    final(self).pages@[page_index as int].entry_state_bitmap@,
                    k,
                ) == EntryMapState::Erased,
            r is Ok ==> forall|j: int|
                0 <= j < old(self).pages@[page_index as int].item_hash_list@.len() && (#[trigger] old(self).pages@[page_index as int].item_hash_list@[j]).index
                    != item_index ==> final(self).pages@[page_index as int].item_hash_list@.contains(old(self).pages@[page_index as int].item_hash_list@[j]),
            r is Ok ==> header_area_frame(old(self).flash(), final(self).flash(), old(self).pages@[page_index as int].address as int),
            match r {
                Ok(()) => forall|j: int|
                    0 <= j < final(self).pages@[page_index as int].item_hash_list@.len()
                        ==> (#[trigger] final(self).pages@[page_index as int].item_hash_list@[j]).index != item_index,
                Err(Error::CorruptedData) => {
                    let p = old(self).pages@[page_index as int];
                    &&& (span == 0 || item_index + span > ENTRIES_PER_PAGE || span > p.used_entry_count)
                    &&& final(self).same_state(*old(self))
                },
                Err(Error::FlashError) => true,
                _ => false,
            },
    {
        let used = self.pages[page_index].used_entry_count;
        if span == 0 || item_index as usize + span as usize > ENTRIES_PER_PAGE || span > used {
            proof {
                lemma_lists_shrunk_refl(self.pages@);
            }
            return Err(Error::CorruptedData);
        }
        let ghost old_pages = self.pages@;
        let mut page = self.pages.remove(page_index);
        let ghost old_page = page;
        let r = page.erase_item(&mut self.hal, item_index, span);
        self.pages.insert(page_index, page);
        proof {
            assert(self.pages@[page_index as int] == page);
            assert forall|i: int| 0 <= i < 128 implies #[trigger] entry_bits(page.entry_state_bitmap@, i) == if item_index <= i
                < item_index + span {
                entry_bits(old_page.entry_state_bitmap@, i) & 0u8
            } else {
                entry_bits(old_page.entry_state_bitmap@, i)
            } by {}
            assert forall|x: u8| #[trigger] (x & 0u8) == 0u8 by {
                assert(x & 0u8 == 0u8) by (bit_vector);
            }
            assert forall|q: int, i: int|
                0 <= q < self.pages@.len() && 0 <= i < 128 && entry_state_at(old_pages[q].entry_state_bitmap@, i)
                    == EntryMapState::Erased implies #[trigger] entry_state_at(self.pages@[q].entry_state_bitmap@, i)
                    == EntryMapState::Erased by {
                if q != page_index {
                    assert(self.pages@[q] == old_pages[q]);
                } else {
                    assert(entry_bits(page.entry_state_bitmap@, i) == entry_bits(page.entry_state_bitmap@, i));
                }
            }
            assert forall|k: int| item_index <= k < item_index + span implies #[trigger] entry_state_at(
                self.pages@[page_index as int].entry_state_bitmap@,
                k,
            ) == EntryMapState::Erased by {
                assert(entry_bits(page.entry_state_bitmap@, k) == entry_bits(page.entry_state_bitmap@, k));
            }
            assert forall|q: int| 0 <= q < self.pages@.len() && q != page_index implies #[trigger] self.pages@[q] == old_pages[q] by {
            }
            assert forall|q: int| #![trigger self.pages@[q]] 0 <= q < self.pages@.len() implies {
                &&& self.pages@[q].address == old_pages[q].address
                &&& forall|j: int|
                    0 <= j < self.pages@[q].item_hash_list@.len() ==> old_pages[q].item_hash_list@.contains(
                        #[trigger] self.pages@[q].item_hash_list@[j],
                    )
            } by {
                if q == page_index {
                    if r is Err {
                        assert(self.pages@[q].item_hash_list == old_pages[q].item_hash_list);
                        assert forall|j: int| 0 <= j < self.pages@[q].item_hash_list@.len() implies old_pages[q].item_hash_list@.contains(
                            #[trigger] self.pages@[q].item_hash_list@[j],
                        ) by {
                        }
                    }
                } else {
                    assert forall|j: int| 0 <= j < self.pages@[q].item_hash_list@.len() implies old_pages[q].item_hash_list@.contains(
                        #[trigger] self.pages@[q].item_hash_list@[j],
                    ) by {
                    }
                }
            }
        }
        r
    }

    /// Adding a well-formed page of the partition to the used pages keeps the storage
    /// well-formed.
    pub proof fn lemma_push_page(&self, before: Self, page: ThinPage)
        requires
            before.wf(),
            page.wf(),
            before.in_partition(page),
            self.pages@ == before.pages@.push(page),
            self.free_pages == before.free_pages,
            self.namespaces == before.namespaces,
            self.base_address == before.base_address,
            self.sectors == before.sectors,
        ensures
            self.wf(),
    {
        assert forall|i: int| 0 <= i < self.pages@.len() implies (#[trigger] self.pages@[i]).wf() && self.in_partition(self.pages@[i]) by {
            if i < self.pages@.len() - 1 {
                assert(self.pages@[i] == before.pages@[i]);
            }
        }
    }

    /// Whether byte `k` lies in the header and bitmap area of a sector of the partition.
    pub open spec fn in_header_area(&self, k: int) -> bool {
        &&& self.base_address <= k < self.base_address + self.sectors * FLASH_SECTOR_SIZE
        &&& (k - self.base_address) % (FLASH_SECTOR_SIZE as int) < ITEMS_OFFSET
    }

    /// The flash changed at most in the header and bitmap areas of the partition's sectors.
    pub open spec fn header_areas_frame(&self, f: Seq<u8>, g: Seq<u8>) -> bool {
        &&& g.len() == f.len()
        &&& forall|k: int| 0 <= k < f.len() && !self.in_header_area(k) ==> #[trigger] g[k] == f[k]
    }

    /// An unchanged flash changed at most in the header areas.
    pub proof fn lemma_header_areas_frame_refl(&self, f: Seq<u8>)
        ensures
            self.header_areas_frame(f, f),
    {
    }

    /// Two changes in the header areas are one change in the header areas.
    pub proof fn lemma_header_areas_frame_trans(&self, f: Seq<u8>, g: Seq<u8>, h: Seq<u8>)
        requires
            self.header_areas_frame(f, g),
            self.header_areas_frame(g, h),
        ensures
            self.header_areas_frame(f, h),
    {
        assert forall|k: int| 0 <= k < f.len() && !self.in_header_area(k) implies #[trigger] h[k] == f[k] by {
            assert(g[k] == f[k]);
        }
    }

    /// A change in the header area of one page of the partition is a change in the header
    /// areas of the partition.
    pub proof fn lemma_page_header_frame(&self, a: ThinPage, f: Seq<u8>, g: Seq<u8>)
        requires
            self.in_partition(a),
            header_area_frame(f, g, a.address as int),
        ensures
            self.header_areas_frame(f, g),
    {
        let base = self.base_address as int;
        let ka = (a.address - base) / 4096;
        vstd::arithmetic::div_mod::lemma_fundamental_div_mod(a.address - base, 4096);
        assert forall|k: int| 0 <= k < f.len() && !self.in_header_area(k) implies #[trigger] g[k] == f[k] by {
            if a.address <= k < a.address + ITEMS_OFFSET {
                assert(k - base == 4096 * ka + (k - a.address));
                vstd::arithmetic::div_mod::lemma_fundamental_div_mod_converse(k - base, 4096, ka, k - a.address);
                assert(false);
            }
        }
    }

    /// A write into one page of the partition leaves the entries of another page unchanged.
    pub proof fn lemma_other_page_kept(&self, a: ThinPage, b: ThinPage, f: Seq<u8>, g: Seq<u8>, from: int, to: int, lo: int, hi: int)
        requires
            self.in_partition(a),
            self.in_partition(b),
            a.address != b.address,
            crate::page::page_write_frame(f, g, a.address as int, from, to),
            0 <= from <= to <= ENTRIES_PER_PAGE,
            b.address + ITEMS_OFFSET <= lo <= hi <= b.address + FLASH_SECTOR_SIZE,
            hi <= f.len(),
        ensures
            g.subrange(lo, hi) == f.subrange(lo, hi),
    {
        let base = self.base_address as int;
        let ka = (a.address - base) / 4096;
        let kb = (b.address - base) / 4096;
        vstd::arithmetic::div_mod::lemma_fundamental_div_mod(a.address - base, 4096);
        vstd::arithmetic::div_mod::lemma_fundamental_div_mod(b.address - base, 4096);
        assert forall|k: int| lo <= k < hi implies #[trigger] g[k] == f[k] by {
            if a.address <= k < a.address + FLASH_SECTOR_SIZE {
                assert(k - base == 4096 * ka + (k - a.address));
                assert(k - base == 4096 * kb + (k - b.address));
                vstd::arithmetic::div_mod::lemma_fundamental_div_mod_converse(k - base, 4096, ka, k - a.address);
                vstd::arithmetic::div_mod::lemma_fundamental_div_mod_converse(k - base, 4096, kb, k - b.address);
                assert(false);
            }
        }
        assert(g.subrange(lo, hi) =~= f.subrange(lo, hi));
    }

    /// Bytes outside the header areas survive a header-area change: the entries of a page
    /// of the partition, from entry `from` up to the end of the page.
    pub proof fn lemma_entries_kept(&self, b: ThinPage, f: Seq<u8>, g: Seq<u8>, lo: int, hi: int)
        requires
            self.in_partition(b),
            self.header_areas_frame(f, g),
            b.address + ITEMS_OFFSET <= lo <= hi <= b.address + FLASH_SECTOR_SIZE,
            hi <= f.len(),
        ensures
            g.subrange(lo, hi) == f.subrange(lo, hi),
    {
        let base = self.base_address as int;
        let kb = (b.address - base) / 4096;
        vstd::arithmetic::div_mod::lemma_fundamental_div_mod(b.address - base, 4096);
        assert forall|k: int| lo <= k < hi implies #[trigger] g[k] == f[k] by {
            assert(k - base == 4096 * kb + (k - b.address));
            vstd::arithmetic::div_mod::lemma_fundamental_div_mod_converse(k - base, 4096, kb, k - b.address);
        }
        assert(g.subrange(lo, hi) =~= f.subrange(lo, hi));
    }
}

} // verus!
