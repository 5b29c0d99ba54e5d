//! Bookkeeping of the blob index items and blob data chunks seen while loading pages.

use vstd::prelude::*;

use crate::types::{version_base, Key, VersionOffset};

verus! {

/// Data about the chunks of one blob version observed on a specific page.
#[derive(Clone, Copy)]
pub struct ChunkData {
    pub page_sequence: u32,
    pub chunk_count: u8,
    pub data_size: u32,
}

/// Observed data chunks of one blob version, grouped by page.
pub struct BlobObservedData {
    pub chunks_by_page: Vec<ChunkData>,
}

/// What a blob index item says about its blob.
#[derive(Clone, Copy)]
pub struct BlobIndexEntryBlobIndexData {
    pub item_index: u8,
    pub page_sequence: u32,
    pub size: u32,
    pub chunk_count: u8,
}

/// Everything seen about one version of one blob: its index item, if any, and its chunks.
pub struct BlobIndexEntry {
    pub namespace_index: u8,
    pub version: VersionOffset,
    pub key: Key,
    pub index: Option<BlobIndexEntryBlobIndexData>,
    pub observed: BlobObservedData,
}

/// The sort key of an entry: namespace, version, then the key bytes.
pub open spec fn entry_order_key(e: BlobIndexEntry) -> Seq<u8> {
    seq![e.namespace_index, version_base(e.version)] + e.key@
}

/// Lexicographic order on byte sequences of the same length.
pub open spec fn bytes_lt(a: Seq<u8>, b: Seq<u8>) -> bool {
    exists|k: int| 0 <= k < a.len() && k < b.len() && a.take(k) == b.take(k) && #[trigger] a[k] < b[k]
}

/// Whether `e` belongs to blob version (`namespace_index`, `version`, `key`).
pub open spec fn entry_is(e: BlobIndexEntry, namespace_index: u8, version: VersionOffset, key: Seq<u8>) -> bool {
    e.namespace_index == namespace_index && e.version == version && e.key@ == key
}

/// The blob versions seen so far, at most one entry per (namespace, version, key).
pub struct BlobIndex {
    pub entries: Vec<BlobIndexEntry>,
}

impl BlobIndex {
    /// No blob version has two entries.
    pub open spec fn wf(&self) -> bool {
        forall|i: int, j: int|
            0 <= i < j < self.entries@.len() ==> entry_order_key(#[trigger] self.entries@[i]) != entry_order_key(
                #[trigger] self.entries@[j],
            )
    }

    pub fn new() -> (b: Self)
        ensures
            b.entries@.len() == 0,
            b.wf(),
    {
        BlobIndex { entries: Vec::new() }
    }

    /// Position of the entry of blob version (`namespace_index`, `version`, `key`).
    pub fn find(&self, namespace_index: u8, version: VersionOffset, key: &Key) -> (r: Option<usize>)
        ensures
            r matches Some(i) ==> i < self.entries@.len() && entry_is(self.entries@[i as int], namespace_index, version, key@),
            r is None ==> forall|i: int| 0 <= i < self.entries@.len() ==> !entry_is(#[trigger] self.entries@[i], namespace_index, version, key@),
    {
        let mut i: usize = 0;
        while i < self.entries.len()
            invariant
                i <= self.entries@.len(),
                forall|j: int| 0 <= j < i ==> !entry_is(#[trigger] self.entries@[j], namespace_index, version, key@),
            decreases self.entries@.len() - i,
        {
            let e = &self.entries[i];
            if e.namespace_index == namespace_index && e.version == version && e.key.equals(key) {
                return Some(i);
            }
            i += 1;
        }
        None
    }

    /// Adds the entry of a blob version that has none yet.
    pub fn insert_new(&mut self, e: BlobIndexEntry)
        requires
            old(self).wf(),
            forall|i: int| 0 <= i < old(self).entries@.len() ==> entry_order_key(#[trigger] old(self).entries@[i]) != entry_order_key(e),
        ensures
            final(self).wf(),
            final(self).entries@ == old(self).entries@.push(e),
    {
        self.entries.push(e);
    }

    /// Replaces the entry at `i` by `e`, which belongs to the same blob version.
    pub fn replace(&mut self, i: usize, e: BlobIndexEntry)
        requires
            old(self).wf(),
            i < old(self).entries@.len(),
            entry_order_key(e) == entry_order_key(old(self).entries@[i as int]),
        ensures
            final(self).wf(),
            final(self).entries@ == old(self).entries@.update(i as int, e),
    {
        let ghost before = self.entries@;
        let _ = self.entries.remove(i);
        self.entries.insert(i, e);
        proof {
            assert(self.entries@ =~= before.update(i as int, e));
            assert forall|a: int, b: int| 0 <= a < b < self.entries@.len() implies entry_order_key(
                #[trigger] self.entries@[a],
            ) != entry_order_key(#[trigger] self.entries@[b]) by {
                assert(entry_order_key(self.entries@[a]) == entry_order_key(before[a]));
                assert(entry_order_key(self.entries@[b]) == entry_order_key(before[b]));
            }
        }
    }

    /// Takes the entry at `i` out, leaving an entry of the same blob version with no index
    /// item and no chunks in its place.
    pub fn take(&mut self, i: usize) -> (e: BlobIndexEntry)
        requires
            old(self).wf(),
            i < old(self).entries@.len(),
        ensures
            final(self).wf(),
            e == old(self).entries@[i as int],
            final(self).entries@.len() == old(self).entries@.len(),
            final(self).entries@[i as int].namespace_index == e.namespace_index,
            final(self).entries@[i as int].version == e.version,
            final(self).entries@[i as int].key == e.key,
            final(self).entries@[i as int].index is None,
            final(self).entries@[i as int].observed.chunks_by_page@.len() == 0,
            forall|j: int| 0 <= j < final(self).entries@.len() && j != i ==> #[trigger] final(self).entries@[j] == old(self).entries@[j],
    {
        let e = self.entries.remove(i);
        let blank = BlobIndexEntry {
            namespace_index: e.namespace_index,
            version: e.version,
            key: e.key,
            index: None,
            observed: BlobObservedData { chunks_by_page: Vec::new() },
        };
        let ghost before = old(self).entries@;
        self.entries.insert(i, blank);
        proof {
            assert(self.entries@ =~= before.update(i as int, blank));
            assert(blank.key@ == e.key@);
            assert forall|a: int, b: int| 0 <= a < b < self.entries@.len() implies entry_order_key(
                #[trigger] self.entries@[a],
            ) != entry_order_key(#[trigger] self.entries@[b]) by {
                assert(entry_order_key(self.entries@[a]) == entry_order_key(before[a]));
                assert(entry_order_key(self.entries@[b]) == entry_order_key(before[b]));
            }
        }
        e
    }

    /// Removes and returns the entry that comes first in (namespace, version, key) order.
    pub fn pop_first(&mut self) -> (r: Option<BlobIndexEntry>)
        requires
            old(self).wf(),
        ensures
            final(self).wf(),
            old(self).entries@.len() == 0 ==> r is None && final(self).entries@.len() == 0,
            old(self).entries@.len() > 0 ==> exists|i: int|
                0 <= i < old(self).entries@.len() && r == Some(old(self).entries@[i]) && final(self).entries@
                    == old(self).entries@.remove(i) && forall|j: int|
                    0 <= j < old(self).entries@.len() ==> !bytes_lt(
                        entry_order_key(#[trigger] old(self).entries@[j]),
                        entry_order_key(old(self).entries@[i]),
                    ),
    {
        if self.entries.len() == 0 {
            return None;
        }
        let mut best: usize = 0;
        let mut i: usize = 1;
        while i < self.entries.len()
            invariant
                1 <= i <= self.entries@.len(),
                best < i,
                self.entries@ == old(self).entries@,
                forall|j: int| 0 <= j < i ==> !bytes_lt(entry_order_key(#[trigger] self.entries@[j]), entry_order_key(self.entries@[best as int])),
            decreases self.entries@.len() - i,
        {
            if entry_less(&self.entries[i], &self.entries[best]) {
                proof {
                    lemma_bytes_lt_order(entry_order_key(self.entries@[i as int]), entry_order_key(self.entries@[best as int]));
                }
                best = i;
            }
            i += 1;
        }
        let ghost old_entries = self.entries@;
        let e = self.entries.remove(best);
        proof {
            assert forall|a: int, b: int| 0 <= a < b < self.entries@.len() implies entry_order_key(
                #[trigger] self.entries@[a],
            ) != entry_order_key(#[trigger] self.entries@[b]) by {
                let a0 = if a < best { a } else { a + 1 };
                let b0 = if b < best { b } else { b + 1 };
                assert(self.entries@[a] == old_entries[a0]);
                assert(self.entries@[b] == old_entries[b0]);
            }
        }
        Some(e)
    }
}

/// Whether `a` comes strictly before `b` in (namespace, version, key) order.
pub fn entry_less(a: &BlobIndexEntry, b: &BlobIndexEntry) -> (r: bool)
    ensures
        r == bytes_lt(entry_order_key(*a), entry_order_key(*b)),
{
    let ka = entry_order_key_exec(a);
    let kb = entry_order_key_exec(b);
    let mut k: usize = 0;
    while k < 18
        invariant
            k <= 18,
            ka@ == entry_order_key(*a),
            kb@ == entry_order_key(*b),
            ka@.len() == 18,
            kb@.len() == 18,
            ka@.take(k as int) == kb@.take(k as int),
        decreases 18 - k,
    {
        if ka[k] < kb[k] {
            return true;
        }
        if ka[k] > kb[k] {
            proof {
                assert forall|j: int| 0 <= j < 18 && ka@.take(j) == kb@.take(j) implies !(#[trigger] ka@[j] < kb@[j]) by {
                    if j < k {
                        assert(ka@.take(k as int)[j] == kb@.take(k as int)[j]);
                    } else if j > k {
                        assert(ka@.take(j)[k as int] == kb@.take(j)[k as int]);
                    }
                }
            }
            return false;
        }
        assert forall|j: int| 0 <= j < k implies #[trigger] ka@[j] == kb@[j] by {
            assert(ka@.take(k as int)[j] == kb@.take(k as int)[j]);
        }
        assert(ka@.take(k + 1) =~= kb@.take(k + 1));
        k += 1;
    }
    proof {
        assert forall|j: int| 0 <= j < 18 && ka@.take(j) == kb@.take(j) implies !(#[trigger] ka@[j] < kb@[j]) by {
            assert(ka@.take(18)[j] == kb@.take(18)[j]);
        }
    }
    false
}

fn entry_order_key_exec(e: &BlobIndexEntry) -> (k: Vec<u8>)
    ensures
        k@ == entry_order_key(*e),
{
    let mut k: Vec<u8> = Vec::with_capacity(18);
    k.push(e.namespace_index);
    k.push(e.version.base());
    crate::raw::push_all(&mut k, e.key.0.as_slice());
    assert(k@ =~= entry_order_key(*e));
    k
}

/// Entries with the same sort key belong to the same blob version.
pub proof fn lemma_entry_order_key_injective(a: BlobIndexEntry, b: BlobIndexEntry)
    requires
        entry_order_key(a) == entry_order_key(b),
    ensures
        a.namespace_index == b.namespace_index,
        a.version == b.version,
        a.key@ == b.key@,
{
    let ka = entry_order_key(a);
    let kb = entry_order_key(b);
    assert(ka[0] == a.namespace_index && kb[0] == b.namespace_index);
    assert(ka[1] == version_base(a.version) && kb[1] == version_base(b.version));
    assert(ka.subrange(2, 18) =~= a.key@);
    assert(kb.subrange(2, 18) =~= b.key@);
}

/// The order is transitive from a smaller first element.
proof fn lemma_bytes_lt_order(a: Seq<u8>, b: Seq<u8>)
    requires
        a.len() == 18,
        b.len() == 18,
        bytes_lt(a, b),
    ensures
        forall|c: Seq<u8>| c.len() == 18 && !bytes_lt(c, b) ==> !bytes_lt(c, a),
{
    assert forall|c: Seq<u8>| c.len() == 18 && !bytes_lt(c, b) implies !bytes_lt(c, a) by {
        if bytes_lt(c, a) {
            let k1 = choose|k: int| 0 <= k < c.len() && k < a.len() && c.take(k) == a.take(k) && #[trigger] c[k] < a[k];
            let k2 = choose|k: int| 0 <= k < a.len() && k < b.len() && a.take(k) == b.take(k) && #[trigger] a[k] < b[k];
            let m = if k1 < k2 { k1 } else { k2 };
            assert forall|j: int| 0 <= j < m implies c.take(m)[j] == b.take(m)[j] by {
                assert(c.take(k1)[j] == a.take(k1)[j]);
                assert(a.take(k2)[j] == b.take(k2)[j]);
            }
            assert(c.take(m) =~= b.take(m));
            if k1 < k2 {
                assert(a[k1] == a.take(k2)[k1]);
                assert(a[k1] == b[k1]);
            } else if k2 < k1 {
                assert(c[k2] == c.take(k1)[k2]);
                assert(c[k2] == a[k2]);
            }
            assert(c[m] < b[m]);
        }
    }
}

} // verus!
