# esp_nvs

A key-value store in the non-volatile storage (NVS) format of ESP-IDF, written in Verus:
every function of the library carries a contract, and Verus proves each function against
it. The storage runs on any flash that implements the `Platform` trait; `MemFlash` is a
flash kept in memory.

## Layout

- `src/platform.rs`: the `Platform` trait (flash read, write, erase, and CRC-32).
- `src/mem_flash.rs`: an in-memory flash and the ROM CRC-32 it uses.
- `src/raw.rs`: the on-flash format: page states, entry states, item types, items, headers.
- `src/types.rs`: keys, versions of blobs, chunk numbers.
- `src/page.rs`: one flash page in memory: entry states, writing and erasing items.
- `src/page_order.rs`: the order in which pages are sorted.
- `src/nvs.rs`: the store, item lookup, and the facts that lookups rest on.
- `src/items.rs`: reading, writing and deleting primitive values, strings and blobs.
- `src/init.rs`: loading the pages of a partition and repairing interrupted operations.
- `src/compaction.rs`: reclaiming pages, completing interrupted reclamations, and the
  clean-up of duplicate items and inconsistent blobs done on start-up.
- `src/blob.rs`: bookkeeping of the blob versions seen while loading.
- `src/statistics.rs`: page and entry statistics.
- `tests/`: tests on concrete values, run against `MemFlash`.
- `app/`: a copy of the key type with `Display` and `Debug` text forms.

## Main guarantees

- Looking up a key scans the lookup lists of the used pages in order and finds the first
  valid item stored under the key (`Nvs::load_item`); read operations return exactly what
  that item holds.
- Read after write for values: when `set_primitive` succeeds on a store whose lookup
  lists are consistent, whose used pages have distinct addresses, whose lists name only
  entries below each page's next free entry, whose last page is an active page with room
  and whose namespace exists (with an index other than 0), the lists stay consistent and
  the lookup of the key finds the new value and only it. The item replaced is unlisted
  and its entries are marked erased. That every write keeps the lists consistent, in
  general and for strings and blobs, is not proved.
- Writing a value, string or blob equal to the stored one changes nothing.
- The writes fail only with the storage errors (flash failure, no room, a damaged stored
  item), except for the argument checks they state: `ValueTooLong` comes exactly for a
  string of `MAX_BLOB_DATA_PER_PAGE` bytes or more and a blob of more than
  `MAX_BLOB_SIZE` bytes.
- In a store whose lookup lists are consistent, after `delete_key` succeeds, reading the
  key finds nothing, and the lists stay consistent (`lemma_lookup_misses_after_delete`).
- Loading a sector scans its entries as the format prescribes: the lookup list names
  exactly the items found in namespaces other than 0, the namespaces returned are exactly
  the namespace entries found, and the used and erased counts are those of the scan
  (`load_sector`, `scan_case`). Opening a store enters every namespace found on a used
  page into the namespace table and leaves no active page but the last (`load_sectors`).
- Opening a store leaves no two listed copies of a plain item under the same key; of two
  copies, the older one (lower page sequence number, then lower entry index) is dropped
  and its entries are marked erased, and every entry that no copy beats stays listed
  (`cleanup_duplicate_entries`, `Nvs::new`). Where both versions of a blob have an index
  item, the older version is deleted (`cleanup_dirty_blobs`).
- A blob whose chunks do not add up to the size its index records reads as corrupted
  (`get_blob`).
- Reclaiming a page copies, in order, every written item with a value or with data to a
  fresh page in another sector, and lists each copy for lookup (`copy_items`, `free_page`,
  `defragment`; stated for items whose data lies within their page).
- A page header written when a page is initialized is read back as an active page with
  the written sequence number (`lemma_initialized_header_loads`).
