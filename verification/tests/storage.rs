use esp_nvs::mem_flash::MemFlash;
use esp_nvs::types::{ChunkIndex, Key};
use esp_nvs::{Error, ItemType, Nvs, FLASH_SECTOR_SIZE};

fn fresh(pages: usize) -> Nvs<MemFlash> {
    let size = pages * FLASH_SECTOR_SIZE;
    Nvs::new(0, size, MemFlash::new(size)).unwrap()
}

fn reopen(nvs: Nvs<MemFlash>, pages: usize) -> Nvs<MemFlash> {
    let bytes = nvs.hal.as_bytes().to_vec();
    Nvs::new(0, pages * FLASH_SECTOR_SIZE, MemFlash::from_bytes(bytes)).unwrap()
}

fn ns() -> Key {
    Key::from_str("storage")
}

#[test]
fn new_checks_the_partition_geometry() {
    let flash = MemFlash::new(2 * FLASH_SECTOR_SIZE);
    assert_eq!(Nvs::new(100, FLASH_SECTOR_SIZE, flash).err(), Some(Error::InvalidPartitionOffset));
    let flash = MemFlash::new(2 * FLASH_SECTOR_SIZE);
    assert_eq!(Nvs::new(0, 5000, flash).err(), Some(Error::InvalidPartitionSize));
}

#[test]
fn new_reports_a_partition_outside_the_flash() {
    let flash = MemFlash::new(FLASH_SECTOR_SIZE);
    assert_eq!(Nvs::new(0, 2 * FLASH_SECTOR_SIZE, flash).err(), Some(Error::FlashError));
}

#[test]
fn a_fresh_partition_has_only_empty_pages() {
    let nvs = fresh(4);
    assert_eq!(nvs.pages.len(), 0);
    assert_eq!(nvs.free_pages.len(), 4);
    let stats = nvs.statistics();
    assert_eq!(stats.pages.empty, 4);
    assert_eq!(stats.pages.active, 0);
    assert_eq!(stats.entries_per_page.len(), 4);
    assert_eq!(stats.entries_overall.empty, 4 * 126);
    assert_eq!(stats.entries_overall.written, 0);
}

#[test]
fn primitive_set_then_get() {
    let mut nvs = fresh(4);
    let key = Key::from_str("answer");
    nvs.set_primitive(&ns(), key, ItemType::U32, 42).unwrap();
    assert_eq!(nvs.get_primitive(&ns(), &key, ItemType::U32), Ok(0xFFFF_FFFF_0000_002A));
    let k8 = Key::from_str("byte");
    nvs.set_primitive(&ns(), k8, ItemType::U8, 7).unwrap();
    assert_eq!(nvs.get_primitive(&ns(), &k8, ItemType::U8), Ok(0xFFFF_FFFF_FFFF_FF07));
    let k64 = Key::from_str("wide");
    nvs.set_primitive(&ns(), k64, ItemType::I64, 0x0102_0304_0506_0708).unwrap();
    assert_eq!(nvs.get_primitive(&ns(), &k64, ItemType::I64), Ok(0x0102_0304_0506_0708));
}

#[test]
fn primitive_values_survive_reopening() {
    let mut nvs = fresh(4);
    let key = Key::from_str("boot_count");
    nvs.set_primitive(&ns(), key, ItemType::U16, 513).unwrap();
    let mut nvs = reopen(nvs, 4);
    assert_eq!(nvs.get_primitive(&ns(), &key, ItemType::U16), Ok(0xFFFF_FFFF_FFFF_0201));
}

#[test]
fn overwriting_keeps_only_the_new_value() {
    let mut nvs = fresh(4);
    let key = Key::from_str("mode");
    nvs.set_primitive(&ns(), key, ItemType::U8, 1).unwrap();
    nvs.set_primitive(&ns(), key, ItemType::U8, 2).unwrap();
    assert_eq!(nvs.get_primitive(&ns(), &key, ItemType::U8), Ok(0xFFFF_FFFF_FFFF_FF02));
    let stats = nvs.statistics();
    // namespace entry and the new item are written; the old item is erased
    assert_eq!(stats.entries_overall.written, 2);
    assert_eq!(stats.entries_overall.erased, 1);
    let mut nvs = reopen(nvs, 4);
    assert_eq!(nvs.get_primitive(&ns(), &key, ItemType::U8), Ok(0xFFFF_FFFF_FFFF_FF02));
}

#[test]
fn writing_an_equal_value_writes_nothing() {
    let mut nvs = fresh(4);
    let key = Key::from_str("same");
    nvs.set_primitive(&ns(), key, ItemType::U32, 5).unwrap();
    let before = nvs.statistics();
    nvs.set_primitive(&ns(), key, ItemType::U32, 5).unwrap();
    assert_eq!(nvs.statistics(), before);
}

#[test]
fn reading_with_another_type_reports_the_stored_type() {
    let mut nvs = fresh(4);
    let key = Key::from_str("typed");
    nvs.set_primitive(&ns(), key, ItemType::U8, 1).unwrap();
    assert_eq!(nvs.get_primitive(&ns(), &key, ItemType::U16), Err(Error::ItemTypeMismatch(ItemType::U8)));
}

#[test]
fn lookup_errors() {
    let mut nvs = fresh(4);
    let key = Key::from_str("present");
    assert_eq!(nvs.get_primitive(&ns(), &key, ItemType::U8), Err(Error::NamespaceNotFound));
    nvs.set_primitive(&ns(), key, ItemType::U8, 1).unwrap();
    let missing = Key::from_str("missing");
    assert_eq!(nvs.get_primitive(&ns(), &missing, ItemType::U8), Err(Error::KeyNotFound));
    let bad = Key([b'x'; 16]);
    assert_eq!(nvs.get_primitive(&ns(), &bad, ItemType::U8), Err(Error::KeyMalformed));
    assert_eq!(nvs.get_primitive(&bad, &key, ItemType::U8), Err(Error::NamespaceMalformed));
    assert_eq!(nvs.set_primitive(&ns(), key, ItemType::Sized, 1), Err(Error::ItemTypeMismatch(ItemType::Sized)));
}

#[test]
fn namespaces_keep_keys_apart() {
    let mut nvs = fresh(4);
    let a = Key::from_str("ns_a");
    let b = Key::from_str("ns_b");
    let key = Key::from_str("value");
    nvs.set_primitive(&a, key, ItemType::U8, 1).unwrap();
    nvs.set_primitive(&b, key, ItemType::U8, 2).unwrap();
    assert_eq!(nvs.find_namespace(&a), Some(1));
    assert_eq!(nvs.find_namespace(&b), Some(2));
    assert_eq!(nvs.get_primitive(&a, &key, ItemType::U8), Ok(0xFFFF_FFFF_FFFF_FF01));
    assert_eq!(nvs.get_primitive(&b, &key, ItemType::U8), Ok(0xFFFF_FFFF_FFFF_FF02));
    let mut nvs = reopen(nvs, 4);
    assert_eq!(nvs.find_namespace(&b), Some(2));
    assert_eq!(nvs.get_primitive(&b, &key, ItemType::U8), Ok(0xFFFF_FFFF_FFFF_FF02));
}

#[test]
fn strings_set_then_get() {
    let mut nvs = fresh(4);
    let key = Key::from_str("ssid");
    nvs.set_str(&ns(), key, "my network").unwrap();
    assert_eq!(nvs.get_string(&ns(), &key), Ok("my network".to_string()));
    nvs.set_str(&ns(), key, "").unwrap();
    assert_eq!(nvs.get_string(&ns(), &key), Ok(String::new()));
    let long: String = "abcdefghij".repeat(20);
    nvs.set_str(&ns(), key, &long).unwrap();
    let mut nvs = reopen(nvs, 4);
    assert_eq!(nvs.get_string(&ns(), &key), Ok(long));
    assert_eq!(nvs.get_primitive(&ns(), &key, ItemType::U8), Err(Error::ItemTypeMismatch(ItemType::Sized)));
}

#[test]
fn too_long_string_is_refused() {
    let mut nvs = fresh(4);
    let key = Key::from_str("big");
    let long = "x".repeat(4000);
    assert_eq!(nvs.set_str(&ns(), key, &long), Err(Error::ValueTooLong));
}

#[test]
fn blobs_set_then_get() {
    let mut nvs = fresh(8);
    let key = Key::from_str("cert");
    let small: Vec<u8> = (0..100u32).map(|i| (i * 7) as u8).collect();
    nvs.set_blob(&ns(), key, &small).unwrap();
    assert_eq!(nvs.get_blob(&ns(), &key), Ok(small.clone()));
    let big: Vec<u8> = (0..6000u32).map(|i| (i % 251) as u8).collect();
    nvs.set_blob(&ns(), key, &big).unwrap();
    assert_eq!(nvs.get_blob(&ns(), &key), Ok(big.clone()));
    let mut nvs = reopen(nvs, 8);
    assert_eq!(nvs.get_blob(&ns(), &key), Ok(big));
}

#[test]
fn deleted_keys_are_gone() {
    let mut nvs = fresh(4);
    let key = Key::from_str("tmp");
    nvs.set_primitive(&ns(), key, ItemType::U32, 9).unwrap();
    let idx = nvs.find_namespace(&ns()).unwrap();
    nvs.delete_key(idx, &key, ChunkIndex::Any).unwrap();
    assert_eq!(nvs.get_primitive(&ns(), &key, ItemType::U32), Err(Error::KeyNotFound));
    assert_eq!(nvs.delete_key(idx, &key, ChunkIndex::Any), Err(Error::KeyNotFound));
    let mut nvs = reopen(nvs, 4);
    assert_eq!(nvs.get_primitive(&ns(), &key, ItemType::U32), Err(Error::KeyNotFound));
}

#[test]
fn many_writes_reclaim_pages() {
    let mut nvs = fresh(4);
    let key = Key::from_str("counter");
    for v in 0..1000u64 {
        nvs.set_primitive(&ns(), key, ItemType::U32, v).unwrap();
    }
    assert_eq!(nvs.get_primitive(&ns(), &key, ItemType::U32), Ok(0xFFFF_FFFF_0000_0000 | 999));
    let stats = nvs.statistics();
    assert_eq!(stats.pages.active, 1);
    let mut nvs = reopen(nvs, 4);
    assert_eq!(nvs.get_primitive(&ns(), &key, ItemType::U32), Ok(0xFFFF_FFFF_0000_0000 | 999));
}

#[test]
fn a_full_partition_reports_flash_full() {
    let mut nvs = fresh(2);
    let mut result = Ok(());
    for i in 0..400u32 {
        let name = format!("k{}", i);
        result = nvs.set_primitive(&ns(), Key::from_str(&name), ItemType::U8, 1);
        if result.is_err() {
            break;
        }
    }
    assert_eq!(result, Err(Error::FlashFull));
}

fn low_bytes(raw: u64, width: u32) -> u64 {
    if width == 8 {
        raw
    } else {
        raw & ((1u64 << (8 * width)) - 1)
    }
}

#[test]
fn primitive_boundary_values_round_trip_over_several_pages() {
    let mut nvs = fresh(4);
    let values: Vec<(&str, ItemType, u64, u32)> = vec![
        ("u8_max", ItemType::U8, u8::MAX as u64, 1),
        ("u8_min", ItemType::U8, u8::MIN as u64, 1),
        ("i8_max", ItemType::I8, i8::MAX as u8 as u64, 1),
        ("i8_min", ItemType::I8, i8::MIN as u8 as u64, 1),
        ("u16_max", ItemType::U16, u16::MAX as u64, 2),
        ("i16_min", ItemType::I16, i16::MIN as u16 as u64, 2),
        ("u32_max", ItemType::U32, u32::MAX as u64, 4),
        ("i32_min", ItemType::I32, i32::MIN as u32 as u64, 4),
        ("u64_max", ItemType::U64, u64::MAX, 8),
        ("i64_min", ItemType::I64, i64::MIN as u64, 8),
    ];
    for (name, t, v, _) in &values {
        nvs.set_primitive(&ns(), Key::from_str(name), *t, *v).unwrap();
    }
    for i in 0..120u64 {
        let name = format!("k{:03}", i);
        nvs.set_primitive(&ns(), Key::from_str(&name), ItemType::U8, i).unwrap();
    }
    let mut nvs = reopen(nvs, 4);
    for (name, t, v, width) in &values {
        let got = nvs.get_primitive(&ns(), &Key::from_str(name), *t).unwrap();
        assert_eq!(low_bytes(got, *width), *v, "mismatch for key '{}'", name);
    }
    for i in 0..120u64 {
        let name = format!("k{:03}", i);
        let got = nvs.get_primitive(&ns(), &Key::from_str(&name), ItemType::U8).unwrap();
        assert_eq!(low_bytes(got, 1), i);
    }
}

#[test]
fn at_most_255_namespaces() {
    let mut nvs = fresh(6);
    let key = Key::from_str("val");
    for i in 0..255u64 {
        let name = format!("ns_{:03}", i);
        nvs.set_primitive(&Key::from_str(&name), key, ItemType::U8, i).unwrap();
    }
    assert_eq!(nvs.find_namespace(&Key::from_str("ns_254")), Some(255));
    assert_eq!(
        nvs.set_primitive(&Key::from_str("ns_255"), key, ItemType::U8, 0),
        Err(Error::FlashFull)
    );
    let mut nvs = reopen(nvs, 6);
    let got = nvs.get_primitive(&Key::from_str("ns_100"), &key, ItemType::U8).unwrap();
    assert_eq!(low_bytes(got, 1), 100);
}

#[test]
fn an_empty_partition_loads_without_pages() {
    let nvs = Nvs::new(0, 0, MemFlash::new(0)).unwrap();
    assert_eq!(nvs.pages.len(), 0);
    assert_eq!(nvs.free_pages.len(), 0);
}

#[test]
fn every_sector_is_loaded_as_a_used_or_free_page() {
    let mut nvs = fresh(5);
    nvs.set_primitive(&ns(), Key::from_str("a"), ItemType::U32, 7).unwrap();
    let nvs = reopen(nvs, 5);
    assert_eq!(nvs.pages.len() + nvs.free_pages.len(), 5);
}

#[test]
fn the_stored_blob_version_is_found() {
    let mut nvs = fresh(8);
    let key = Key::from_str("cert");
    assert!(nvs.find_existing_blob_version(&ns(), &key).is_none());
    nvs.set_blob(&ns(), key, &[1, 2, 3]).unwrap();
    let first = nvs.find_existing_blob_version(&ns(), &key).unwrap();
    nvs.set_blob(&ns(), key, &[4, 5, 6, 7]).unwrap();
    let second = nvs.find_existing_blob_version(&ns(), &key).unwrap();
    assert_ne!(first.base(), second.base());
    assert!(nvs.find_existing_blob_version(&ns(), &Key::from_str("other")).is_none());
}

#[test]
fn deleting_marks_the_entries_of_the_item_erased() {
    let mut nvs = fresh(4);
    let key = Key::from_str("text");
    nvs.set_str(&ns(), key, "a string that spans several entries").unwrap();
    let before = nvs.statistics().entries_overall;
    let idx = nvs.find_namespace(&ns()).unwrap();
    nvs.delete_key(idx, &key, ChunkIndex::Any).unwrap();
    let after = nvs.statistics().entries_overall;
    assert_eq!(after.erased, before.erased + 3);
    assert_eq!(after.written + 3, before.written);
}

#[test]
fn blobs_up_to_the_size_limit_are_accepted() {
    let mut nvs = fresh(3);
    let key = Key::from_str("big");
    let too_long = vec![0u8; esp_nvs::MAX_BLOB_SIZE + 1];
    assert_eq!(nvs.set_blob(&ns(), key, &too_long), Err(Error::ValueTooLong));
    let at_limit = vec![0u8; esp_nvs::MAX_BLOB_SIZE];
    assert_ne!(nvs.set_blob(&ns(), key, &at_limit), Err(Error::ValueTooLong));
}

#[test]
fn new_namespaces_take_the_next_index() {
    let mut nvs = fresh(4);
    nvs.set_primitive(&Key::from_str("first"), Key::from_str("k"), ItemType::U8, 1).unwrap();
    nvs.set_primitive(&Key::from_str("second"), Key::from_str("k"), ItemType::U8, 2).unwrap();
    assert_eq!(nvs.find_namespace(&Key::from_str("first")), Some(1));
    assert_eq!(nvs.find_namespace(&Key::from_str("second")), Some(2));
}

#[test]
fn reopening_counts_the_same_entries() {
    let mut nvs = fresh(4);
    for i in 0..20u64 {
        nvs.set_primitive(&ns(), Key::from_str("counter"), ItemType::U64, i).unwrap();
    }
    nvs.set_str(&ns(), Key::from_str("name"), "reopened").unwrap();
    let before = nvs.statistics();
    let nvs = reopen(nvs, 4);
    let after = nvs.statistics();
    assert_eq!(before.entries_overall.written, after.entries_overall.written);
    assert_eq!(before.entries_overall.erased, after.entries_overall.erased);
    assert_eq!(nvs.find_namespace(&ns()), Some(1));
}

#[test]
fn overwriting_a_blob_several_times_keeps_the_last() {
    let mut nvs = fresh(8);
    let key = Key::from_str("blob");
    let d1: Vec<u8> = (0..300u32).map(|i| i as u8).collect();
    let d2: Vec<u8> = (0..5000u32).map(|i| (i * 3) as u8).collect();
    let d3: Vec<u8> = (0..40u32).map(|i| (i + 9) as u8).collect();
    nvs.set_blob(&ns(), key, &d1).unwrap();
    nvs.set_blob(&ns(), key, &d2).unwrap();
    nvs.set_blob(&ns(), key, &d3).unwrap();
    assert_eq!(nvs.get_blob(&ns(), &key), Ok(d3.clone()));
    let mut nvs = reopen(nvs, 8);
    assert_eq!(nvs.get_blob(&ns(), &key), Ok(d3));
}
