use esp_nvs::mem_flash::MemFlash;
use esp_nvs::page::ThinPage;
use esp_nvs::types::Key;
use esp_nvs::{Error, ItemType, Nvs, FLASH_SECTOR_SIZE};

const PAGES: usize = 4;

/// The sector taken first from a fresh partition: free pages are used from the last one.
const FIRST: usize = (PAGES - 1) * FLASH_SECTOR_SIZE;

fn open(bytes: Vec<u8>) -> Nvs<MemFlash> {
    Nvs::new(0, PAGES * FLASH_SECTOR_SIZE, MemFlash::from_bytes(bytes)).unwrap()
}

fn ns() -> Key {
    Key::from_str("recovery")
}

/// A store whose first used page holds the namespace entry (entry 0) and `value` under "k"
/// (entry 1), and the bytes of its flash.
fn one_value(value: u64) -> Vec<u8> {
    let mut nvs = Nvs::new(0, PAGES * FLASH_SECTOR_SIZE, MemFlash::new(PAGES * FLASH_SECTOR_SIZE)).unwrap();
    nvs.set_primitive(&ns(), Key::from_str("k"), ItemType::U32, value).unwrap();
    nvs.hal.as_bytes().to_vec()
}

#[test]
fn an_older_copy_left_by_an_interrupted_overwrite_is_erased_on_load() {
    let mut nvs = open(one_value(1));
    nvs.set_primitive(&ns(), Key::from_str("k"), ItemType::U32, 2).unwrap();
    let mut bytes = nvs.hal.as_bytes().to_vec();
    // entries 0, 1 and 2 written, entry 3 empty: the old copy at entry 1 was never erased
    assert_eq!(bytes[FIRST + 32], 0xE2);
    bytes[FIRST + 32] = 0xEA;
    let mut nvs = open(bytes);
    assert_eq!(nvs.get_primitive(&ns(), &Key::from_str("k"), ItemType::U32), Ok(0xFFFF_FFFF_0000_0002));
    let stats = nvs.statistics();
    assert_eq!(stats.entries_overall.written, 2);
    assert_eq!(stats.entries_overall.erased, 1);
    assert_eq!(nvs.hal.as_bytes()[FIRST + 32], 0xE2);
}

#[test]
fn a_page_with_a_damaged_header_is_corrupt() {
    let mut bytes = one_value(7);
    bytes[FIRST + 4] ^= 0x01;
    let mut nvs = open(bytes);
    let stats = nvs.statistics();
    assert_eq!(stats.pages.corrupted, 1);
    assert_eq!(stats.pages.active, 0);
    assert_eq!(nvs.get_primitive(&ns(), &Key::from_str("k"), ItemType::U32), Err(Error::NamespaceNotFound));
}

#[test]
fn an_item_with_a_damaged_crc_is_erased_on_load() {
    let mut bytes = one_value(7);
    // first data byte of entry 1
    bytes[FIRST + 64 + 32 + 24] ^= 0x10;
    let mut nvs = open(bytes);
    assert_eq!(nvs.get_primitive(&ns(), &Key::from_str("k"), ItemType::U32), Err(Error::KeyNotFound));
    let stats = nvs.statistics();
    assert_eq!(stats.entries_overall.erased, 1);
}

#[test]
fn an_item_written_but_not_marked_is_recovered_on_load() {
    let mut bytes = one_value(9);
    // entry 1 back to empty in the bitmap: the item was written, its state was not
    assert_eq!(bytes[FIRST + 32], 0xFA);
    bytes[FIRST + 32] = 0xFE;
    let mut nvs = open(bytes);
    assert_eq!(nvs.get_primitive(&ns(), &Key::from_str("k"), ItemType::U32), Ok(0xFFFF_FFFF_0000_0009));
    assert_eq!(nvs.hal.as_bytes()[FIRST + 32], 0xFA);
}

#[test]
fn a_partition_of_erased_flash_is_all_free() {
    let nvs = open(vec![0xFF; PAGES * FLASH_SECTOR_SIZE]);
    assert_eq!(nvs.free_pages.len(), PAGES);
    assert_eq!(nvs.pages.len(), 0);
}

#[test]
fn pages_are_ordered_fresh_last() {
    let a = ThinPage::uninitialized(0);
    let b = ThinPage::uninitialized(FLASH_SECTOR_SIZE);
    assert_eq!(a.compare(&b), core::cmp::Ordering::Greater);
    assert_eq!(b.compare(&a), core::cmp::Ordering::Less);
    assert_eq!(a.compare(&a), core::cmp::Ordering::Equal);
}
