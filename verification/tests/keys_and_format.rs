use esp_nvs::mem_flash::{crc32_le_exec, MemFlash};
use esp_nvs::platform::Platform;
use esp_nvs::raw::{blob_index_data, sized_data, EntryMapState, Item, ItemType, PageState};
use esp_nvs::types::{ChunkIndex, Key, VersionOffset, MAX_KEY_LENGTH};

#[test]
fn key_constructors_agree_and_pad_with_nul() {
    let a = Key::from_array(b"my_key");
    let b = Key::from_slice(b"my_key");
    let c = Key::from_str("my_key");
    assert_eq!(a, b);
    assert_eq!(b, c);
    let mut expected = [0u8; 16];
    expected[..6].copy_from_slice(b"my_key");
    assert_eq!(a.as_bytes(), &expected);
}

#[test]
fn key_of_full_length_keeps_its_terminator() {
    let k = Key::from_str("fifteen_chars__");
    assert_eq!(MAX_KEY_LENGTH, 15);
    assert_eq!(k.as_bytes()[14], b'_');
    assert_eq!(k.as_bytes()[15], 0);
    assert!(k.is_terminated());
    assert_eq!(k.name_len(), 15);
}

#[test]
fn key_as_str_drops_the_padding() {
    let k = Key::from_str("wifi");
    assert_eq!(k.as_str(), "wifi");
    assert_eq!(k.to_string(), "wifi".to_string());
    assert_eq!(k.name_len(), 4);
    let empty = Key::from_str("");
    assert_eq!(empty.as_str(), "");
}

#[test]
fn key_equality_is_bytewise() {
    let a = Key::from_str("abc");
    let b = Key::from_str("abd");
    assert!(a.equals(&a));
    assert!(!a.equals(&b));
    let unterminated = Key([b'x'; 16]);
    assert!(!unterminated.is_terminated());
}

#[test]
fn crc32_matches_the_standard_check_value() {
    // The ROM variant takes the complement of the usual initial value.
    assert_eq!(crc32_le_exec(0, b"123456789"), 0xCBF4_3926);
    assert_eq!(<MemFlash as Platform>::crc32(0, b"123456789"), 0xCBF4_3926);
    assert_eq!(crc32_le_exec(0, b""), 0);
    assert_eq!(crc32_le_exec(0xFFFF_FFFF, b""), 0xFFFF_FFFF);
}

#[test]
fn crc32_can_be_continued() {
    let whole = crc32_le_exec(0, b"123456789");
    let first = crc32_le_exec(0, b"1234");
    assert_eq!(crc32_le_exec(first, b"56789"), whole);
}

#[test]
fn item_bytes_round_trip() {
    let it = Item {
        namespace_index: 3,
        type_: ItemType::U32,
        span: 1,
        chunk_index: 0xFF,
        crc: 0x1234_5678,
        key: Key::from_str("answer"),
        data: [42, 0, 0, 0, 0xFF, 0xFF, 0xFF, 0xFF],
    };
    let bytes = it.to_bytes();
    assert_eq!(bytes.len(), 32);
    assert_eq!(&bytes[0..4], &[3, 0x04, 1, 0xFF]);
    assert_eq!(&bytes[4..8], &[0x78, 0x56, 0x34, 0x12]);
    let back = Item::from_bytes(&bytes).unwrap();
    assert!(back.same_as(&it));
    assert_eq!(back.raw_u64(), 0xFFFF_FFFF_0000_002A);
}

#[test]
fn unknown_item_type_byte_is_rejected() {
    let mut bytes = vec![0u8; 32];
    bytes[1] = 0x33;
    assert!(Item::from_bytes(&bytes).is_none());
    assert_eq!(ItemType::from_byte(0x33), None);
    assert_eq!(ItemType::from_byte(0x21), Some(ItemType::Sized));
}

#[test]
fn item_crc_covers_everything_but_the_crc_field() {
    let mut it = Item {
        namespace_index: 1,
        type_: ItemType::U8,
        span: 1,
        chunk_index: 0xFF,
        crc: 0,
        key: Key::from_str("k"),
        data: [7, 0xFF, 0xFF, 0xFF, 0xFF, 0xFF, 0xFF, 0xFF],
    };
    let crc = it.calculate_crc32::<MemFlash>();
    it.crc = 0xDEAD_BEEF;
    assert_eq!(it.calculate_crc32::<MemFlash>(), crc);
    it.data[0] = 8;
    assert_ne!(it.calculate_crc32::<MemFlash>(), crc);
}

#[test]
fn item_hash_is_24_bits_and_depends_on_the_chunk() {
    let key = Key::from_str("blob");
    let h1 = Item::calculate_hash_ref::<MemFlash>(1, &key, 0xFF);
    let h2 = Item::calculate_hash_ref::<MemFlash>(1, &key, 0);
    assert!(h1 < 0x100_0000);
    assert!(h2 < 0x100_0000);
    assert_ne!(h1, h2);
}

#[test]
fn sized_and_blob_index_data_layout() {
    let d = sized_data(0x0102, 0xAABB_CCDD);
    assert_eq!(d, [0x02, 0x01, 0xFF, 0xFF, 0xDD, 0xCC, 0xBB, 0xAA]);
    let b = blob_index_data(5000, 2, 0x80);
    assert_eq!(b, [0x88, 0x13, 0, 0, 2, 0x80, 0xFF, 0xFF]);
}

#[test]
fn page_state_words_round_trip() {
    for s in [
        PageState::Uninitialized,
        PageState::Active,
        PageState::Full,
        PageState::Freeing,
        PageState::Corrupt,
        PageState::Invalid,
    ] {
        assert_eq!(PageState::from_word(s.to_word()), s);
    }
    assert_eq!(PageState::Active.to_word(), 0xFFFF_FFFE);
    assert_eq!(PageState::from_word(0x1234), PageState::Invalid);
}

#[test]
fn entry_state_bits_round_trip() {
    for s in [EntryMapState::Empty, EntryMapState::Written, EntryMapState::Erased, EntryMapState::Illegal] {
        assert_eq!(EntryMapState::from_bits(s.to_bits()), s);
    }
    assert_eq!(EntryMapState::Empty.to_bits(), 3);
    assert_eq!(EntryMapState::Written.to_bits(), 2);
    assert_eq!(EntryMapState::Erased.to_bits(), 0);
}

#[test]
fn primitive_widths() {
    assert_eq!(ItemType::U8.get_primitive_bytes_width(), Ok(1));
    assert_eq!(ItemType::I16.get_primitive_bytes_width(), Ok(2));
    assert_eq!(ItemType::U32.get_primitive_bytes_width(), Ok(4));
    assert_eq!(ItemType::I64.get_primitive_bytes_width(), Ok(8));
    assert_eq!(
        ItemType::Sized.get_primitive_bytes_width(),
        Err(esp_nvs::Error::ItemTypeMismatch(ItemType::Sized))
    );
}

#[test]
fn version_offsets_invert() {
    assert_eq!(VersionOffset::V0.invert(), VersionOffset::V1);
    assert_eq!(VersionOffset::V1.invert(), VersionOffset::V0);
    assert_eq!(VersionOffset::from_u8(0x7F), VersionOffset::V0);
    assert_eq!(VersionOffset::from_u8(0x80), VersionOffset::V1);
    assert_eq!(VersionOffset::V1.base(), 0x80);
    assert_eq!(ChunkIndex::BlobData(3).field(), 3);
    assert_eq!(ChunkIndex::Any.field(), 0xFF);
}

#[test]
fn mem_flash_reads_back_writes_and_erases() {
    let mut f = MemFlash::new(64);
    assert!(f.write(4, &[1, 2, 3]).is_ok());
    assert_eq!(f.read(3, 5).unwrap(), vec![0xFF, 1, 2, 3, 0xFF]);
    assert!(f.erase(4, 6).is_ok());
    assert_eq!(f.read(4, 3).unwrap(), vec![0xFF, 0xFF, 3]);
    assert!(f.read(60, 8).is_err());
    assert!(f.write(63, &[1, 2]).is_err());
    assert!(f.erase(10, 65).is_err());
}
