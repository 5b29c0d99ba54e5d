//! Verified core of an ESP-IDF compatible non-volatile storage (NVS) library.

pub mod blob;
pub mod compaction;
pub mod error;
pub mod init;
pub mod items;
pub mod mem_flash;
pub mod nvs;
pub mod page;
pub mod page_order;
pub mod platform;
pub mod raw;
pub mod statistics;
pub mod types;

pub use error::Error;
pub use raw::{
    ENTRIES_PER_PAGE, ENTRY_STATE_BITMAP_SIZE, FLASH_SECTOR_SIZE, ITEM_SIZE, ItemType,
    MAX_BLOB_DATA_PER_PAGE, MAX_BLOB_SIZE, PAGE_HEADER_SIZE, PageState,
};
pub use types::{Key, MAX_KEY_LENGTH};
pub use statistics::{EntryStatistics, NvsStatistics, PageStatistics};
pub use nvs::Nvs;
