//! Statistics about the use of an NVS partition.

use vstd::prelude::*;

use crate::nvs::Nvs;
use crate::page::{count_state, ThinPage, ThinPageState};
use crate::platform::Platform;
use crate::raw::EntryMapState;

verus! {

/// Overall statistics for an NVS partition.
#[derive(Debug, Clone, PartialEq)]
pub struct NvsStatistics {
    pub pages: PageStatistics,
    pub entries_per_page: Vec<EntryStatistics>,
    pub entries_overall: EntryStatistics,
}

/// Statistics about page states in the partition.
#[derive(Debug, Clone, Copy, PartialEq, Eq, Structural)]
pub struct PageStatistics {
    pub empty: u16,
    pub active: u16,
    pub full: u16,
    pub erasing: u16,
    pub corrupted: u16,
}

/// Statistics about entry states within pages.
#[derive(Debug, Clone, Copy, PartialEq, Eq, Structural)]
pub struct EntryStatistics {
    pub empty: u32,
    pub written: u32,
    pub erased: u32,
    pub illegal: u32,
}

/// The entries of a page counted by state.
pub open spec fn entry_statistics_of(p: ThinPage) -> EntryStatistics {
    EntryStatistics {
        empty: count_state(p.entry_state_bitmap@, EntryMapState::Empty, 126) as u32,
        written: count_state(p.entry_state_bitmap@, EntryMapState::Written, 126) as u32,
        erased: count_state(p.entry_state_bitmap@, EntryMapState::Erased, 126) as u32,
        illegal: count_state(p.entry_state_bitmap@, EntryMapState::Illegal, 126) as u32,
    }
}

/// The class a page is counted in: empty, active, full, being erased, or corrupted
/// (which includes pages of an invalid state).
pub open spec fn page_class(s: ThinPageState) -> int {
    match s {
        ThinPageState::Uninitialized => 0,
        ThinPageState::Active => 1,
        ThinPageState::Full => 2,
        ThinPageState::Freeing => 3,
        ThinPageState::Corrupt => 4,
        ThinPageState::Invalid => 4,
    }
}

/// Number of pages of class `c`.
pub open spec fn pages_in_class(pages: Seq<ThinPage>, c: int) -> nat
    decreases pages.len(),
{
    if pages.len() == 0 {
        0
    } else {
        pages_in_class(pages.drop_last(), c) + if page_class(pages.last().header.state) == c {
            1nat
        } else {
            0nat
        }
    }
}

/// Number of entries in state `s` over all pages.
pub open spec fn entries_in_state(pages: Seq<ThinPage>, s: EntryMapState) -> nat
    decreases pages.len(),
{
    if pages.len() == 0 {
        0
    } else {
        entries_in_state(pages.drop_last(), s) + count_state(pages.last().entry_state_bitmap@, s, 126)
    }
}

/// The pages of a partition: the used pages, then the free pages.
pub open spec fn all_pages<T: Platform>(nvs: Nvs<T>) -> Seq<ThinPage> {
    nvs.pages@ + nvs.free_pages@
}

impl<T: Platform> Nvs<T> {
    /// Counts the pages of the partition by state and their entries by state, page by
    /// page (the used pages, then the free pages) and over all pages.
    pub fn statistics(&self) -> (s: NvsStatistics)
        requires
            all_pages(*self).len() <= 0xFFFF,
        ensures
            s.entries_per_page@.len() == all_pages(*self).len(),
            forall|k: int|
                0 <= k < all_pages(*self).len() ==> #[trigger] s.entries_per_page@[k] == entry_statistics_of(
                    all_pages(*self)[k],
                ),
            s.pages.empty == pages_in_class(all_pages(*self), 0),
            s.pages.active == pages_in_class(all_pages(*self), 1),
            s.pages.full == pages_in_class(all_pages(*self), 2),
            s.pages.erasing == pages_in_class(all_pages(*self), 3),
            s.pages.corrupted == pages_in_class(all_pages(*self), 4),
            s.entries_overall.empty == entries_in_state(all_pages(*self), EntryMapState::Empty),
            s.entries_overall.written == entries_in_state(all_pages(*self), EntryMapState::Written),
            s.entries_overall.erased == entries_in_state(all_pages(*self), EntryMapState::Erased),
            s.entries_overall.illegal == entries_in_state(all_pages(*self), EntryMapState::Illegal),
    {
        let ghost all = all_pages(*self);
        let total = self.pages.len() + self.free_pages.len();
        let mut pages = PageStatistics { empty: 0, active: 0, full: 0, erasing: 0, corrupted: 0 };
        let mut overall = EntryStatistics { empty: 0, written: 0, erased: 0, illegal: 0 };
        let mut per_page: Vec<EntryStatistics> = Vec::new();
        let mut k: usize = 0;
        while k < total
            invariant
                k <= total,
                total == all.len(),
                all == all_pages(*self),
                total <= 0xFFFF,
                per_page@.len() == k,
                forall|i: int| 0 <= i < k ==> #[trigger] per_page@[i] == entry_statistics_of(all[i]),
                pages.empty == pages_in_class(all.take(k as int), 0),
                pages.active == pages_in_class(all.take(k as int), 1),
                pages.full == pages_in_class(all.take(k as int), 2),
                pages.erasing == pages_in_class(all.take(k as int), 3),
                pages.corrupted == pages_in_class(all.take(k as int), 4),
                pages.empty + pages.active + pages.full + pages.erasing + pages.corrupted == k,
                overall.empty == entries_in_state(all.take(k as int), EntryMapState::Empty),
                overall.written == entries_in_state(all.take(k as int), EntryMapState::Written),
                overall.erased == entries_in_state(all.take(k as int), EntryMapState::Erased),
                overall.illegal == entries_in_state(all.take(k as int), EntryMapState::Illegal),
                overall.empty + overall.written + overall.erased + overall.illegal == 126 * k,
            decreases total - k,
        {
            let page = if k < self.pages.len() {
                &self.pages[k]
            } else {
                &self.free_pages[k - self.pages.len()]
            };
            proof {
                assert(*page == all[k as int]);
                assert(all.take(k + 1).drop_last() =~= all.take(k as int));
                assert(all.take(k + 1).last() == all[k as int]);
            }
            let (empty, written, erased, illegal) = page.get_entry_statistics();
            match page.header.state {
                ThinPageState::Uninitialized => pages.empty = pages.empty + 1,
                ThinPageState::Active => pages.active = pages.active + 1,
                ThinPageState::Full => pages.full = pages.full + 1,
                ThinPageState::Freeing => pages.erasing = pages.erasing + 1,
                ThinPageState::Corrupt | ThinPageState::Invalid => pages.corrupted = pages.corrupted + 1,
            }
            overall.empty = overall.empty + empty;
            overall.written = overall.written + written;
            overall.erased = overall.erased + erased;
            overall.illegal = overall.illegal + illegal;
            per_page.push(EntryStatistics { empty, written, erased, illegal });
            k += 1;
        }
        proof {
            assert(all.take(total as int) =~= all);
        }
        NvsStatistics { pages, entries_per_page: per_page, entries_overall: overall }
    }
}

} // verus!
