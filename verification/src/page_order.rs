//! The order in which pages are sorted: pages in use by descending sequence number, then
//! pages never written by descending address.

use vstd::prelude::*;

use crate::page::{ThinPage, ThinPageState};

verus! {

/// The order of two pages: a page never written comes after every page that was; among
/// written pages the higher sequence number comes first, among pages never written the
/// higher address.
pub open spec fn page_order(a: ThinPage, b: ThinPage) -> core::cmp::Ordering {
    let a_fresh = a.header.state == ThinPageState::Uninitialized;
    let b_fresh = b.header.state == ThinPageState::Uninitialized;
    if a_fresh && b_fresh {
        if b.address < a.address {
            core::cmp::Ordering::Less
        } else if b.address == a.address {
            core::cmp::Ordering::Equal
        } else {
            core::cmp::Ordering::Greater
        }
    } else if a_fresh {
        core::cmp::Ordering::Greater
    } else if b_fresh {
        core::cmp::Ordering::Less
    } else if b.header.sequence < a.header.sequence {
        core::cmp::Ordering::Less
    } else if b.header.sequence == a.header.sequence {
        core::cmp::Ordering::Equal
    } else {
        core::cmp::Ordering::Greater
    }
}

impl ThinPage {
    /// Compares two pages in the order of `page_order`.
    pub fn compare(&self, other: &ThinPage) -> (o: core::cmp::Ordering)
        ensures
            o == page_order(*self, *other),
    {
        let a_fresh = self.header.state == ThinPageState::Uninitialized;
        let b_fresh = other.header.state == ThinPageState::Uninitialized;
        if a_fresh && b_fresh {
            if other.address < self.address {
                core::cmp::Ordering::Less
            } else if other.address == self.address {
                core::cmp::Ordering::Equal
            } else {
                core::cmp::Ordering::Greater
            }
        } else if a_fresh {
            core::cmp::Ordering::Greater
        } else if b_fresh {
            core::cmp::Ordering::Less
        } else if other.header.sequence < self.header.sequence {
            core::cmp::Ordering::Less
        } else if other.header.sequence == self.header.sequence {
            core::cmp::Ordering::Equal
        } else {
            core::cmp::Ordering::Greater
        }
    }
}

/// The order is antisymmetric: swapping the pages reverses it.
pub proof fn lemma_page_order_reverses(a: ThinPage, b: ThinPage)
    ensures
        page_order(a, b) == core::cmp::Ordering::Less <==> page_order(b, a) == core::cmp::Ordering::Greater,
        page_order(a, b) == core::cmp::Ordering::Equal <==> page_order(b, a) == core::cmp::Ordering::Equal,
{
}

} // verus!
