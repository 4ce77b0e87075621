use vstd::prelude::*;
use crate::page::PagePointer;

verus! {

/// A released page: a node of the free list.
#[derive(Debug, Clone, Copy, PartialEq, Eq, Structural)]
pub struct FreePage {
    /// The next free page, or null at the end of the list.
    pub next_free_page: PagePointer,
}

impl FreePage {
    /// A free-list node pointing at `next`.
    pub fn init(next: PagePointer) -> (r: FreePage)
        ensures
            r.next_free_page == next,
    {
        FreePage { next_free_page: next }
    }
}

} // verus!
