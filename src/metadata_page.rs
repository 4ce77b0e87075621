use vstd::prelude::*;
use crate::page::PagePointer;

verus! {

/// The header of the tree, kept on page 0.
#[derive(Debug, Clone, Copy, PartialEq, Eq, Structural)]
pub struct MetadataPage {
    /// The head of the free list, or null when it is empty.
    pub next_free_page: PagePointer,
    /// The root directory page.
    pub root_page: PagePointer,
    /// The first leaf in key order.
    pub data_head: PagePointer,
    /// The last leaf in key order.
    pub data_tail: PagePointer,
    /// The number of pages in the store, freed ones included.
    pub pages_allocated: PagePointer,
    /// The number of directory levels above the leaves.
    pub depth: u16,
}

impl MetadataPage {
    /// A header with the given fields.
    pub fn init(
        next_free_page: PagePointer,
        root_page: PagePointer,
        data_head: PagePointer,
        data_tail: PagePointer,
        pages_allocated: PagePointer,
        depth: u16,
    ) -> (r: MetadataPage)
        ensures
            r == (MetadataPage {
                next_free_page,
                root_page,
                data_head,
                data_tail,
                pages_allocated,
                depth,
            }),
    {
        MetadataPage { next_free_page, root_page, data_head, data_tail, pages_allocated, depth }
    }
}

} // verus!
