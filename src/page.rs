use vstd::prelude::*;

verus! {

/// The number of bytes in a page.
pub const PAGE_SIZE: usize = 4048;

/// The index of a page in the backing store.
pub type PagePointer = u64;

/// The index of the metadata page.
pub const METADATA_IDX: PagePointer = 0;

/// The index of the root directory page in a freshly initialised tree.
pub const DEFAULT_ROOT_IDX: PagePointer = 1;

/// The index of the first leaf page in a freshly initialised tree.
pub const DEFAULT_PAGE0_IDX: PagePointer = 2;

/// The null page pointer (the metadata page is never a child).
pub const NULL_IDX: PagePointer = 0;

/// The number of keys a directory page holds at most.
pub const DIR_KEY_COUNT: usize = 335;

/// The number of child pointers a directory page holds at most.
pub const DIR_PTR_COUNT: usize = 336;

/// The number of key/value pairs a leaf page holds at most.
pub const LEAF_RECORD_COUNT: usize = 502;

/// Type tag of the metadata page.
pub const META_PAGE_T: u8 = 0;

/// Type tag of directory pages.
pub const DIR_PAGE_T: u8 = 1;

/// Type tag of leaf pages.
pub const LEAF_PAGE_T: u8 = 2;

/// Type tag of free pages.
pub const FREE_PAGE_T: u8 = 3;

/// Returned when a key is added to a page that has no room left.
#[derive(Debug, Clone, Copy, PartialEq, Eq, Structural)]
pub struct PageIsFullError {}

impl PageIsFullError {
    /// A human-readable description of the error.
    pub fn message(&self) -> (r: String) {
        String::from_str("Page is full!")
    }
}

} // verus!
