//! A B+Tree from `u32` keys to `u32` values over a store of fixed-size pages.
//!
//! Page 0 holds the header (free-list head, root, first and last leaf, page
//! count, depth). Directory pages route keys to their children, leaf pages
//! hold the sorted pairs and are chained in key order, and released pages
//! form a free list that allocation reuses first. `codec` turns every page
//! into a `PAGE_SIZE`-byte little-endian image, and the whole store into the
//! bytes of a file.
pub mod page;
pub mod leaf_page;
pub mod dir_page;
pub mod free_page;
pub mod metadata_page;
pub mod tree_spec;
pub mod bplus_tree;
pub mod codec;
pub mod history;
