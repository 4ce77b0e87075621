use vstd::prelude::*;
use crate::page::{
    PagePointer, DEFAULT_PAGE0_IDX, DEFAULT_ROOT_IDX, DIR_KEY_COUNT, DIR_PAGE_T, FREE_PAGE_T,
    LEAF_PAGE_T, LEAF_RECORD_COUNT, METADATA_IDX, META_PAGE_T, NULL_IDX,
};
use crate::leaf_page::{
    lemma_sorted_pairs_determined, lemma_put_pairs_sorted, lemma_delete_pairs_sorted, put_pairs, delete_pairs, delete_from_pairs, pairs_equal, put_into_pairs, LeafPage, LEAF_HALF, has_key, is_slot, lemma_lookup_delete, lemma_lookup_put, lemma_slot_exists,
    lemma_slot_unique, lookup, pairs_below, sorted_pairs,
};
use crate::dir_page::{DirectoryPage, DIR_HALF, lemma_ptr_slot_unique, ptr_slot, sorted_keys};
use crate::free_page::FreePage;
use crate::metadata_page::MetadataPage;
use crate::history::{op_done, TreeOp};
use crate::tree_spec::{
    chain_ends, chain_pairs, child_for, children_check, descend, is_path, keys_in_range,
    lemma_child_for, lemma_descend_path, lemma_leaf_rewrite, lemma_node_check_shrink, lemma_node_visits, lemma_visits_distinct, visit_ok, node_visits, Visit,
    lemma_chain_follows_visits, lemma_check_descent, leaves_kept, lemma_leaves_kept_trans, dir_entry_added,
    has_dir_entry, root_split_done, fresh_root, split_with_entry, dir_is_full, entry_added, entry_fits, lemma_visit_pairs_len, dir_has_room, lemma_entry_visible, free_list_is, lemma_free_list_frame, lemma_free_list_pop, lemma_free_list_push, descent_ok, dir_child_ok, lemma_descend_visited, lemma_visit_lookup, lemma_node_bounds, lemma_visit_pairs_sorted, lemma_visits_fit, visit_pairs,
    leaf_shrinks, node_check, pair_keys, same_dir, same_leaf, same_page, lemma_grow_keeps_check,
};

verus! {

/// A page of the store, tagged with its kind.
pub enum Page {
    Meta(MetadataPage),
    Dir(DirectoryPage),
    Leaf(LeafPage),
    Free(FreePage),
}

/// Why a tree operation stopped. Every error leaves the tree unfit for
/// further use.
#[derive(Debug, Clone, Copy, PartialEq, Eq, Structural)]
pub enum TreeError {
    /// A key or pointer was added to a page with no room left.
    PageFull,
    /// The page at this index is not of the kind the operation needs.
    WrongPageType(PagePointer),
    /// A pointer refers to no page of the store, or to the header page.
    BadPointer(PagePointer),
    /// The pages contradict the tree's structure.
    Corrupt,
    /// No page index is left to allocate.
    StoreFull,
}

impl TreeError {
    /// A human-readable description of the error.
    pub fn message(&self) -> (r: String) {
        match self {
            TreeError::PageFull => String::from_str("page is full"),
            TreeError::WrongPageType(_) => String::from_str("page has the wrong type"),
            TreeError::BadPointer(_) => String::from_str("page pointer out of range"),
            TreeError::Corrupt => String::from_str("tree structure is corrupt"),
            TreeError::StoreFull => String::from_str("no page index left"),
        }
    }
}

impl Page {
    /// The type tag of the page.
    pub open spec fn tag_spec(&self) -> u8 {
        match self {
            Page::Meta(_) => META_PAGE_T,
            Page::Dir(_) => DIR_PAGE_T,
            Page::Leaf(_) => LEAF_PAGE_T,
            Page::Free(_) => FREE_PAGE_T,
        }
    }

    /// The type tag of the page.
    pub fn page_type(&self) -> (r: u8)
        ensures
            r == self.tag_spec(),
    {
        match self {
            Page::Meta(_) => META_PAGE_T,
            Page::Dir(_) => DIR_PAGE_T,
            Page::Leaf(_) => LEAF_PAGE_T,
            Page::Free(_) => FREE_PAGE_T,
        }
    }

    /// Leaves and directories are well formed and hold ascending keys.
    pub open spec fn wf(&self) -> bool {
        match self {
            Page::Dir(d) => d.wf() && sorted_keys(d.keys@),
            Page::Leaf(l) => l.wf(),
            _ => true,
        }
    }

    /// A copy of the page.
    pub fn duplicate(&self) -> (r: Page)
        ensures
            same_page(r, *self),
    {
        match self {
            Page::Meta(m) => Page::Meta(*m),
            Page::Dir(d) => Page::Dir(d.duplicate()),
            Page::Leaf(l) => Page::Leaf(l.duplicate()),
            Page::Free(f) => Page::Free(*f),
        }
    }
}

/// A B+Tree over a store of pages. Page 0 holds the header.
pub struct BPlusTree {
    /// The pages; index `i` is page pointer `i`.
    pub pages: Vec<Page>,
    /// The header, mirrored in page 0.
    pub meta: MetadataPage,
}

impl BPlusTree {
    /// The store and header agree and every page is well formed.
    pub open spec fn wf(&self) -> bool {
        &&& 1 <= self.pages@.len() < u64::MAX
        &&& self.meta.pages_allocated == self.pages@.len()
        &&& self.pages@[0] == Page::Meta(self.meta)
        &&& forall|i: int| 0 <= i < self.pages@.len() ==> (#[trigger] self.pages@[i]).wf()
    }

    /// The leaf that the descent from the root reaches for `key`.
    pub open spec fn leaf_of(&self, key: u32) -> PagePointer {
        descend(self.pages@, self.meta.root_page, self.meta.depth as nat, key)
    }

    /// The value under `key` in the leaf that the descent reaches.
    pub open spec fn lookup_spec(&self, key: u32) -> Option<u32> {
        if self.leaf_of(key) < self.pages@.len() {
            match self.pages@[self.leaf_of(key) as int] {
                Page::Leaf(l) => lookup(l@, key),
                _ => None,
            }
        } else {
            None
        }
    }

    /// The leaf that `key` descends to takes the pair without a split: it
    /// has room, or already holds `key`.
    pub open spec fn put_in_place(&self, key: u32) -> bool {
        self.pages@[self.leaf_of(key) as int] matches Page::Leaf(l) && (l@.len() < LEAF_RECORD_COUNT
            || has_key(l@, key))
    }

    /// Deleting `key` needs no rebalancing: its leaf does not hold it, or
    /// stays at least half full, or sits right under the header.
    pub open spec fn delete_in_place(&self, key: u32) -> bool {
        self.pages@[self.leaf_of(key) as int] matches Page::Leaf(l) && (!has_key(l@, key)
            || l@.len() > LEAF_HALF || self.meta.depth == 0)
    }

    /// The tree passes the consistency check: the walk from the root in key
    /// order finds no violation, the last leaf ends the chain, and the
    /// header's tail names it.
    pub open spec fn consistent(&self) -> bool {
        node_check(self.pages@, self.meta.depth as nat, self.meta.root_page, 0, 0, None, (NULL_IDX, self.meta.data_head))
            matches Some(c) && c.1 == NULL_IDX && c.0 == self.meta.data_tail
    }

    /// The root directory at `ptr` has no key while the tree has more than
    /// one directory level, so the root gives way to its only child.
    pub open spec fn root_collapses(&self, ptr: PagePointer) -> bool {
        &&& ptr < self.pages@.len()
        &&& self.meta.depth > 1
        &&& match self.pages@[ptr as int] {
            Page::Dir(d) => d.keys@.len() == 0,
            _ => false,
        }
    }

    /// The directory above the leaf that `key` descends to has room for
    /// another key, so a split of that leaf stops there.
    pub open spec fn leaf_parent_has_room(&self, key: u32) -> bool {
        &&& self.meta.depth >= 1
        &&& dir_has_room(self.pages@, descend(self.pages@, self.meta.root_page, (self.meta.depth - 1) as nat, key))
    }

    /// The layout that a put of `key` which splits its leaf, below a parent
    /// with room, leaves in `after`: the leaf keeps its first `LEAF_HALF`
    /// pairs, the rest move to a new leaf on the free-list head (or a new
    /// page at the end of the store) linked right after it, the pair goes
    /// into the half that covers it, and the parent gains the new leaf's
    /// first key with the new leaf right after the old one.
    pub open spec fn split_put_done(&self, after: BPlusTree, key: u32, value: u32) -> bool {
        let l = self.leaf_of(key);
        let ol = self.pages@[l as int]->Leaf_0;
        let p = if self.meta.next_free_page == NULL_IDX {
            self.pages@.len() as u64
        } else {
            self.meta.next_free_page
        };
        let parent = descend(self.pages@, self.meta.root_page, (self.meta.depth - 1) as nat, key);
        let sep = ol@[LEAF_HALF as int].0;
        let lo = ol@.subrange(0, LEAF_HALF as int);
        let hi = ol@.subrange(LEAF_HALF as int, ol@.len() as int);
        &&& l < after.pages@.len() && p < after.pages@.len() && parent < after.pages@.len()
        &&& after.pages@[l as int] is Leaf && after.pages@[p as int] is Leaf && after.pages@[parent as int] is Dir
        &&& after.pages@[l as int]->Leaf_0@ == (if key < sep { put_pairs(lo, key, value) } else { lo })
        &&& after.pages@[p as int]->Leaf_0@ == (if key < sep { hi } else { put_pairs(hi, key, value) })
        &&& after.pages@[l as int]->Leaf_0.next == p && after.pages@[l as int]->Leaf_0.prev == ol.prev
        &&& after.pages@[p as int]->Leaf_0.prev == l && after.pages@[p as int]->Leaf_0.next == ol.next
        &&& ol.next == NULL_IDX ==> after.meta.data_tail == p
        &&& ol.next != NULL_IDX ==> ol.next < after.pages@.len() && after.pages@[ol.next as int] is Leaf
            && after.pages@[ol.next as int]->Leaf_0.prev == p
        &&& after.meta.data_head == self.meta.data_head
        &&& dir_entry_added(self.pages@[parent as int]->Dir_0, after.pages@[parent as int]->Dir_0, l, sep, p)
    }

    /// The pages around a full leaf allow it to be split: the store can take
    /// a page, the leaf at the end of `ptr_stack` is a leaf page whose
    /// successor is null or another leaf page, and its parent has room for
    /// the entry of the upper half's first key right after the leaf.
    pub open spec fn leaf_split_fits(&self, leaf: LeafPage, ptr_stack: Seq<PagePointer>) -> bool {
        let leaf_ptr = ptr_stack.last();
        let parent = ptr_stack[ptr_stack.len() - 2];
        &&& self.free_list_acyclic()
        &&& self.pages@.len() + 2 < u64::MAX
        &&& leaf_ptr < self.pages@.len() && self.pages@[leaf_ptr as int] is Leaf
        &&& (leaf.next == NULL_IDX || (leaf.next < self.pages@.len() && self.pages@[leaf.next as int] is Leaf
            && leaf.next != leaf_ptr))
        &&& dir_has_room(self.pages@, parent)
        &&& entry_fits(self.pages@[parent as int]->Dir_0, leaf_ptr, leaf@[LEAF_HALF as int].0)
    }

    /// The free list is acyclic: distinct free pages, linked to null.
    pub open spec fn free_list_acyclic(&self) -> bool {
        exists|s: Seq<PagePointer>| free_list_is(self.pages@, self.meta.next_free_page, s)
    }

    /// The leaves in the order the consistency check visits them, with the
    /// bounds each is checked against.
    pub open spec fn leaf_visits(&self) -> Seq<Visit> {
        node_visits(self.pages@, self.meta.depth as nat, self.meta.root_page, 0, 0, None, (NULL_IDX, self.meta.data_head))
    }

    /// In a tree that passes the consistency check the leaf chain is sound:
    /// it runs from the header's head to its tail through every leaf of the
    /// tree, each once, in key order (so in one hop fewer than there are
    /// leaves); the head links back to null and the tail forward to null.
    pub proof fn lemma_consistent_chain(&self)
        requires
            self.consistent(),
        ensures
            self.leaf_visits().len() >= 1,
            self.leaf_visits()[0].0 == self.meta.data_head,
            self.leaf_visits().last().0 == self.meta.data_tail,
            forall|j: int| 0 <= j < self.leaf_visits().len() - 1 ==>
                self.pages@[(#[trigger] self.leaf_visits()[j]).0 as int]->Leaf_0.next == self.leaf_visits()[j + 1].0,
            forall|a: int, b: int| 0 <= a < b < self.leaf_visits().len() ==>
                #[trigger] self.leaf_visits()[a].0 != #[trigger] self.leaf_visits()[b].0,
            self.pages@[self.meta.data_head as int] matches Page::Leaf(h) && h.prev == NULL_IDX,
            self.pages@[self.meta.data_tail as int] matches Page::Leaf(t) && t.next == NULL_IDX,
    {
        let vs = self.leaf_visits();
        let cur0 = (NULL_IDX, self.meta.data_head);
        let end = node_check(self.pages@, self.meta.depth as nat, self.meta.root_page, 0, 0, None, cur0)->Some_0;
        lemma_node_visits(self.pages@, self.meta.depth as nat, self.meta.root_page, 0, 0, None, cur0);
        lemma_visits_distinct(self.pages@, self.meta.depth as nat, vs, end);
        assert(visit_ok(self.pages@, self.meta.depth as nat, vs[0]));
        assert(visit_ok(self.pages@, self.meta.depth as nat, vs[vs.len() - 1]));
    }

    /// In a tree that passes the consistency check, the leaf chain from the
    /// head ends within the store and yields the pairs of the visited
    /// leaves, in visit order and in strictly ascending key order.
    pub proof fn lemma_consistent_iter(&self)
        requires
            self.wf(),
            self.consistent(),
        ensures
            chain_ends(self.pages@, self.meta.data_head, self.pages@.len()),
            chain_pairs(self.pages@, self.meta.data_head, self.pages@.len()) == visit_pairs(self.pages@, self.leaf_visits()),
            sorted_pairs(chain_pairs(self.pages@, self.meta.data_head, self.pages@.len())),
    {
        let depth = self.meta.depth as nat;
        let vs = self.leaf_visits();
        let cur0 = (NULL_IDX, self.meta.data_head);
        let end = node_check(self.pages@, depth, self.meta.root_page, 0, 0, None, cur0)->Some_0;
        lemma_node_visits(self.pages@, depth, self.meta.root_page, 0, 0, None, cur0);
        lemma_visits_distinct(self.pages@, depth, vs, end);
        lemma_visits_fit(self.pages@, depth, vs);
        lemma_chain_follows_visits(self.pages@, depth, vs, self.pages@.len());
        lemma_node_bounds(self.pages@, depth, self.meta.root_page, 0, 0, None, cur0);
        lemma_visit_pairs_sorted(self.pages@, depth, vs, 0, None);
    }

    /// In a tree that passes the consistency check, a lookup and the ordered
    /// walk of the leaf chain agree: the value under any key is the one that
    /// the chain's pairs hold for it, and absent exactly when they hold none.
    pub proof fn lemma_consistent_lookup(&self, key: u32)
        requires
            self.wf(),
            self.consistent(),
        ensures
            self.lookup_spec(key) == lookup(chain_pairs(self.pages@, self.meta.data_head, self.pages@.len()), key),
    {
        self.lemma_consistent_iter();
        let depth = self.meta.depth as nat;
        let vs = self.leaf_visits();
        let cur0 = (NULL_IDX, self.meta.data_head);
        lemma_node_visits(self.pages@, depth, self.meta.root_page, 0, 0, None, cur0);
        lemma_node_bounds(self.pages@, depth, self.meta.root_page, 0, 0, None, cur0);
        lemma_descend_visited(self.pages@, depth, self.meta.root_page, 0, 0, None, cur0, key);
        let j0 = choose|j: int|
            0 <= j < vs.len() && #[trigger] vs[j].0 == descend(self.pages@, self.meta.root_page, (depth - 0) as nat, key)
                && vs[j].1 <= key && (vs[j].2 matches Some(h) ==> key < h);
        assert(visit_ok(self.pages@, depth, vs[j0]));
        lemma_visit_lookup(self.pages@, depth, vs, 0, None, j0, key);
    }

    /// In a tree that passes the consistency check the leaf chain lists
    /// exactly the live pairs: it is the one sequence in strictly ascending
    /// key order whose value under every key is what a lookup finds.
    pub proof fn lemma_consistent_live_pairs(&self, s: Seq<(u32, u32)>)
        requires
            self.wf(),
            self.consistent(),
            sorted_pairs(s),
            forall|k: u32| #[trigger] lookup(s, k) == self.lookup_spec(k),
        ensures
            chain_pairs(self.pages@, self.meta.data_head, self.pages@.len()) == s,
    {
        self.lemma_consistent_iter();
        let c = chain_pairs(self.pages@, self.meta.data_head, self.pages@.len());
        assert forall|k: u32| #[trigger] lookup(c, k) == lookup(s, k) by {
            self.lemma_consistent_lookup(k);
        }
        lemma_sorted_pairs_determined(c, s);
    }

    /// Between consistent trees whose lookups differ as a put of `key` makes
    /// them differ, the chain gains the pair as `put_pairs` adds it.
    pub proof fn lemma_chain_after_put(before: BPlusTree, after: BPlusTree, key: u32, value: u32)
        requires
            before.wf(),
            after.wf(),
            before.consistent(),
            after.consistent(),
            forall|k: u32| #[trigger] after.lookup_spec(k) == if k == key {
                Some(value)
            } else {
                before.lookup_spec(k)
            },
        ensures
            chain_pairs(after.pages@, after.meta.data_head, after.pages@.len()) == put_pairs(
                chain_pairs(before.pages@, before.meta.data_head, before.pages@.len()),
                key,
                value,
            ),
    {
        let c = chain_pairs(before.pages@, before.meta.data_head, before.pages@.len());
        before.lemma_consistent_iter();
        lemma_put_pairs_sorted(c, key, value);
        assert forall|k: u32| #[trigger] lookup(put_pairs(c, key, value), k) == after.lookup_spec(k) by {
            lemma_lookup_put(c, key, value, k);
            before.lemma_consistent_lookup(k);
        }
        after.lemma_consistent_live_pairs(put_pairs(c, key, value));
    }

    /// Between consistent trees whose lookups differ as a delete of `key`
    /// makes them differ, the chain loses the pair as `delete_pairs` removes it.
    pub proof fn lemma_chain_after_delete(before: BPlusTree, after: BPlusTree, key: u32)
        requires
            before.wf(),
            after.wf(),
            before.consistent(),
            after.consistent(),
            forall|k: u32| #[trigger] after.lookup_spec(k) == if k == key {
                None
            } else {
                before.lookup_spec(k)
            },
        ensures
            chain_pairs(after.pages@, after.meta.data_head, after.pages@.len()) == delete_pairs(
                chain_pairs(before.pages@, before.meta.data_head, before.pages@.len()),
                key,
            ),
    {
        let c = chain_pairs(before.pages@, before.meta.data_head, before.pages@.len());
        before.lemma_consistent_iter();
        lemma_delete_pairs_sorted(c, key);
        assert forall|k: u32| #[trigger] lookup(delete_pairs(c, key), k) == after.lookup_spec(k) by {
            lemma_lookup_delete(c, key, k);
            before.lemma_consistent_lookup(k);
        }
        after.lemma_consistent_live_pairs(delete_pairs(c, key));
    }

    /// A consistent tree that holds fewer pairs than a leaf can takes any
    /// put in place: the leaf that the key descends to has room.
    pub proof fn lemma_small_tree_put_in_place(&self, key: u32)
        requires
            self.wf(),
            self.consistent(),
            chain_pairs(self.pages@, self.meta.data_head, self.pages@.len()).len() < LEAF_RECORD_COUNT,
        ensures
            self.put_in_place(key),
    {
        self.lemma_consistent_iter();
        let depth = self.meta.depth as nat;
        let vs = self.leaf_visits();
        let cur0 = (NULL_IDX, self.meta.data_head);
        lemma_node_visits(self.pages@, depth, self.meta.root_page, 0, 0, None, cur0);
        lemma_descend_visited(self.pages@, depth, self.meta.root_page, 0, 0, None, cur0, key);
        let j0 = choose|j: int|
            0 <= j < vs.len() && #[trigger] vs[j].0 == descend(self.pages@, self.meta.root_page, (depth - 0) as nat, key)
                && vs[j].1 <= key && (vs[j].2 matches Some(h) ==> key < h);
        assert(visit_ok(self.pages@, depth, vs[j0]));
        lemma_visit_pairs_len(self.pages@, vs, j0);
    }

    /// A fresh tree: the header, an empty root directory at page 1 whose
    /// only child is the empty leaf at page 2, and depth 1.
    pub fn init() -> (r: BPlusTree)
        ensures
            r.wf(),
            r.consistent(),
            r.free_list_acyclic(),
            chain_pairs(r.pages@, r.meta.data_head, r.pages@.len()) == Seq::<(u32, u32)>::empty(),
            r.meta == (MetadataPage {
                next_free_page: NULL_IDX,
                root_page: DEFAULT_ROOT_IDX,
                data_head: DEFAULT_PAGE0_IDX,
                data_tail: DEFAULT_PAGE0_IDX,
                pages_allocated: 3,
                depth: 1,
            }),
            r.pages@.len() == 3,
            r.pages@[1] matches Page::Dir(d) && d.keys@.len() == 0 && d.pointers@ == seq![DEFAULT_PAGE0_IDX],
            r.pages@[2] matches Page::Leaf(l) && l@.len() == 0 && l.next == NULL_IDX && l.prev == NULL_IDX,
    {
        let meta = MetadataPage::init(
            NULL_IDX,
            DEFAULT_ROOT_IDX,
            DEFAULT_PAGE0_IDX,
            DEFAULT_PAGE0_IDX,
            3,
            1,
        );
        let mut root = DirectoryPage::init();
        root.pointers.set(0, DEFAULT_PAGE0_IDX);
        let data = LeafPage::init();
        let mut pages: Vec<Page> = Vec::new();
        pages.push(Page::Meta(meta));
        pages.push(Page::Dir(root));
        pages.push(Page::Leaf(data));
        let r = BPlusTree { pages, meta };
        proof {
            assert forall|i: int| 0 <= i < r.pages@.len() implies (#[trigger] r.pages@[i]).wf() by {
                if i == 1 {
                    assert(sorted_keys(root.keys@));
                }
            }
            assert(pair_keys(data@) =~= Seq::<u32>::empty());
            assert(node_check(r.pages@, 1, 2, 1, 0, None, (NULL_IDX, 2)) == Some((2u64, NULL_IDX)));
            assert(children_check(r.pages@, 1, root, 1, 0, 0, None, (2u64, NULL_IDX)) == Some((2u64, NULL_IDX)));
            assert(children_check(r.pages@, 1, root, 0, 0, 0, None, (NULL_IDX, 2u64)) == Some((2u64, NULL_IDX)));
            assert(node_check(r.pages@, 1, 1, 0, 0, None, (NULL_IDX, 2)) == Some((2u64, NULL_IDX)));
            assert(free_list_is(r.pages@, r.meta.next_free_page, Seq::<PagePointer>::empty()));
            assert(chain_pairs(r.pages@, NULL_IDX, 2) == Seq::<(u32, u32)>::empty());
            assert(chain_pairs(r.pages@, 2, 3) =~= Seq::<(u32, u32)>::empty());
        }
        r
    }

    /// Opens a tree over the pages of an existing store. The header is
    /// read from page 0; the store is refused when page 0 is not a header
    /// that counts the pages, or when a leaf or directory is malformed.
    pub fn open(pages: Vec<Page>) -> (r: Result<BPlusTree, TreeError>)
        ensures
            r matches Ok(t) ==> t.wf() && t.pages@ == pages@,
            r.is_ok() == (1 <= pages@.len() < u64::MAX && (pages@[0] matches Page::Meta(m)
                && m.pages_allocated == pages@.len()) && forall|i: int|
                0 <= i < pages@.len() ==> (#[trigger] pages@[i]).wf()),
    {
        if pages.len() == 0 || pages.len() as u64 == u64::MAX {
            return Err(TreeError::Corrupt);
        }
        let meta = match &pages[0] {
            Page::Meta(m) => *m,
            _ => {
                return Err(TreeError::WrongPageType(METADATA_IDX));
            },
        };
        if meta.pages_allocated != pages.len() as u64 {
            return Err(TreeError::Corrupt);
        }
        let mut i: usize = 0;
        while i < pages.len()
            invariant
                i <= pages@.len(),
                forall|j: int| 0 <= j < i ==> (#[trigger] pages@[j]).wf(),
            decreases pages@.len() - i,
        {
            if !page_is_wf(&pages[i]) {
                return Err(TreeError::Corrupt);
            }
            i = i + 1;
        }
        Ok(BPlusTree { pages, meta })
    }

    /// Whether the store and header agree and every page is well formed.
    pub fn is_wf(&self) -> (r: bool)
        ensures
            r == self.wf(),
    {
        let n = self.pages.len();
        if n == 0 || n as u64 == u64::MAX || self.meta.pages_allocated != n as u64 {
            return false;
        }
        match &self.pages[0] {
            Page::Meta(m) => {
                if *m != self.meta {
                    return false;
                }
            },
            _ => {
                return false;
            },
        }
        let mut i: usize = 0;
        while i < n
            invariant
                n == self.pages@.len(),
                i <= n,
                forall|j: int| 0 <= j < i ==> (#[trigger] self.pages@[j]).wf(),
            decreases n - i,
        {
            if !page_is_wf(&self.pages[i]) {
                return false;
            }
            i = i + 1;
        }
        true
    }

    /// The number of directory levels above the leaves.
    pub fn depth(&self) -> (r: u16)
        ensures
            r == self.meta.depth,
    {
        self.meta.depth
    }

    /// Copies the header into page 0.
    pub fn put_meta(&mut self)
        requires
            old(self).pages@.len() >= 1,
        ensures
            final(self).meta == old(self).meta,
            final(self).pages@ == old(self).pages@.update(0, Page::Meta(old(self).meta)),
    {
        let m = self.meta;
        self.pages.set(0, Page::Meta(m));
    }

    /// A copy of the page at `ptr`.
    pub fn get_page(&self, ptr: PagePointer) -> (r: Result<Page, TreeError>)
        ensures
            r.is_ok() == (ptr < self.pages@.len()),
            r matches Ok(p) ==> same_page(p, self.pages@[ptr as int]),
            r matches Err(e) ==> e == TreeError::BadPointer(ptr),
    {
        if ptr >= self.pages.len() as u64 {
            return Err(TreeError::BadPointer(ptr));
        }
        Ok(self.pages[ptr as usize].duplicate())
    }

    /// A copy of the leaf at `ptr`; fails unless `ptr` names a leaf.
    pub fn get_leaf(&self, ptr: PagePointer) -> (r: Result<LeafPage, TreeError>)
        requires
            self.wf(),
        ensures
            r.is_ok() == (ptr < self.pages@.len() && self.pages@[ptr as int] is Leaf),
            r matches Ok(l) ==> l.wf() && (self.pages@[ptr as int] matches Page::Leaf(s) && same_leaf(l, s)),
    {
        if ptr >= self.pages.len() as u64 {
            return Err(TreeError::BadPointer(ptr));
        }
        match &self.pages[ptr as usize] {
            Page::Leaf(l) => {
                let r = l.duplicate();
                assert(self.pages@[ptr as int].wf());
                Ok(r)
            },
            _ => Err(TreeError::WrongPageType(ptr)),
        }
    }

    /// A copy of the directory at `ptr`; fails unless `ptr` names a directory.
    pub fn get_dir(&self, ptr: PagePointer) -> (r: Result<DirectoryPage, TreeError>)
        requires
            self.wf(),
        ensures
            r.is_ok() == (ptr < self.pages@.len() && self.pages@[ptr as int] is Dir),
            r matches Ok(d) ==> d.wf() && sorted_keys(d.keys@) && (self.pages@[ptr as int] matches Page::Dir(s) && same_dir(d, s)),
    {
        if ptr >= self.pages.len() as u64 {
            return Err(TreeError::BadPointer(ptr));
        }
        match &self.pages[ptr as usize] {
            Page::Dir(d) => {
                let r = d.duplicate();
                assert(self.pages@[ptr as int].wf());
                Ok(r)
            },
            _ => Err(TreeError::WrongPageType(ptr)),
        }
    }

    /// The free-list node at `ptr`; fails unless `ptr` names a free page.
    pub fn get_free(&self, ptr: PagePointer) -> (r: Result<FreePage, TreeError>)
        ensures
            r.is_ok() == (ptr < self.pages@.len() && self.pages@[ptr as int] is Free),
            r matches Ok(f) ==> self.pages@[ptr as int] == Page::Free(f),
    {
        if ptr >= self.pages.len() as u64 {
            return Err(TreeError::BadPointer(ptr));
        }
        match &self.pages[ptr as usize] {
            Page::Free(f) => Ok(*f),
            _ => Err(TreeError::WrongPageType(ptr)),
        }
    }

    /// Overwrites the page at `ptr`, which must lie in the store and not be
    /// the header page.
    pub fn put_page(&mut self, ptr: PagePointer, page: Page) -> (r: Result<(), TreeError>)
        requires
            old(self).wf(),
            page.wf(),
        ensures
            final(self).pages@.len() >= old(self).pages@.len(),
            final(self).wf(),
            final(self).meta == old(self).meta,
            r.is_ok() == (0 < ptr < old(self).pages@.len()),
            r.is_ok() ==> final(self).pages@ == old(self).pages@.update(ptr as int, page),
            r.is_err() ==> final(self).pages@ == old(self).pages@,
    {
        if ptr == METADATA_IDX || ptr >= self.pages.len() as u64 {
            return Err(TreeError::BadPointer(ptr));
        }
        self.pages.set(ptr as usize, page);
        proof {
            assert forall|i: int| 0 <= i < self.pages@.len() implies (#[trigger] self.pages@[i]).wf() by {
                if i != ptr {
                    assert(old(self).pages@[i].wf());
                }
            }
        }
        Ok(())
    }

    /// Stores `page` on a fresh page and returns its index: the head of the
    /// free list when there is one (the list then starts at its successor),
    /// else a page appended at the end of the store.
    pub fn alloc_page(&mut self, page: Page) -> (r: Result<PagePointer, TreeError>)
        requires
            old(self).wf(),
            page.wf(),
        ensures
            leaves_kept(old(self).pages@, final(self).pages@),
            final(self).pages@.len() >= old(self).pages@.len(),
            final(self).wf(),
            final(self).meta.root_page == old(self).meta.root_page,
            final(self).meta.data_head == old(self).meta.data_head,
            final(self).meta.data_tail == old(self).meta.data_tail,
            final(self).meta.depth == old(self).meta.depth,
            old(self).meta.next_free_page == NULL_IDX ==> {
                &&& r.is_ok() == (old(self).pages@.len() + 1 < u64::MAX)
                &&& r matches Ok(p) ==> {
                    &&& p == old(self).pages@.len()
                    &&& final(self).meta.next_free_page == NULL_IDX
                    &&& final(self).pages@ == old(self).pages@.update(0, Page::Meta(final(self).meta)).push(page)
                }
            },
            old(self).meta.next_free_page != NULL_IDX ==> {
                &&& r.is_ok() == (old(self).meta.next_free_page < old(self).pages@.len()
                    && old(self).pages@[old(self).meta.next_free_page as int] is Free)
                &&& r matches Ok(p) ==> {
                    &&& p == old(self).meta.next_free_page
                    &&& old(self).pages@[p as int] matches Page::Free(f)
                        && final(self).meta.next_free_page == f.next_free_page
                    &&& final(self).meta.pages_allocated == old(self).meta.pages_allocated
                    &&& final(self).pages@ == old(self).pages@.update(0, Page::Meta(final(self).meta)).update(p as int, page)
                }
            },
            r.is_err() ==> final(self).pages@ == old(self).pages@ && final(self).meta == old(self).meta,
            forall|s: Seq<PagePointer>|
                #![trigger free_list_is(old(self).pages@, old(self).meta.next_free_page, s)]
                r.is_ok() && free_list_is(old(self).pages@, old(self).meta.next_free_page, s) ==> if s.len() > 0 {
                    free_list_is(final(self).pages@, final(self).meta.next_free_page, s.drop_first())
                } else {
                    free_list_is(final(self).pages@, final(self).meta.next_free_page, s)
                },
    {
        if self.meta.next_free_page == NULL_IDX {
            if self.pages.len() as u64 >= u64::MAX - 1 {
                return Err(TreeError::StoreFull);
            }
            let ptr = self.meta.pages_allocated;
            self.meta.pages_allocated = ptr + 1;
            self.put_meta();
            self.pages.push(page);
            proof {
                assert forall|i: int| 0 <= i < self.pages@.len() implies (#[trigger] self.pages@[i]).wf() by {
                    if 0 < i < old(self).pages@.len() {
                        assert(old(self).pages@[i].wf());
                    }
                }
            }
            Ok(ptr)
        } else {
            let ptr = self.meta.next_free_page;
            let free = match self.get_free(ptr) {
                Ok(f) => f,
                Err(e) => {
                    return Err(e);
                },
            };
            let n = self.pages.len();
            assert(ptr < n);
            let idx = ptr as usize;
            self.meta.next_free_page = free.next_free_page;
            self.put_meta();
            self.pages.set(idx, page);
            proof {
                assert forall|s: Seq<PagePointer>|
                    #![trigger free_list_is(old(self).pages@, old(self).meta.next_free_page, s)]
                    free_list_is(old(self).pages@, old(self).meta.next_free_page, s) implies s.len() > 0
                        && free_list_is(self.pages@, self.meta.next_free_page, s.drop_first()) by {
                    lemma_free_list_pop(old(self).pages@, old(self).meta.next_free_page, s, page, self.meta);
                }
                assert forall|i: int| 0 <= i < self.pages@.len() implies (#[trigger] self.pages@[i]).wf() by {
                    if 0 < i < old(self).pages@.len() && i != ptr {
                        assert(old(self).pages@[i].wf());
                    }
                }
            }
            Ok(ptr)
        }
    }

    /// Releases the page at `ptr`: it becomes a free page that heads the
    /// free list, linked to the former head.
    pub fn free_page(&mut self, ptr: PagePointer) -> (r: Result<(), TreeError>)
        requires
            old(self).wf(),
        ensures
            final(self).pages@.len() >= old(self).pages@.len(),
            final(self).wf(),
            r.is_ok() == (0 < ptr < old(self).pages@.len()),
            r.is_ok() ==> {
                &&& final(self).meta == (MetadataPage { next_free_page: ptr, ..old(self).meta })
                &&& final(self).pages@ == old(self).pages@.update(ptr as int, Page::Free(FreePage { next_free_page: old(self).meta.next_free_page })).update(0, Page::Meta(final(self).meta))
            },
            r.is_err() ==> final(self).pages@ == old(self).pages@ && final(self).meta == old(self).meta,
            forall|s: Seq<PagePointer>|
                #![trigger free_list_is(old(self).pages@, old(self).meta.next_free_page, s)]
                r.is_ok() && free_list_is(old(self).pages@, old(self).meta.next_free_page, s) && !s.contains(ptr)
                    ==> free_list_is(final(self).pages@, ptr, seq![ptr] + s),
    {
        let free = FreePage::init(self.meta.next_free_page);
        self.put_page(ptr, Page::Free(free))?;
        self.meta.next_free_page = ptr;
        self.put_meta();
        proof {
            assert forall|s: Seq<PagePointer>|
                #![trigger free_list_is(old(self).pages@, old(self).meta.next_free_page, s)]
                free_list_is(old(self).pages@, old(self).meta.next_free_page, s) && !s.contains(ptr)
                    implies free_list_is(self.pages@, ptr, seq![ptr] + s) by {
                lemma_free_list_push(old(self).pages@, old(self).meta.next_free_page, s, ptr, self.meta);
            }
            assert forall|i: int| 0 <= i < self.pages@.len() implies (#[trigger] self.pages@[i]).wf() by {
                if 0 < i < old(self).pages@.len() && i != ptr {
                    assert(old(self).pages@[i].wf());
                }
            }
        }
        Ok(())
    }

    /// The child of directory `ptr` that covers `key`.
    fn child_of(&self, ptr: PagePointer, key: u32) -> (r: Result<PagePointer, TreeError>)
        requires
            self.wf(),
        ensures
            r.is_ok() == dir_child_ok(self.pages@, ptr, key),
            r matches Ok(c) ==> 0 < c < self.pages@.len() && ptr < self.pages@.len()
                && (self.pages@[ptr as int] matches Page::Dir(d) && c == child_for(d, key)),
    {
        if ptr >= self.pages.len() as u64 {
            return Err(TreeError::BadPointer(ptr));
        }
        match &self.pages[ptr as usize] {
            Page::Dir(d) => {
                assert(self.pages@[ptr as int].wf());
                let i = d.find_pointer_idx(key);
                let c = d.pointers[i];
                proof {
                    lemma_child_for(*d, key, i as int);
                }
                if c == NULL_IDX || c >= self.pages.len() as u64 {
                    return Err(TreeError::BadPointer(c));
                }
                Ok(c)
            },
            _ => Err(TreeError::WrongPageType(ptr)),
        }
    }

    /// The path from the root to the leaf that holds, or would hold, `key`:
    /// the root first, then one page per directory level, the leaf last.
    pub fn find_page(&self, key: u32) -> (r: Result<Vec<PagePointer>, TreeError>)
        requires
            self.wf(),
        ensures
            r matches Ok(path) ==> {
                &&& path@.len() == self.meta.depth + 1
                &&& path@[0] == self.meta.root_page
                &&& is_path(self.pages@, path@, key)
                &&& path@.last() == self.leaf_of(key)
                &&& descent_ok(self.pages@, self.meta.root_page, self.meta.depth as nat, key)
                    == (self.pages@[path@.last() as int] is Leaf)
            },
            descent_ok(self.pages@, self.meta.root_page, self.meta.depth as nat, key) ==> r.is_ok(),
    {
        let mut ret: Vec<PagePointer> = Vec::new();
        let mut curr = self.meta.root_page;
        if curr == NULL_IDX || curr >= self.pages.len() as u64 {
            return Err(TreeError::BadPointer(curr));
        }
        ret.push(curr);
        let mut i: u16 = 0;
        while i < self.meta.depth
            invariant
                self.wf(),
                i <= self.meta.depth,
                ret@.len() == i + 1,
                ret@[0] == self.meta.root_page,
                ret@.last() == curr,
                is_path(self.pages@, ret@, key),
                descent_ok(self.pages@, curr, (self.meta.depth - i) as nat, key) == descent_ok(
                    self.pages@,
                    self.meta.root_page,
                    self.meta.depth as nat,
                    key,
                ),
            decreases self.meta.depth - i,
        {
            let next = match self.child_of(curr, key) {
                Ok(c) => c,
                Err(e) => {
                    proof {
                        reveal_with_fuel(descent_ok, 2);
                        assert(!descent_ok(self.pages@, curr, (self.meta.depth - i) as nat, key));
                    }
                    return Err(e);
                },
            };
            let ghost before = ret@;
            ret.push(next);
            proof {
                assert(ret@.subrange(0, before.len() as int) == before);
                assert forall|j: int| 0 <= j < ret@.len() - 1 implies match self.pages@[#[trigger] ret@[j] as int] {
                    Page::Dir(d) => ret@[j + 1] == child_for(d, key),
                    _ => false,
                } by {
                    if j < before.len() - 1 {
                        assert(ret@[j] == before[j]);
                        assert(ret@[j + 1] == before[j + 1]);
                    } else {
                        assert(ret@[j] == curr);
                    }
                }
            }
            curr = next;
            i = i + 1;
        }
        proof {
            lemma_descend_path(self.pages@, ret@, key);
        }
        Ok(ret)
    }

    /// The value stored under `key`, or `None`.
    pub fn get(&self, key: u32) -> (r: Result<Option<u32>, TreeError>)
        requires
            self.wf(),
        ensures
            r.is_ok() == descent_ok(self.pages@, self.meta.root_page, self.meta.depth as nat, key),
            r matches Ok(v) ==> v == self.lookup_spec(key),
            self.consistent() ==> r.is_ok(),
    {
        proof {
            if self.consistent() {
                lemma_check_descent(self.pages@, self.meta.depth as nat, self.meta.root_page, 0, 0, None,
                    (NULL_IDX, self.meta.data_head), key);
            }
        }
        let path = self.find_page(key)?;
        let ptr = path[path.len() - 1];
        let n = self.pages.len();
        assert(path@[path@.len() - 1] == ptr);
        assert(0 < ptr < n);
        match &self.pages[ptr as usize] {
            Page::Leaf(l) => {
                assert(self.pages@[ptr as int].wf());
                Ok(l.find_value(key))
            },
            _ => Err(TreeError::WrongPageType(ptr)),
        }
    }

    /// All pairs of the tree in ascending key order, read along the leaf
    /// chain from the first leaf. Fails when the chain does not end, or
    /// when its keys do not strictly ascend.
    pub fn iter(&self) -> (r: Result<Vec<(u32, u32)>, TreeError>)
        requires
            self.wf(),
        ensures
            r.is_ok() == (chain_ends(self.pages@, self.meta.data_head, self.pages@.len())
                && sorted_pairs(chain_pairs(self.pages@, self.meta.data_head, self.pages@.len()))),
            r matches Ok(v) ==> v@ == chain_pairs(self.pages@, self.meta.data_head, self.pages@.len()),
            self.consistent() ==> r.is_ok(),
    {
        proof {
            if self.consistent() {
                self.lemma_consistent_iter();
            }
        }
        let mut out: Vec<(u32, u32)> = Vec::new();
        let mut ptr = self.meta.data_head;
        let mut steps: usize = 0;
        let ghost total = self.pages@.len();
        while ptr != NULL_IDX
            invariant
                self.wf(),
                total == self.pages@.len(),
                sorted_pairs(out@),
                steps <= total,
                self.consistent() ==> chain_ends(self.pages@, self.meta.data_head, total) && sorted_pairs(
                    chain_pairs(self.pages@, self.meta.data_head, total),
                ),
                out@ + chain_pairs(self.pages@, ptr, (total - steps) as nat) == chain_pairs(
                    self.pages@,
                    self.meta.data_head,
                    total,
                ),
                chain_ends(self.pages@, ptr, (total - steps) as nat) == chain_ends(
                    self.pages@,
                    self.meta.data_head,
                    total,
                ),
            decreases self.pages@.len() - steps,
        {
            if steps >= self.pages.len() {
                return Err(TreeError::Corrupt);
            }
            if ptr >= self.pages.len() as u64 {
                return Err(TreeError::BadPointer(ptr));
            }
            let leaf = match &self.pages[ptr as usize] {
                Page::Leaf(l) => l,
                _ => {
                    return Err(TreeError::WrongPageType(ptr));
                },
            };
            let ghost start = out@;
            let ghost full = chain_pairs(self.pages@, self.meta.data_head, total);
            let ghost rest = chain_pairs(self.pages@, leaf.next, (total - steps - 1) as nat);
            proof {
                assert(start + leaf@ + rest =~= full);
            }
            let mut i: usize = 0;
            while i < leaf.key_value.len()
                invariant
                    sorted_pairs(out@),
                    i <= leaf@.len(),
                    out@ == start + leaf@.subrange(0, i as int),
                    start + leaf@ + rest == full,
                    full == chain_pairs(self.pages@, self.meta.data_head, total),
                    total == self.pages@.len(),
                    self.consistent() ==> chain_ends(self.pages@, self.meta.data_head, total) && sorted_pairs(full),
                decreases leaf@.len() - i,
            {
                let kv = leaf.key_value[i];
                let n = out.len();
                if n > 0 && out[n - 1].0 >= kv.0 {
                    proof {
                        assert(full[n - 1] == out@[n - 1]);
                        assert(full[n as int] == leaf@[i as int]);
                        assert(!(full[n - 1].0 < full[n as int].0));
                    }
                    return Err(TreeError::Corrupt);
                }
                let ghost before = out@;
                out.push(kv);
                proof {
                    assert forall|a: int, b: int| 0 <= a < b < out@.len() implies #[trigger] out@[a].0 < #[trigger] out@[b].0 by {
                        if b == n && a < n - 1 {
                            assert(before[a].0 < before[n - 1].0);
                        }
                    }
                }
                i = i + 1;
                proof {
                    assert(out@ == start + leaf@.subrange(0, i as int));
                }
            }
            proof {
                assert(leaf@.subrange(0, i as int) == leaf@);
                assert(out@ + chain_pairs(self.pages@, leaf.next, (total - steps - 1) as nat) =~= start
                    + chain_pairs(self.pages@, ptr, (total - steps) as nat));
            }
            ptr = leaf.next;
            steps = steps + 1;
        }
        proof {
            assert(out@ =~= out@ + chain_pairs(self.pages@, ptr, (total - steps) as nat));
        }
        Ok(out)
    }

    /// Checks the tree after a structural change: it must pass the
    /// consistency check and list exactly `expected` along its leaf chain.
    fn validate(&self, expected: &Vec<(u32, u32)>) -> (r: Result<(), TreeError>)
        requires
            self.wf(),
        ensures
            r.is_ok() ==> self.consistent() && chain_pairs(self.pages@, self.meta.data_head, self.pages@.len()) == expected@,
            self.consistent() && chain_pairs(self.pages@, self.meta.data_head, self.pages@.len()) == expected@ ==> r.is_ok(),
    {
        match self.check_tree() {
            Ok(None) => {},
            _ => {
                return Err(TreeError::Corrupt);
            },
        }
        let pairs = self.iter()?;
        if !pairs_equal(&pairs, expected) {
            return Err(TreeError::Corrupt);
        }
        Ok(())
    }

    /// Writes a directory page after checking at run time that its keys ascend.
    fn put_dir(&mut self, ptr: PagePointer, d: DirectoryPage) -> (r: Result<(), TreeError>)
        requires
            old(self).wf(),
            d.wf(),
        ensures
            final(self).pages@.len() >= old(self).pages@.len(),
            final(self).wf(),
            final(self).meta == old(self).meta,
            leaves_kept(old(self).pages@, final(self).pages@),
            r.is_ok() ==> 0 < ptr < old(self).pages@.len() && final(self).pages@ == old(self).pages@.update(ptr as int, Page::Dir(d)),
            sorted_keys(d.keys@) && ptr < old(self).pages@.len() && old(self).pages@[ptr as int] is Dir ==> r.is_ok(),
            r.is_err() ==> final(self).pages@ == old(self).pages@,
    {
        if !keys_ascending(&d.keys) {
            return Err(TreeError::Corrupt);
        }
        if ptr >= self.pages.len() as u64 {
            return Err(TreeError::BadPointer(ptr));
        }
        match &self.pages[ptr as usize] {
            Page::Dir(_) => {},
            _ => {
                return Err(TreeError::WrongPageType(ptr));
            },
        }
        self.put_page(ptr, Page::Dir(d))
    }

    /// Writes a leaf page.
    fn put_leaf(&mut self, ptr: PagePointer, l: LeafPage) -> (r: Result<(), TreeError>)
        requires
            old(self).wf(),
            l.wf(),
        ensures
            final(self).pages@.len() >= old(self).pages@.len(),
            final(self).wf(),
            final(self).meta == old(self).meta,
            r.is_ok() == (0 < ptr < old(self).pages@.len()),
            r.is_ok() ==> final(self).pages@ == old(self).pages@.update(ptr as int, Page::Leaf(l)),
    {
        self.put_page(ptr, Page::Leaf(l))
    }

    /// Inserts a new key/value pair, or updates the value of an existing
    /// key, splitting the leaf (and directories above it) when it is full.
    ///
    /// A put that fits in its leaf is proved to keep a consistent tree
    /// consistent. After a split the tree checks itself: it must pass the
    /// consistency check and list the old pairs with this one written, or
    /// the put fails with `Corrupt`.
    pub fn put(&mut self, key: u32, value: u32) -> (r: Result<(), TreeError>)
        requires
            old(self).wf(),
        ensures
            final(self).pages@.len() >= old(self).pages@.len(),
            final(self).wf(),
            r.is_ok() && old(self).put_in_place(key) ==> forall|k: u32|
                #[trigger] final(self).lookup_spec(k) == if k == key {
                    Some(value)
                } else {
                    old(self).lookup_spec(k)
                },
            old(self).put_in_place(key) && old(self).consistent() ==> r.is_ok() && final(self).consistent(),
            r.is_ok() && old(self).consistent() ==> final(self).consistent() && forall|k: u32|
                #[trigger] final(self).lookup_spec(k) == if k == key {
                    Some(value)
                } else {
                    old(self).lookup_spec(k)
                },
            final(self).meta.depth == old(self).meta.depth || final(self).meta.depth == old(self).meta.depth + 1,
            r.is_ok() && old(self).put_in_place(key) ==> final(self).meta == old(self).meta,
            r.is_ok() && old(self).leaf_parent_has_room(key) ==> final(self).meta.depth == old(self).meta.depth,
            r.is_ok() ==> op_done(*old(self), *final(self), TreeOp::Put(key, value)),
            r.is_ok() && !old(self).put_in_place(key) && old(self).leaf_parent_has_room(key) ==> old(self).split_put_done(*final(self), key, value),
            r.is_ok() && final(self).meta.depth == old(self).meta.depth + 1 ==> final(self).meta.root_page < final(self).pages@.len()
                && final(self).pages@[final(self).meta.root_page as int] is Dir
                && final(self).pages@[final(self).meta.root_page as int]->Dir_0.keys@.len() == 1
                && final(self).pages@[final(self).meta.root_page as int]->Dir_0.pointers@.len() == 2
                && final(self).pages@[final(self).meta.root_page as int]->Dir_0.pointers@[0] == old(self).meta.root_page
                && (final(self).meta.root_page >= old(self).pages@.len() || old(self).pages@[final(self).meta.root_page as int] is Free),
            r.is_ok() && old(self).meta.depth == 1 && !old(self).put_in_place(key) && dir_is_full(old(self).pages@, old(self).meta.root_page)
                ==> final(self).meta.depth == 2,
            r.is_ok() && old(self).consistent() ==> chain_pairs(final(self).pages@, final(self).meta.data_head,
                final(self).pages@.len()) == put_pairs(
                chain_pairs(old(self).pages@, old(self).meta.data_head, old(self).pages@.len()),
                key,
                value,
            ),
            r.is_ok() && old(self).put_in_place(key) && old(self).free_list_acyclic() ==> final(self).free_list_acyclic(),
    {
        proof {
            if self.consistent() {
                lemma_check_descent(self.pages@, self.meta.depth as nat, self.meta.root_page, 0, 0, None,
                    (NULL_IDX, self.meta.data_head), key);
            }
        }
        let path = self.find_page(key)?;
        let leaf_ptr = path[path.len() - 1];
        let mut leaf = self.get_leaf(leaf_ptr)?;
        if leaf.is_full() && !has_key_exec(&leaf, key) {
            if path.len() < 2 {
                return Err(TreeError::Corrupt);
            }
            let ghost before = *self;
            proof {
                let pre = path@.subrange(0, path@.len() - 1);
                assert forall|i: int| 0 <= i < pre.len() - 1 implies match self.pages@[#[trigger] pre[i] as int] {
                    Page::Dir(d) => pre[i + 1] == child_for(d, key),
                    _ => false,
                } by {
                    assert(pre[i] == path@[i]);
                    assert(pre[i + 1] == path@[i + 1]);
                }
                assert(is_path(self.pages@, pre, key));
                lemma_descend_path(self.pages@, pre, key);
                assert(pre.last() == path@[path@.len() - 2]);
            }
            let expected = match self.iter() {
                Ok(mut v) => {
                    put_into_pairs(&mut v, key, value);
                    Some(v)
                },
                Err(_) => None,
            };
            let ghost old_chain = chain_pairs(before.pages@, before.meta.data_head, before.pages@.len());
            let ghost ol = leaf;
            let (split_key, new_leaf_ptr, mut new_leaf) = self.split_leaf(&mut leaf, path.as_slice())?;
            let ghost s3 = self.pages@;
            let ghost m3 = self.meta;
            if key < split_key {
                if leaf.put(key, value).is_err() {
                    return Err(TreeError::PageFull);
                }
                self.put_leaf(leaf_ptr, leaf)?;
            } else {
                if new_leaf.put(key, value).is_err() {
                    return Err(TreeError::PageFull);
                }
                self.put_leaf(new_leaf_ptr, new_leaf)?;
            }
            proof {
                assert(path@[path@.len() - 1] == leaf_ptr);
                assert(before.leaf_of(key) == leaf_ptr);
                let parent = path@[path@.len() - 2];
                if before.leaf_parent_has_room(key) {
                    assert(parent == descend(before.pages@, before.meta.root_page, (before.meta.depth - 1) as nat, key));
                    assert(s3[parent as int] is Dir);
                    assert(self.pages@[parent as int] == s3[parent as int]);
                }
                if ol.next != NULL_IDX {
                    assert(self.pages@[ol.next as int] == s3[ol.next as int]);
                }
            }
            if let Some(e) = expected {
                self.validate(&e)?;
                proof {
                    if before.consistent() {
                        before.lemma_consistent_iter();
                        assert forall|k: u32| #[trigger] self.lookup_spec(k) == if k == key {
                            Some(value)
                        } else {
                            before.lookup_spec(k)
                        } by {
                            before.lemma_consistent_lookup(k);
                            self.lemma_consistent_lookup(k);
                            lemma_lookup_put(old_chain, key, value, k);
                        }
                    }
                }
            }
        } else {
            let ghost before = *self;
            let ghost old_leaf = leaf@;
            if leaf.put(key, value).is_err() {
                return Err(TreeError::PageFull);
            }
            let ghost new_leaf = leaf;
            self.put_leaf(leaf_ptr, leaf)?;
            proof {
                assert(path@[path@.len() - 1] == leaf_ptr);
                assert(before.leaf_of(key) == leaf_ptr);
                if before.consistent() {
                    let w = lemma_slot_exists(old_leaf, key);
                    let si = choose|i: int| is_slot(old_leaf, key, i);
                    lemma_slot_unique(old_leaf, key, si, w);
                    let ol = before.pages@[leaf_ptr as int]->Leaf_0;
                    assert forall|a: int| 0 <= a < new_leaf@.len() && #[trigger] new_leaf@[a].0 != key implies exists|b: int|
                        0 <= b < ol@.len() && new_leaf@[a].0 == #[trigger] ol@[b].0 by {
                        if has_key(old_leaf, key) || a < si {
                            assert(new_leaf@[a].0 == ol@[a].0);
                        } else if a > si {
                            assert(new_leaf@[a].0 == ol@[a - 1].0);
                        }
                    }
                    lemma_grow_keeps_check(before.pages@, before.meta.depth as nat, before.meta.root_page,
                        before.meta.data_head, leaf_ptr, new_leaf, key);
                }
                assert forall|k: u32| #[trigger] self.lookup_spec(k) == if k == key {
                    Some(value)
                } else {
                    before.lookup_spec(k)
                } by {
                    lemma_leaf_rewrite(before, *self, leaf_ptr, new_leaf, k);
                    lemma_lookup_put(old_leaf, key, value, k);
                }
                if before.free_list_acyclic() {
                    let fl = choose|fl: Seq<PagePointer>| free_list_is(before.pages@, before.meta.next_free_page, fl);
                    lemma_free_list_frame(before.pages@, before.meta.next_free_page, fl, leaf_ptr as int, Page::Leaf(new_leaf));
                }
                if before.consistent() {
                    BPlusTree::lemma_chain_after_put(before, *self, key, value);
                }
            }
        }
        Ok(())
    }

    /// Splits the full leaf at the end of `ptr_stack`: the upper half moves
    /// to a newly allocated leaf linked after it in the chain, and the pair
    /// (first key of the new leaf, its pointer) is entered in the parent.
    /// Returns that key, the new leaf's pointer and the new leaf.
    pub fn split_leaf(&mut self, leaf: &mut LeafPage, ptr_stack: &[PagePointer])
        -> (r: Result<(u32, PagePointer, LeafPage), TreeError>)
        requires
            old(self).wf(),
            old(leaf).wf(),
            old(leaf)@.len() == LEAF_RECORD_COUNT,
            ptr_stack@.len() >= 2,
        ensures
            old(self).leaf_split_fits(*old(leaf), ptr_stack@) ==> r.is_ok(),
            final(self).meta.data_head == old(self).meta.data_head,
            r.is_ok() && final(self).meta.depth == old(self).meta.depth + 1 ==> final(self).pages@[final(self).meta.root_page as int]->Dir_0.pointers@.len() == 2
                && final(self).pages@[final(self).meta.root_page as int]->Dir_0.pointers@[0] == ptr_stack@[0],
            r.is_ok() && ptr_stack@.len() == 2 && dir_is_full(old(self).pages@, ptr_stack@[0]) ==> final(self).meta.depth == old(self).meta.depth + 1,
            final(self).meta.depth == old(self).meta.depth + 1 ==> fresh_root(old(self).pages@, final(self).pages@, final(self).meta.root_page),
            r.is_ok() && dir_has_room(old(self).pages@, ptr_stack@[ptr_stack@.len() - 2])
                ==> final(self).meta.depth == old(self).meta.depth,
            final(self).meta.depth == old(self).meta.depth || final(self).meta.depth == old(self).meta.depth + 1,
            final(self).pages@.len() >= old(self).pages@.len(),
            final(self).wf(),
            final(leaf).wf(),
            r matches Ok((k, p, n)) ==> {
                &&& n.wf()
                &&& final(leaf)@ == old(leaf)@.subrange(0, LEAF_HALF as int)
                &&& n@ == old(leaf)@.subrange(LEAF_HALF as int, LEAF_RECORD_COUNT as int)
                &&& k == n@[0].0
                &&& n.prev == ptr_stack@.last()
                &&& n.next == old(leaf).next
                &&& final(leaf).next == p
                &&& final(leaf).prev == old(leaf).prev
                &&& p < final(self).pages@.len() && final(self).pages@[p as int] is Leaf
                &&& same_leaf(final(self).pages@[p as int]->Leaf_0, n)
                &&& ptr_stack@.last() < final(self).pages@.len() && final(self).pages@[ptr_stack@.last() as int] is Leaf
                &&& same_leaf(final(self).pages@[ptr_stack@.last() as int]->Leaf_0, *final(leaf))
                &&& old(leaf).next == NULL_IDX ==> final(self).meta.data_tail == p
                &&& old(leaf).next != NULL_IDX ==> old(leaf).next < final(self).pages@.len()
                    && final(self).pages@[old(leaf).next as int] is Leaf
                    && final(self).pages@[old(leaf).next as int]->Leaf_0.prev == p
                &&& p == (if old(self).meta.next_free_page == NULL_IDX { old(self).pages@.len() as u64 } else { old(self).meta.next_free_page })
                &&& p != ptr_stack@.last() && p != old(leaf).next && ptr_stack@.last() != old(leaf).next
                &&& ptr_stack@.last() != ptr_stack@[ptr_stack@.len() - 2]
                &&& dir_has_room(old(self).pages@, ptr_stack@[ptr_stack@.len() - 2]) ==> {
                    &&& ptr_stack@[ptr_stack@.len() - 2] < final(self).pages@.len()
                    &&& final(self).pages@[ptr_stack@[ptr_stack@.len() - 2] as int] is Dir
                    &&& dir_entry_added(old(self).pages@[ptr_stack@[ptr_stack@.len() - 2] as int]->Dir_0,
                        final(self).pages@[ptr_stack@[ptr_stack@.len() - 2] as int]->Dir_0, ptr_stack@.last(), k, p)
                }
                &&& has_dir_entry(final(self).pages@, ptr_stack@.last(), k, p)
            },
    {
        let leaf_ptr = ptr_stack[ptr_stack.len() - 1];
        let mut new_leaf = leaf.split();
        let split_key = new_leaf.get(0).0;
        new_leaf.prev = leaf_ptr;
        new_leaf.next = leaf.next;
        let new_next = new_leaf.next;
        let ghost before = *self;
        proof {
            if before.free_list_acyclic() {
                let fl = choose|fl: Seq<PagePointer>| free_list_is(before.pages@, before.meta.next_free_page, fl);
                assert(fl.len() > 0 ==> before.pages@[fl[0] as int] is Free);
            }
        }
        let new_leaf_ptr = self.alloc_page(Page::Leaf(new_leaf.duplicate()))?;
        if new_leaf_ptr == leaf_ptr || new_leaf_ptr == new_next || leaf_ptr == new_next
            || leaf_ptr == ptr_stack[ptr_stack.len() - 2] {
            return Err(TreeError::Corrupt);
        }
        if new_next == NULL_IDX {
            self.meta.data_tail = new_leaf_ptr;
            self.put_meta();
        } else {
            let mut old_next = self.get_leaf(new_next)?;
            old_next.prev = new_leaf_ptr;
            self.put_leaf(new_next, old_next)?;
        }
        leaf.next = new_leaf_ptr;
        self.put_leaf(leaf_ptr, leaf.duplicate())?;
        let ghost s2 = self.pages@;
        proof {
            let parent = ptr_stack@[ptr_stack@.len() - 2];
            if dir_has_room(old(self).pages@, parent) {
                assert(s2[parent as int] == old(self).pages@[parent as int]);
            }
        }
        self.split_dir_entry(ptr_stack, split_key, new_leaf_ptr)?;
        proof {
            assert(s2[new_leaf_ptr as int] is Leaf);
            assert(s2[leaf_ptr as int] is Leaf);
            if new_next != NULL_IDX {
                assert(s2[new_next as int] is Leaf);
            }
        }
        Ok((split_key, new_leaf_ptr, new_leaf))
    }

    /// Enters `(split_key, new_child_ptr)` in the parent of the last page of
    /// `ptr_stack`, right after that page; a full parent is split first, and
    /// the entry goes into whichever half covers `split_key`.
    pub fn split_dir_entry(&mut self, ptr_stack: &[PagePointer], split_key: u32, new_child_ptr: PagePointer)
        -> (r: Result<(), TreeError>)
        requires
            old(self).wf(),
            ptr_stack@.len() >= 2,
        ensures
            dir_has_room(old(self).pages@, ptr_stack@[ptr_stack@.len() - 2]) && entry_fits(
                old(self).pages@[ptr_stack@[ptr_stack@.len() - 2] as int]->Dir_0,
                ptr_stack@.last(),
                split_key,
            ) ==> r.is_ok(),
            r.is_ok() && final(self).meta.depth == old(self).meta.depth + 1 ==> final(self).pages@[final(self).meta.root_page as int]->Dir_0.pointers@.len() == 2
                && final(self).pages@[final(self).meta.root_page as int]->Dir_0.pointers@[0] == ptr_stack@[0],
            r.is_ok() && ptr_stack@.len() == 2 && dir_is_full(old(self).pages@, ptr_stack@[0]) ==> final(self).meta.depth == old(self).meta.depth + 1,
            final(self).meta.depth == old(self).meta.depth + 1 ==> fresh_root(old(self).pages@, final(self).pages@, final(self).meta.root_page),
            final(self).meta.depth == old(self).meta.depth || final(self).meta.depth == old(self).meta.depth + 1,
            final(self).pages@.len() >= old(self).pages@.len(),
            final(self).wf(),
            leaves_kept(old(self).pages@, final(self).pages@),
            final(self).meta.data_head == old(self).meta.data_head,
            final(self).meta.data_tail == old(self).meta.data_tail,
            r.is_ok() ==> has_dir_entry(final(self).pages@, ptr_stack@.last(), split_key, new_child_ptr),
            r.is_ok() && dir_has_room(old(self).pages@, ptr_stack@[ptr_stack@.len() - 2]) ==> {
                &&& final(self).meta == old(self).meta
                &&& exists|nd: DirectoryPage|
                    final(self).pages@ == old(self).pages@.update(ptr_stack@[ptr_stack@.len() - 2] as int, Page::Dir(nd))
                        && dir_entry_added(old(self).pages@[ptr_stack@[ptr_stack@.len() - 2] as int]->Dir_0, nd,
                        ptr_stack@.last(), split_key, new_child_ptr)
            },
            r.is_ok() && dir_is_full(old(self).pages@, ptr_stack@[ptr_stack@.len() - 2]) ==> exists|p: PagePointer| {
                let parent = ptr_stack@[ptr_stack@.len() - 2];
                &&& p != parent
                &&& (p >= old(self).pages@.len() || old(self).pages@[p as int] is Free)
                &&& p < final(self).pages@.len() && parent < final(self).pages@.len()
                &&& final(self).pages@[parent as int] is Dir && #[trigger] final(self).pages@[p as int] is Dir
                &&& split_with_entry(old(self).pages@[parent as int]->Dir_0, final(self).pages@[parent as int]->Dir_0,
                    final(self).pages@[p as int]->Dir_0, ptr_stack@.last(), split_key, new_child_ptr)
            },
        decreases ptr_stack@.len(), 0nat,
    {
        let n = ptr_stack.len();
        let child_ptr = ptr_stack[n - 1];
        let dir_ptr = ptr_stack[n - 2];
        let mut dir_page = self.get_dir(dir_ptr)?;
        let ghost s0 = self.pages@;
        if dir_page.is_full() {
            let ghost od = dir_page;
            let parent_stack = path_prefix(ptr_stack, n - 1);
            let (parent_split_key, new_dir_ptr, mut new_dir_page) = self.split_dir(
                &mut dir_page,
                parent_stack.as_slice(),
            )?;
            if new_dir_ptr == dir_ptr {
                return Err(TreeError::Corrupt);
            }
            let ghost s1 = self.pages@;
            let ghost low0 = dir_page;
            let ghost high0 = new_dir_page;
            let ghost to_low = split_key < parent_split_key;
            if split_key < parent_split_key {
                insert_child(&mut dir_page, child_ptr, split_key, new_child_ptr)?;
            } else {
                insert_child(&mut new_dir_page, child_ptr, split_key, new_child_ptr)?;
            }
            let ghost low = dir_page;
            let ghost high = new_dir_page;
            self.put_dir(new_dir_ptr, new_dir_page)?;
            let ghost s2 = self.pages@;
            self.put_dir(dir_ptr, dir_page)?;
            proof {
                lemma_leaves_kept_trans(s0, s1, s2);
                lemma_leaves_kept_trans(s0, s2, self.pages@);
                assert(self.pages@[new_dir_ptr as int] == Page::Dir(high));
                assert(self.pages@[dir_ptr as int] == Page::Dir(low));
                if to_low {
                    lemma_entry_visible(self.pages@, dir_ptr as int, low0, low, child_ptr, split_key, new_child_ptr);
                } else {
                    lemma_entry_visible(self.pages@, new_dir_ptr as int, high0, high, child_ptr, split_key, new_child_ptr);
                }
                assert(split_with_entry(od, low, high, child_ptr, split_key, new_child_ptr));
            }
        } else {
            let ghost od = dir_page;
            insert_child(&mut dir_page, child_ptr, split_key, new_child_ptr)?;
            let ghost nd = dir_page;
            self.put_dir(dir_ptr, dir_page)?;
            proof {
                lemma_entry_visible(self.pages@, dir_ptr as int, od, nd, child_ptr, split_key, new_child_ptr);
                assert(dir_entry_added(s0[dir_ptr as int]->Dir_0, nd, child_ptr, split_key, new_child_ptr));
            }
        }
        Ok(())
    }

    /// Splits the full directory `dir` at the end of `ptr_stack` in two.
    /// The upper half goes to a newly allocated page, and the separator is
    /// entered in the parent, or, when `dir` is the root, in a new root one
    /// level up. Returns the separator, the new page's pointer and the new page.
    pub fn split_dir(&mut self, dir: &mut DirectoryPage, ptr_stack: &[PagePointer])
        -> (r: Result<(u32, PagePointer, DirectoryPage), TreeError>)
        requires
            old(self).wf(),
            old(dir).wf(),
            sorted_keys(old(dir).keys@),
            old(dir).keys@.len() > DIR_HALF,
            ptr_stack@.len() >= 1,
        ensures
            ptr_stack@.len() == 1 && ptr_stack@[0] < old(self).pages@.len() && old(self).pages@[ptr_stack@[0] as int] is Dir
                && old(self).free_list_acyclic() && old(self).pages@.len() + 3 < u64::MAX && old(self).meta.depth < u16::MAX
                ==> r.is_ok(),
            r.is_ok() && final(self).meta.depth == old(self).meta.depth + 1 ==> final(self).pages@[final(self).meta.root_page as int]->Dir_0.pointers@.len() == 2
                && final(self).pages@[final(self).meta.root_page as int]->Dir_0.pointers@[0] == ptr_stack@[0],
            r matches Ok((k, p, d)) ==> (final(self).meta.depth == old(self).meta.depth + 1 ==> p
                != final(self).meta.root_page),
            r matches Ok((k, p, d)) ==> p >= old(self).pages@.len() || old(self).pages@[p as int] is Free,
            final(self).meta.depth == old(self).meta.depth + 1 ==> fresh_root(old(self).pages@, final(self).pages@, final(self).meta.root_page),
            final(self).meta.depth == old(self).meta.depth || final(self).meta.depth == old(self).meta.depth + 1,
            final(self).pages@.len() >= old(self).pages@.len(),
            final(self).wf(),
            leaves_kept(old(self).pages@, final(self).pages@),
            final(self).meta.data_head == old(self).meta.data_head,
            final(self).meta.data_tail == old(self).meta.data_tail,
            final(dir).wf(),
            sorted_keys(final(dir).keys@),
            final(dir).keys@ == old(dir).keys@.subrange(0, DIR_HALF as int),
            final(dir).pointers@ == old(dir).pointers@.subrange(0, DIR_HALF + 1),
            r matches Ok((k, p, d)) ==> {
                &&& d.wf()
                &&& sorted_keys(d.keys@)
                &&& k == old(dir).keys@[DIR_HALF as int]
                &&& d.keys@ == old(dir).keys@.subrange(DIR_HALF + 1, old(dir).keys@.len() as int)
                &&& d.pointers@ == old(dir).pointers@.subrange(DIR_HALF + 1, old(dir).pointers@.len() as int)
                &&& ptr_stack@.len() > 1 ==> has_dir_entry(final(self).pages@, ptr_stack@.last(), k, p)
                &&& ptr_stack@.len() == 1 ==> {
                    &&& final(self).meta.depth == old(self).meta.depth + 1
                    &&& root_split_done(final(self).pages@, final(self).meta.root_page, ptr_stack@[0], k, p, d, *final(dir))
                }
            },
        decreases ptr_stack@.len(), 1nat,
    {
        let n = ptr_stack.len();
        let dir_ptr = ptr_stack[n - 1];
        let (split_key, new_dir_page) = dir.split_page();
        if dir_ptr >= self.pages.len() as u64 {
            return Err(TreeError::BadPointer(dir_ptr));
        }
        match &self.pages[dir_ptr as usize] {
            Page::Dir(_) => {},
            _ => {
                return Err(TreeError::WrongPageType(dir_ptr));
            },
        }
        let ghost s0 = self.pages@;
        let ghost before = *self;
        let new_dir_ptr = self.alloc_page(Page::Dir(new_dir_page.duplicate()))?;
        let ghost s1 = self.pages@;
        proof {
            if before.free_list_acyclic() {
                let fl = choose|fl: Seq<PagePointer>| free_list_is(before.pages@, before.meta.next_free_page, fl);
                if fl.len() > 0 {
                    assert(free_list_is(self.pages@, self.meta.next_free_page, fl.drop_first()));
                    if fl.drop_first().len() > 0 {
                        assert(fl.drop_first()[0] == self.meta.next_free_page);
                    }
                } else {
                    assert(free_list_is(self.pages@, self.meta.next_free_page, fl));
                }
            }
        }
        self.put_dir(dir_ptr, dir.duplicate())?;
        let ghost s2 = self.pages@;
        proof {
            lemma_leaves_kept_trans(s0, s1, s2);
        }
        if n <= 1 {
            let mut new_root = DirectoryPage::init();
            new_root.keys.push(split_key);
            new_root.pointers.set(0, dir_ptr);
            new_root.pointers.push(new_dir_ptr);
            proof {
                assert(sorted_keys(new_root.keys@));
            }
            let ghost root_page = Page::Dir(new_root);
            let new_root_ptr = self.alloc_page(Page::Dir(new_root))?;
            let ghost s3 = self.pages@;
            if self.meta.depth == u16::MAX {
                return Err(TreeError::Corrupt);
            }
            self.meta.root_page = new_root_ptr;
            self.meta.depth = self.meta.depth + 1;
            self.put_meta();
            proof {
                lemma_leaves_kept_trans(s0, s2, s3);
                assert(new_root_ptr != new_dir_ptr && new_root_ptr != dir_ptr);
                assert(self.pages@[new_root_ptr as int] == root_page);
                assert(new_root.keys@ =~= seq![split_key]);
                assert(new_root.pointers@ =~= seq![dir_ptr, new_dir_ptr]);
            }
        } else {
            proof {
                assert(s2[new_dir_ptr as int] is Dir);
            }
            self.split_dir_entry(ptr_stack, split_key, new_dir_ptr)?;
            proof {
                lemma_leaves_kept_trans(s0, s2, self.pages@);
            }
        }
        Ok((split_key, new_dir_ptr, new_dir_page))
    }

    /// Points the neighbour after a leaf back at it, or makes the leaf the
    /// chain's tail when it has no successor.
    fn relink_after(&mut self, leaf_ptr: PagePointer, next: PagePointer) -> (r: Result<(), TreeError>)
        requires
            old(self).wf(),
        ensures
            final(self).meta == (MetadataPage { data_tail: final(self).meta.data_tail, ..old(self).meta }),
            final(self).pages@.len() >= old(self).pages@.len(),
            final(self).wf(),
    {
        if next == NULL_IDX {
            self.meta.data_tail = leaf_ptr;
            self.put_meta();
        } else {
            let mut t = self.get_leaf(next)?;
            t.prev = leaf_ptr;
            self.put_leaf(next, t)?;
        }
        Ok(())
    }

    /// Removes `key` and its value, if present. An underfull leaf borrows a
    /// pair from a sibling that can spare one, or else merges with a
    /// sibling; an underfull parent is then rebalanced in turn.
    ///
    /// A delete that needs no rebalancing is proved to keep a consistent
    /// tree consistent. After a borrow or merge the tree checks itself: it
    /// must pass the consistency check and list the old pairs without this
    /// key, or the delete fails with `Corrupt`.
    pub fn delete(&mut self, key: u32) -> (r: Result<(), TreeError>)
        requires
            old(self).wf(),
        ensures
            final(self).pages@.len() >= old(self).pages@.len(),
            final(self).wf(),
            final(self).meta.depth == old(self).meta.depth || (final(self).meta.depth + 1 == old(self).meta.depth && old(self).meta.depth > 1),
            r.is_ok() ==> op_done(*old(self), *final(self), TreeOp::Delete(key)),
            r.is_ok() && old(self).lookup_spec(key) is None ==> final(self).pages@ == old(self).pages@
                && final(self).meta == old(self).meta,
            r.is_ok() && old(self).delete_in_place(key) ==> forall|k: u32|
                #[trigger] final(self).lookup_spec(k) == if k == key {
                    None
                } else {
                    old(self).lookup_spec(k)
                },
            old(self).delete_in_place(key) && old(self).consistent() ==> r.is_ok() && final(self).consistent(),
            r.is_ok() && old(self).consistent() ==> final(self).consistent() && forall|k: u32|
                #[trigger] final(self).lookup_spec(k) == if k == key {
                    None
                } else {
                    old(self).lookup_spec(k)
                },
            r.is_ok() && old(self).consistent() ==> chain_pairs(final(self).pages@, final(self).meta.data_head,
                final(self).pages@.len()) == delete_pairs(
                chain_pairs(old(self).pages@, old(self).meta.data_head, old(self).pages@.len()),
                key,
            ),
            r.is_ok() && old(self).delete_in_place(key) && old(self).free_list_acyclic() ==> final(self).free_list_acyclic(),
    {
        proof {
            if self.consistent() {
                lemma_check_descent(self.pages@, self.meta.depth as nat, self.meta.root_page, 0, 0, None,
                    (NULL_IDX, self.meta.data_head), key);
            }
        }
        let path = self.find_page(key)?;
        let n = path.len();
        let leaf_ptr = path[n - 1];
        let mut leaf_page = self.get_leaf(leaf_ptr)?;
        let ghost before = *self;
        let ghost old_leaf = leaf_page@;
        proof {
            assert(path@[path@.len() - 1] == leaf_ptr);
        }
        proof {
            assert(before.leaf_of(key) == leaf_ptr);
        }
        if !leaf_page.delete(key) {
            proof {
                assert forall|k: u32| #[trigger] self.lookup_spec(k) == if k == key {
                    None
                } else {
                    before.lookup_spec(k)
                } by {
                    lemma_lookup_delete(old_leaf, key, k);
                }
                if before.consistent() {
                    BPlusTree::lemma_chain_after_delete(before, *self, key);
                }
            }
            return Ok(());
        }
        if !leaf_page.is_underfull() || n < 2 {
            let ghost new_leaf = leaf_page;
            self.put_leaf(leaf_ptr, leaf_page)?;
            proof {
                if before.consistent() {
                    let w = lemma_slot_exists(old_leaf, key);
                    let i = choose|i: int| is_slot(old_leaf, key, i);
                    lemma_slot_unique(old_leaf, key, i, w);
                    let ol = before.pages@[leaf_ptr as int]->Leaf_0;
                    assert forall|a: int| 0 <= a < new_leaf@.len() implies exists|j: int| 0 <= j < ol@.len() && #[trigger] new_leaf@[a].0 == #[trigger] ol@[j].0 by {
                        if a < i {
                            assert(new_leaf@[a] == ol@[a]);
                        } else {
                            assert(new_leaf@[a] == ol@[a + 1]);
                        }
                    }
                    assert(leaf_shrinks(ol, new_leaf, before.meta.depth as nat));
                    lemma_node_check_shrink(before.pages@, leaf_ptr, new_leaf, before.meta.depth as nat, before.meta.root_page, 0, 0, None, (NULL_IDX, before.meta.data_head));
                }
                assert forall|k: u32| #[trigger] self.lookup_spec(k) == if k == key {
                    None
                } else {
                    before.lookup_spec(k)
                } by {
                    lemma_leaf_rewrite(before, *self, leaf_ptr, new_leaf, k);
                    lemma_lookup_delete(old_leaf, key, k);
                }
                if before.free_list_acyclic() {
                    let fl = choose|fl: Seq<PagePointer>| free_list_is(before.pages@, before.meta.next_free_page, fl);
                    lemma_free_list_frame(before.pages@, before.meta.next_free_page, fl, leaf_ptr as int, Page::Leaf(new_leaf));
                }
                if before.consistent() {
                    BPlusTree::lemma_chain_after_delete(before, *self, key);
                }
            }
            return Ok(());
        }
        proof {
            let w = lemma_slot_exists(old_leaf, key);
            let i = choose|i: int| is_slot(old_leaf, key, i);
            lemma_slot_unique(old_leaf, key, i, w);
            assert(leaf_page@.len() == old_leaf.len() - 1);
            assert(!before.delete_in_place(key));
        }
        let expected = match self.iter() {
            Ok(mut v) => {
                delete_from_pairs(&mut v, key);
                Some(v)
            },
            Err(_) => None,
        };
        let ghost old_chain = chain_pairs(before.pages@, before.meta.data_head, before.pages@.len());
        self.rebalance_leaf(&path, leaf_ptr, leaf_page, key)?;
        if let Some(e) = expected {
            self.validate(&e)?;
            proof {
                if before.consistent() {
                    before.lemma_consistent_iter();
                    assert forall|k: u32| #[trigger] self.lookup_spec(k) == if k == key {
                        None
                    } else {
                        before.lookup_spec(k)
                    } by {
                        before.lemma_consistent_lookup(k);
                        self.lemma_consistent_lookup(k);
                        lemma_lookup_delete(old_chain, key, k);
                    }
                }
            }
        }
        Ok(())
    }

    /// Rebalances the leaf at `leaf_ptr`, the end of `path`, which is about to
    /// hold the underfull `leaf_page`: it borrows a pair from a sibling that
    /// can spare one, or else merges with a sibling, and an underfull parent
    /// is then rebalanced in turn.
    fn rebalance_leaf(&mut self, path: &Vec<PagePointer>, leaf_ptr: PagePointer, leaf_page: LeafPage, key: u32)
        -> (r: Result<(), TreeError>)
        requires
            old(self).wf(),
            leaf_page.wf(),
            path@.len() >= 2,
        ensures
            final(self).wf(),
            final(self).pages@.len() >= old(self).pages@.len(),
            final(self).meta.depth == old(self).meta.depth || (final(self).meta.depth + 1 == old(self).meta.depth && old(self).meta.depth > 1),
    {
        let mut leaf_page = leaf_page;
        let n = path.len();
        let dir_ptr = path[n - 2];
        let mut dir_page = self.get_dir(dir_ptr)?;
        let dir_idx = dir_page.find_pointer_idx(key);
        if dir_idx > 0 {
            let prev_ptr = leaf_page.prev;
            let mut prev_page = self.get_leaf(prev_ptr)?;
            if prev_page.can_allow_stolen_key() {
                let (k, v) = prev_page.steal_high();
                if leaf_page.put(k, v).is_err() {
                    return Err(TreeError::PageFull);
                }
                dir_page.keys.set(dir_idx - 1, k);
                self.put_leaf(leaf_ptr, leaf_page)?;
                self.put_leaf(prev_ptr, prev_page)?;
                self.put_dir(dir_ptr, dir_page)?;
                return Ok(());
            }
            if prev_page.count() + leaf_page.count() > LEAF_RECORD_COUNT || !leaves_ordered(
                &prev_page,
                &leaf_page,
            ) {
                return Err(TreeError::Corrupt);
            }
            prev_page.merge_with(&leaf_page);
            prev_page.next = leaf_page.next;
            self.relink_after(prev_ptr, prev_page.next)?;
            dir_page.delete_idx(dir_idx);
            self.free_page(leaf_ptr)?;
            self.put_leaf(prev_ptr, prev_page)?;
            self.put_dir(dir_ptr, dir_page.duplicate())?;
        } else if dir_idx < dir_page.count() {
            let next_ptr = dir_page.pointers[dir_idx + 1];
            let mut next_page = self.get_leaf(next_ptr)?;
            if next_page.can_allow_stolen_key() {
                let (k, v) = next_page.steal_low();
                if leaf_page.put(k, v).is_err() {
                    return Err(TreeError::PageFull);
                }
                dir_page.keys.set(dir_idx, next_page.get(0).0);
                self.put_leaf(leaf_ptr, leaf_page)?;
                self.put_leaf(next_ptr, next_page)?;
                self.put_dir(dir_ptr, dir_page)?;
                return Ok(());
            }
            if leaf_page.count() + next_page.count() > LEAF_RECORD_COUNT || !leaves_ordered(
                &leaf_page,
                &next_page,
            ) {
                return Err(TreeError::Corrupt);
            }
            leaf_page.merge_with(&next_page);
            leaf_page.next = next_page.next;
            self.relink_after(leaf_ptr, leaf_page.next)?;
            dir_page.delete_idx(dir_idx + 1);
            self.free_page(next_ptr)?;
            self.put_leaf(leaf_ptr, leaf_page)?;
            self.put_dir(dir_ptr, dir_page.duplicate())?;
        } else {
            self.put_leaf(leaf_ptr, leaf_page)?;
            return Ok(());
        }
        if dir_page.is_underfull() {
            let parent_stack = path_prefix(path.as_slice(), n - 1);
            self.merge_dir_page_steps(parent_stack.as_slice(), key)?;
        }
        Ok(())
    }

    /// Rebalances the underfull directory at the end of `ptr_stack`, on the
    /// path of `key`. A root keeps any number of keys, and an empty root
    /// above other directories gives way to its only child. Any other page
    /// borrows from a sibling that can spare a key, or else merges with a
    /// sibling, and its parent is then rebalanced in turn.
    ///
    /// Afterwards the tree checks itself: it must pass the consistency check
    /// and list the same pairs as before, or the call fails with `Corrupt`.
    pub fn merge_dir_page(&mut self, ptr_stack: &[PagePointer], key: u32) -> (r: Result<(), TreeError>)
        requires
            old(self).wf(),
            ptr_stack@.len() >= 1,
        ensures
            ptr_stack@.len() == 1 ==> (r.is_ok() <==> (ptr_stack@[0] < old(self).pages@.len() && old(self).pages@[ptr_stack@[0] as int] is Dir)),
            final(self).pages@.len() >= old(self).pages@.len(),
            final(self).wf(),
            final(self).meta.depth == old(self).meta.depth || (final(self).meta.depth + 1 == old(self).meta.depth && old(self).meta.depth > 1),
            r.is_ok() && ptr_stack@.len() == 1 ==> if old(self).root_collapses(ptr_stack@[0]) {
                &&& final(self).meta == (MetadataPage {
                    root_page: old(self).pages@[ptr_stack@[0] as int]->Dir_0.pointers@[0],
                    depth: (old(self).meta.depth - 1) as u16,
                    next_free_page: ptr_stack@[0],
                    ..old(self).meta
                })
                &&& final(self).pages@ == old(self).pages@.update(
                    ptr_stack@[0] as int,
                    Page::Free(FreePage { next_free_page: old(self).meta.next_free_page }),
                ).update(0, Page::Meta(final(self).meta))
            } else {
                final(self).pages@ == old(self).pages@ && final(self).meta == old(self).meta
            },
            r.is_ok() && ptr_stack@.len() > 1 && chain_ends(old(self).pages@, old(self).meta.data_head, old(self).pages@.len()) && sorted_pairs(
                chain_pairs(old(self).pages@, old(self).meta.data_head, old(self).pages@.len()),
            ) ==> final(self).consistent() && chain_pairs(final(self).pages@, final(self).meta.data_head,
                final(self).pages@.len()) == chain_pairs(old(self).pages@, old(self).meta.data_head, old(self).pages@.len()),
    {
        let expected = self.iter();
        self.merge_dir_page_steps(ptr_stack, key)?;
        if ptr_stack.len() > 1 {
            if let Ok(e) = expected {
                self.validate(&e)?;
            }
        }
        Ok(())
    }

    /// The steps of `merge_dir_page`, without the final check.
    fn merge_dir_page_steps(&mut self, ptr_stack: &[PagePointer], key: u32) -> (r: Result<(), TreeError>)
        requires
            old(self).wf(),
            ptr_stack@.len() >= 1,
        ensures
            ptr_stack@.len() == 1 ==> (r.is_ok() <==> (ptr_stack@[0] < old(self).pages@.len() && old(self).pages@[ptr_stack@[0] as int] is Dir)),
            final(self).pages@.len() >= old(self).pages@.len(),
            final(self).wf(),
            final(self).meta.depth == old(self).meta.depth || (final(self).meta.depth + 1 == old(self).meta.depth && old(self).meta.depth > 1),
            r.is_ok() && ptr_stack@.len() == 1 ==> if old(self).root_collapses(ptr_stack@[0]) {
                &&& final(self).meta == (MetadataPage {
                    root_page: old(self).pages@[ptr_stack@[0] as int]->Dir_0.pointers@[0],
                    depth: (old(self).meta.depth - 1) as u16,
                    next_free_page: ptr_stack@[0],
                    ..old(self).meta
                })
                &&& final(self).pages@ == old(self).pages@.update(
                    ptr_stack@[0] as int,
                    Page::Free(FreePage { next_free_page: old(self).meta.next_free_page }),
                ).update(0, Page::Meta(final(self).meta))
            } else {
                final(self).pages@ == old(self).pages@ && final(self).meta == old(self).meta
            },
        decreases ptr_stack@.len(),
    {
        let n = ptr_stack.len();
        let dir_ptr = ptr_stack[n - 1];
        let mut dir_page = self.get_dir(dir_ptr)?;
        if n <= 1 {
            if dir_page.count() >= 1 || self.meta.depth <= 1 {
                return Ok(());
            }
            self.meta.root_page = dir_page.pointers[0];
            self.meta.depth = self.meta.depth - 1;
            self.put_meta();
            self.free_page(dir_ptr)?;
            return Ok(());
        }
        let parent_ptr = ptr_stack[n - 2];
        let mut parent_page = self.get_dir(parent_ptr)?;
        let dir_idx = parent_page.find_pointer_idx(key);
        if dir_idx > 0 {
            let sibling_ptr = parent_page.pointers[dir_idx - 1];
            let mut sibling_page = self.get_dir(sibling_ptr)?;
            let parent_key = parent_page.keys[dir_idx - 1];
            if sibling_page.can_allow_stolen_key() {
                if dir_page.is_full() {
                    return Err(TreeError::Corrupt);
                }
                let new_parent_key = dir_page.steal_high_from(&mut sibling_page, parent_key);
                parent_page.keys.set(dir_idx - 1, new_parent_key);
                self.put_dir(dir_ptr, dir_page)?;
                self.put_dir(sibling_ptr, sibling_page)?;
                self.put_dir(parent_ptr, parent_page)?;
                return Ok(());
            }
            if sibling_page.count() + dir_page.count() + 1 > DIR_KEY_COUNT {
                return Err(TreeError::Corrupt);
            }
            sibling_page.merge_with(&dir_page, parent_key);
            parent_page.delete_idx(dir_idx);
            self.free_page(dir_ptr)?;
            self.put_dir(sibling_ptr, sibling_page)?;
            self.put_dir(parent_ptr, parent_page.duplicate())?;
        } else {
            if parent_page.count() == 0 {
                return Err(TreeError::Corrupt);
            }
            let sibling_ptr = parent_page.pointers[dir_idx + 1];
            let mut sibling_page = self.get_dir(sibling_ptr)?;
            let parent_key = parent_page.keys[dir_idx];
            if sibling_page.can_allow_stolen_key() {
                if dir_page.is_full() {
                    return Err(TreeError::Corrupt);
                }
                let new_parent_key = dir_page.steal_low_from(&mut sibling_page, parent_key);
                parent_page.keys.set(dir_idx, new_parent_key);
                self.put_dir(dir_ptr, dir_page)?;
                self.put_dir(sibling_ptr, sibling_page)?;
                self.put_dir(parent_ptr, parent_page)?;
                return Ok(());
            }
            if sibling_page.count() + dir_page.count() + 1 > DIR_KEY_COUNT {
                return Err(TreeError::Corrupt);
            }
            dir_page.merge_with(&sibling_page, parent_key);
            parent_page.delete_idx(dir_idx + 1);
            self.free_page(sibling_ptr)?;
            self.put_dir(dir_ptr, dir_page)?;
            self.put_dir(parent_ptr, parent_page.duplicate())?;
        }
        if parent_page.is_underfull() {
            let parent_stack = path_prefix(ptr_stack, n - 1);
            self.merge_dir_page_steps(parent_stack.as_slice(), key)?;
        }
        Ok(())
    }

    /// Checks the subtree at `ptr`, `level` directory levels below the
    /// root, whose keys must lie in `[low, high)` (`high` absent: no upper
    /// bound). `cursor` holds the last leaf visited and the pointer that
    /// leaf gave as its successor; the leaves are visited in key order.
    fn check_node(
        &self,
        ptr: PagePointer,
        level: u16,
        low: u32,
        high: Option<u32>,
        cursor: &mut (PagePointer, PagePointer),
    ) -> (r: Result<Option<String>, TreeError>)
        requires
            self.wf(),
            level <= self.meta.depth,
        ensures
            r.is_ok(),
            (r matches Ok(None)) == node_check(self.pages@, self.meta.depth as nat, ptr, level as nat, low, high, *old(cursor)) is Some,
            r matches Ok(None) ==> node_check(self.pages@, self.meta.depth as nat, ptr, level as nat, low, high, *old(cursor)) == Some(*final(cursor)),
        decreases self.meta.depth - level,
    {
        if ptr == NULL_IDX || ptr >= self.meta.pages_allocated {
            return Ok(Some(String::from_str("invalid page pointer")));
        }
        let n = self.pages.len();
        assert(ptr < n);
        if level < self.meta.depth {
            let d = match &self.pages[ptr as usize] {
                Page::Dir(d) => d,
                _ => {
                    return Ok(Some(String::from_str("page of the wrong kind for its level")));
                },
            };
            assert(self.pages@[ptr as int].wf());
            if level > 0 && d.is_underfull() {
                return Ok(Some(String::from_str("underfull directory page")));
            }
            if level == 0 && d.count() == 0 && self.meta.depth > 1 {
                return Ok(Some(String::from_str("empty root page")));
            }
            if !keys_within(&d.keys, low, high) {
                return Ok(Some(String::from_str("separator key outside its parent's bounds")));
            }
            let ghost depth = self.meta.depth as nat;
            let ghost start = *old(cursor);
            let count = d.count();
            assert(node_check(self.pages@, depth, ptr, level as nat, low, high, start)
                == children_check(self.pages@, depth, *d, 0, level as nat, low, high, start));
            let mut i: usize = 0;
            while i <= count
                invariant
                    self.wf(),
                    level < self.meta.depth,
                    depth == self.meta.depth,
                    d.wf(),
                    count == d.keys@.len(),
                    i <= count + 1,
                    children_check(self.pages@, depth, *d, i as nat, level as nat, low, high, *cursor)
                        == children_check(self.pages@, depth, *d, 0, level as nat, low, high, start),
                    node_check(self.pages@, depth, ptr, level as nat, low, high, start)
                        == children_check(self.pages@, depth, *d, 0, level as nat, low, high, start),
                    start == *old(cursor),
                decreases count + 1 - i,
            {
                let child_low = if i > 0 {
                    d.keys[i - 1]
                } else {
                    low
                };
                let child_high = if i < count {
                    Some(d.keys[i])
                } else {
                    high
                };
                let ghost before = *cursor;
                let found = match self.check_node(d.pointers[i], level + 1, child_low, child_high, cursor) {
                    Ok(f) => f,
                    Err(e) => {
                        proof {
                            assert(children_check(self.pages@, depth, *d, i as nat, level as nat, low, high, before) is None);
                        }
                        return Err(e);
                    },
                };
                if found.is_some() {
                    proof {
                        assert(children_check(self.pages@, depth, *d, i as nat, level as nat, low, high, before) is None);
                    }
                    return Ok(found);
                }
                proof {
                    assert(children_check(self.pages@, depth, *d, i as nat, level as nat, low, high, before)
                        == children_check(self.pages@, depth, *d, (i + 1) as nat, level as nat, low, high, *cursor));
                }
                i = i + 1;
            }
            Ok(None)
        } else {
            let l = match &self.pages[ptr as usize] {
                Page::Leaf(l) => l,
                _ => {
                    return Ok(Some(String::from_str("page of the wrong kind for its level")));
                },
            };
            if l.is_underfull() && self.meta.depth > 1 {
                return Ok(Some(String::from_str("underfull leaf page")));
            }
            let mut i: usize = 0;
            while i < l.key_value.len()
                invariant
                    self.wf(),
                    0 < ptr < self.pages@.len(),
                    level == self.meta.depth,
                    self.pages@[ptr as int] == Page::Leaf(*l),
                    !(l@.len() < LEAF_HALF && self.meta.depth > 1),
                    *cursor == *old(cursor),
                    i <= l@.len(),
                    forall|j: int| 0 <= j < i ==> low <= #[trigger] pair_keys(l@)[j] && (high matches Some(h) ==> pair_keys(l@)[j] < h),
                decreases l@.len() - i,
            {
                let k = l.key_value[i].0;
                assert(pair_keys(l@)[i as int] == k);
                if k < low {
                    proof {
                        assert(!keys_in_range(pair_keys(l@), low, high));
                    }
                    return Ok(Some(String::from_str("leaf key below its parent's bound")));
                }
                if let Some(h) = high {
                    if k >= h {
                        proof {
                            assert(!keys_in_range(pair_keys(l@), low, high));
                        }
                        return Ok(Some(String::from_str("leaf key at or above its parent's bound")));
                    }
                }
                i = i + 1;
            }
            if cursor.1 != ptr {
                return Ok(Some(String::from_str("leaf chain skips a leaf: next pointer mismatch")));
            }
            if cursor.0 != l.prev {
                return Ok(Some(String::from_str("leaf prev pointer mismatch")));
            }
            *cursor = (ptr, l.next);
            Ok(None)
        }
    }

    /// Checks the whole tree and describes the first violation found, or
    /// returns `None` when the tree is consistent: pointers in range, no
    /// underfull page below the root, keys within the bounds set by their
    /// ancestors, and a leaf chain that runs from the head through every
    /// leaf in key order, with matching back links, to the tail.
    pub fn check_tree(&self) -> (r: Result<Option<String>, TreeError>)
        requires
            self.wf(),
        ensures
            r.is_ok(),
            (r matches Ok(None)) == self.consistent(),
    {
        let mut cursor: (PagePointer, PagePointer) = (NULL_IDX, self.meta.data_head);
        let found = self.check_node(self.meta.root_page, 0, 0, None, &mut cursor)?;
        if found.is_some() {
            return Ok(found);
        }
        if cursor.1 != NULL_IDX {
            return Ok(Some(String::from_str("last leaf does not end the chain")));
        }
        if cursor.0 != self.meta.data_tail {
            return Ok(Some(String::from_str("tail pointer does not name the last leaf")));
        }
        Ok(None)
    }
}

/// Checks at run time that a page is well formed.
pub fn page_is_wf(p: &Page) -> (r: bool)
    ensures
        r == p.wf(),
{
    match p {
        Page::Dir(d) => {
            if d.keys.len() > DIR_KEY_COUNT || d.pointers.len() != d.keys.len() + 1 {
                return false;
            }
            keys_ascending(&d.keys)
        },
        Page::Leaf(l) => {
            if l.key_value.len() > LEAF_RECORD_COUNT {
                return false;
            }
            let mut i: usize = 1;
            while i < l.key_value.len()
                invariant
                    1 <= i,
                    *p == Page::Leaf(*l),
                    l@.len() <= LEAF_RECORD_COUNT,
                    forall|a: int, b: int| 0 <= a < b < i && b < l@.len() ==> #[trigger] l@[a].0 < #[trigger] l@[b].0,
                decreases l@.len() - i,
            {
                if l.key_value[i - 1].0 >= l.key_value[i].0 {
                    proof {
                        assert(!(l@[i - 1].0 < l@[i as int].0));
                        assert(!sorted_pairs(l@));
                    }
                    return false;
                }
                proof {
                    assert forall|a: int, b: int| 0 <= a < b < i + 1 && b < l@.len() implies #[trigger] l@[a].0 < #[trigger] l@[b].0 by {
                        if b == i && a < i - 1 {
                            assert(l@[a].0 < l@[i - 1].0);
                        }
                    }
                }
                i = i + 1;
            }
            true
        },
        _ => true,
    }
}

/// Checks at run time that keys strictly ascend.
pub fn keys_ascending(keys: &Vec<u32>) -> (r: bool)
    ensures
        r == sorted_keys(keys@),
{
    let mut i: usize = 1;
    while i < keys.len()
        invariant
            1 <= i,
            forall|a: int, b: int| 0 <= a < b < i && b < keys@.len() ==> #[trigger] keys@[a] < #[trigger] keys@[b],
        decreases keys@.len() - i,
    {
        if keys[i - 1] >= keys[i] {
            return false;
        }
        proof {
            assert forall|a: int, b: int| 0 <= a < b < i + 1 && b < keys@.len() implies #[trigger] keys@[a] < #[trigger] keys@[b] by {
                if b == i && a < i - 1 {
                    assert(keys@[a] < keys@[i - 1]);
                }
            }
        }
        i = i + 1;
    }
    true
}

} // verus!

verus! {

/// Whether the leaf holds `key`.
fn has_key_exec(leaf: &LeafPage, key: u32) -> (r: bool)
    requires
        leaf.wf(),
    ensures
        r == has_key(leaf@, key),
{
    leaf.find_index(key).is_ok()
}

/// Whether every key lies in `[low, high)`.
fn keys_within(keys: &Vec<u32>, low: u32, high: Option<u32>) -> (r: bool)
    ensures
        r == forall|i: int| 0 <= i < keys@.len() ==> low <= #[trigger] keys@[i] && (high matches Some(h) ==> keys@[i] < h),
{
    let mut i: usize = 0;
    while i < keys.len()
        invariant
            i <= keys@.len(),
            forall|j: int| 0 <= j < i ==> low <= #[trigger] keys@[j] && (high matches Some(h) ==> keys@[j] < h),
        decreases keys@.len() - i,
    {
        let k = keys[i];
        if k < low {
            return false;
        }
        if let Some(h) = high {
            if k >= h {
                return false;
            }
        }
        i = i + 1;
    }
    true
}

/// Whether every key of `a` lies below every key of `b`.
fn leaves_ordered(a: &LeafPage, b: &LeafPage) -> (r: bool)
    requires
        a.wf(),
        b.wf(),
    ensures
        r ==> pairs_below(a@, b@),
{
    let na = a.key_value.len();
    if na == 0 || b.key_value.len() == 0 {
        return true;
    }
    if a.key_value[na - 1].0 >= b.key_value[0].0 {
        return false;
    }
    proof {
        assert forall|i: int, j: int| 0 <= i < a@.len() && 0 <= j < b@.len() implies #[trigger] a@[i].0 < #[trigger] b@[j].0 by {
            if i < na - 1 {
                assert(a@[i].0 < a@[na - 1].0);
            }
            if j > 0 {
                assert(b@[0].0 < b@[j].0);
            }
        }
    }
    true
}

/// The first `n` entries of a path.
fn path_prefix(s: &[PagePointer], n: usize) -> (r: Vec<PagePointer>)
    requires
        n <= s@.len(),
    ensures
        r@ == s@.subrange(0, n as int),
{
    let mut r: Vec<PagePointer> = Vec::new();
    let mut i: usize = 0;
    while i < n
        invariant
            i <= n <= s@.len(),
            r@ == s@.subrange(0, i as int),
        decreases n - i,
    {
        r.push(s[i]);
        i = i + 1;
        proof {
            assert(r@ == s@.subrange(0, i as int));
        }
    }
    r
}

/// Enters `(split_key, new_ptr)` after the child `child_ptr` of `dir`,
/// checking that `child_ptr` is the child covering `split_key` and that the
/// key is new to the page.
fn insert_child(dir: &mut DirectoryPage, child_ptr: PagePointer, split_key: u32, new_ptr: PagePointer)
    -> (r: Result<(), TreeError>)
    requires
        old(dir).wf(),
        sorted_keys(old(dir).keys@),
    ensures
        final(dir).wf(),
        sorted_keys(final(dir).keys@),
        r.is_ok() ==> dir_entry_added(*old(dir), *final(dir), child_ptr, split_key, new_ptr),
        old(dir).keys@.len() < DIR_KEY_COUNT && entry_fits(*old(dir), child_ptr, split_key) ==> r.is_ok(),
{
    let idx = dir.find_pointer_idx(split_key);
    proof {
        if entry_fits(*old(dir), child_ptr, split_key) {
            let w = choose|i: int|
                ptr_slot(old(dir).keys@, split_key, i) && old(dir).pointers@[i] == child_ptr && (i == 0
                    || old(dir).keys@[i - 1] != split_key);
            lemma_ptr_slot_unique(old(dir).keys@, split_key, w, idx as int);
        }
    }
    if dir.pointers[idx] != child_ptr {
        return Err(TreeError::Corrupt);
    }
    if idx > 0 && dir.keys[idx - 1] == split_key {
        return Err(TreeError::Corrupt);
    }
    let ghost s = dir.keys@;
    match dir.split_at_ptr(child_ptr, split_key, new_ptr) {
        Ok(()) => {
            proof {
                let w = choose|i: int|
                    ptr_slot(s, split_key, i) && old(dir).pointers@[i] == child_ptr
                        && dir.keys@ == s.insert(i, split_key);
                lemma_ptr_slot_unique(s, split_key, w, idx as int);
                assert forall|a: int, b: int| 0 <= a < b < dir.keys@.len() implies #[trigger] dir.keys@[a] < #[trigger] dir.keys@[b] by {
                    if b < idx {
                        assert(s[a] < s[b]);
                    } else if b == idx {
                        assert(s[a] <= split_key);
                        if a < idx - 1 {
                            assert(s[a] < s[idx - 1]);
                        }
                    } else if a == idx {
                        assert(split_key < s[b - 1]);
                    } else if a < idx {
                        assert(s[a] < s[b - 1]);
                    } else {
                        assert(s[a - 1] < s[b - 1]);
                    }
                }
            }
            Ok(())
        },
        Err(_) => Err(TreeError::PageFull),
    }
}

} // verus!
