//! Spec functions over the page store: equality of pages, the descent a
//! lookup follows, the leaf chain, and the consistency check, with the
//! lemmas that the engine's proofs use.
use vstd::prelude::*;
use vstd::set_lib::{lemma_int_range, lemma_len_subset, set_int_range};
use crate::page::{PagePointer, DIR_KEY_COUNT, DIR_PTR_COUNT, NULL_IDX};
use crate::leaf_page::{LeafPage, LEAF_HALF, has_key, lemma_lookup_at, lookup, sorted_pairs};
use crate::dir_page::{DirectoryPage, DIR_HALF, DIR_MIN, lemma_ptr_slot_exists, ptr_slot, sorted_keys};
use crate::bplus_tree::{BPlusTree, Page};
use crate::free_page::FreePage;
use crate::metadata_page::MetadataPage;

verus! {

/// Two leaves hold the same pairs and links.
pub open spec fn same_leaf(a: LeafPage, b: LeafPage) -> bool {
    a@ == b@ && a.next == b.next && a.prev == b.prev
}

/// Two directories hold the same keys and pointers.
pub open spec fn same_dir(a: DirectoryPage, b: DirectoryPage) -> bool {
    a.keys@ == b.keys@ && a.pointers@ == b.pointers@
}

/// Two pages have the same kind and contents.
pub open spec fn same_page(a: Page, b: Page) -> bool {
    match (a, b) {
        (Page::Meta(x), Page::Meta(y)) => x == y,
        (Page::Dir(x), Page::Dir(y)) => same_dir(x, y),
        (Page::Leaf(x), Page::Leaf(y)) => same_leaf(x, y),
        (Page::Free(x), Page::Free(y)) => x == y,
        _ => false,
    }
}

/// The child of a directory with ascending keys that covers `key`.
pub open spec fn child_for(d: DirectoryPage, key: u32) -> PagePointer {
    d.pointers@[choose|i: int| ptr_slot(d.keys@, key, i)]
}

/// The page reached from `ptr` by following, `levels` times, the child
/// that covers `key`.
pub open spec fn descend(pages: Seq<Page>, ptr: PagePointer, levels: nat, key: u32) -> PagePointer
    decreases levels,
{
    if levels == 0 || ptr >= pages.len() {
        ptr
    } else {
        match pages[ptr as int] {
            Page::Dir(d) => descend(pages, child_for(d, key), (levels - 1) as nat, key),
            _ => ptr,
        }
    }
}

/// The path of `key` from `ptr` down `levels` directory levels: each step
/// is a directory whose covering child is the next entry.
pub open spec fn is_path(pages: Seq<Page>, path: Seq<PagePointer>, key: u32) -> bool {
    &&& path.len() >= 1
    &&& forall|i: int| 0 <= i < path.len() ==> 0 < #[trigger] path[i] < pages.len()
    &&& forall|i: int|
        0 <= i < path.len() - 1 ==> match pages[#[trigger] path[i] as int] {
            Page::Dir(d) => path[i + 1] == child_for(d, key),
            _ => false,
        }
}

/// If the sorted slot of a key exists, `find_pointer_idx` found it.
pub(crate) proof fn lemma_child_for(d: DirectoryPage, key: u32, i: int)
    requires
        sorted_keys(d.keys@),
        ptr_slot(d.keys@, key, i),
    ensures
        child_for(d, key) == d.pointers@[i],
{
    let c = choose|c: int| ptr_slot(d.keys@, key, c);
    if c < i {
        assert(key < d.keys@[c]);
    } else if i < c {
        assert(key < d.keys@[i]);
    }
}

pub(crate) proof fn lemma_descend_path(pages: Seq<Page>, path: Seq<PagePointer>, key: u32)
    requires
        is_path(pages, path, key),
    ensures
        descend(pages, path[0], (path.len() - 1) as nat, key) == path.last(),
    decreases path.len(),
{
    if path.len() > 1 {
        let rest = path.subrange(1, path.len() as int);
        assert forall|i: int| 0 <= i < rest.len() - 1 implies match pages[#[trigger] rest[i] as int] {
            Page::Dir(d) => rest[i + 1] == child_for(d, key),
            _ => false,
        } by {
            assert(rest[i] == path[i + 1]);
        }
        assert(is_path(pages, rest, key));
        lemma_descend_path(pages, rest, key);
        assert(path[0] < pages.len());
        match pages[path[0] as int] {
            Page::Dir(d) => {},
            _ => {},
        }
    }
}

/// The pairs met along the leaf chain from `ptr`, following at most
/// `fuel` leaves.
pub open spec fn chain_pairs(pages: Seq<Page>, ptr: PagePointer, fuel: nat) -> Seq<(u32, u32)>
    decreases fuel,
{
    if fuel == 0 || ptr == NULL_IDX || ptr >= pages.len() {
        Seq::empty()
    } else {
        match pages[ptr as int] {
            Page::Leaf(l) => l@ + chain_pairs(pages, l.next, (fuel - 1) as nat),
            _ => Seq::empty(),
        }
    }
}

/// The chain from `ptr` ends (reaches null) within `fuel` leaves.
pub open spec fn chain_ends(pages: Seq<Page>, ptr: PagePointer, fuel: nat) -> bool
    decreases fuel,
{
    if ptr == NULL_IDX {
        true
    } else if fuel == 0 || ptr >= pages.len() {
        false
    } else {
        match pages[ptr as int] {
            Page::Leaf(l) => chain_ends(pages, l.next, (fuel - 1) as nat),
            _ => false,
        }
    }
}

/// Every key lies in `[low, high)` (`high` absent: no upper bound).
pub open spec fn keys_in_range(keys: Seq<u32>, low: u32, high: Option<u32>) -> bool {
    forall|i: int| 0 <= i < keys.len() ==> low <= #[trigger] keys[i] && (high matches Some(h) ==> keys[i] < h)
}

/// The keys of a sequence of pairs.
pub open spec fn pair_keys(s: Seq<(u32, u32)>) -> Seq<u32> {
    s.map_values(|p: (u32, u32)| p.0)
}

/// The consistency check of the subtree at `ptr`, `level` directory levels
/// below the root of a tree of the given `depth` over `pages`: `None` when
/// the subtree violates a rule, else the leaf-chain cursor (last leaf seen,
/// the successor it names) after its leaves, visited in key order from `cur`.
pub open spec fn node_check(
    pages: Seq<Page>,
    depth: nat,
    ptr: PagePointer,
    level: nat,
    low: u32,
    high: Option<u32>,
    cur: (PagePointer, PagePointer),
) -> Option<(PagePointer, PagePointer)>
    decreases depth - level, DIR_PTR_COUNT + 2,
{
    if ptr == NULL_IDX || ptr >= pages.len() || level > depth {
        None
    } else if level < depth {
        match pages[ptr as int] {
            Page::Dir(d) => {
                if (level > 0 && d.keys@.len() < DIR_MIN) || (level == 0 && d.keys@.len() == 0
                    && depth > 1) || !keys_in_range(d.keys@, low, high) {
                    None
                } else {
                    children_check(pages, depth, d, 0, level, low, high, cur)
                }
            },
            _ => None,
        }
    } else {
        match pages[ptr as int] {
            Page::Leaf(l) => {
                if (l@.len() < LEAF_HALF && depth > 1) || !keys_in_range(pair_keys(l@), low, high)
                    || cur.1 != ptr || cur.0 != l.prev {
                    None
                } else {
                    Some((ptr, l.next))
                }
            },
            _ => None,
        }
    }
}

/// The check of the children of directory `d` from child `i` on, in order,
/// each bounded by the separators around it.
pub open spec fn children_check(
    pages: Seq<Page>,
    depth: nat,
    d: DirectoryPage,
    i: nat,
    level: nat,
    low: u32,
    high: Option<u32>,
    cur: (PagePointer, PagePointer),
) -> Option<(PagePointer, PagePointer)>
    decreases depth - level, DIR_PTR_COUNT + 1 - i,
{
    if level >= depth || d.keys@.len() > DIR_KEY_COUNT || i > d.keys@.len() || d.pointers@.len()
        != d.keys@.len() + 1 {
        if i > d.keys@.len() { Some(cur) } else { None }
    } else {
        let child_low = if i > 0 { d.keys@[i - 1] } else { low };
        let child_high = if i < d.keys@.len() { Some(d.keys@[i as int]) } else { high };
        match node_check(pages, depth, d.pointers@[i as int], level + 1, child_low, child_high, cur) {
            Some(c) => children_check(pages, depth, d, i + 1, level, low, high, c),
            None => None,
        }
    }
}

/// `b` keeps the links of `a`, holds only keys of `a`, and is not underfull
/// in a tree of the given depth unless `a` was (below the root's children,
/// a leaf needs `LEAF_HALF` pairs).
pub open spec fn leaf_shrinks(a: LeafPage, b: LeafPage, depth: nat) -> bool {
    &&& b.next == a.next
    &&& b.prev == a.prev
    &&& forall|i: int| 0 <= i < b@.len() ==> exists|j: int| 0 <= j < a@.len() && #[trigger] b@[i].0 == #[trigger] a@[j].0
    &&& (b@.len() >= a@.len() || b@.len() >= LEAF_HALF || depth <= 1)
}

pub(crate) proof fn lemma_node_check_shrink(
    pages: Seq<Page>,
    p: PagePointer,
    nl: LeafPage,
    depth: nat,
    ptr: PagePointer,
    level: nat,
    low: u32,
    high: Option<u32>,
    cur: (PagePointer, PagePointer),
)
    requires
        p < pages.len(),
        pages[p as int] matches Page::Leaf(ol) && leaf_shrinks(ol, nl, depth),
        node_check(pages, depth, ptr, level, low, high, cur) is Some,
    ensures
        node_check(pages.update(p as int, Page::Leaf(nl)), depth, ptr, level, low, high, cur)
            == node_check(pages, depth, ptr, level, low, high, cur),
    decreases depth - level, DIR_PTR_COUNT + 2,
{
    let q = pages.update(p as int, Page::Leaf(nl));
    if level < depth {
        match pages[ptr as int] {
            Page::Dir(d) => {
                lemma_children_check_shrink(pages, p, nl, depth, d, 0, level, low, high, cur);
            },
            _ => {},
        }
    } else if ptr == p {
        let ol = pages[p as int]->Leaf_0;
        assert forall|i: int| 0 <= i < pair_keys(nl@).len() implies low <= #[trigger] pair_keys(nl@)[i]
            && (high matches Some(h) ==> pair_keys(nl@)[i] < h) by {
            let j = choose|j: int| 0 <= j < ol@.len() && #[trigger] nl@[i].0 == #[trigger] ol@[j].0;
            assert(pair_keys(ol@)[j] == pair_keys(nl@)[i]);
        }
    }
}

pub(crate) proof fn lemma_children_check_shrink(
    pages: Seq<Page>,
    p: PagePointer,
    nl: LeafPage,
    depth: nat,
    d: DirectoryPage,
    i: nat,
    level: nat,
    low: u32,
    high: Option<u32>,
    cur: (PagePointer, PagePointer),
)
    requires
        p < pages.len(),
        pages[p as int] matches Page::Leaf(ol) && leaf_shrinks(ol, nl, depth),
        children_check(pages, depth, d, i, level, low, high, cur) is Some,
    ensures
        children_check(pages.update(p as int, Page::Leaf(nl)), depth, d, i, level, low, high, cur)
            == children_check(pages, depth, d, i, level, low, high, cur),
    decreases depth - level, DIR_PTR_COUNT + 1 - i,
{
    if !(level >= depth || d.keys@.len() > DIR_KEY_COUNT || i > d.keys@.len() || d.pointers@.len()
        != d.keys@.len() + 1) {
        let child_low = if i > 0 { d.keys@[i - 1] } else { low };
        let child_high = if i < d.keys@.len() { Some(d.keys@[i as int]) } else { high };
        lemma_node_check_shrink(pages, p, nl, depth, d.pointers@[i as int], level + 1, child_low, child_high, cur);
        let c = node_check(pages, depth, d.pointers@[i as int], level + 1, child_low, child_high, cur)->Some_0;
        lemma_children_check_shrink(pages, p, nl, depth, d, i + 1, level, low, high, c);
    }
}

/// Rewriting a page that is not a directory with another such page leaves
/// every descent as it was.
pub(crate) proof fn lemma_descend_update(pages: Seq<Page>, p: int, page: Page, ptr: PagePointer, levels: nat, key: u32)
    requires
        0 <= p < pages.len(),
        !(pages[p] is Dir),
        !(page is Dir),
    ensures
        descend(pages.update(p, page), ptr, levels, key) == descend(pages, ptr, levels, key),
    decreases levels,
{
    if levels > 0 && ptr < pages.len() {
        if ptr != p {
            match pages[ptr as int] {
                Page::Dir(d) => {
                    lemma_descend_update(pages, p, page, child_for(d, key), (levels - 1) as nat, key);
                },
                _ => {},
            }
        }
    }
}

/// After a leaf at `p` is rewritten, lookups descend as before, and only
/// the keys that descend to `p` see the new pairs.
pub(crate) proof fn lemma_leaf_rewrite(before: BPlusTree, after: BPlusTree, p: PagePointer, new_leaf: LeafPage, k: u32)
    requires
        p < before.pages@.len(),
        before.pages@[p as int] is Leaf,
        after.pages@ == before.pages@.update(p as int, Page::Leaf(new_leaf)),
        after.meta == before.meta,
    ensures
        after.leaf_of(k) == before.leaf_of(k),
        after.lookup_spec(k) == if before.leaf_of(k) == p {
            lookup(new_leaf@, k)
        } else {
            before.lookup_spec(k)
        },
{
    lemma_descend_update(before.pages@, p as int, Page::Leaf(new_leaf), before.meta.root_page, before.meta.depth as nat, k);
}

/// A leaf visited by the check, with the bounds `[low, high)` it is held to.
pub type Visit = (PagePointer, u32, Option<u32>);

/// The leaves that the check of the subtree at `ptr` visits, in order, each
/// with its bounds (meaningful where `node_check` passes).
pub open spec fn node_visits(
    pages: Seq<Page>,
    depth: nat,
    ptr: PagePointer,
    level: nat,
    low: u32,
    high: Option<u32>,
    cur: (PagePointer, PagePointer),
) -> Seq<Visit>
    decreases depth - level, DIR_PTR_COUNT + 2,
{
    if ptr == NULL_IDX || ptr >= pages.len() || level > depth {
        Seq::empty()
    } else if level < depth {
        match pages[ptr as int] {
            Page::Dir(d) => children_visits(pages, depth, d, 0, level, low, high, cur),
            _ => Seq::empty(),
        }
    } else {
        seq![(ptr, low, high)]
    }
}

/// The leaves visited by the check of the children of `d` from child `i` on.
pub open spec fn children_visits(
    pages: Seq<Page>,
    depth: nat,
    d: DirectoryPage,
    i: nat,
    level: nat,
    low: u32,
    high: Option<u32>,
    cur: (PagePointer, PagePointer),
) -> Seq<Visit>
    decreases depth - level, DIR_PTR_COUNT + 1 - i,
{
    if level >= depth || d.keys@.len() > DIR_KEY_COUNT || i > d.keys@.len() || d.pointers@.len()
        != d.keys@.len() + 1 {
        Seq::empty()
    } else {
        let child_low = if i > 0 { d.keys@[i - 1] } else { low };
        let child_high = if i < d.keys@.len() { Some(d.keys@[i as int]) } else { high };
        match node_check(pages, depth, d.pointers@[i as int], level + 1, child_low, child_high, cur) {
            Some(c) => node_visits(pages, depth, d.pointers@[i as int], level + 1, child_low, child_high, cur)
                + children_visits(pages, depth, d, i + 1, level, low, high, c),
            None => Seq::empty(),
        }
    }
}

/// The visit passes the leaf checks: a leaf whose keys lie in the bounds.
pub open spec fn visit_ok(pages: Seq<Page>, depth: nat, v: Visit) -> bool {
    &&& 0 < v.0 < pages.len()
    &&& pages[v.0 as int] is Leaf
    &&& keys_in_range(pair_keys(pages[v.0 as int]->Leaf_0@), v.1, v.2)
    &&& !(pages[v.0 as int]->Leaf_0@.len() < LEAF_HALF && depth > 1)
}

/// The visits form a walk along the chain from cursor `cur` to `end`: each
/// leaf links back to the one before (the first to `cur.0`) and forward to
/// the one after (the last to `end.1`).
pub open spec fn linked_visits(
    pages: Seq<Page>,
    depth: nat,
    vs: Seq<Visit>,
    cur: (PagePointer, PagePointer),
    end: (PagePointer, PagePointer),
) -> bool {
    &&& vs.len() >= 1
    &&& vs[0].0 == cur.1
    &&& vs.last().0 == end.0
    &&& forall|j: int| 0 <= j < vs.len() ==> visit_ok(pages, depth, #[trigger] vs[j])
    &&& pages[vs[0].0 as int]->Leaf_0.prev == cur.0
    &&& forall|j: int| 0 < j < vs.len() ==> pages[(#[trigger] vs[j]).0 as int]->Leaf_0.prev == vs[j - 1].0
    &&& forall|j: int| 0 <= j < vs.len() - 1 ==> pages[(#[trigger] vs[j]).0 as int]->Leaf_0.next == vs[j + 1].0
    &&& pages[vs.last().0 as int]->Leaf_0.next == end.1
}

proof fn lemma_linked_join(
    pages: Seq<Page>,
    depth: nat,
    a: Seq<Visit>,
    b: Seq<Visit>,
    cur: (PagePointer, PagePointer),
    mid: (PagePointer, PagePointer),
    end: (PagePointer, PagePointer),
)
    requires
        linked_visits(pages, depth, a, cur, mid),
        linked_visits(pages, depth, b, mid, end),
    ensures
        linked_visits(pages, depth, a + b, cur, end),
{
    let ab = a + b;
    assert forall|j: int| 0 <= j < ab.len() implies visit_ok(pages, depth, #[trigger] ab[j]) by {
        if j < a.len() {
            assert(ab[j] == a[j]);
        } else {
            assert(ab[j] == b[j - a.len()]);
        }
    }
    assert forall|j: int| 0 < j < ab.len() implies pages[(#[trigger] ab[j]).0 as int]->Leaf_0.prev == ab[j - 1].0 by {
        if j < a.len() {
            assert(ab[j] == a[j]);
            assert(ab[j - 1] == a[j - 1]);
        } else if j == a.len() {
            assert(ab[j] == b[0]);
            assert(ab[j - 1] == a.last());
        } else {
            assert(ab[j] == b[j - a.len()]);
            assert(ab[j - 1] == b[j - 1 - a.len()]);
        }
    }
    assert forall|j: int| 0 <= j < ab.len() - 1 implies pages[(#[trigger] ab[j]).0 as int]->Leaf_0.next == ab[j + 1].0 by {
        if j < a.len() - 1 {
            assert(ab[j] == a[j]);
            assert(ab[j + 1] == a[j + 1]);
        } else if j == a.len() - 1 {
            assert(ab[j] == a.last());
            assert(ab[j + 1] == b[0]);
        } else {
            assert(ab[j] == b[j - a.len()]);
            assert(ab[j + 1] == b[j + 1 - a.len()]);
        }
    }
    assert(ab.last() == b.last());
}

/// A subtree that passes the check visits its leaves as a linked walk.
pub(crate) proof fn lemma_node_visits(
    pages: Seq<Page>,
    depth: nat,
    ptr: PagePointer,
    level: nat,
    low: u32,
    high: Option<u32>,
    cur: (PagePointer, PagePointer),
)
    requires
        node_check(pages, depth, ptr, level, low, high, cur) is Some,
    ensures
        linked_visits(pages, depth, node_visits(pages, depth, ptr, level, low, high, cur), cur,
            node_check(pages, depth, ptr, level, low, high, cur)->Some_0),
    decreases depth - level, DIR_PTR_COUNT + 2,
{
    if level < depth {
        match pages[ptr as int] {
            Page::Dir(d) => {
                lemma_children_visits(pages, depth, d, 0, level, low, high, cur);
            },
            _ => {},
        }
    } else {
        let vs = node_visits(pages, depth, ptr, level, low, high, cur);
        assert(vs[0] == (ptr, low, high));
    }
}

proof fn lemma_children_visits(
    pages: Seq<Page>,
    depth: nat,
    d: DirectoryPage,
    i: nat,
    level: nat,
    low: u32,
    high: Option<u32>,
    cur: (PagePointer, PagePointer),
)
    requires
        children_check(pages, depth, d, i, level, low, high, cur) is Some,
    ensures
        i > d.keys@.len() ==> children_check(pages, depth, d, i, level, low, high, cur) == Some(cur)
            && children_visits(pages, depth, d, i, level, low, high, cur).len() == 0,
        i <= d.keys@.len() ==> linked_visits(pages, depth, children_visits(pages, depth, d, i, level, low, high, cur),
            cur, children_check(pages, depth, d, i, level, low, high, cur)->Some_0),
    decreases depth - level, DIR_PTR_COUNT + 1 - i,
{
    if !(level >= depth || d.keys@.len() > DIR_KEY_COUNT || i > d.keys@.len() || d.pointers@.len()
        != d.keys@.len() + 1) {
        let child_low = if i > 0 { d.keys@[i - 1] } else { low };
        let child_high = if i < d.keys@.len() { Some(d.keys@[i as int]) } else { high };
        let c = node_check(pages, depth, d.pointers@[i as int], level + 1, child_low, child_high, cur)->Some_0;
        lemma_node_visits(pages, depth, d.pointers@[i as int], level + 1, child_low, child_high, cur);
        lemma_children_visits(pages, depth, d, i + 1, level, low, high, c);
        let a = node_visits(pages, depth, d.pointers@[i as int], level + 1, child_low, child_high, cur);
        let b = children_visits(pages, depth, d, i + 1, level, low, high, c);
        if i + 1 <= d.keys@.len() {
            lemma_linked_join(pages, depth, a, b, cur, c, children_check(pages, depth, d, i + 1, level, low, high, c)->Some_0);
        } else {
            assert(a + b =~= a);
        }
    }
}

/// A walk whose first leaf links back to null never visits a leaf twice:
/// equal leaves would have equal predecessors, back to the first one.
pub(crate) proof fn lemma_visits_distinct(
    pages: Seq<Page>,
    depth: nat,
    vs: Seq<Visit>,
    end: (PagePointer, PagePointer),
)
    requires
        linked_visits(pages, depth, vs, (NULL_IDX, vs[0].0), end),
    ensures
        forall|a: int, b: int| 0 <= a < b < vs.len() ==> #[trigger] vs[a].0 != #[trigger] vs[b].0,
{
    assert forall|a: int, b: int| 0 <= a < b < vs.len() implies #[trigger] vs[a].0 != #[trigger] vs[b].0 by {
        lemma_distinct_at(pages, depth, vs, end, a, b);
    }
}

proof fn lemma_distinct_at(
    pages: Seq<Page>,
    depth: nat,
    vs: Seq<Visit>,
    end: (PagePointer, PagePointer),
    a: int,
    b: int,
)
    requires
        linked_visits(pages, depth, vs, (NULL_IDX, vs[0].0), end),
        0 <= a < b < vs.len(),
    ensures
        vs[a].0 != vs[b].0,
    decreases a,
{
    if a == 0 {
        assert(visit_ok(pages, depth, vs[b - 1]));
        assert(pages[(vs[b]).0 as int]->Leaf_0.prev == vs[b - 1].0);
    } else {
        lemma_distinct_at(pages, depth, vs, end, a - 1, b - 1);
        assert(pages[(vs[a]).0 as int]->Leaf_0.prev == vs[a - 1].0);
        assert(pages[(vs[b]).0 as int]->Leaf_0.prev == vs[b - 1].0);
    }
}

/// In a subtree that passes the check, with bounds that contain `key`, the
/// leaf that `key` descends to is visited, with bounds that contain `key`.
pub(crate) proof fn lemma_descend_visited(
    pages: Seq<Page>,
    depth: nat,
    ptr: PagePointer,
    level: nat,
    low: u32,
    high: Option<u32>,
    cur: (PagePointer, PagePointer),
    key: u32,
)
    requires
        node_check(pages, depth, ptr, level, low, high, cur) is Some,
        forall|i: int| 0 <= i < pages.len() ==> (#[trigger] pages[i]).wf(),
        low <= key,
        high matches Some(h) ==> key < h,
    ensures
        exists|j: int|
            0 <= j < node_visits(pages, depth, ptr, level, low, high, cur).len()
                && #[trigger] node_visits(pages, depth, ptr, level, low, high, cur)[j].0 == descend(pages, ptr, (depth - level) as nat, key)
                && node_visits(pages, depth, ptr, level, low, high, cur)[j].1 <= key
                && (node_visits(pages, depth, ptr, level, low, high, cur)[j].2 matches Some(h) ==> key < h),
    decreases depth - level, DIR_PTR_COUNT + 2,
{
    if level < depth {
        match pages[ptr as int] {
            Page::Dir(d) => {
                assert(pages[ptr as int].wf());
                let i = lemma_ptr_slot_exists(d.keys@, key);
                lemma_child_for(d, key, i);
                assert(descend(pages, ptr, (depth - level) as nat, key) == descend(pages, d.pointers@[i], (depth - level - 1) as nat, key));
                assert(node_visits(pages, depth, ptr, level, low, high, cur) == children_visits(pages, depth, d, 0, level, low, high, cur));
                lemma_children_descend(pages, depth, d, 0, level, low, high, cur, key, i as nat);
            },
            _ => {},
        }
    } else {
        let vs = node_visits(pages, depth, ptr, level, low, high, cur);
        assert(vs[0] == (ptr, low, high));
        assert(vs[0].0 == descend(pages, ptr, (depth - level) as nat, key));
    }
}

proof fn lemma_children_descend(
    pages: Seq<Page>,
    depth: nat,
    d: DirectoryPage,
    m: nat,
    level: nat,
    low: u32,
    high: Option<u32>,
    cur: (PagePointer, PagePointer),
    key: u32,
    i: nat,
)
    requires
        children_check(pages, depth, d, m, level, low, high, cur) is Some,
        forall|x: int| 0 <= x < pages.len() ==> (#[trigger] pages[x]).wf(),
        d.wf(),
        level < depth,
        m <= i <= d.keys@.len(),
        d.keys@.len() <= DIR_KEY_COUNT,
        ptr_slot(d.keys@, key, i as int),
        low <= key,
        high matches Some(h) ==> key < h,
    ensures
        exists|j: int|
            0 <= j < children_visits(pages, depth, d, m, level, low, high, cur).len()
                && #[trigger] children_visits(pages, depth, d, m, level, low, high, cur)[j].0 == descend(pages, d.pointers@[i as int], (depth - level - 1) as nat, key)
                && children_visits(pages, depth, d, m, level, low, high, cur)[j].1 <= key
                && (children_visits(pages, depth, d, m, level, low, high, cur)[j].2 matches Some(h) ==> key < h),
    decreases depth - level, DIR_PTR_COUNT + 1 - m,
{
    let child_low = if m > 0 { d.keys@[m - 1] } else { low };
    let child_high = if m < d.keys@.len() { Some(d.keys@[m as int]) } else { high };
    let child = d.pointers@[m as int];
    let c = node_check(pages, depth, child, level + 1, child_low, child_high, cur)->Some_0;
    let a = node_visits(pages, depth, child, level + 1, child_low, child_high, cur);
    let b = children_visits(pages, depth, d, m + 1, level, low, high, c);
    assert(children_visits(pages, depth, d, m, level, low, high, cur) == a + b);
    if m == i {
        lemma_descend_visited(pages, depth, child, level + 1, child_low, child_high, cur, key);
        let j = choose|j: int|
            0 <= j < a.len() && #[trigger] a[j].0 == descend(pages, child, (depth - (level + 1)) as nat, key)
                && a[j].1 <= key && (a[j].2 matches Some(h) ==> key < h);
        assert((a + b)[j] == a[j]);
    } else {
        lemma_children_descend(pages, depth, d, m + 1, level, low, high, c, key, i);
        let j = choose|j: int|
            0 <= j < b.len() && #[trigger] b[j].0 == descend(pages, d.pointers@[i as int], (depth - level - 1) as nat, key)
                && b[j].1 <= key && (b[j].2 matches Some(h) ==> key < h);
        assert((a + b)[a.len() + j] == b[j]);
    }
}

/// Rewriting leaf `p` with `nl`, which keeps its links and does not become
/// newly underfull, leaves a passing check as it was, provided that every
/// visit of `p` has bounds that hold the keys of `nl`.
pub(crate) proof fn lemma_node_check_rewrite(
    pages: Seq<Page>,
    p: PagePointer,
    nl: LeafPage,
    depth: nat,
    ptr: PagePointer,
    level: nat,
    low: u32,
    high: Option<u32>,
    cur: (PagePointer, PagePointer),
)
    requires
        p < pages.len(),
        pages[p as int] matches Page::Leaf(ol) && nl.next == ol.next && nl.prev == ol.prev && (nl@.len()
            >= ol@.len() || nl@.len() >= LEAF_HALF || depth <= 1),
        node_check(pages, depth, ptr, level, low, high, cur) is Some,
        forall|j: int|
            0 <= j < node_visits(pages, depth, ptr, level, low, high, cur).len()
                && (#[trigger] node_visits(pages, depth, ptr, level, low, high, cur)[j]).0 == p
                ==> keys_in_range(pair_keys(nl@), node_visits(pages, depth, ptr, level, low, high, cur)[j].1,
                node_visits(pages, depth, ptr, level, low, high, cur)[j].2),
    ensures
        node_check(pages.update(p as int, Page::Leaf(nl)), depth, ptr, level, low, high, cur)
            == node_check(pages, depth, ptr, level, low, high, cur),
    decreases depth - level, DIR_PTR_COUNT + 2,
{
    if level < depth {
        match pages[ptr as int] {
            Page::Dir(d) => {
                assert(node_visits(pages, depth, ptr, level, low, high, cur) == children_visits(pages, depth, d, 0, level, low, high, cur));
                lemma_children_check_rewrite(pages, p, nl, depth, d, 0, level, low, high, cur);
            },
            _ => {},
        }
    } else if ptr == p {
        let vs = node_visits(pages, depth, ptr, level, low, high, cur);
        assert(vs[0] == (ptr, low, high));
    }
}

proof fn lemma_children_check_rewrite(
    pages: Seq<Page>,
    p: PagePointer,
    nl: LeafPage,
    depth: nat,
    d: DirectoryPage,
    i: nat,
    level: nat,
    low: u32,
    high: Option<u32>,
    cur: (PagePointer, PagePointer),
)
    requires
        p < pages.len(),
        pages[p as int] matches Page::Leaf(ol) && nl.next == ol.next && nl.prev == ol.prev && (nl@.len()
            >= ol@.len() || nl@.len() >= LEAF_HALF || depth <= 1),
        children_check(pages, depth, d, i, level, low, high, cur) is Some,
        forall|j: int|
            0 <= j < children_visits(pages, depth, d, i, level, low, high, cur).len()
                && (#[trigger] children_visits(pages, depth, d, i, level, low, high, cur)[j]).0 == p
                ==> keys_in_range(pair_keys(nl@), children_visits(pages, depth, d, i, level, low, high, cur)[j].1,
                children_visits(pages, depth, d, i, level, low, high, cur)[j].2),
    ensures
        children_check(pages.update(p as int, Page::Leaf(nl)), depth, d, i, level, low, high, cur)
            == children_check(pages, depth, d, i, level, low, high, cur),
    decreases depth - level, DIR_PTR_COUNT + 1 - i,
{
    if !(level >= depth || d.keys@.len() > DIR_KEY_COUNT || i > d.keys@.len() || d.pointers@.len()
        != d.keys@.len() + 1) {
        let child_low = if i > 0 { d.keys@[i - 1] } else { low };
        let child_high = if i < d.keys@.len() { Some(d.keys@[i as int]) } else { high };
        let child = d.pointers@[i as int];
        let c = node_check(pages, depth, child, level + 1, child_low, child_high, cur)->Some_0;
        let a = node_visits(pages, depth, child, level + 1, child_low, child_high, cur);
        let b = children_visits(pages, depth, d, i + 1, level, low, high, c);
        assert(children_visits(pages, depth, d, i, level, low, high, cur) == a + b);
        assert forall|j: int| 0 <= j < a.len() && (#[trigger] a[j]).0 == p implies keys_in_range(pair_keys(nl@), a[j].1, a[j].2) by {
            assert((a + b)[j] == a[j]);
        }
        assert forall|j: int| 0 <= j < b.len() && (#[trigger] b[j]).0 == p implies keys_in_range(pair_keys(nl@), b[j].1, b[j].2) by {
            assert((a + b)[a.len() + j] == b[j]);
        }
        lemma_node_check_rewrite(pages, p, nl, depth, child, level + 1, child_low, child_high, cur);
        lemma_children_check_rewrite(pages, p, nl, depth, d, i + 1, level, low, high, c);
    }
}

/// Writing `key` into the leaf that `key` descends to, in a tree that passes
/// the check, leaves the check passing as it was: the new leaf keeps its
/// links and size or more, and holds only its old keys and `key`.
pub(crate) proof fn lemma_grow_keeps_check(
    pages: Seq<Page>,
    depth: nat,
    root: PagePointer,
    head: PagePointer,
    p: PagePointer,
    nl: LeafPage,
    key: u32,
)
    requires
        forall|i: int| 0 <= i < pages.len() ==> (#[trigger] pages[i]).wf(),
        node_check(pages, depth, root, 0, 0, None, (NULL_IDX, head)) is Some,
        descend(pages, root, depth, key) == p,
        p < pages.len(),
        pages[p as int] matches Page::Leaf(ol) && nl.next == ol.next && nl.prev == ol.prev && nl@.len() >= ol@.len()
            && forall|a: int| 0 <= a < nl@.len() && #[trigger] nl@[a].0 != key ==> exists|b: int|
                0 <= b < ol@.len() && nl@[a].0 == #[trigger] ol@[b].0,
    ensures
        node_check(pages.update(p as int, Page::Leaf(nl)), depth, root, 0, 0, None, (NULL_IDX, head))
            == node_check(pages, depth, root, 0, 0, None, (NULL_IDX, head)),
{
    let cur0 = (NULL_IDX, head);
    let vs = node_visits(pages, depth, root, 0, 0, None, cur0);
    let end = node_check(pages, depth, root, 0, 0, None, cur0)->Some_0;
    let ol = pages[p as int]->Leaf_0;
    lemma_node_visits(pages, depth, root, 0, 0, None, cur0);
    lemma_visits_distinct(pages, depth, vs, end);
    lemma_descend_visited(pages, depth, root, 0, 0, None, cur0, key);
    let j0 = choose|j: int|
        0 <= j < vs.len() && #[trigger] vs[j].0 == descend(pages, root, (depth - 0) as nat, key) && vs[j].1 <= key
            && (vs[j].2 matches Some(h) ==> key < h);
    assert(visit_ok(pages, depth, vs[j0]));
    assert forall|j: int| 0 <= j < vs.len() && (#[trigger] vs[j]).0 == p implies keys_in_range(
        pair_keys(nl@),
        vs[j].1,
        vs[j].2,
    ) by {
        if j < j0 {
            assert(vs[j].0 != vs[j0].0);
        } else if j0 < j {
            assert(vs[j0].0 != vs[j].0);
        }
        lemma_keys_in_visit(pages, depth, vs[j0], nl, key);
    }
    lemma_node_check_rewrite(pages, p, nl, depth, root, 0, 0, None, cur0);
}

/// A leaf holding only the keys of a passing visit's leaf and a key within
/// the visit's bounds holds keys within those bounds.
proof fn lemma_keys_in_visit(pages: Seq<Page>, depth: nat, v: Visit, nl: LeafPage, key: u32)
    requires
        visit_ok(pages, depth, v),
        v.1 <= key,
        v.2 matches Some(h) ==> key < h,
        forall|a: int| 0 <= a < nl@.len() && #[trigger] nl@[a].0 != key ==> exists|b: int|
            0 <= b < pages[v.0 as int]->Leaf_0@.len() && nl@[a].0 == #[trigger] pages[v.0 as int]->Leaf_0@[b].0,
    ensures
        keys_in_range(pair_keys(nl@), v.1, v.2),
{
    let ol = pages[v.0 as int]->Leaf_0;
    assert forall|a: int| 0 <= a < pair_keys(nl@).len() implies v.1 <= #[trigger] pair_keys(nl@)[a] && (v.2 matches Some(
        h,
    ) ==> pair_keys(nl@)[a] < h) by {
        if nl@[a].0 != key {
            let b = choose|b: int| 0 <= b < ol@.len() && nl@[a].0 == #[trigger] ol@[b].0;
            assert(pair_keys(ol@)[b] == ol@[b].0);
        }
    }
}

/// `x` lies at or below the bound `h` (no bound: always).
pub open spec fn at_most(x: u32, h: Option<u32>) -> bool {
    h matches Some(b) ==> x <= b
}

/// Bound `a` is at most bound `b`, an absent bound being the greatest.
pub open spec fn bound_le(a: Option<u32>, b: Option<u32>) -> bool {
    match (a, b) {
        (_, None) => true,
        (Some(x), Some(y)) => x <= y,
        (None, Some(_)) => false,
    }
}

/// Bound `h` is present and at most `lo`.
pub open spec fn ends_by(h: Option<u32>, lo: u32) -> bool {
    match h {
        Some(b) => b <= lo,
        None => false,
    }
}

/// The visits' bounds lie within `[low, high)`, none is inverted, and each
/// ends where the next one starts or before.
pub open spec fn bounds_ascend(vs: Seq<Visit>, low: u32, high: Option<u32>) -> bool {
    &&& forall|j: int| 0 <= j < vs.len() ==> low <= (#[trigger] vs[j]).1 && bound_le(vs[j].2, high) && at_most(vs[j].1, vs[j].2)
    &&& forall|j: int| 0 <= j < vs.len() - 1 ==> ends_by((#[trigger] vs[j]).2, vs[j + 1].1)
}

proof fn lemma_bounds_join(a: Seq<Visit>, b: Seq<Visit>, low: u32, mid: u32, high: Option<u32>)
    requires
        a.len() >= 1,
        bounds_ascend(a, low, Some(mid)),
        bounds_ascend(b, mid, high),
        low <= mid,
        at_most(mid, high),
    ensures
        bounds_ascend(a + b, low, high),
{
    let ab = a + b;
    assert forall|j: int| 0 <= j < ab.len() implies low <= (#[trigger] ab[j]).1 && bound_le(ab[j].2, high) && at_most(ab[j].1, ab[j].2) by {
        if j < a.len() {
            assert(ab[j] == a[j]);
        } else {
            assert(ab[j] == b[j - a.len()]);
        }
    }
    assert forall|j: int| 0 <= j < ab.len() - 1 implies ends_by((#[trigger] ab[j]).2, ab[j + 1].1) by {
        if j < a.len() - 1 {
            assert(ab[j] == a[j]);
            assert(ab[j + 1] == a[j + 1]);
        } else if j == a.len() - 1 {
            assert(ab[j] == a[j]);
            assert(ab[j + 1] == b[0]);
        } else {
            assert(ab[j] == b[j - a.len()]);
            assert(ab[j + 1] == b[j + 1 - a.len()]);
        }
    }
}

/// In a subtree that passes the check, entered with bounds that are not
/// inverted, the visits' bounds ascend within the subtree's bounds.
pub(crate) proof fn lemma_node_bounds(
    pages: Seq<Page>,
    depth: nat,
    ptr: PagePointer,
    level: nat,
    low: u32,
    high: Option<u32>,
    cur: (PagePointer, PagePointer),
)
    requires
        node_check(pages, depth, ptr, level, low, high, cur) is Some,
        forall|i: int| 0 <= i < pages.len() ==> (#[trigger] pages[i]).wf(),
        at_most(low, high),
    ensures
        bounds_ascend(node_visits(pages, depth, ptr, level, low, high, cur), low, high),
    decreases depth - level, DIR_PTR_COUNT + 2,
{
    if level < depth {
        match pages[ptr as int] {
            Page::Dir(d) => {
                assert(pages[ptr as int].wf());
                lemma_children_bounds(pages, depth, d, 0, level, low, high, cur);
            },
            _ => {},
        }
    } else {
        let vs = node_visits(pages, depth, ptr, level, low, high, cur);
        assert(vs[0] == (ptr, low, high));
    }
}

proof fn lemma_children_bounds(
    pages: Seq<Page>,
    depth: nat,
    d: DirectoryPage,
    i: nat,
    level: nat,
    low: u32,
    high: Option<u32>,
    cur: (PagePointer, PagePointer),
)
    requires
        children_check(pages, depth, d, i, level, low, high, cur) is Some,
        forall|x: int| 0 <= x < pages.len() ==> (#[trigger] pages[x]).wf(),
        d.wf(),
        sorted_keys(d.keys@),
        keys_in_range(d.keys@, low, high),
        at_most(low, high),
    ensures
        bounds_ascend(children_visits(pages, depth, d, i, level, low, high, cur),
            if 0 < i <= d.keys@.len() { d.keys@[i - 1] } else { low }, high),
    decreases depth - level, DIR_PTR_COUNT + 1 - i,
{
    if !(level >= depth || d.keys@.len() > DIR_KEY_COUNT || i > d.keys@.len() || d.pointers@.len()
        != d.keys@.len() + 1) {
        let n = d.keys@.len();
        let child_low = if i > 0 { d.keys@[i - 1] } else { low };
        let child_high = if i < n { Some(d.keys@[i as int]) } else { high };
        let child = d.pointers@[i as int];
        let c = node_check(pages, depth, child, level + 1, child_low, child_high, cur)->Some_0;
        let a = node_visits(pages, depth, child, level + 1, child_low, child_high, cur);
        let b = children_visits(pages, depth, d, i + 1, level, low, high, c);
        assert(children_visits(pages, depth, d, i, level, low, high, cur) == a + b);
        if i > 0 && i < n {
            assert(d.keys@[i - 1] < d.keys@[i as int]);
        }
        if i > 0 {
            assert(low <= d.keys@[i - 1]);
        }
        lemma_node_bounds(pages, depth, child, level + 1, child_low, child_high, cur);
        lemma_children_bounds(pages, depth, d, i + 1, level, low, high, c);
        lemma_node_visits(pages, depth, child, level + 1, child_low, child_high, cur);
        if i < n {
            lemma_bounds_join(a, b, child_low, d.keys@[i as int], high);
        } else {
            assert(a + b =~= a);
        }
    }
}

/// The pairs of the visited leaves, in visit order.
pub open spec fn visit_pairs(pages: Seq<Page>, vs: Seq<Visit>) -> Seq<(u32, u32)>
    decreases vs.len(),
{
    if vs.len() == 0 {
        Seq::empty()
    } else {
        pages[vs[0].0 as int]->Leaf_0@ + visit_pairs(pages, vs.drop_first())
    }
}

pub(crate) proof fn lemma_bounds_trans(vs: Seq<Visit>, low: u32, high: Option<u32>, j: int, k: int)
    requires
        bounds_ascend(vs, low, high),
        0 <= j < k < vs.len(),
    ensures
        ends_by(vs[j].2, vs[k].1),
    decreases k - j,
{
    if k > j + 1 {
        lemma_bounds_trans(vs, low, high, j, k - 1);
        assert(at_most(vs[k - 1].1, vs[k - 1].2));
        assert(ends_by(vs[k - 1].2, vs[k].1));
    }
}

/// Visits that pass, with ascending bounds, hold their pairs in ascending
/// key order, within the outer bounds.
pub(crate) proof fn lemma_visit_pairs_sorted(pages: Seq<Page>, depth: nat, vs: Seq<Visit>, low: u32, high: Option<u32>)
    requires
        bounds_ascend(vs, low, high),
        forall|j: int| 0 <= j < vs.len() ==> visit_ok(pages, depth, #[trigger] vs[j]),
        forall|i: int| 0 <= i < pages.len() ==> (#[trigger] pages[i]).wf(),
    ensures
        sorted_pairs(visit_pairs(pages, vs)),
        forall|x: int| 0 <= x < visit_pairs(pages, vs).len() ==> low <= (#[trigger] visit_pairs(pages, vs)[x]).0
            && (high matches Some(h) ==> visit_pairs(pages, vs)[x].0 < h),
    decreases vs.len(),
{
    if vs.len() > 0 {
        let rest = vs.drop_first();
        let l0 = pages[vs[0].0 as int]->Leaf_0;
        assert(visit_ok(pages, depth, vs[0]));
        assert(pages[vs[0].0 as int].wf());
        let mid = if rest.len() > 0 {
            match vs[0].2 {
                Some(b) => b,
                None => low,
            }
        } else {
            low
        };
        if rest.len() > 0 {
            assert(ends_by(vs[0].2, vs[1].1));
            assert forall|j: int| 0 <= j < rest.len() implies mid <= (#[trigger] rest[j]).1 && bound_le(rest[j].2, high) && at_most(rest[j].1, rest[j].2) by {
                assert(rest[j] == vs[j + 1]);
                lemma_bounds_trans(vs, low, high, 0, j + 1);
            }
            assert forall|j: int| 0 <= j < rest.len() - 1 implies ends_by((#[trigger] rest[j]).2, rest[j + 1].1) by {
                assert(rest[j] == vs[j + 1]);
                assert(rest[j + 1] == vs[j + 2]);
            }
        }
        assert forall|j: int| 0 <= j < rest.len() implies visit_ok(pages, depth, #[trigger] rest[j]) by {
            assert(rest[j] == vs[j + 1]);
        }
        lemma_visit_pairs_sorted(pages, depth, rest, mid, high);
        let tail = visit_pairs(pages, rest);
        let all = visit_pairs(pages, vs);
        assert(all == l0@ + tail);
        assert forall|x: int| 0 <= x < l0@.len() implies vs[0].1 <= (#[trigger] l0@[x]).0 && (vs[0].2 matches Some(h) ==> l0@[x].0 < h) by {
            assert(pair_keys(l0@)[x] == l0@[x].0);
        }
        assert forall|a: int, b: int| 0 <= a < b < all.len() implies #[trigger] all[a].0 < #[trigger] all[b].0 by {
            if b < l0@.len() {
                assert(l0@[a].0 < l0@[b].0);
            } else if a < l0@.len() {
                assert(all[a] == l0@[a]);
                assert(all[b] == tail[b - l0@.len()]);
            } else {
                assert(all[a] == tail[a - l0@.len()]);
                assert(all[b] == tail[b - l0@.len()]);
            }
        }
        assert forall|x: int| 0 <= x < all.len() implies low <= (#[trigger] all[x]).0 && (high matches Some(h) ==> all[x].0 < h) by {
            if x < l0@.len() {
                assert(all[x] == l0@[x]);
            } else {
                assert(all[x] == tail[x - l0@.len()]);
            }
        }
    }
}

/// Visits linked leaf to leaf, the last to null, are what the chain from the
/// first leaf yields, and the chain ends, given fuel for every visit.
pub(crate) proof fn lemma_chain_follows_visits(pages: Seq<Page>, depth: nat, vs: Seq<Visit>, fuel: nat)
    requires
        vs.len() >= 1,
        forall|j: int| 0 <= j < vs.len() ==> visit_ok(pages, depth, #[trigger] vs[j]),
        forall|j: int| 0 <= j < vs.len() - 1 ==> pages[(#[trigger] vs[j]).0 as int]->Leaf_0.next == vs[j + 1].0,
        pages[vs.last().0 as int]->Leaf_0.next == NULL_IDX,
        fuel >= vs.len(),
    ensures
        chain_pairs(pages, vs[0].0, fuel) == visit_pairs(pages, vs),
        chain_ends(pages, vs[0].0, fuel),
    decreases vs.len(),
{
    assert(visit_ok(pages, depth, vs[0]));
    let rest = vs.drop_first();
    if rest.len() == 0 {
        assert(vs.last() == vs[0]);
        assert(chain_ends(pages, NULL_IDX, (fuel - 1) as nat));
        assert(visit_pairs(pages, rest) == Seq::<(u32, u32)>::empty());
        assert(chain_pairs(pages, NULL_IDX, (fuel - 1) as nat) == Seq::<(u32, u32)>::empty());
        assert(chain_pairs(pages, vs[0].0, fuel) =~= visit_pairs(pages, vs));
    } else {
        assert forall|j: int| 0 <= j < rest.len() implies visit_ok(pages, depth, #[trigger] rest[j]) by {
            assert(rest[j] == vs[j + 1]);
        }
        assert forall|j: int| 0 <= j < rest.len() - 1 implies pages[(#[trigger] rest[j]).0 as int]->Leaf_0.next == rest[j + 1].0 by {
            assert(rest[j] == vs[j + 1]);
            assert(rest[j + 1] == vs[j + 2]);
        }
        assert(pages[vs[0].0 as int]->Leaf_0.next == vs[1].0);
        lemma_chain_follows_visits(pages, depth, rest, (fuel - 1) as nat);
    }
}

/// Distinct visits of pages in the store are no more than its pages.
pub(crate) proof fn lemma_visits_fit(pages: Seq<Page>, depth: nat, vs: Seq<Visit>)
    requires
        forall|j: int| 0 <= j < vs.len() ==> visit_ok(pages, depth, #[trigger] vs[j]),
        forall|a: int, b: int| 0 <= a < b < vs.len() ==> #[trigger] vs[a].0 != #[trigger] vs[b].0,
    ensures
        vs.len() <= pages.len(),
{
    let ptrs = vs.map_values(|v: Visit| v.0 as int);
    assert forall|a: int, b: int| 0 <= a < ptrs.len() && 0 <= b < ptrs.len() && a != b implies ptrs[a] != ptrs[b] by {
        if a < b {
            assert(vs[a].0 != vs[b].0);
        } else {
            assert(vs[b].0 != vs[a].0);
        }
    }
    assert(ptrs.no_duplicates());
    ptrs.unique_seq_to_set();
    lemma_int_range(0, pages.len() as int);
    assert forall|x: int| ptrs.to_set().contains(x) implies set_int_range(0, pages.len() as int).contains(x) by {
        let j = choose|j: int| 0 <= j < ptrs.len() && ptrs[j] == x;
        assert(visit_ok(pages, depth, vs[j]));
    }
    lemma_len_subset(ptrs.to_set(), set_int_range(0, pages.len() as int));
}

/// Every pair of a visited leaf occurs among the visited pairs.
proof fn lemma_visit_pairs_has(pages: Seq<Page>, vs: Seq<Visit>, j: int, x: int)
    requires
        0 <= j < vs.len(),
        0 <= x < pages[vs[j].0 as int]->Leaf_0@.len(),
    ensures
        exists|idx: int| 0 <= idx < visit_pairs(pages, vs).len() && #[trigger] visit_pairs(pages, vs)[idx] == pages[vs[j].0 as int]->Leaf_0@[x],
    decreases vs.len(),
{
    let l0 = pages[vs[0].0 as int]->Leaf_0@;
    let rest = vs.drop_first();
    let all = visit_pairs(pages, vs);
    assert(all == l0 + visit_pairs(pages, rest));
    if j == 0 {
        assert(all[x] == l0[x]);
    } else {
        assert(rest[j - 1] == vs[j]);
        lemma_visit_pairs_has(pages, rest, j - 1, x);
        let i = choose|i: int| 0 <= i < visit_pairs(pages, rest).len() && #[trigger] visit_pairs(pages, rest)[i] == pages[rest[j - 1].0 as int]->Leaf_0@[x];
        assert(all[l0.len() + i] == visit_pairs(pages, rest)[i]);
    }
}

/// Every visited pair comes from a visited leaf.
proof fn lemma_visit_pairs_from(pages: Seq<Page>, vs: Seq<Visit>, idx: int)
    requires
        0 <= idx < visit_pairs(pages, vs).len(),
    ensures
        exists|j: int, x: int|
            0 <= j < vs.len() && 0 <= x < pages[vs[j].0 as int]->Leaf_0@.len() && visit_pairs(pages, vs)[idx]
                == #[trigger] pages[(#[trigger] vs[j]).0 as int]->Leaf_0@[x],
    decreases vs.len(),
{
    let l0 = pages[vs[0].0 as int]->Leaf_0@;
    let rest = vs.drop_first();
    let all = visit_pairs(pages, vs);
    assert(all == l0 + visit_pairs(pages, rest));
    if idx < l0.len() {
        assert(all[idx] == l0[idx]);
        assert(pages[vs[0].0 as int]->Leaf_0@[idx] == all[idx]);
    } else {
        assert(all[idx] == visit_pairs(pages, rest)[idx - l0.len()]);
        lemma_visit_pairs_from(pages, rest, idx - l0.len());
        let (j, x) = choose|j: int, x: int|
            0 <= j < rest.len() && 0 <= x < pages[rest[j].0 as int]->Leaf_0@.len() && visit_pairs(pages, rest)[idx - l0.len()]
                == #[trigger] pages[(#[trigger] rest[j]).0 as int]->Leaf_0@[x];
        assert(rest[j] == vs[j + 1]);
        assert(pages[vs[j + 1].0 as int]->Leaf_0@[x] == all[idx]);
    }
}

/// With visits that pass and ascending bounds, the value under `key` among
/// the visited pairs is the one in the visited leaf whose bounds hold `key`.
pub(crate) proof fn lemma_visit_lookup(pages: Seq<Page>, depth: nat, vs: Seq<Visit>, low: u32, high: Option<u32>, j0: int, key: u32)
    requires
        bounds_ascend(vs, low, high),
        forall|j: int| 0 <= j < vs.len() ==> visit_ok(pages, depth, #[trigger] vs[j]),
        forall|i: int| 0 <= i < pages.len() ==> (#[trigger] pages[i]).wf(),
        0 <= j0 < vs.len(),
        vs[j0].1 <= key,
        vs[j0].2 matches Some(h) ==> key < h,
    ensures
        lookup(visit_pairs(pages, vs), key) == lookup(pages[vs[j0].0 as int]->Leaf_0@, key),
{
    let all = visit_pairs(pages, vs);
    let l = pages[vs[j0].0 as int]->Leaf_0@;
    lemma_visit_pairs_sorted(pages, depth, vs, low, high);
    assert(visit_ok(pages, depth, vs[j0]));
    assert(pages[vs[j0].0 as int].wf());
    if has_key(l, key) {
        let x = choose|x: int| 0 <= x < l.len() && #[trigger] l[x].0 == key;
        lemma_visit_pairs_has(pages, vs, j0, x);
        let idx = choose|idx: int| 0 <= idx < all.len() && #[trigger] all[idx] == l[x];
        lemma_lookup_at(all, idx);
        lemma_lookup_at(l, x);
    } else {
        assert(!has_key(all, key)) by {
            if has_key(all, key) {
                let idx = choose|idx: int| 0 <= idx < all.len() && #[trigger] all[idx].0 == key;
                lemma_visit_pairs_from(pages, vs, idx);
                let (j, x) = choose|j: int, x: int|
                    0 <= j < vs.len() && 0 <= x < pages[vs[j].0 as int]->Leaf_0@.len() && all[idx]
                        == #[trigger] pages[(#[trigger] vs[j]).0 as int]->Leaf_0@[x];
                let lj = pages[vs[j].0 as int]->Leaf_0@;
                assert(visit_ok(pages, depth, vs[j]));
                assert(pair_keys(lj)[x] == lj[x].0);
                if j < j0 {
                    lemma_bounds_trans(vs, low, high, j, j0);
                } else if j0 < j {
                    lemma_bounds_trans(vs, low, high, j0, j);
                }
            }
        }
    }
}

/// `ptr` names a directory whose child for `key` is a page of the store
/// other than the header.
pub open spec fn dir_child_ok(pages: Seq<Page>, ptr: PagePointer, key: u32) -> bool {
    if ptr >= pages.len() {
        false
    } else {
        match pages[ptr as int] {
            Page::Dir(d) => child_for(d, key) != NULL_IDX && child_for(d, key) < pages.len(),
            _ => false,
        }
    }
}

/// The descent for `key` from `ptr` runs through `levels` directories, each
/// in the store and not the header, to a leaf.
pub open spec fn descent_ok(pages: Seq<Page>, ptr: PagePointer, levels: nat, key: u32) -> bool
    decreases levels,
{
    if ptr == NULL_IDX || ptr >= pages.len() {
        false
    } else if levels == 0 {
        pages[ptr as int] is Leaf
    } else {
        match pages[ptr as int] {
            Page::Dir(d) => descent_ok(pages, child_for(d, key), (levels - 1) as nat, key),
            _ => false,
        }
    }
}

/// A subtree that passes the check has a sound descent for every key.
pub(crate) proof fn lemma_check_descent(
    pages: Seq<Page>,
    depth: nat,
    ptr: PagePointer,
    level: nat,
    low: u32,
    high: Option<u32>,
    cur: (PagePointer, PagePointer),
    key: u32,
)
    requires
        node_check(pages, depth, ptr, level, low, high, cur) is Some,
        forall|i: int| 0 <= i < pages.len() ==> (#[trigger] pages[i]).wf(),
    ensures
        descent_ok(pages, ptr, (depth - level) as nat, key),
    decreases depth - level, DIR_PTR_COUNT + 2,
{
    if level < depth {
        match pages[ptr as int] {
            Page::Dir(d) => {
                assert(pages[ptr as int].wf());
                let i = lemma_ptr_slot_exists(d.keys@, key);
                lemma_child_for(d, key, i);
                lemma_children_descent(pages, depth, d, 0, level, low, high, cur, key, i as nat);
            },
            _ => {},
        }
    }
}

proof fn lemma_children_descent(
    pages: Seq<Page>,
    depth: nat,
    d: DirectoryPage,
    m: nat,
    level: nat,
    low: u32,
    high: Option<u32>,
    cur: (PagePointer, PagePointer),
    key: u32,
    i: nat,
)
    requires
        children_check(pages, depth, d, m, level, low, high, cur) is Some,
        forall|x: int| 0 <= x < pages.len() ==> (#[trigger] pages[x]).wf(),
        d.wf(),
        level < depth,
        m <= i <= d.keys@.len(),
    ensures
        descent_ok(pages, d.pointers@[i as int], (depth - level - 1) as nat, key),
    decreases depth - level, DIR_PTR_COUNT + 1 - m,
{
    let child_low = if m > 0 { d.keys@[m - 1] } else { low };
    let child_high = if m < d.keys@.len() { Some(d.keys@[m as int]) } else { high };
    let child = d.pointers@[m as int];
    let c = node_check(pages, depth, child, level + 1, child_low, child_high, cur)->Some_0;
    if m == i {
        lemma_check_descent(pages, depth, child, level + 1, child_low, child_high, cur, key);
    } else {
        lemma_children_descent(pages, depth, d, m + 1, level, low, high, c, key, i);
    }
}

/// The two stores hold the same pages, page for page.
pub open spec fn same_store(p: Seq<Page>, q: Seq<Page>) -> bool {
    &&& p.len() == q.len()
    &&& forall|i: int| 0 <= i < p.len() ==> same_page(#[trigger] p[i], q[i])
}

/// Stores with the same pages descend alike.
pub proof fn lemma_descend_same(p: Seq<Page>, q: Seq<Page>, ptr: PagePointer, levels: nat, key: u32)
    requires
        same_store(p, q),
    ensures
        descend(p, ptr, levels, key) == descend(q, ptr, levels, key),
    decreases levels,
{
    if levels > 0 && ptr < p.len() {
        assert(same_page(p[ptr as int], q[ptr as int]));
        match (p[ptr as int], q[ptr as int]) {
            (Page::Dir(d), Page::Dir(e)) => {
                assert(child_for(d, key) == child_for(e, key));
                lemma_descend_same(p, q, child_for(d, key), (levels - 1) as nat, key);
            },
            _ => {},
        }
    }
}

/// Stores with the same pages pass or fail the check alike.
pub proof fn lemma_check_same(
    p: Seq<Page>,
    q: Seq<Page>,
    depth: nat,
    ptr: PagePointer,
    level: nat,
    low: u32,
    high: Option<u32>,
    cur: (PagePointer, PagePointer),
)
    requires
        same_store(p, q),
    ensures
        node_check(p, depth, ptr, level, low, high, cur) == node_check(q, depth, ptr, level, low, high, cur),
    decreases depth - level, DIR_PTR_COUNT + 2,
{
    if ptr != NULL_IDX && ptr < p.len() && level <= depth {
        assert(same_page(p[ptr as int], q[ptr as int]));
        if level < depth {
            match (p[ptr as int], q[ptr as int]) {
                (Page::Dir(d), Page::Dir(e)) => {
                    lemma_children_same(p, q, depth, d, e, 0, level, low, high, cur);
                },
                _ => {},
            }
        } else {
            match (p[ptr as int], q[ptr as int]) {
                (Page::Leaf(a), Page::Leaf(b)) => {
                    assert(pair_keys(a@) == pair_keys(b@));
                },
                _ => {},
            }
        }
    }
}

proof fn lemma_children_same(
    p: Seq<Page>,
    q: Seq<Page>,
    depth: nat,
    d: DirectoryPage,
    e: DirectoryPage,
    i: nat,
    level: nat,
    low: u32,
    high: Option<u32>,
    cur: (PagePointer, PagePointer),
)
    requires
        same_store(p, q),
        same_dir(d, e),
    ensures
        children_check(p, depth, d, i, level, low, high, cur) == children_check(q, depth, e, i, level, low, high, cur),
    decreases depth - level, DIR_PTR_COUNT + 1 - i,
{
    if !(level >= depth || d.keys@.len() > DIR_KEY_COUNT || i > d.keys@.len() || d.pointers@.len()
        != d.keys@.len() + 1) {
        let child_low = if i > 0 { d.keys@[i - 1] } else { low };
        let child_high = if i < d.keys@.len() { Some(d.keys@[i as int]) } else { high };
        let child = d.pointers@[i as int];
        lemma_check_same(p, q, depth, child, level + 1, child_low, child_high, cur);
        match node_check(p, depth, child, level + 1, child_low, child_high, cur) {
            Some(c) => {
                lemma_children_same(p, q, depth, d, e, i + 1, level, low, high, c);
            },
            None => {},
        }
    }
}

/// Stores with the same pages have the same leaf chains.
pub proof fn lemma_chain_same(p: Seq<Page>, q: Seq<Page>, ptr: PagePointer, fuel: nat)
    requires
        same_store(p, q),
    ensures
        chain_pairs(p, ptr, fuel) == chain_pairs(q, ptr, fuel),
        chain_ends(p, ptr, fuel) == chain_ends(q, ptr, fuel),
    decreases fuel,
{
    if fuel > 0 && ptr != NULL_IDX && ptr < p.len() {
        assert(same_page(p[ptr as int], q[ptr as int]));
        match (p[ptr as int], q[ptr as int]) {
            (Page::Leaf(a), Page::Leaf(b)) => {
                lemma_chain_same(p, q, a.next, (fuel - 1) as nat);
            },
            _ => {},
        }
    }
}

/// The free list from `head` is the sequence `s` of distinct free pages of
/// the store (never the header), each linked to the next, the last to null.
pub open spec fn free_list_is(pages: Seq<Page>, head: PagePointer, s: Seq<PagePointer>) -> bool {
    &&& s.no_duplicates()
    &&& forall|i: int| 0 <= i < s.len() ==> 0 < #[trigger] s[i] < pages.len() && pages[s[i] as int] is Free
    &&& forall|i: int| 0 <= i < s.len() - 1 ==> pages[(#[trigger] s[i]) as int]->Free_0.next_free_page == s[i + 1]
    &&& s.len() == 0 ==> head == NULL_IDX
    &&& s.len() > 0 ==> head == s[0] && pages[s.last() as int]->Free_0.next_free_page == NULL_IDX
}

/// Pushing a page that is not on the free list keeps the list a list of
/// distinct free pages, with the page at its head.
pub proof fn lemma_free_list_push(pages: Seq<Page>, head: PagePointer, s: Seq<PagePointer>, ptr: PagePointer, m: MetadataPage)
    requires
        free_list_is(pages, head, s),
        0 < ptr < pages.len(),
        !s.contains(ptr),
    ensures
        free_list_is(
            pages.update(ptr as int, Page::Free(FreePage { next_free_page: head })).update(0, Page::Meta(m)),
            ptr,
            seq![ptr] + s,
        ),
{
    let q = pages.update(ptr as int, Page::Free(FreePage { next_free_page: head })).update(0, Page::Meta(m));
    let t = seq![ptr] + s;
    assert forall|i: int| 0 <= i < s.len() implies q[s[i] as int] == pages[s[i] as int] by {
        assert(s[i] != ptr);
    }
    assert forall|i: int| 0 <= i < t.len() implies 0 < #[trigger] t[i] < q.len() && q[t[i] as int] is Free by {
        if i > 0 {
            assert(t[i] == s[i - 1]);
        }
    }
    assert forall|i: int| 0 <= i < t.len() - 1 implies q[(#[trigger] t[i]) as int]->Free_0.next_free_page == t[i + 1] by {
        if i > 0 {
            assert(t[i] == s[i - 1]);
            assert(t[i + 1] == s[i]);
        }
    }
    assert forall|a: int, b: int| 0 <= a < t.len() && 0 <= b < t.len() && a != b implies t[a] != t[b] by {
        if a == 0 && b > 0 {
            assert(t[b] == s[b - 1]);
        } else if b == 0 && a > 0 {
            assert(t[a] == s[a - 1]);
        } else if a > 0 && b > 0 {
            assert(t[a] == s[a - 1]);
            assert(t[b] == s[b - 1]);
        }
    }
    if s.len() > 0 {
        assert(t.last() == s.last());
    }
}

/// Popping the head of the free list, and writing any page there, leaves
/// the rest of the list a list of distinct free pages.
pub proof fn lemma_free_list_pop(pages: Seq<Page>, head: PagePointer, s: Seq<PagePointer>, page: Page, m: MetadataPage)
    requires
        free_list_is(pages, head, s),
        s.len() > 0,
    ensures
        free_list_is(
            pages.update(0, Page::Meta(m)).update(head as int, page),
            pages[head as int]->Free_0.next_free_page,
            s.drop_first(),
        ),
{
    let q = pages.update(0, Page::Meta(m)).update(head as int, page);
    let t = s.drop_first();
    assert forall|i: int| 0 <= i < t.len() implies q[t[i] as int] == pages[t[i] as int] by {
        assert(t[i] == s[i + 1]);
        assert(s[0] != s[i + 1]);
    }
    assert forall|i: int| 0 <= i < t.len() implies 0 < #[trigger] t[i] < q.len() && q[t[i] as int] is Free by {
        assert(t[i] == s[i + 1]);
    }
    assert forall|i: int| 0 <= i < t.len() - 1 implies q[(#[trigger] t[i]) as int]->Free_0.next_free_page == t[i + 1] by {
        assert(t[i] == s[i + 1]);
        assert(t[i + 1] == s[i + 2]);
    }
    assert forall|a: int, b: int| 0 <= a < t.len() && 0 <= b < t.len() && a != b implies t[a] != t[b] by {
        assert(t[a] == s[a + 1]);
        assert(t[b] == s[b + 1]);
    }
    if t.len() > 0 {
        assert(t[0] == s[1]);
        assert(t.last() == s.last());
    } else {
        assert(s.len() == 1);
    }
}

/// Rewriting a page that is not free leaves the free list as it was.
pub proof fn lemma_free_list_frame(pages: Seq<Page>, head: PagePointer, s: Seq<PagePointer>, p: int, page: Page)
    requires
        free_list_is(pages, head, s),
        0 <= p < pages.len(),
        !(pages[p] is Free),
    ensures
        free_list_is(pages.update(p, page), head, s),
{
    let q = pages.update(p, page);
    assert forall|i: int| 0 <= i < s.len() implies q[s[i] as int] == pages[s[i] as int] by {
        assert(pages[s[i] as int] is Free);
    }
    if s.len() > 0 {
        assert(q[s.last() as int] == pages[s.last() as int]);
    }
}

/// Every leaf of `old` stands unchanged in `new`, which has no fewer pages.
pub open spec fn leaves_kept(old: Seq<Page>, new: Seq<Page>) -> bool {
    &&& old.len() <= new.len()
    &&& forall|i: int| 0 <= i < old.len() && (#[trigger] old[i]) is Leaf ==> new[i] == old[i]
}

pub proof fn lemma_leaves_kept_trans(a: Seq<Page>, b: Seq<Page>, c: Seq<Page>)
    requires
        leaves_kept(a, b),
        leaves_kept(b, c),
    ensures
        leaves_kept(a, c),
{
    assert forall|i: int| 0 <= i < a.len() && (#[trigger] a[i]) is Leaf implies c[i] == a[i] by {
        assert(b[i] == a[i]);
    }
}

/// `nd` holds the keys `ok` and pointers `op` of a directory, with `key`
/// entered at the slot of `child` and `new_child` right after `child`.
pub open spec fn entry_added(ok: Seq<u32>, op: Seq<PagePointer>, nd: DirectoryPage, child: PagePointer, key: u32, new_child: PagePointer) -> bool {
    exists|i: int|
        ptr_slot(ok, key, i) && op[i] == child && nd.keys@ == ok.insert(i, key) && nd.pointers@ == op.insert(i + 1, new_child)
}

/// `new_d` is `old_d` with `key` entered at the slot of `child`, and
/// `new_child` right after `child`.
pub open spec fn dir_entry_added(old_d: DirectoryPage, new_d: DirectoryPage, child: PagePointer, key: u32, new_child: PagePointer) -> bool {
    entry_added(old_d.keys@, old_d.pointers@, new_d, child, key, new_child)
}

/// The full directory `od` split at its middle key `od.keys[DIR_HALF]`:
/// `low` holds the keys before it and `high` those after it, each with
/// their pointers; the half that covers `key` (`low` when `key` is below
/// the middle key) also gained the entry for `key`.
pub open spec fn split_with_entry(od: DirectoryPage, low: DirectoryPage, high: DirectoryPage, child: PagePointer, key: u32, new_child: PagePointer) -> bool {
    let lk = od.keys@.subrange(0, DIR_HALF as int);
    let lp = od.pointers@.subrange(0, DIR_HALF + 1);
    let hk = od.keys@.subrange(DIR_HALF + 1, od.keys@.len() as int);
    let hp = od.pointers@.subrange(DIR_HALF + 1, od.pointers@.len() as int);
    if key < od.keys@[DIR_HALF as int] {
        entry_added(lk, lp, low, child, key, new_child) && high.keys@ == hk && high.pointers@ == hp
    } else {
        low.keys@ == lk && low.pointers@ == lp && entry_added(hk, hp, high, child, key, new_child)
    }
}

/// `ptr` names a directory with no room for another key.
pub open spec fn dir_is_full(pages: Seq<Page>, ptr: PagePointer) -> bool {
    if ptr >= pages.len() {
        false
    } else {
        match pages[ptr as int] {
            Page::Dir(d) => d.keys@.len() >= DIR_KEY_COUNT,
            _ => false,
        }
    }
}

/// Some directory of the store holds `key` with `child` before it and
/// `new_child` after it.
pub open spec fn has_dir_entry(pages: Seq<Page>, child: PagePointer, key: u32, new_child: PagePointer) -> bool {
    exists|q: int, i: int|
        0 < q < pages.len() && pages[q] is Dir && 0 <= i < pages[q]->Dir_0.keys@.len()
            && #[trigger] pages[q]->Dir_0.keys@[i] == key && pages[q]->Dir_0.pointers@[i] == child
            && pages[q]->Dir_0.pointers@[i + 1] == new_child
}

/// After a root split: the root at `root` holds the one key `k` between the
/// old root `old_root` and the new page `p`; `p` holds the upper half `d`
/// and the old root the lower half `low`.
pub open spec fn root_split_done(pages: Seq<Page>, root: PagePointer, old_root: PagePointer, k: u32, p: PagePointer, d: DirectoryPage, low: DirectoryPage) -> bool {
    &&& root < pages.len() && p < pages.len() && old_root < pages.len()
    &&& pages[root as int] is Dir
    &&& root != p && root != old_root
    &&& pages[root as int]->Dir_0.keys@ == seq![k]
    &&& pages[root as int]->Dir_0.pointers@ == seq![old_root, p]
    &&& pages[p as int] is Dir && same_dir(pages[p as int]->Dir_0, d)
    &&& pages[old_root as int] is Dir && same_dir(pages[old_root as int]->Dir_0, low)
}

/// `ptr` names a directory with room for another key.
pub open spec fn dir_has_room(pages: Seq<Page>, ptr: PagePointer) -> bool {
    if ptr >= pages.len() {
        false
    } else {
        match pages[ptr as int] {
            Page::Dir(d) => d.keys@.len() < DIR_KEY_COUNT,
            _ => false,
        }
    }
}

/// A directory that gained the entry, stored in the store, shows it.
pub proof fn lemma_entry_visible(pages: Seq<Page>, q: int, od: DirectoryPage, nd: DirectoryPage, child: PagePointer, key: u32, new_child: PagePointer)
    requires
        0 < q < pages.len(),
        pages[q] == Page::Dir(nd),
        od.wf(),
        dir_entry_added(od, nd, child, key, new_child),
    ensures
        has_dir_entry(pages, child, key, new_child),
{
    let i = choose|i: int|
        ptr_slot(od.keys@, key, i) && od.pointers@[i] == child && nd.keys@ == od.keys@.insert(i, key)
            && nd.pointers@ == od.pointers@.insert(i + 1, new_child);
    assert(nd.keys@[i] == key);
    assert(nd.pointers@[i] == child);
    assert(nd.pointers@[i + 1] == new_child);
    assert(pages[q]->Dir_0.keys@[i] == key);
}

/// A visited leaf holds no more pairs than all visited leaves together.
pub proof fn lemma_visit_pairs_len(pages: Seq<Page>, vs: Seq<Visit>, j: int)
    requires
        0 <= j < vs.len(),
    ensures
        pages[vs[j].0 as int]->Leaf_0@.len() <= visit_pairs(pages, vs).len(),
    decreases vs.len(),
{
    let rest = vs.drop_first();
    assert(visit_pairs(pages, vs) == pages[vs[0].0 as int]->Leaf_0@ + visit_pairs(pages, rest));
    if j > 0 {
        assert(rest[j - 1] == vs[j]);
        lemma_visit_pairs_len(pages, rest, j - 1);
    }
}

/// `root` is a page newly taken for a root: in `new` it is a directory with
/// one key, and in `old` it was free or beyond the store.
pub open spec fn fresh_root(old: Seq<Page>, new: Seq<Page>, root: PagePointer) -> bool {
    &&& root < new.len()
    &&& new[root as int] is Dir
    &&& new[root as int]->Dir_0.keys@.len() == 1
    &&& (root >= old.len() || old[root as int] is Free)
}

/// `child` is the child of `d` that covers `key`, and `key` is not already
/// a key of `d`, so the entry for `key` can go right after `child`.
pub open spec fn entry_fits(d: DirectoryPage, child: PagePointer, key: u32) -> bool {
    exists|i: int|
        ptr_slot(d.keys@, key, i) && d.pointers@[i] == child && (i == 0 || d.keys@[i - 1] != key)
}

} // verus!
