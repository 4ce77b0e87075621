use vstd::prelude::*;
use crate::page::{PagePointer, PageIsFullError, LEAF_RECORD_COUNT, NULL_IDX};

verus! {

/// The number of pairs a leaf keeps after a split; also the occupancy
/// threshold below which a non-root leaf is underfull.
pub const LEAF_HALF: usize = 251;

/// Keys strictly ascend along the sequence.
pub open spec fn sorted_pairs(s: Seq<(u32, u32)>) -> bool {
    forall|i: int, j: int| 0 <= i < j < s.len() ==> #[trigger] s[i].0 < #[trigger] s[j].0
}

/// The key occurs in the sequence.
pub open spec fn has_key(s: Seq<(u32, u32)>, key: u32) -> bool {
    exists|i: int| 0 <= i < s.len() && #[trigger] s[i].0 == key
}

/// The value stored under `key`, if any.
pub open spec fn lookup(s: Seq<(u32, u32)>, key: u32) -> Option<u32> {
    if has_key(s, key) {
        Some(s[choose|i: int| 0 <= i < s.len() && #[trigger] s[i].0 == key].1)
    } else {
        None
    }
}

/// The position at which `key` sits, or would be inserted, in a sorted sequence.
pub open spec fn is_slot(s: Seq<(u32, u32)>, key: u32, i: int) -> bool {
    &&& 0 <= i <= s.len()
    &&& forall|j: int| 0 <= j < i ==> #[trigger] s[j].0 < key
    &&& forall|j: int| i <= j < s.len() ==> key <= #[trigger] s[j].0
}

/// The sequence after writing `value` under `key`: an existing pair is
/// overwritten in place, otherwise the pair goes in at its sorted position.
pub open spec fn put_pairs(s: Seq<(u32, u32)>, key: u32, value: u32) -> Seq<(u32, u32)> {
    let i = choose|i: int| is_slot(s, key, i);
    if has_key(s, key) {
        s.update(i, (key, value))
    } else {
        s.insert(i, (key, value))
    }
}

/// The sequence with the pair under `key` (if any) taken out.
pub open spec fn delete_pairs(s: Seq<(u32, u32)>, key: u32) -> Seq<(u32, u32)> {
    if has_key(s, key) {
        s.remove(choose|i: int| is_slot(s, key, i))
    } else {
        s
    }
}

/// Every key of `a` is below every key of `b`.
pub open spec fn pairs_below(a: Seq<(u32, u32)>, b: Seq<(u32, u32)>) -> bool {
    forall|i: int, j: int| 0 <= i < a.len() && 0 <= j < b.len() ==> #[trigger] a[i].0 < #[trigger] b[j].0
}

/// In a sorted sequence the slot of a key is unique, and holds the key when present.
pub proof fn lemma_slot_unique(s: Seq<(u32, u32)>, key: u32, i: int, j: int)
    requires
        sorted_pairs(s),
        is_slot(s, key, i),
        is_slot(s, key, j),
    ensures
        i == j,
{
    if i < j {
        assert(s[i].0 < key);
        assert(key <= s[i].0);
    } else if j < i {
        assert(s[j].0 < key);
        assert(key <= s[j].0);
    }
}

/// In a sorted sequence the key at index `i` is found by `lookup` at `i`.
pub proof fn lemma_lookup_at(s: Seq<(u32, u32)>, i: int)
    requires
        sorted_pairs(s),
        0 <= i < s.len(),
    ensures
        lookup(s, s[i].0) == Some(s[i].1),
{
    let key = s[i].0;
    assert(has_key(s, key));
    let c = choose|c: int| 0 <= c < s.len() && #[trigger] s[c].0 == key;
    if c < i {
        assert(s[c].0 < s[i].0);
    } else if i < c {
        assert(s[i].0 < s[c].0);
    }
}

/// A sorted sequence holds a slot for every key.
pub proof fn lemma_slot_exists(s: Seq<(u32, u32)>, key: u32) -> (i: int)
    requires
        sorted_pairs(s),
    ensures
        is_slot(s, key, i),
        has_key(s, key) <==> (i < s.len() && s[i].0 == key),
    decreases s.len(),
{
    if s.len() == 0 {
        0
    } else {
        let t = s.drop_last();
        assert(sorted_pairs(t));
        let k = lemma_slot_exists(t, key);
        if key <= s.last().0 {
            assert forall|j: int| k <= j < s.len() implies key <= #[trigger] s[j].0 by {
                if j < t.len() {
                    assert(t[j] == s[j]);
                }
            }
            assert forall|j: int| 0 <= j < k implies #[trigger] s[j].0 < key by {
                assert(t[j] == s[j]);
            }
            if has_key(s, key) {
                let w = choose|w: int| 0 <= w < s.len() && #[trigger] s[w].0 == key;
                if w < k {
                    assert(t[w] == s[w]);
                } else if k < w {
                    if k < t.len() {
                        assert(t[k] == s[k]);
                        assert(s[k].0 < s[w].0);
                    }
                }
            }
            k
        } else {
            assert forall|j: int| 0 <= j < s.len() implies #[trigger] s[j].0 < key by {
                if j < t.len() {
                    assert(s[j].0 < s.last().0);
                }
            }
            s.len() as int
        }
    }
}

/// Writing `value` under `key` makes `key` map to `value` and leaves every
/// other key's value as it was.
pub proof fn lemma_lookup_put(s: Seq<(u32, u32)>, key: u32, value: u32, k: u32)
    requires
        sorted_pairs(s),
        sorted_pairs(put_pairs(s, key, value)),
    ensures
        lookup(put_pairs(s, key, value), k) == if k == key {
            Some(value)
        } else {
            lookup(s, k)
        },
{
    let t = put_pairs(s, key, value);
    let w = lemma_slot_exists(s, key);
    let i = choose|i: int| is_slot(s, key, i);
    lemma_slot_unique(s, key, i, w);
    if has_key(s, key) {
        assert(t[i] == (key, value));
        if k == key {
            lemma_lookup_at(t, i);
        } else {
            if has_key(s, k) {
                let c = choose|c: int| 0 <= c < s.len() && #[trigger] s[c].0 == k;
                assert(t[c] == s[c]);
                lemma_lookup_at(s, c);
                lemma_lookup_at(t, c);
            } else {
                assert(!has_key(t, k)) by {
                    if has_key(t, k) {
                        let c = choose|c: int| 0 <= c < t.len() && #[trigger] t[c].0 == k;
                        assert(s[c] == t[c]);
                    }
                }
            }
        }
    } else {
        assert(t[i] == (key, value));
        if k == key {
            lemma_lookup_at(t, i);
        } else {
            if has_key(s, k) {
                let c = choose|c: int| 0 <= c < s.len() && #[trigger] s[c].0 == k;
                let d = if c < i { c } else { c + 1 };
                assert(t[d] == s[c]);
                lemma_lookup_at(s, c);
                lemma_lookup_at(t, d);
            } else {
                assert(!has_key(t, k)) by {
                    if has_key(t, k) {
                        let d = choose|d: int| 0 <= d < t.len() && #[trigger] t[d].0 == k;
                        if d < i {
                            assert(s[d] == t[d]);
                        } else if d > i {
                            assert(s[d - 1] == t[d]);
                        }
                    }
                }
            }
        }
    }
}

/// Deleting `key` makes it absent and leaves every other key's value as it was.
pub proof fn lemma_lookup_delete(s: Seq<(u32, u32)>, key: u32, k: u32)
    requires
        sorted_pairs(s),
    ensures
        lookup(delete_pairs(s, key), k) == if k == key {
            None
        } else {
            lookup(s, k)
        },
{
    let t = delete_pairs(s, key);
    if has_key(s, key) {
        let w = lemma_slot_exists(s, key);
        let i = choose|i: int| is_slot(s, key, i);
        lemma_slot_unique(s, key, i, w);
        assert(sorted_pairs(t)) by {
            assert forall|a: int, b: int| 0 <= a < b < t.len() implies #[trigger] t[a].0 < #[trigger] t[b].0 by {
                let a2 = if a < i { a } else { a + 1 };
                let b2 = if b < i { b } else { b + 1 };
                assert(s[a2].0 < s[b2].0);
            }
        }
        if k == key {
            assert(!has_key(t, k)) by {
                if has_key(t, k) {
                    let d = choose|d: int| 0 <= d < t.len() && #[trigger] t[d].0 == k;
                    if d < i {
                        assert(s[d].0 < s[i].0);
                    } else {
                        assert(s[i].0 < s[d + 1].0);
                    }
                }
            }
        } else {
            if has_key(s, k) {
                let c = choose|c: int| 0 <= c < s.len() && #[trigger] s[c].0 == k;
                let d = if c < i { c } else { c - 1 };
                assert(t[d] == s[c]);
                lemma_lookup_at(s, c);
                lemma_lookup_at(t, d);
            } else {
                assert(!has_key(t, k)) by {
                    if has_key(t, k) {
                        let d = choose|d: int| 0 <= d < t.len() && #[trigger] t[d].0 == k;
                        if d < i {
                            assert(s[d] == t[d]);
                        } else {
                            assert(s[d + 1] == t[d]);
                        }
                    }
                }
            }
        }
    }
}

/// Writing a pair into sorted pairs keeps them sorted.
pub proof fn lemma_put_pairs_sorted(s: Seq<(u32, u32)>, key: u32, value: u32)
    requires
        sorted_pairs(s),
    ensures
        sorted_pairs(put_pairs(s, key, value)),
        put_pairs(s, key, value).len() <= s.len() + 1,
{
    let w = lemma_slot_exists(s, key);
    let idx = choose|i: int| is_slot(s, key, i);
    lemma_slot_unique(s, key, idx, w);
    let t = put_pairs(s, key, value);
    if has_key(s, key) {
        assert forall|i: int, j: int| 0 <= i < j < t.len() implies #[trigger] t[i].0 < #[trigger] t[j].0 by {
            assert(s[i].0 < s[j].0);
        }
    } else {
        assert forall|i: int, j: int| 0 <= i < j < t.len() implies #[trigger] t[i].0 < #[trigger] t[j].0 by {
            if j < idx {
                assert(s[i].0 < s[j].0);
            } else if j == idx {
                assert(s[i].0 < key);
            } else if i == idx {
                assert(key <= s[j - 1].0);
                assert(s[j - 1].0 != key);
            } else if i < idx {
                assert(s[i].0 < s[j - 1].0);
            } else {
                assert(s[i - 1].0 < s[j - 1].0);
            }
        }
    }
}

/// Removing a pair from sorted pairs keeps them sorted.
pub proof fn lemma_delete_pairs_sorted(s: Seq<(u32, u32)>, key: u32)
    requires
        sorted_pairs(s),
    ensures
        sorted_pairs(delete_pairs(s, key)),
{
    if has_key(s, key) {
        let w = lemma_slot_exists(s, key);
        let idx = choose|i: int| is_slot(s, key, i);
        lemma_slot_unique(s, key, idx, w);
        let t = delete_pairs(s, key);
        assert forall|a: int, b: int| 0 <= a < b < t.len() implies #[trigger] t[a].0 < #[trigger] t[b].0 by {
            let a2 = if a < idx { a } else { a + 1 };
            let b2 = if b < idx { b } else { b + 1 };
            assert(s[a2].0 < s[b2].0);
        }
    }
}

/// Dropping the first pair of sorted pairs makes its key absent and leaves
/// every other key's value as it was.
proof fn lemma_lookup_drop_first(s: Seq<(u32, u32)>, k: u32)
    requires
        sorted_pairs(s),
        s.len() > 0,
    ensures
        lookup(s.drop_first(), k) == if k == s[0].0 {
            None
        } else {
            lookup(s, k)
        },
{
    let t = s.drop_first();
    assert(sorted_pairs(t)) by {
        assert forall|i: int, j: int| 0 <= i < j < t.len() implies #[trigger] t[i].0 < #[trigger] t[j].0 by {
            assert(s[i + 1].0 < s[j + 1].0);
        }
    }
    if has_key(t, k) {
        let c = choose|c: int| 0 <= c < t.len() && #[trigger] t[c].0 == k;
        assert(t[c] == s[c + 1]);
        assert(s[0].0 < s[c + 1].0);
        lemma_lookup_at(t, c);
        lemma_lookup_at(s, c + 1);
    } else if k != s[0].0 {
        assert(!has_key(s, k)) by {
            if has_key(s, k) {
                let c = choose|c: int| 0 <= c < s.len() && #[trigger] s[c].0 == k;
                assert(t[c - 1] == s[c]);
            }
        }
    }
}

/// Sorted pairs are fixed by their lookups: two sequences of pairs in
/// strictly ascending key order that hold the same value under every key
/// are equal.
pub proof fn lemma_sorted_pairs_determined(a: Seq<(u32, u32)>, b: Seq<(u32, u32)>)
    requires
        sorted_pairs(a),
        sorted_pairs(b),
        forall|k: u32| #[trigger] lookup(a, k) == lookup(b, k),
    ensures
        a == b,
    decreases a.len() + b.len(),
{
    if a.len() == 0 && b.len() == 0 {
        assert(a =~= b);
    } else if a.len() == 0 {
        lemma_lookup_at(b, 0);
        assert(lookup(a, b[0].0) == lookup(b, b[0].0));
    } else if b.len() == 0 {
        lemma_lookup_at(a, 0);
        assert(lookup(a, a[0].0) == lookup(b, a[0].0));
    } else {
        lemma_lookup_at(a, 0);
        lemma_lookup_at(b, 0);
        if a[0].0 < b[0].0 {
            assert(lookup(a, a[0].0) == lookup(b, a[0].0));
            assert(!has_key(b, a[0].0)) by {
                if has_key(b, a[0].0) {
                    let c = choose|c: int| 0 <= c < b.len() && #[trigger] b[c].0 == a[0].0;
                    if c > 0 {
                        assert(b[0].0 < b[c].0);
                    }
                }
            }
        } else if b[0].0 < a[0].0 {
            assert(lookup(a, b[0].0) == lookup(b, b[0].0));
            assert(!has_key(a, b[0].0)) by {
                if has_key(a, b[0].0) {
                    let c = choose|c: int| 0 <= c < a.len() && #[trigger] a[c].0 == b[0].0;
                    if c > 0 {
                        assert(a[0].0 < a[c].0);
                    }
                }
            }
        } else {
            assert(lookup(a, a[0].0) == lookup(b, a[0].0));
            assert forall|k: u32| #[trigger] lookup(a.drop_first(), k) == lookup(b.drop_first(), k) by {
                lemma_lookup_drop_first(a, k);
                lemma_lookup_drop_first(b, k);
                assert(lookup(a, k) == lookup(b, k));
            }
            assert(sorted_pairs(a.drop_first())) by {
                assert forall|i: int, j: int| 0 <= i < j < a.drop_first().len() implies #[trigger] a.drop_first()[i].0 < #[trigger] a.drop_first()[j].0 by {
                    assert(a[i + 1].0 < a[j + 1].0);
                }
            }
            assert(sorted_pairs(b.drop_first())) by {
                assert forall|i: int, j: int| 0 <= i < j < b.drop_first().len() implies #[trigger] b.drop_first()[i].0 < #[trigger] b.drop_first()[j].0 by {
                    assert(b[i + 1].0 < b[j + 1].0);
                }
            }
            lemma_sorted_pairs_determined(a.drop_first(), b.drop_first());
            assert(a =~= seq![a[0]] + a.drop_first());
            assert(b =~= seq![b[0]] + b.drop_first());
        }
    }
}

/// `Ok(i)` when the key sits at `i` of the sorted pairs, else `Err(i)` with
/// `i` the position at which it would be inserted.
pub fn search_pairs(v: &Vec<(u32, u32)>, key: u32) -> (r: Result<usize, usize>)
    requires
        sorted_pairs(v@),
    ensures
        match r {
            Ok(i) => i < v@.len() && v@[i as int].0 == key,
            Err(i) => is_slot(v@, key, i as int) && !has_key(v@, key),
        },
        r.is_ok() == has_key(v@, key),
        is_slot(v@, key, match r { Ok(i) => i as int, Err(i) => i as int }),
{
    let mut lo: usize = 0;
    let mut hi: usize = v.len();
    while lo < hi
        invariant
            sorted_pairs(v@),
            0 <= lo <= hi <= v@.len(),
            forall|j: int| 0 <= j < lo ==> #[trigger] v@[j].0 < key,
            forall|j: int| hi <= j < v@.len() ==> key < #[trigger] v@[j].0,
        decreases hi - lo,
    {
        let mid: usize = lo + (hi - lo) / 2;
        let k = v[mid].0;
        if k == key {
            proof {
                assert forall|j: int| mid <= j < v@.len() implies key <= #[trigger] v@[j].0 by {
                    if mid < j {
                        assert(v@[mid as int].0 < v@[j].0);
                    }
                }
                assert forall|j: int| 0 <= j < mid implies #[trigger] v@[j].0 < key by {
                    assert(v@[j].0 < v@[mid as int].0);
                }
            }
            return Ok(mid);
        } else if k < key {
            proof {
                assert forall|j: int| 0 <= j < mid + 1 implies #[trigger] v@[j].0 < key by {
                    if j < mid {
                        assert(v@[j].0 < v@[mid as int].0);
                    }
                }
            }
            lo = mid + 1;
        } else {
            proof {
                assert forall|j: int| mid <= j < v@.len() implies key < #[trigger] v@[j].0 by {
                    if mid < j {
                        assert(v@[mid as int].0 < v@[j].0);
                    }
                }
            }
            hi = mid;
        }
    }
    Err(lo)
}

/// Writes `value` under `key` in sorted pairs: in place when the key is
/// there, else at its sorted position.
pub fn put_into_pairs(v: &mut Vec<(u32, u32)>, key: u32, value: u32)
    requires
        sorted_pairs(old(v)@),
    ensures
        final(v)@ == put_pairs(old(v)@, key, value),
        sorted_pairs(final(v)@),
{
    let ghost s = v@;
    match search_pairs(v, key) {
        Ok(idx) => {
            v.set(idx, (key, value));
            proof {
                let c = choose|i: int| is_slot(s, key, i);
                lemma_slot_unique(s, key, c, idx as int);
                assert forall|i: int, j: int| 0 <= i < j < v@.len() implies #[trigger] v@[i].0 < #[trigger] v@[j].0 by {
                    assert(s[i].0 < s[j].0);
                }
            }
        },
        Err(idx) => {
            v.insert(idx, (key, value));
            proof {
                let c = choose|i: int| is_slot(s, key, i);
                lemma_slot_unique(s, key, c, idx as int);
                assert forall|i: int, j: int| 0 <= i < j < v@.len() implies #[trigger] v@[i].0 < #[trigger] v@[j].0 by {
                    if j < idx {
                        assert(s[i].0 < s[j].0);
                    } else if j == idx {
                        assert(s[i].0 < key);
                    } else if i == idx {
                        assert(key <= s[j - 1].0);
                        assert(s[j - 1].0 != key);
                    } else if i < idx {
                        assert(s[i].0 < s[j - 1].0);
                    } else {
                        assert(s[i - 1].0 < s[j - 1].0);
                    }
                }
            }
        },
    }
}

/// Removes the pair under `key`, if any, from sorted pairs.
pub fn delete_from_pairs(v: &mut Vec<(u32, u32)>, key: u32)
    requires
        sorted_pairs(old(v)@),
    ensures
        final(v)@ == delete_pairs(old(v)@, key),
{
    let ghost s = v@;
    match search_pairs(v, key) {
        Ok(idx) => {
            v.remove(idx);
            proof {
                let c = choose|i: int| is_slot(s, key, i);
                lemma_slot_unique(s, key, c, idx as int);
            }
        },
        Err(_) => {},
    }
}

/// Whether two sequences of pairs are equal.
pub fn pairs_equal(a: &Vec<(u32, u32)>, b: &Vec<(u32, u32)>) -> (r: bool)
    ensures
        r == (a@ == b@),
{
    if a.len() != b.len() {
        return false;
    }
    let mut i: usize = 0;
    while i < a.len()
        invariant
            a@.len() == b@.len(),
            i <= a@.len(),
            forall|j: int| 0 <= j < i ==> a@[j] == b@[j],
        decreases a@.len() - i,
    {
        if a[i].0 != b[i].0 || a[i].1 != b[i].1 {
            return false;
        }
        i = i + 1;
    }
    assert(a@ =~= b@);
    true
}

/// A leaf page: sorted key/value pairs and the neighbouring leaves in key order.
pub struct LeafPage {
    /// The live pairs, keys strictly ascending.
    pub key_value: Vec<(u32, u32)>,
    /// The next leaf in key order, or null.
    pub next: PagePointer,
    /// The previous leaf in key order, or null.
    pub prev: PagePointer,
}

impl View for LeafPage {
    type V = Seq<(u32, u32)>;

    open spec fn view(&self) -> Seq<(u32, u32)> {
        self.key_value@
    }
}

impl LeafPage {
    /// Keys ascend and the page is within capacity.
    pub open spec fn wf(&self) -> bool {
        &&& self@.len() <= LEAF_RECORD_COUNT
        &&& sorted_pairs(self@)
    }

    /// A fresh, empty leaf with no neighbours.
    pub fn init() -> (r: LeafPage)
        ensures
            r.wf(),
            r@ == Seq::<(u32, u32)>::empty(),
            r.next == NULL_IDX,
            r.prev == NULL_IDX,
    {
        LeafPage { key_value: Vec::new(), next: NULL_IDX, prev: NULL_IDX }
    }

    /// The number of pairs on the page.
    pub fn count(&self) -> (r: usize)
        ensures
            r == self@.len(),
    {
        self.key_value.len()
    }

    /// No further pair may be added.
    pub fn is_full(&self) -> (r: bool)
        ensures
            r == (self@.len() >= LEAF_RECORD_COUNT),
    {
        self.key_value.len() >= LEAF_RECORD_COUNT
    }

    /// Too few pairs: a non-root leaf must borrow or merge.
    pub fn is_underfull(&self) -> (r: bool)
        ensures
            r == (self@.len() < LEAF_HALF),
    {
        self.key_value.len() < LEAF_HALF
    }

    /// The page can give up a pair and stay at least half full.
    pub fn can_allow_stolen_key(&self) -> (r: bool)
        ensures
            r == (self@.len() > LEAF_HALF),
    {
        self.key_value.len() > LEAF_HALF
    }

    /// The pair at position `idx`.
    pub fn get(&self, idx: usize) -> (r: (u32, u32))
        requires
            idx < self@.len(),
        ensures
            r == self@[idx as int],
    {
        self.key_value[idx]
    }

    /// `Ok(i)` when the key sits at `i`, else `Err(i)` with `i` the position
    /// at which it would be inserted.
    pub fn find_index(&self, key: u32) -> (r: Result<usize, usize>)
        requires
            self.wf(),
        ensures
            match r {
                Ok(i) => i < self@.len() && self@[i as int].0 == key,
                Err(i) => is_slot(self@, key, i as int) && !has_key(self@, key),
            },
            r.is_ok() == has_key(self@, key),
            is_slot(self@, key, match r { Ok(i) => i as int, Err(i) => i as int }),
    {
        search_pairs(&self.key_value, key)
    }

    /// The value stored under `key`, if any.
    pub fn find_value(&self, key: u32) -> (r: Option<u32>)
        requires
            self.wf(),
        ensures
            r == lookup(self@, key),
    {
        match self.find_index(key) {
            Ok(idx) => {
                proof {
                    lemma_lookup_at(self@, idx as int);
                }
                Some(self.key_value[idx].1)
            },
            Err(_) => None,
        }
    }

    /// Writes `value` under `key`: an existing key is updated in place; a new
    /// key is inserted at its sorted position, which fails when the page is full.
    pub fn put(&mut self, key: u32, value: u32) -> (r: Result<(), PageIsFullError>)
        requires
            old(self).wf(),
        ensures
            final(self).wf(),
            final(self).next == old(self).next,
            final(self).prev == old(self).prev,
            r.is_ok() == (has_key(old(self)@, key) || old(self)@.len() < LEAF_RECORD_COUNT),
            r.is_ok() ==> final(self)@ == put_pairs(old(self)@, key, value),
            r.is_err() ==> final(self)@ == old(self)@,
    {
        let ghost s = self@;
        match self.find_index(key) {
            Ok(idx) => {
                self.key_value.set(idx, (key, value));
                proof {
                    let c = choose|i: int| is_slot(s, key, i);
                    lemma_slot_unique(s, key, c, idx as int);
                    assert(sorted_pairs(self@)) by {
                        assert forall|i: int, j: int| 0 <= i < j < self@.len() implies #[trigger] self@[i].0 < #[trigger] self@[j].0 by {
                            assert(s[i].0 < s[j].0);
                        }
                    }
                }
                Ok(())
            },
            Err(idx) => {
                if self.key_value.len() >= LEAF_RECORD_COUNT {
                    return Err(PageIsFullError {});
                }
                self.key_value.insert(idx, (key, value));
                proof {
                    let c = choose|i: int| is_slot(s, key, i);
                    lemma_slot_unique(s, key, c, idx as int);
                    assert(sorted_pairs(self@)) by {
                        assert forall|i: int, j: int| 0 <= i < j < self@.len() implies #[trigger] self@[i].0 < #[trigger] self@[j].0 by {
                            if j < idx {
                                assert(s[i].0 < s[j].0);
                            } else if j == idx {
                                assert(s[i].0 < key);
                            } else if i == idx {
                                assert(key <= s[j - 1].0);
                                assert(s[j - 1].0 != key);
                            } else if i < idx {
                                assert(s[i].0 < s[j - 1].0);
                            } else {
                                assert(s[i - 1].0 < s[j - 1].0);
                            }
                        }
                    }
                }
                Ok(())
            },
        }
    }

    /// Removes the pair under `key`, if any; returns whether one was removed.
    pub fn delete(&mut self, key: u32) -> (r: bool)
        requires
            old(self).wf(),
        ensures
            final(self).wf(),
            final(self).next == old(self).next,
            final(self).prev == old(self).prev,
            r == has_key(old(self)@, key),
            final(self)@ == delete_pairs(old(self)@, key),
    {
        let ghost s = self@;
        match self.find_index(key) {
            Ok(idx) => {
                self.key_value.remove(idx);
                proof {
                    let c = choose|i: int| is_slot(s, key, i);
                    lemma_slot_unique(s, key, c, idx as int);
                    assert(sorted_pairs(self@)) by {
                        assert forall|i: int, j: int| 0 <= i < j < self@.len() implies #[trigger] self@[i].0 < #[trigger] self@[j].0 by {
                            if j < idx {
                                assert(s[i].0 < s[j].0);
                            } else if i < idx {
                                assert(s[i].0 < s[j + 1].0);
                            } else {
                                assert(s[i + 1].0 < s[j + 1].0);
                            }
                        }
                    }
                }
                true
            },
            Err(_) => false,
        }
    }

    /// Moves the pairs from position `LEAF_HALF` on into a fresh page, which is
    /// returned; this page keeps the lower pairs. Chain links are left to the caller.
    pub fn split(&mut self) -> (r: LeafPage)
        requires
            old(self).wf(),
            old(self)@.len() >= LEAF_HALF,
        ensures
            final(self).wf(),
            r.wf(),
            final(self)@ == old(self)@.subrange(0, LEAF_HALF as int),
            r@ == old(self)@.subrange(LEAF_HALF as int, old(self)@.len() as int),
            final(self).next == old(self).next,
            final(self).prev == old(self).prev,
            r.next == NULL_IDX,
            r.prev == NULL_IDX,
            pairs_below(final(self)@, r@),
    {
        let ghost s = self@;
        let upper = self.key_value.split_off(LEAF_HALF);
        let r = LeafPage { key_value: upper, next: NULL_IDX, prev: NULL_IDX };
        proof {
            assert forall|i: int, j: int| 0 <= i < self@.len() && 0 <= j < r@.len() implies #[trigger] self@[i].0 < #[trigger] r@[j].0 by {
                assert(s[i].0 < s[j + LEAF_HALF].0);
            }
            assert forall|i: int, j: int| 0 <= i < j < r@.len() implies #[trigger] r@[i].0 < #[trigger] r@[j].0 by {
                assert(s[i + LEAF_HALF].0 < s[j + LEAF_HALF].0);
            }
        }
        r
    }

    /// Removes and returns the pair with the greatest key.
    pub fn steal_high(&mut self) -> (r: (u32, u32))
        requires
            old(self).wf(),
            old(self)@.len() > LEAF_HALF,
        ensures
            final(self).wf(),
            r == old(self)@.last(),
            final(self)@ == old(self)@.drop_last(),
            final(self).next == old(self).next,
            final(self).prev == old(self).prev,
    {
        let ghost s = self@;
        let r = self.key_value.pop().unwrap();
        proof {
            assert forall|i: int, j: int| 0 <= i < j < self@.len() implies #[trigger] self@[i].0 < #[trigger] self@[j].0 by {
                assert(s[i].0 < s[j].0);
            }
        }
        r
    }

    /// Removes and returns the pair with the least key.
    pub fn steal_low(&mut self) -> (r: (u32, u32))
        requires
            old(self).wf(),
            old(self)@.len() > LEAF_HALF,
        ensures
            final(self).wf(),
            r == old(self)@[0],
            final(self)@ == old(self)@.subrange(1, old(self)@.len() as int),
            final(self).next == old(self).next,
            final(self).prev == old(self).prev,
    {
        let ghost s = self@;
        let r = self.key_value.remove(0);
        proof {
            assert forall|i: int, j: int| 0 <= i < j < self@.len() implies #[trigger] self@[i].0 < #[trigger] self@[j].0 by {
                assert(s[i + 1].0 < s[j + 1].0);
            }
        }
        r
    }

    /// Appends the pairs of `other`, whose keys all lie above this page's.
    pub fn merge_with(&mut self, other: &LeafPage)
        requires
            old(self).wf(),
            other.wf(),
            old(self)@.len() + other@.len() <= LEAF_RECORD_COUNT,
            pairs_below(old(self)@, other@),
        ensures
            final(self).wf(),
            final(self)@ == old(self)@ + other@,
            final(self).next == old(self).next,
            final(self).prev == old(self).prev,
    {
        let ghost s = self@;
        let mut i: usize = 0;
        while i < other.key_value.len()
            invariant
                other.wf(),
                s.len() + other@.len() <= LEAF_RECORD_COUNT,
                i <= other@.len(),
                self@ == s + other@.subrange(0, i as int),
                self.next == old(self).next,
                self.prev == old(self).prev,
            decreases other@.len() - i,
        {
            self.key_value.push(other.key_value[i]);
            i = i + 1;
            proof {
                assert(self@ == s + other@.subrange(0, i as int));
            }
        }
        proof {
            assert(other@.subrange(0, i as int) == other@);
            assert forall|a: int, b: int| 0 <= a < b < self@.len() implies #[trigger] self@[a].0 < #[trigger] self@[b].0 by {
                if b < s.len() {
                    assert(s[a].0 < s[b].0);
                } else if a < s.len() {
                    assert(s[a].0 < other@[b - s.len()].0);
                } else {
                    assert(other@[a - s.len()].0 < other@[b - s.len()].0);
                }
            }
        }
    }

    /// The pairs of the page, in ascending key order.
    pub fn iter(&self) -> (r: Vec<(u32, u32)>)
        ensures
            r@ == self@,
    {
        let mut r: Vec<(u32, u32)> = Vec::new();
        let mut i: usize = 0;
        while i < self.key_value.len()
            invariant
                i <= self@.len(),
                r@ == self@.subrange(0, i as int),
            decreases self@.len() - i,
        {
            r.push(self.key_value[i]);
            i = i + 1;
            proof {
                assert(r@ == self@.subrange(0, i as int));
            }
        }
        proof {
            assert(self@.subrange(0, i as int) == self@);
        }
        r
    }

    /// A copy of the page.
    pub fn duplicate(&self) -> (r: LeafPage)
        ensures
            r@ == self@,
            r.next == self.next,
            r.prev == self.prev,
    {
        LeafPage { key_value: self.iter(), next: self.next, prev: self.prev }
    }
}

} // verus!
