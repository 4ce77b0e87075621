use vstd::prelude::*;
use crate::page::{PagePointer, PageIsFullError, DIR_KEY_COUNT, NULL_IDX};

verus! {

/// The number of keys a directory keeps after a split.
pub const DIR_HALF: usize = 167;

/// The occupancy below which a non-root directory is underfull.
pub const DIR_MIN: usize = 166;

/// Keys strictly ascend along the sequence.
pub open spec fn sorted_keys(s: Seq<u32>) -> bool {
    forall|i: int, j: int| 0 <= i < j < s.len() ==> #[trigger] s[i] < #[trigger] s[j]
}

/// `i` is the child slot to follow for `key`: the keys before it are at most
/// `key`, the keys from it on are above `key`.
pub open spec fn ptr_slot(s: Seq<u32>, key: u32, i: int) -> bool {
    &&& 0 <= i <= s.len()
    &&& forall|j: int| 0 <= j < i ==> #[trigger] s[j] <= key
    &&& forall|j: int| i <= j < s.len() ==> key < #[trigger] s[j]
}

/// In ascending keys the child slot of a key is unique.
pub proof fn lemma_ptr_slot_unique(s: Seq<u32>, key: u32, i: int, j: int)
    requires
        sorted_keys(s),
        ptr_slot(s, key, i),
        ptr_slot(s, key, j),
    ensures
        i == j,
{
    if i < j {
        assert(key < s[i]);
    } else if j < i {
        assert(key < s[j]);
    }
}

/// Ascending keys have a child slot for every key.
pub proof fn lemma_ptr_slot_exists(s: Seq<u32>, key: u32) -> (i: int)
    requires
        sorted_keys(s),
    ensures
        ptr_slot(s, key, i),
    decreases s.len(),
{
    if s.len() == 0 {
        0
    } else {
        let t = s.drop_last();
        assert(sorted_keys(t));
        let k = lemma_ptr_slot_exists(t, key);
        if key < s.last() {
            assert forall|j: int| k <= j < s.len() implies key < #[trigger] s[j] by {
                if j < t.len() {
                    assert(t[j] == s[j]);
                }
            }
            assert forall|j: int| 0 <= j < k implies #[trigger] s[j] <= key by {
                assert(t[j] == s[j]);
            }
            k
        } else {
            assert forall|j: int| 0 <= j < s.len() implies #[trigger] s[j] <= key by {
                if j < t.len() {
                    assert(s[j] < s.last());
                }
            }
            s.len() as int
        }
    }
}

/// A directory page: `count` keys separating `count + 1` child pointers.
///
/// The child at `pointers[i]` holds the keys `k` with
/// `keys[i - 1] <= k < keys[i]` (open at either end).
pub struct DirectoryPage {
    /// The separator keys.
    pub keys: Vec<u32>,
    /// The child pointers, one more than the keys.
    pub pointers: Vec<PagePointer>,
}

impl DirectoryPage {
    /// One more pointer than keys, and no more keys than fit on a page.
    pub open spec fn wf(&self) -> bool {
        &&& self.keys@.len() <= DIR_KEY_COUNT
        &&& self.pointers@.len() == self.keys@.len() + 1
    }

    /// A fresh directory with no keys and a single null pointer.
    pub fn init() -> (r: DirectoryPage)
        ensures
            r.wf(),
            r.keys@ == Seq::<u32>::empty(),
            r.pointers@ == seq![NULL_IDX],
    {
        let mut pointers: Vec<PagePointer> = Vec::new();
        pointers.push(NULL_IDX);
        DirectoryPage { keys: Vec::new(), pointers }
    }

    /// The number of keys on the page.
    pub fn count(&self) -> (r: usize)
        ensures
            r == self.keys@.len(),
    {
        self.keys.len()
    }

    /// The index of the pointer to follow for `key`: the least `i` with
    /// `key < keys[i]`, or the key count when there is none.
    pub fn find_pointer_idx(&self, key: u32) -> (r: usize)
        requires
            self.wf(),
        ensures
            r <= self.keys@.len(),
            sorted_keys(self.keys@) ==> ptr_slot(self.keys@, key, r as int),
    {
        let mut lo: usize = 0;
        let mut hi: usize = self.keys.len();
        while lo < hi
            invariant
                self.wf(),
                0 <= lo <= hi <= self.keys@.len(),
                sorted_keys(self.keys@) ==> forall|j: int| 0 <= j < lo ==> #[trigger] self.keys@[j] <= key,
                sorted_keys(self.keys@) ==> forall|j: int| hi <= j < self.keys@.len() ==> key < #[trigger] self.keys@[j],
            decreases hi - lo,
        {
            let mid: usize = lo + (hi - lo) / 2;
            if key < self.keys[mid] {
                proof {
                    if sorted_keys(self.keys@) {
                        assert forall|j: int| mid <= j < self.keys@.len() implies key < #[trigger] self.keys@[j] by {
                            if mid < j {
                                assert(self.keys@[mid as int] < self.keys@[j]);
                            }
                        }
                    }
                }
                hi = mid;
            } else {
                proof {
                    if sorted_keys(self.keys@) {
                        assert forall|j: int| 0 <= j < mid + 1 implies #[trigger] self.keys@[j] <= key by {
                            if j < mid {
                                assert(self.keys@[j] < self.keys@[mid as int]);
                            }
                        }
                    }
                }
                lo = mid + 1;
            }
        }
        lo
    }

    /// The pointer to follow for `key`.
    pub fn find_pointer(&self, key: u32) -> (r: PagePointer)
        requires
            self.wf(),
        ensures
            exists|i: int|
                0 <= i <= self.keys@.len() && r == self.pointers@[i] && (sorted_keys(self.keys@)
                    ==> ptr_slot(self.keys@, key, i)),
    {
        let i = self.find_pointer_idx(key);
        self.pointers[i]
    }

    /// No further key may be added.
    pub fn is_full(&self) -> (r: bool)
        ensures
            r == (self.keys@.len() >= DIR_KEY_COUNT),
    {
        self.keys.len() >= DIR_KEY_COUNT
    }

    /// Too few keys: a non-root directory must borrow or merge.
    pub fn is_underfull(&self) -> (r: bool)
        ensures
            r == (self.keys@.len() < DIR_MIN),
    {
        self.keys.len() < DIR_MIN
    }

    /// The page can give up a key and stay at least half full.
    pub fn can_allow_stolen_key(&self) -> (r: bool)
        ensures
            r == (self.keys@.len() > DIR_HALF),
    {
        self.keys.len() > DIR_HALF
    }

    /// Inserts `split_key` and, right after the existing child `split_ptr`
    /// that covers it, the pointer `new_ptr`. Fails when the page is full.
    pub fn split_at_ptr(&mut self, split_ptr: PagePointer, split_key: u32, new_ptr: PagePointer)
        -> (r: Result<(), PageIsFullError>)
        requires
            old(self).wf(),
            sorted_keys(old(self).keys@),
            old(self).keys@.len() < DIR_KEY_COUNT ==> exists|i: int|
                ptr_slot(old(self).keys@, split_key, i) && old(self).pointers@[i] == split_ptr,
        ensures
            final(self).wf(),
            r.is_ok() == (old(self).keys@.len() < DIR_KEY_COUNT),
            r.is_err() ==> *final(self) == *old(self),
            r.is_ok() ==> exists|i: int|
                ptr_slot(old(self).keys@, split_key, i) && old(self).pointers@[i] == split_ptr
                    && final(self).keys@ == old(self).keys@.insert(i, split_key)
                    && final(self).pointers@ == old(self).pointers@.insert(i + 1, new_ptr),
    {
        if self.is_full() {
            return Err(PageIsFullError {});
        }
        let idx = self.find_pointer_idx(split_key);
        proof {
            let w = choose|i: int|
                ptr_slot(old(self).keys@, split_key, i) && old(self).pointers@[i] == split_ptr;
            if w < idx {
                assert(split_key < self.keys@[w]);
            } else if idx < w {
                assert(split_key < self.keys@[idx as int]);
            }
        }
        self.keys.insert(idx, split_key);
        self.pointers.insert(idx + 1, new_ptr);
        Ok(())
    }

    /// Splits a page holding more than `DIR_HALF` keys: the new page, which
    /// is returned, takes the keys after position `DIR_HALF` and the pointers
    /// from `DIR_HALF + 1` on; the key at `DIR_HALF` is returned as the
    /// separator and stays on neither page.
    pub fn split_page(&mut self) -> (r: (u32, DirectoryPage))
        requires
            old(self).wf(),
            old(self).keys@.len() > DIR_HALF,
        ensures
            final(self).wf(),
            r.1.wf(),
            r.0 == old(self).keys@[DIR_HALF as int],
            final(self).keys@ == old(self).keys@.subrange(0, DIR_HALF as int),
            final(self).pointers@ == old(self).pointers@.subrange(0, DIR_HALF + 1),
            r.1.keys@ == old(self).keys@.subrange(DIR_HALF + 1, old(self).keys@.len() as int),
            r.1.pointers@ == old(self).pointers@.subrange(
                DIR_HALF + 1,
                old(self).pointers@.len() as int,
            ),
            sorted_keys(old(self).keys@) ==> sorted_keys(final(self).keys@) && sorted_keys(r.1.keys@),
    {
        let upper_keys = self.keys.split_off(DIR_HALF + 1);
        let upper_ptrs = self.pointers.split_off(DIR_HALF + 1);
        let sep = self.keys.pop().unwrap();
        proof {
            let s = old(self).keys@;
            if sorted_keys(s) {
                assert forall|i: int, j: int| 0 <= i < j < self.keys@.len() implies #[trigger] self.keys@[i] < #[trigger] self.keys@[j] by {
                    assert(s[i] < s[j]);
                }
                assert forall|i: int, j: int| 0 <= i < j < upper_keys@.len() implies #[trigger] upper_keys@[i] < #[trigger] upper_keys@[j] by {
                    assert(s[i + DIR_HALF + 1] < s[j + DIR_HALF + 1]);
                }
            }
        }
        (sep, DirectoryPage { keys: upper_keys, pointers: upper_ptrs })
    }

    /// Removes the pointer at `idx` together with the key before it.
    pub fn delete_idx(&mut self, idx: usize)
        requires
            old(self).wf(),
            0 < idx <= old(self).keys@.len(),
        ensures
            final(self).wf(),
            final(self).keys@ == old(self).keys@.remove(idx - 1),
            final(self).pointers@ == old(self).pointers@.remove(idx as int),
    {
        self.keys.remove(idx - 1);
        self.pointers.remove(idx);
    }

    /// Takes the last pointer of the preceding sibling `other`, with the
    /// parent's separator `parent_key` as this page's first key; returns the
    /// sibling's last key, the new separator.
    pub fn steal_high_from(&mut self, other: &mut DirectoryPage, parent_key: u32) -> (r: u32)
        requires
            old(self).wf(),
            old(other).wf(),
            old(self).keys@.len() < DIR_KEY_COUNT,
            old(other).keys@.len() > 0,
        ensures
            final(self).wf(),
            final(other).wf(),
            r == old(other).keys@.last(),
            final(self).keys@ == seq![parent_key] + old(self).keys@,
            final(self).pointers@ == seq![old(other).pointers@.last()] + old(self).pointers@,
            final(other).keys@ == old(other).keys@.drop_last(),
            final(other).pointers@ == old(other).pointers@.drop_last(),
    {
        let p = other.pointers.pop().unwrap();
        let k = other.keys.pop().unwrap();
        self.keys.insert(0, parent_key);
        self.pointers.insert(0, p);
        proof {
            assert(self.keys@ == seq![parent_key] + old(self).keys@);
            assert(self.pointers@ == seq![p] + old(self).pointers@);
        }
        k
    }

    /// Takes the first pointer of the following sibling `other`, with the
    /// parent's separator `parent_key` as this page's last key; returns the
    /// sibling's first key, the new separator.
    pub fn steal_low_from(&mut self, other: &mut DirectoryPage, parent_key: u32) -> (r: u32)
        requires
            old(self).wf(),
            old(other).wf(),
            old(self).keys@.len() < DIR_KEY_COUNT,
            old(other).keys@.len() > 0,
        ensures
            final(self).wf(),
            final(other).wf(),
            r == old(other).keys@[0],
            final(self).keys@ == old(self).keys@.push(parent_key),
            final(self).pointers@ == old(self).pointers@.push(old(other).pointers@[0]),
            final(other).keys@ == old(other).keys@.subrange(1, old(other).keys@.len() as int),
            final(other).pointers@ == old(other).pointers@.subrange(
                1,
                old(other).pointers@.len() as int,
            ),
    {
        let k = other.keys.remove(0);
        let p = other.pointers.remove(0);
        self.keys.push(parent_key);
        self.pointers.push(p);
        k
    }

    /// Appends the separator `parent_key` and then all keys and pointers of
    /// the following sibling `other`.
    pub fn merge_with(&mut self, other: &DirectoryPage, parent_key: u32)
        requires
            old(self).wf(),
            other.wf(),
            old(self).keys@.len() + other.keys@.len() + 1 <= DIR_KEY_COUNT,
        ensures
            final(self).wf(),
            final(self).keys@ == old(self).keys@.push(parent_key) + other.keys@,
            final(self).pointers@ == old(self).pointers@ + other.pointers@,
    {
        self.keys.push(parent_key);
        let ghost k0 = self.keys@;
        let ghost p0 = self.pointers@;
        let mut i: usize = 0;
        while i < other.pointers.len()
            invariant
                other.wf(),
                i <= other.pointers@.len(),
                k0.len() + other.keys@.len() <= DIR_KEY_COUNT,
                self.keys@ == k0 + other.keys@.subrange(0, if i == 0 { 0 } else { i - 1 }),
                self.pointers@ == p0 + other.pointers@.subrange(0, i as int),
            decreases other.pointers@.len() - i,
        {
            if i > 0 {
                self.keys.push(other.keys[i - 1]);
            }
            self.pointers.push(other.pointers[i]);
            i = i + 1;
            proof {
                assert(self.keys@ == k0 + other.keys@.subrange(0, i - 1));
                assert(self.pointers@ == p0 + other.pointers@.subrange(0, i as int));
            }
        }
        proof {
            assert(other.keys@.subrange(0, i - 1) == other.keys@);
            assert(other.pointers@.subrange(0, i as int) == other.pointers@);
        }
    }

    /// A copy of the page.
    pub fn duplicate(&self) -> (r: DirectoryPage)
        ensures
            r.keys@ == self.keys@,
            r.pointers@ == self.pointers@,
    {
        let mut keys: Vec<u32> = Vec::new();
        let mut i: usize = 0;
        while i < self.keys.len()
            invariant
                i <= self.keys@.len(),
                keys@ == self.keys@.subrange(0, i as int),
            decreases self.keys@.len() - i,
        {
            keys.push(self.keys[i]);
            i = i + 1;
            proof {
                assert(keys@ == self.keys@.subrange(0, i as int));
            }
        }
        let mut pointers: Vec<PagePointer> = Vec::new();
        let mut j: usize = 0;
        while j < self.pointers.len()
            invariant
                j <= self.pointers@.len(),
                pointers@ == self.pointers@.subrange(0, j as int),
            decreases self.pointers@.len() - j,
        {
            pointers.push(self.pointers[j]);
            j = j + 1;
            proof {
                assert(pointers@ == self.pointers@.subrange(0, j as int));
            }
        }
        proof {
            assert(keys@ == self.keys@.subrange(0, i as int));
            assert(self.keys@.subrange(0, i as int) == self.keys@);
            assert(self.pointers@.subrange(0, j as int) == self.pointers@);
        }
        DirectoryPage { keys, pointers }
    }
}

} // verus!
