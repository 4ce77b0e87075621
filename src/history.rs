use vstd::prelude::*;
use crate::bplus_tree::BPlusTree;
use crate::leaf_page::{
    delete_pairs, lemma_delete_pairs_sorted, lemma_lookup_delete, lemma_lookup_put,
    lemma_put_pairs_sorted, lookup, put_pairs, sorted_pairs,
};
use crate::tree_spec::chain_pairs;

verus! {

/// A change to the tree's contents.
pub enum TreeOp {
    /// Write a value under a key.
    Put(u32, u32),
    /// Remove a key.
    Delete(u32),
}

/// The pairs after applying one operation to the pairs `s`.
pub open spec fn apply_op(s: Seq<(u32, u32)>, op: TreeOp) -> Seq<(u32, u32)> {
    match op {
        TreeOp::Put(k, v) => put_pairs(s, k, v),
        TreeOp::Delete(k) => delete_pairs(s, k),
    }
}

/// The pairs left by applying `ops` in order to no pairs at all.
pub open spec fn apply_ops(ops: Seq<TreeOp>) -> Seq<(u32, u32)>
    decreases ops.len(),
{
    if ops.len() == 0 {
        Seq::empty()
    } else {
        apply_op(apply_ops(ops.drop_last()), ops.last())
    }
}

/// The value that the last operation on `key` in `ops` left: the value of
/// its last put, or none when that was a delete or `key` was never touched.
pub open spec fn last_write(ops: Seq<TreeOp>, key: u32) -> Option<u32>
    decreases ops.len(),
{
    if ops.len() == 0 {
        None
    } else {
        match ops.last() {
            TreeOp::Put(k, v) => if k == key {
                Some(v)
            } else {
                last_write(ops.drop_last(), key)
            },
            TreeOp::Delete(k) => if k == key {
                None
            } else {
                last_write(ops.drop_last(), key)
            },
        }
    }
}

/// The tree's pairs, read along its leaf chain.
pub open spec fn tree_pairs(t: BPlusTree) -> Seq<(u32, u32)> {
    chain_pairs(t.pages@, t.meta.data_head, t.pages@.len())
}

/// `after` is what a successful `op` leaves of `before`, as `put` and
/// `delete` state it: from a consistent tree, a consistent tree whose pairs
/// are the old ones with the operation applied.
pub open spec fn op_done(before: BPlusTree, after: BPlusTree, op: TreeOp) -> bool {
    &&& after.wf()
    &&& before.consistent() ==> after.consistent() && tree_pairs(after) == apply_op(tree_pairs(before), op)
}

/// Applied in order to no pairs, the operations leave pairs in strictly
/// ascending key order that hold, under each key, the last value written
/// to it, and nothing under a key last deleted or never written.
pub proof fn lemma_apply_ops(ops: Seq<TreeOp>)
    ensures
        sorted_pairs(apply_ops(ops)),
        forall|k: u32| #[trigger] lookup(apply_ops(ops), k) == last_write(ops, k),
    decreases ops.len(),
{
    if ops.len() > 0 {
        let prev = ops.drop_last();
        lemma_apply_ops(prev);
        match ops.last() {
            TreeOp::Put(key, value) => {
                lemma_put_pairs_sorted(apply_ops(prev), key, value);
                assert forall|k: u32| #[trigger] lookup(apply_ops(ops), k) == last_write(ops, k) by {
                    lemma_lookup_put(apply_ops(prev), key, value, k);
                }
            },
            TreeOp::Delete(key) => {
                lemma_delete_pairs_sorted(apply_ops(prev), key);
                assert forall|k: u32| #[trigger] lookup(apply_ops(ops), k) == last_write(ops, k) by {
                    lemma_lookup_delete(apply_ops(prev), key, k);
                }
            },
        }
    }
}

/// Any run of successful puts and deletes from a fresh tree: `trees[0]` is
/// the fresh tree and `trees[i + 1]` what `ops[i]` left of `trees[i]`.
/// Every tree of the run is consistent, lists the pairs that the operations
/// so far leave, and finds under each key the last value written to it.
pub proof fn lemma_history(trees: Seq<BPlusTree>, ops: Seq<TreeOp>)
    requires
        trees.len() == ops.len() + 1,
        trees[0].wf(),
        trees[0].consistent(),
        tree_pairs(trees[0]) == Seq::<(u32, u32)>::empty(),
        forall|i: int| 0 <= i < ops.len() ==> op_done(trees[i], #[trigger] trees[i + 1], ops[i]),
    ensures
        forall|i: int|
            0 <= i < trees.len() ==> (#[trigger] trees[i]).consistent() && tree_pairs(trees[i])
                == apply_ops(ops.subrange(0, i)),
        forall|k: u32| #[trigger] trees.last().lookup_spec(k) == last_write(ops, k),
{
    assert forall|i: int|
        0 <= i < trees.len() implies (#[trigger] trees[i]).consistent() && tree_pairs(trees[i]) == apply_ops(
            ops.subrange(0, i),
        ) by {
        lemma_history_prefix(trees, ops, i);
    }
    let last = trees.last();
    lemma_history_prefix(trees, ops, trees.len() - 1);
    assert(ops.subrange(0, ops.len() as int) =~= ops);
    assert(last == trees[trees.len() - 1]);
    lemma_apply_ops(ops);
    assert forall|k: u32| #[trigger] last.lookup_spec(k) == last_write(ops, k) by {
        last.lemma_consistent_lookup(k);
    }
}

proof fn lemma_history_prefix(trees: Seq<BPlusTree>, ops: Seq<TreeOp>, i: int)
    requires
        trees.len() == ops.len() + 1,
        trees[0].wf(),
        trees[0].consistent(),
        tree_pairs(trees[0]) == Seq::<(u32, u32)>::empty(),
        forall|j: int| 0 <= j < ops.len() ==> op_done(trees[j], #[trigger] trees[j + 1], ops[j]),
        0 <= i < trees.len(),
    ensures
        trees[i].wf(),
        trees[i].consistent(),
        tree_pairs(trees[i]) == apply_ops(ops.subrange(0, i)),
    decreases i,
{
    if i == 0 {
        assert(apply_ops(ops.subrange(0, 0)) == Seq::<(u32, u32)>::empty());
    } else {
        lemma_history_prefix(trees, ops, i - 1);
        let j = i - 1;
        assert(op_done(trees[j], trees[j + 1], ops[j]));
        assert(ops.subrange(0, i).drop_last() =~= ops.subrange(0, i - 1));
        assert(ops.subrange(0, i).last() == ops[i - 1]);
    }
}

} // verus!
