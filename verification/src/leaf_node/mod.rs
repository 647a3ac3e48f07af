use std::sync::Arc;
use vstd::prelude::*;

use crate::forest::Forest;
use crate::internal_node::range::{combined, share, Range};
use crate::order::Ordered;
use crate::skip_list::shape::chained;
use crate::skip_node::{brother_count, has_brother, linked, SkipNode};

verus! {

/// A node of the leaf level: one item.
pub type LeafNode<T> = SkipNode<Arc<T>>;

pub open spec fn leaf_key<T: Ordered>(n: LeafNode<T>) -> int {
    (*n.payload).key()
}

/// The range of the items of the group of leaf `i`, from leaf `i` on.
pub open spec fn leaf_range<T: Ordered>(leaves: Seq<LeafNode<T>>, i: int) -> Range<T>
    decreases leaves.len() - i,
{
    let own = Range { min: leaves[i].payload, max: leaves[i].payload };
    if has_brother(leaves, i) {
        combined(own, leaf_range(leaves, i + 1))
    } else {
        own
    }
}

/// The range of the group of leaf `i` holds the key of every leaf of the
/// group, and its bounds are keys of leaves of the group: the smallest and
/// the largest among them.
pub proof fn lemma_leaf_range_group<T: Ordered>(leaves: Seq<LeafNode<T>>, i: int)
    requires
        0 <= i < leaves.len(),
    ensures
        forall|p: int|
            i <= p < i + brother_count(leaves, i) ==> leaf_range(leaves, i).min_key() <= leaf_key(#[trigger] leaves[p])
                <= leaf_range(leaves, i).max_key(),
        exists|p: int|
            i <= p < i + brother_count(leaves, i) && leaf_range(leaves, i).min_key() == leaf_key(#[trigger] leaves[p]),
        exists|p: int|
            i <= p < i + brother_count(leaves, i) && leaf_range(leaves, i).max_key() == leaf_key(#[trigger] leaves[p]),
    decreases leaves.len() - i,
{
    if has_brother(leaves, i) {
        lemma_leaf_range_group(leaves, i + 1);
        let r = leaf_range(leaves, i);
        let rest = leaf_range(leaves, i + 1);
        if leaf_key(leaves[i]) <= rest.min_key() {
            assert(r.min_key() == leaf_key(leaves[i]));
        } else {
            let q = choose|p: int|
                i + 1 <= p < i + 1 + brother_count(leaves, i + 1) && rest.min_key() == leaf_key(#[trigger] leaves[p]);
            assert(r.min_key() == leaf_key(leaves[q]));
        }
        if rest.max_key() <= leaf_key(leaves[i]) {
            assert(r.max_key() == leaf_key(leaves[i]));
        } else {
            let q = choose|p: int|
                i + 1 <= p < i + 1 + brother_count(leaves, i + 1) && rest.max_key() == leaf_key(#[trigger] leaves[p]);
            assert(r.max_key() == leaf_key(leaves[q]));
        }
    } else {
        assert(leaf_range(leaves, i).min_key() == leaf_key(leaves[i]));
    }
}

/// The leaf after which an item of key `key` goes, looking from leaf `i` on:
/// the first leaf `j` whose key is at most `key` while the key of leaf `j + 1`
/// is above it, or the last leaf linked from leaf `i`.
pub open spec fn leaf_slot<T: Ordered>(leaves: Seq<LeafNode<T>>, i: int, key: int) -> int
    decreases leaves.len() - i,
{
    if 0 <= i && i + 1 < leaves.len() && leaves[i].next_ptr is Some && !(leaf_key(leaves[i]) <= key
        && key < leaf_key(leaves[i + 1])) {
        leaf_slot(leaves, i + 1, key)
    } else {
        i
    }
}

pub proof fn lemma_leaf_slot_bound<T: Ordered>(leaves: Seq<LeafNode<T>>, i: int, key: int)
    requires
        0 <= i < leaves.len(),
    ensures
        i <= leaf_slot(leaves, i, key) < leaves.len(),
    decreases leaves.len() - i,
{
    if 0 <= i && i + 1 < leaves.len() && leaves[i].next_ptr is Some && !(leaf_key(leaves[i]) <= key
        && key < leaf_key(leaves[i + 1])) {
        lemma_leaf_slot_bound(leaves, i + 1, key);
    }
}

/// Over a leaf level whose leaves all link on, `leaf_slot` is the first leaf
/// from `i` on that `key` fits just after (its key at most `key`, the next
/// key above it), else the last leaf.
pub proof fn lemma_leaf_slot_direct<T: Ordered>(leaves: Seq<LeafNode<T>>, i: int, key: int)
    requires
        chained(leaves),
        0 <= i < leaves.len(),
    ensures
        i <= leaf_slot(leaves, i, key) < leaves.len(),
        forall|p: int|
            i <= p < leaf_slot(leaves, i, key) ==> !(leaf_key(#[trigger] leaves[p]) <= key && key < leaf_key(
                leaves[p + 1],
            )),
        leaf_slot(leaves, i, key) + 1 == leaves.len() || (leaf_key(leaves[leaf_slot(leaves, i, key)]) <= key
            && key < leaf_key(leaves[leaf_slot(leaves, i, key) + 1])),
    decreases leaves.len() - i,
{
    if i + 1 < leaves.len() {
        assert(leaves[i].next_ptr is Some);
        if !(leaf_key(leaves[i]) <= key && key < leaf_key(leaves[i + 1])) {
            lemma_leaf_slot_direct(leaves, i + 1, key);
        }
    }
}

impl<T> LeafNode<T> {
    pub fn value(&self) -> (r: &T)
        ensures
            *r == *self.payload,
    {
        &*self.payload
    }
}

impl<T: Ordered> LeafNode<T> {
    /// Puts `data` into the leaf level: walking from leaf `i`, just after the
    /// first leaf whose item is not above it while the next one's is, or after
    /// the last leaf reached.
    pub fn insert(forest: &mut Forest<T>, i: usize, data: LeafNode<T>)
        requires
            old(forest)@.wf(),
            i < old(forest).leaves.len(),
            old(forest).leaves.len() + 1 < usize::MAX,
        ensures
            final(forest)@ == old(forest)@.leaf_inserted(
                leaf_slot(old(forest)@.leaves, i as int, leaf_key(data)),
                data,
            ),
            final(forest)@.wf(),
    {
        let ghost leaves = forest@.leaves;
        let ghost key = leaf_key(data);
        let mut j = i;
        loop
            invariant
                forest@.leaves == leaves,
                linked(leaves),
                j < leaves.len(),
                key == leaf_key(data),
                leaf_slot(leaves, j as int, key) == leaf_slot(leaves, i as int, key),
            ensures
                j == leaf_slot(leaves, i as int, key),
                j < leaves.len(),
            decreases leaves.len() - j,
        {
            match forest.leaves[j].next_ptr {
                Some(n) => {
                    let next = n.next();
                    assert(next == j + 1);
                    if !(&*data.payload).less_than(&*forest.leaves[j].payload) && (&*data.payload).less_than(
                        &*forest.leaves[next].payload,
                    ) {
                        break ;
                    } else {
                        j = next;
                    }
                },
                None => {
                    break ;
                },
            }
        }
        forest.insert_leaf_after(j, data);
    }

    /// The range of the items of the group of leaf `i`, from leaf `i` on.
    pub fn gen_range(leaves: &Vec<LeafNode<T>>, i: usize) -> (r: Range<T>)
        requires
            linked(leaves@),
            i < leaves.len(),
        ensures
            r == leaf_range(leaves@, i as int),
            forall|p: int|
                i <= p < i + brother_count(leaves@, i as int) ==> r.min_key() <= leaf_key(#[trigger] leaves@[p])
                    <= r.max_key(),
            exists|p: int|
                i <= p < i + brother_count(leaves@, i as int) && r.min_key() == leaf_key(#[trigger] leaves@[p]),
            exists|p: int|
                i <= p < i + brother_count(leaves@, i as int) && r.max_key() == leaf_key(#[trigger] leaves@[p]),
        decreases leaves.len() - i,
    {
        proof {
            lemma_leaf_range_group(leaves@, i as int);
        }
        let mut init = Range::new(share(&leaves[i].payload));
        if let Some(j) = leaves[i].go_brother_raw() {
            let next = Self::gen_range(leaves, j);
            init.combine(&next);
        }
        init
    }
}

} // verus!
