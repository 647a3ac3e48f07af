pub mod down_child;
pub mod insert;
pub mod range;

use vstd::prelude::*;

use crate::forest::{child_of, Forest, ForestView};
use crate::leaf_node::LeafNode;
use crate::order::Ordered;
use crate::skip_node::{brother_count, has_brother, linked, SkipNode};
use self::down_child::DownType;
use self::range::{combined, Range};

verus! {

/// An index node: its first child in the level below, and the range of the
/// items under it.
pub type InternalNode<T> = SkipNode<(DownType, Range<T>)>;

/// The range of the group of node `i`, from node `i` on: its own range widened
/// by those of the brothers after it.
pub open spec fn node_range<T: Ordered>(level: Seq<InternalNode<T>>, i: int) -> Range<T>
    decreases level.len() - i,
{
    if has_brother(level, i) {
        combined(level[i].payload.1, node_range(level, i + 1))
    } else {
        level[i].payload.1
    }
}

/// The range of the group of node `i` holds the range of every node of the
/// group, and its bounds are the bounds of nodes of the group: the smallest
/// minimum and the largest maximum among them.
pub proof fn lemma_node_range_group<T: Ordered>(level: Seq<InternalNode<T>>, i: int)
    requires
        0 <= i < level.len(),
    ensures
        forall|p: int|
            i <= p < i + brother_count(level, i) ==> node_range(level, i).min_key() <= (
            #[trigger] level[p]).payload.1.min_key() && level[p].payload.1.max_key() <= node_range(
                level,
                i,
            ).max_key(),
        exists|p: int|
            i <= p < i + brother_count(level, i) && node_range(level, i).min_key() == (
            #[trigger] level[p]).payload.1.min_key(),
        exists|p: int|
            i <= p < i + brother_count(level, i) && node_range(level, i).max_key() == (
            #[trigger] level[p]).payload.1.max_key(),
    decreases level.len() - i,
{
    if has_brother(level, i) {
        lemma_node_range_group(level, i + 1);
        let r = node_range(level, i);
        let rest = node_range(level, i + 1);
        let own = level[i].payload.1;
        if own.min_key() <= rest.min_key() {
            assert(r.min_key() == level[i].payload.1.min_key());
        } else {
            let q = choose|p: int|
                i + 1 <= p < i + 1 + brother_count(level, i + 1) && rest.min_key() == (
                #[trigger] level[p]).payload.1.min_key();
            assert(r.min_key() == level[q].payload.1.min_key());
        }
        if rest.max_key() <= own.max_key() {
            assert(r.max_key() == level[i].payload.1.max_key());
        } else {
            let q = choose|p: int|
                i + 1 <= p < i + 1 + brother_count(level, i + 1) && rest.max_key() == (
                #[trigger] level[p]).payload.1.max_key();
            assert(r.max_key() == level[q].payload.1.max_key());
        }
    } else {
        assert(node_range(level, i).min_key() == level[i].payload.1.min_key());
        assert(node_range(level, i).max_key() == level[i].payload.1.max_key());
    }
}

impl<T> ForestView<T> {
    /// How many children node `i` of index level `k` has.
    pub open spec fn children_count(self, k: int, i: int) -> nat {
        let c = child_of(self.levels[k][i]);
        if k == 0 {
            brother_count(self.leaves, c)
        } else {
            brother_count(self.levels[k - 1], c)
        }
    }

    /// The leaf reached from node `i` of index level `k` by going down to the
    /// first child again and again.
    pub open spec fn first_leaf(self, k: int, i: int) -> int
        decreases k,
    {
        if k <= 0 {
            child_of(self.levels[0][i])
        } else {
            self.first_leaf(k - 1, child_of(self.levels[k][i]))
        }
    }
}

pub proof fn lemma_first_leaf_bound<T>(v: ForestView<T>, k: int, i: int)
    requires
        v.wf(),
        0 <= k < v.levels.len(),
        0 <= i < v.levels[k].len(),
    ensures
        0 <= v.first_leaf(k, i) < v.leaves.len(),
    decreases k,
{
    assert(v.child_ok(k, v.levels[k][i].payload.0));
    if k > 0 {
        lemma_first_leaf_bound(v, k - 1, child_of(v.levels[k][i]));
    }
}

impl<T> InternalNode<T> {
    pub fn child(&self) -> (r: &DownType)
        ensures
            *r == self.payload.0,
    {
        &self.payload.0
    }

    pub fn child_mut(&mut self) -> (r: &mut DownType)
        ensures
            *r == old(self).payload.0,
            final(self).payload.1 == old(self).payload.1,
            final(self).next_ptr == old(self).next_ptr,
            final(self).payload.0 == *final(r),
    {
        &mut self.payload.0
    }

    pub fn range(&self) -> (r: &Range<T>)
        ensures
            *r == self.payload.1,
    {
        &self.payload.1
    }

    pub fn range_mut(&mut self) -> (r: &mut Range<T>)
        ensures
            *r == old(self).payload.1,
            final(self).payload.0 == old(self).payload.0,
            final(self).next_ptr == old(self).next_ptr,
            final(self).payload.1 == *final(r),
    {
        &mut self.payload.1
    }

    /// How many index levels there are from node `i` of index level `k` down
    /// to the leaves, its own included.
    pub fn height(forest: &Forest<T>, k: usize, i: usize) -> (r: usize)
        requires
            forest@.wf(),
            k < forest.levels.len(),
            i < forest@.levels[k as int].len(),
        ensures
            r == k + 1,
        decreases k,
    {
        assert(forest@.child_ok(k as int, forest@.levels[k as int][i as int].payload.0));
        match forest.levels[k][i].child() {
            DownType::Internal(c) => {
                let v = Self::height(forest, k - 1, *c);
                v + 1
            },
            DownType::Leaf(_) => 1,
        }
    }

    /// How many children node `i` of index level `k` has.
    pub fn children_num(forest: &Forest<T>, k: usize, i: usize) -> (r: usize)
        requires
            forest@.wf(),
            k < forest.levels.len(),
            i < forest@.levels[k as int].len(),
        ensures
            r == forest@.children_count(k as int, i as int),
    {
        assert(forest@.child_ok(k as int, forest@.levels[k as int][i as int].payload.0));
        match forest.levels[k][i].child() {
            DownType::Internal(c) => {
                assert(linked(forest@.levels[k - 1]));
                assert(forest@.levels[k - 1] == forest.levels@[k - 1]@);
                SkipNode::brother_num(&forest.levels[k - 1], *c)
            },
            DownType::Leaf(c) => SkipNode::brother_num(&forest.leaves, *c),
        }
    }

    /// The index of the leaf reached from node `i` of index level `k` by going
    /// down to the first child again and again.
    pub fn go_leaf_raw(forest: &Forest<T>, k: usize, i: usize) -> (r: usize)
        requires
            forest@.wf(),
            k < forest.levels.len(),
            i < forest@.levels[k as int].len(),
        ensures
            r == forest@.first_leaf(k as int, i as int),
            r < forest.leaves.len(),
        decreases k,
    {
        assert(forest@.child_ok(k as int, forest@.levels[k as int][i as int].payload.0));
        proof {
            lemma_first_leaf_bound(forest@, k as int, i as int);
        }
        match forest.levels[k][i].child() {
            DownType::Internal(c) => Self::go_leaf_raw(forest, k - 1, *c),
            DownType::Leaf(c) => *c,
        }
    }

    /// The leaf reached from node `i` of index level `k` by going down to the
    /// first child again and again.
    pub fn go_leaf(forest: &Forest<T>, k: usize, i: usize) -> (r: &LeafNode<T>)
        requires
            forest@.wf(),
            k < forest.levels.len(),
            i < forest@.levels[k as int].len(),
        ensures
            *r == forest@.leaves[forest@.first_leaf(k as int, i as int)],
    {
        let l = Self::go_leaf_raw(forest, k, i);
        &forest.leaves[l]
    }
}

impl<T: Ordered> InternalNode<T> {
    /// The range of the group of node `i`, from node `i` on.
    pub fn gen_range(level: &Vec<InternalNode<T>>, i: usize) -> (r: Range<T>)
        requires
            linked(level@),
            i < level.len(),
        ensures
            r == node_range(level@, i as int),
            forall|p: int|
                i <= p < i + brother_count(level@, i as int) ==> r.min_key() <= (#[trigger] level@[p]).payload.1.min_key()
                    && level@[p].payload.1.max_key() <= r.max_key(),
            exists|p: int|
                i <= p < i + brother_count(level@, i as int) && r.min_key() == (
                #[trigger] level@[p]).payload.1.min_key(),
            exists|p: int|
                i <= p < i + brother_count(level@, i as int) && r.max_key() == (
                #[trigger] level@[p]).payload.1.max_key(),
        decreases level.len() - i,
    {
        proof {
            lemma_node_range_group(level@, i as int);
        }
        let mut init = level[i].range().clone();
        if let Some(j) = level[i].go_brother_raw() {
            let max = Self::gen_range(level, j);
            init.combine(&max);
        }
        init
    }
}

} // verus!
