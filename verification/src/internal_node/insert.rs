use vstd::prelude::*;

use super::down_child::{child_index, DownType};
use super::range::{combined, Range};
use super::{node_range, InternalNode};
use crate::forest::{child_of, lemma_shift_children_len, Forest, ForestView};
use crate::leaf_node::{leaf_key, leaf_range, leaf_slot, LeafNode};
use crate::skip_list::shape::{chained, count_not_above, leaf_values};
use super::range::updated;
use super::range::share;
use crate::order::Ordered;
use crate::skip_node::next::NextMode;
use crate::skip_node::linked::{
    lemma_inserted_after_one_group, lemma_removed_after_count, lemma_removed_after_one_group, removed_after,
};
use crate::skip_node::{
    brother_count, has_brother, lemma_brother_count_from, lemma_one_group_links, linked, one_group, SkipNode,
};

verus! {

/// The node of an index level, looking from node `i` on, whose group should
/// take an item of key `key`: the first node whose range holds the key, else
/// the last node whose range lies below it; `None` when the key lies below
/// the range of node `i`.
pub open spec fn level_slot<T: Ordered>(level: Seq<InternalNode<T>>, i: int, key: int) -> Option<int>
    decreases level.len() - i,
{
    let r = level[i].payload.1;
    if r.min_key() <= key && key <= r.max_key() {
        Some(i)
    } else if key < r.min_key() {
        None
    } else if 0 <= i && i + 1 < level.len() && level[i].next_ptr is Some {
        match level_slot(level, i + 1, key) {
            Some(m) => Some(m),
            None => Some(i),
        }
    } else {
        Some(i)
    }
}

pub proof fn lemma_level_slot<T: Ordered>(level: Seq<InternalNode<T>>, i: int, key: int)
    requires
        0 <= i < level.len(),
    ensures
        match level_slot(level, i, key) {
            Some(m) => i <= m < level.len() && level[m].payload.1.min_key() <= key,
            None => key < level[i].payload.1.min_key(),
        },
    decreases level.len() - i,
{
    if i + 1 < level.len() {
        lemma_level_slot(level, i + 1, key);
    }
}

/// Over a level whose nodes all link on, `level_slot` is the first node `m`
/// from `i` on whose range does not lie wholly below `key`: `m` itself where
/// its range holds `key`, the node before it where `key` lies below its
/// range (`None` when that would be before `i`), or the last node where every
/// range from `i` on lies below `key`.
pub proof fn lemma_level_slot_direct<T: Ordered>(level: Seq<InternalNode<T>>, i: int, key: int)
    requires
        chained(level),
        0 <= i < level.len(),
    ensures
        match level_slot(level, i, key) {
            Some(m) => {
                &&& i <= m < level.len()
                &&& forall|p: int| i <= p < m ==> (#[trigger] level[p]).payload.1.max_key() < key
                &&& level[m].payload.1.min_key() <= key
                &&& key <= level[m].payload.1.max_key() || m + 1 == level.len() || key
                    < level[m + 1].payload.1.min_key()
            },
            None => key < level[i].payload.1.min_key(),
        },
    decreases level.len() - i,
{
    if i + 1 < level.len() {
        assert(level[i].next_ptr is Some);
        lemma_level_slot_direct(level, i + 1, key);
    }
}

impl<T: Ordered> ForestView<T> {
    /// The range of the group of node `c` of the level under index level `k`,
    /// from node `c` on.
    pub open spec fn below_range(self, k: int, c: int) -> Range<T> {
        if k == 0 {
            leaf_range(self.leaves, c)
        } else {
            node_range(self.levels[k - 1], c)
        }
    }

    /// What `check_split` leaves: where node `i` of index level `k` has more
    /// than two children, its group of children ends after the first one, node
    /// `i` keeps the range of that child, and a new node just after node `i`
    /// takes the other children and their range.
    pub open spec fn split_result(self, k: int, i: int) -> Self {
        if self.children_count(k, i) > 2 {
            let c = child_of(self.levels[k][i]);
            let v1 = self.below_mode(k, c, NextMode::OuterBrother);
            let down = if k == 0 {
                DownType::Leaf((c + 1) as usize)
            } else {
                DownType::Internal((c + 1) as usize)
            };
            let node = SkipNode { payload: (down, v1.below_range(k, c + 1)), next_ptr: None };
            v1.range_set(k, i, v1.below_range(k, c)).node_inserted(k, i, node)
        } else {
            self
        }
    }

    /// What `check_combine` leaves: walking the group of node `i` of index
    /// level `k` while nodes have more than one child, the first node with a
    /// single child is merged with the brother after it when that one has a
    /// single child too: it widens its range by the brother's, the two
    /// children join one group, and the brother leaves the level.
    pub open spec fn combine_result(self, k: int, i: int) -> Self
        decreases self.levels[k].len() - i,
    {
        if self.children_count(k, i) > 1 {
            if has_brother(self.levels[k], i) {
                self.combine_result(k, i + 1)
            } else {
                self
            }
        } else if has_brother(self.levels[k], i) {
            if self.children_count(k, i + 1) == 1 && self.children_count(k, i) == 1 {
                let c = child_of(self.levels[k][i]);
                self.range_set(
                    k,
                    i,
                    combined(self.levels[k][i].payload.1, self.levels[k][i + 1].payload.1),
                ).below_mode(k, c, NextMode::Brother).node_removed(k, i)
            } else {
                self
            }
        } else {
            self
        }
    }
}

impl<T> ForestView<T> {
    /// Node `i` of index level `k` given range `r`.
    pub open spec fn range_set(self, k: int, i: int, r: Range<T>) -> Self {
        ForestView {
            leaves: self.leaves,
            levels: self.levels.update(
                k,
                self.levels[k].update(
                    i,
                    SkipNode { payload: (self.levels[k][i].payload.0, r), next_ptr: self.levels[k][i].next_ptr },
                ),
            ),
        }
    }

    pub proof fn lemma_range_set_wf(self, k: int, i: int, r: Range<T>)
        requires
            self.wf(),
            0 <= k < self.levels.len(),
            0 <= i < self.levels[k].len(),
        ensures
            self.range_set(k, i, r).wf(),
            self.range_set(k, i, r).levels.len() == self.levels.len(),
            forall|j: int|
                0 <= j < self.levels.len() ==> (#[trigger] self.range_set(k, i, r).levels[j]).len()
                    == self.levels[j].len(),
            self.range_set(k, i, r).leaves == self.leaves,
    {
        let s = self.range_set(k, i, r);
        assert forall|j: int| 0 <= j < s.levels.len() implies linked(#[trigger] s.levels[j]) by {
            assert(linked(self.levels[j]));
            if j == k {
                assert forall|m: int| 0 <= m < s.levels[j].len() implies match #[trigger] s.levels[j][m].next_ptr {
                    Some(n) => n.ptr == m + 1 && m + 1 < s.levels[j].len(),
                    None => true,
                } by {
                    assert(self.levels[j][m].next_ptr == self.levels[j][m].next_ptr);
                }
            }
        }
        assert forall|j: int, m: int|
            0 <= j < s.levels.len() && 0 <= m < s.levels[j].len() implies s.child_ok(
            j,
            #[trigger] s.levels[j][m].payload.0,
        ) by {
            assert(self.child_ok(j, self.levels[j][m].payload.0));
        }
    }
}

impl<T: Ordered> Forest<T> {
    /// Widens the range of node `i` of index level `k` to take in `value`.
    fn update_range(&mut self, k: usize, i: usize, value: std::sync::Arc<T>)
        requires
            old(self)@.wf(),
            k < old(self).levels.len(),
            i < old(self)@.levels[k as int].len(),
        ensures
            final(self)@ == old(self)@.range_set(
                k as int,
                i as int,
                super::range::updated(old(self)@.levels[k as int][i as int].payload.1, value),
            ),
            final(self)@.wf(),
            final(self).levels.len() == old(self).levels.len(),
            forall|j: int|
                0 <= j < old(self).levels.len() ==> (#[trigger] final(self)@.levels[j]).len() == old(
                    self,
                )@.levels[j].len(),
            final(self)@.leaves == old(self)@.leaves,
    {
        assert(self@.levels[k as int] == self.levels@[k as int]@);
        let mut r = self.levels[k][i].range().clone();
        r.update(value);
        self.set_range(k, i, r);
    }

    /// Gives node `i` of index level `k` range `r`.
    fn set_range(&mut self, k: usize, i: usize, r: Range<T>)
        requires
            old(self)@.wf(),
            k < old(self).levels.len(),
            i < old(self)@.levels[k as int].len(),
        ensures
            final(self)@ == old(self)@.range_set(k as int, i as int, r),
            final(self)@.wf(),
            final(self).levels.len() == old(self).levels.len(),
            forall|j: int|
                0 <= j < old(self).levels.len() ==> (#[trigger] final(self)@.levels[j]).len() == old(
                    self,
                )@.levels[j].len(),
            final(self)@.leaves == old(self)@.leaves,
    {
        let ghost old_view = self@;
        proof {
            old_view.lemma_range_set_wf(k as int, i as int, r);
        }
        self.levels[k][i].payload.1 = r;
        assert(self@.levels[k as int] =~= old_view.range_set(k as int, i as int, r).levels[k as int]);
        assert(self@.levels =~= old_view.range_set(k as int, i as int, r).levels);
    }
}

impl<T: Ordered> InternalNode<T> {
    /// The node of index level `k`, looking from node `i` on, whose group
    /// should take `data`; `None` when `data` lies below the range of node `i`.
    pub fn find_level_insert(level: &Vec<InternalNode<T>>, i: usize, data: &T) -> (r: Option<usize>)
        requires
            linked(level@),
            i < level.len(),
        ensures
            r == (match level_slot(level@, i as int, data.key()) {
                Some(m) => Some(m as usize),
                None => None::<usize>,
            }),
        decreases level.len() - i,
    {
        proof {
            lemma_level_slot(level@, i as int, data.key());
        }
        let range = level[i].range();
        if range.in_range(data) {
            Some(i)
        } else if range.left_range(data) {
            None
        } else {
            match level[i].next_ptr {
                Some(ptr) => {
                    let ret = Self::find_level_insert(level, ptr.next(), data);
                    if let Some(node) = ret {
                        Some(node)
                    } else {
                        Some(i)
                    }
                },
                None => Some(i),
            }
        }
    }
}

pub proof fn lemma_node_inserted_frame<T>(v: ForestView<T>, k: int, i: int, node: InternalNode<T>)
    requires
        0 <= k < v.levels.len(),
        0 <= i < v.levels[k].len(),
    ensures
        v.unchanged_above(v.node_inserted(k, i, node), k),
        v.node_inserted(k, i, node).leaves == v.leaves,
        v.node_inserted(k, i, node).levels[k].len() == v.levels[k].len() + 1,
        forall|j: int| 0 <= j < k ==> #[trigger] v.node_inserted(k, i, node).levels[j] == v.levels[j],
{
    let w = v.node_inserted(k, i, node);
    if k + 1 < v.levels.len() {
        lemma_shift_children_len(v.levels[k + 1], i + 1, 1);
    }
}

pub proof fn lemma_node_removed_frame<T>(v: ForestView<T>, k: int, i: int)
    requires
        0 <= k < v.levels.len(),
        0 <= i < v.levels[k].len(),
        i + 1 < v.levels[k].len(),
    ensures
        v.unchanged_above(v.node_removed(k, i), k),
        v.node_removed(k, i).leaves == v.leaves,
        v.node_removed(k, i).levels[k].len() == v.levels[k].len() - 1,
        forall|j: int| 0 <= j < k ==> #[trigger] v.node_removed(k, i).levels[j] == v.levels[j],
{
    if k + 1 < v.levels.len() {
        lemma_shift_children_len(v.levels[k + 1], i + 1, -1);
    }
}

impl<T: Ordered> ForestView<T> {
    pub proof fn lemma_split_frame(self, k: int, i: int)
        requires
            self.wf(),
            0 <= k < self.levels.len(),
            0 <= i < self.levels[k].len(),
        ensures
            self.unchanged_above(self.split_result(k, i), k),
            self.split_result(k, i).leaves.len() == self.leaves.len(),
            forall|j: int| 0 <= j < k ==> (#[trigger] self.split_result(k, i).levels[j]).len() == self.levels[j].len(),
            self.levels[k].len() <= self.split_result(k, i).levels[k].len() <= self.levels[k].len() + 1,
    {
        if self.children_count(k, i) > 2 {
            let c = child_of(self.levels[k][i]);
            assert(self.child_ok(k, self.levels[k][i].payload.0));
            self.lemma_below_mode_wf(k, c, NextMode::OuterBrother);
            let v1 = self.below_mode(k, c, NextMode::OuterBrother);
            let v2 = v1.range_set(k, i, v1.below_range(k, c));
            v1.lemma_range_set_wf(k, i, v1.below_range(k, c));
            let down = if k == 0 {
                DownType::Leaf((c + 1) as usize)
            } else {
                DownType::Internal((c + 1) as usize)
            };
            let node = SkipNode { payload: (down, v1.below_range(k, c + 1)), next_ptr: None };
            lemma_node_inserted_frame(v2, k, i, node);
            assert(self.unchanged_above(v1, k));
            assert(v1.unchanged_above(v2, k));
        }
    }

    /// The range of node `m` of index level `k` is the tightest range that
    /// holds its children: the keys of its leaves, or the ranges of its child
    /// nodes, with its bounds taken from them.
    pub open spec fn range_fits_children(self, k: int, m: int) -> bool {
        let r = self.levels[k][m].payload.1;
        let c = child_of(self.levels[k][m]);
        let n = self.children_count(k, m);
        if k == 0 {
            &&& forall|p: int| c <= p < c + n ==> r.min_key() <= leaf_key(#[trigger] self.leaves[p]) <= r.max_key()
            &&& exists|p: int| c <= p < c + n && r.min_key() == leaf_key(#[trigger] self.leaves[p])
            &&& exists|p: int| c <= p < c + n && r.max_key() == leaf_key(#[trigger] self.leaves[p])
        } else {
            &&& forall|p: int|
                c <= p < c + n ==> r.min_key() <= (#[trigger] self.levels[k - 1][p]).payload.1.min_key()
                    && self.levels[k - 1][p].payload.1.max_key() <= r.max_key()
            &&& exists|p: int| c <= p < c + n && r.min_key() == (#[trigger] self.levels[k - 1][p]).payload.1.min_key()
            &&& exists|p: int| c <= p < c + n && r.max_key() == (#[trigger] self.levels[k - 1][p]).payload.1.max_key()
        }
    }

    /// A split of node `i` of index level `k` with more than two children
    /// leaves it one child and gives the rest to the new node just after it;
    /// with at most two children, nothing changes.
    pub proof fn lemma_split_counts(self, k: int, i: int)
        requires
            self.wf(),
            0 <= k < self.levels.len(),
            0 <= i < self.levels[k].len(),
        ensures
            self.children_count(k, i) <= 2 ==> self.split_result(k, i) == self,
            self.children_count(k, i) > 2 ==> {
                &&& self.split_result(k, i).levels[k].len() == self.levels[k].len() + 1
                &&& self.split_result(k, i).children_count(k, i) == 1
                &&& self.split_result(k, i).children_count(k, i + 1) == self.children_count(k, i) - 1
                &&& has_brother(self.split_result(k, i).levels[k], i)
                &&& self.split_result(k, i).range_fits_children(k, i)
                &&& self.split_result(k, i).range_fits_children(k, i + 1)
            },
            self.split_result(k, i).children_count(k, i) <= 2,
    {
        if self.children_count(k, i) > 2 {
            let c = child_of(self.levels[k][i]);
            assert(self.child_ok(k, self.levels[k][i].payload.0));
            let w = self.split_result(k, i);
            self.lemma_split_frame(k, i);
            assert(w.levels[k][i].payload.0 == self.levels[k][i].payload.0);
            assert(child_of(w.levels[k][i + 1]) == c + 1);
            let v1 = self.below_mode(k, c, NextMode::OuterBrother);
            assert(w.levels[k][i].payload.1 == v1.below_range(k, c));
            assert(w.levels[k][i + 1].payload.1 == v1.below_range(k, c + 1));
            if k == 0 {
                assert(has_brother(self.leaves, c));
                assert(w.leaves[c].next_ptr matches Some(n) ==> n.mode is OuterBrother);
                assert(!has_brother(w.leaves, c));
                lemma_brother_count_from(w.leaves, self.leaves, c + 1);
                assert(w.leaves == v1.leaves);
                crate::leaf_node::lemma_leaf_range_group(v1.leaves, c);
                crate::leaf_node::lemma_leaf_range_group(v1.leaves, c + 1);
            } else {
                assert(has_brother(self.levels[k - 1], c));
                assert(w.levels[k - 1][c].next_ptr matches Some(n) ==> n.mode is OuterBrother);
                assert(!has_brother(w.levels[k - 1], c));
                lemma_brother_count_from(w.levels[k - 1], self.levels[k - 1], c + 1);
                assert(w.levels[k - 1] == v1.levels[k - 1]);
                super::lemma_node_range_group(v1.levels[k - 1], c);
                super::lemma_node_range_group(v1.levels[k - 1], c + 1);
            }
        }
    }

    /// A merge pass takes at most one node out of index level `k`, a brother
    /// of node `i`, so that the group of node `i` loses one node; where it
    /// takes none, nothing changes. The items of the leaf level stay as they
    /// were, and so do the nodes in front of node `i`.
    pub proof fn lemma_combine_counts(self, k: int, i: int)
        requires
            self.wf(),
            0 <= k < self.levels.len(),
            0 <= i < self.levels[k].len(),
        ensures
            self.levels[k].len() - 1 <= self.combine_result(k, i).levels[k].len() <= self.levels[k].len(),
            leaf_values(self.combine_result(k, i).leaves) == leaf_values(self.leaves),
            self.combine_result(k, i).levels[k].len() == self.levels[k].len() ==> self.combine_result(k, i) == self,
            self.combine_result(k, i).levels[k].len() < self.levels[k].len() ==> brother_count(
                self.combine_result(k, i).levels[k],
                i,
            ) == brother_count(self.levels[k], i) - 1,
            forall|j: int| 0 <= j < i ==> #[trigger] self.combine_result(k, i).levels[k][j] == self.levels[k][j],
        decreases self.levels[k].len() - i,
    {
        self.lemma_combine_frame(k, i);
        let w = self.combine_result(k, i);
        if self.children_count(k, i) > 1 {
            if has_brother(self.levels[k], i) {
                self.lemma_combine_counts(k, i + 1);
                if w.levels[k].len() < self.levels[k].len() {
                    assert(w.levels[k][i] == self.levels[k][i]);
                    assert(has_brother(w.levels[k], i));
                }
            }
        } else if has_brother(self.levels[k], i) {
            if self.children_count(k, i + 1) == 1 && self.children_count(k, i) == 1 {
                let c = child_of(self.levels[k][i]);
                assert(self.child_ok(k, self.levels[k][i].payload.0));
                let r = combined(self.levels[k][i].payload.1, self.levels[k][i + 1].payload.1);
                let v1 = self.range_set(k, i, r);
                let v2 = v1.below_mode(k, c, NextMode::Brother);
                lemma_node_removed_frame(v2, k, i);
                assert(leaf_values(w.leaves) =~= leaf_values(self.leaves));
                assert(w.levels[k] == removed_after(v2.levels[k], i));
                assert(v2.levels[k] == v1.levels[k]);
                lemma_removed_after_count(v1.levels[k], i, i);
                lemma_brother_count_from(v1.levels[k], self.levels[k], i + 1);
            }
        }
    }

    /// Walking the group of node `i` of index level `k` while nodes have more
    /// than one child and a brother after them ends at node `m`.
    pub open spec fn walk_ends_at(self, k: int, i: int, m: int) -> bool {
        &&& 0 <= i <= m < self.levels[k].len()
        &&& forall|p: int| i <= p < m ==> #[trigger] self.children_count(k, p) > 1 && has_brother(self.levels[k], p)
        &&& !(self.children_count(k, m) > 1 && has_brother(self.levels[k], m))
    }

    /// Node `m` of index level `k` and the brother after it have one child
    /// each.
    pub open spec fn single_pair_at(self, k: int, m: int) -> bool {
        &&& has_brother(self.levels[k], m)
        &&& self.children_count(k, m) == 1
        &&& self.children_count(k, m + 1) == 1
    }

    /// A merge pass from node `i` goes along its group to the first node `m`
    /// that has a single child or no brother after it: where `m` and its
    /// brother both have a single child, they merge: the level loses a node,
    /// the group of `i` a member, and node `m` takes the range of both;
    /// otherwise nothing changes.
    pub proof fn lemma_combine_walk(self, k: int, i: int, m: int)
        requires
            self.wf(),
            0 <= k < self.levels.len(),
            self.walk_ends_at(k, i, m),
        ensures
            self.single_pair_at(k, m) ==> {
                let w = self.combine_result(k, i);
                &&& w.levels[k].len() == self.levels[k].len() - 1
                &&& brother_count(w.levels[k], i) == brother_count(self.levels[k], i) - 1
                &&& w.levels[k][m].payload.1.min_key() == (if self.levels[k][m].payload.1.min_key()
                    <= self.levels[k][m + 1].payload.1.min_key() {
                    self.levels[k][m].payload.1.min_key()
                } else {
                    self.levels[k][m + 1].payload.1.min_key()
                })
                &&& w.levels[k][m].payload.1.max_key() == (if self.levels[k][m + 1].payload.1.max_key()
                    <= self.levels[k][m].payload.1.max_key() {
                    self.levels[k][m].payload.1.max_key()
                } else {
                    self.levels[k][m + 1].payload.1.max_key()
                })
            },
            !self.single_pair_at(k, m) ==> self.combine_result(k, i) == self,
        decreases m - i,
    {
        if i < m {
            assert(self.children_count(k, i) > 1 && has_brother(self.levels[k], i));
            assert(self.walk_ends_at(k, i + 1, m));
            self.lemma_combine_walk(k, i + 1, m);
            self.lemma_combine_counts(k, i);
        } else {
            self.lemma_combine_counts(k, i);
            if self.single_pair_at(k, m) {
                let c = child_of(self.levels[k][i]);
                let r = combined(self.levels[k][i].payload.1, self.levels[k][i + 1].payload.1);
                let v1 = self.range_set(k, i, r);
                let v2 = v1.below_mode(k, c, NextMode::Brother);
                lemma_node_removed_frame(v2, k, i);
                assert(v2.levels[k] == v1.levels[k]);
                assert(self.combine_result(k, i).levels[k] == removed_after(v2.levels[k], i));
                assert(self.combine_result(k, i).levels[k][i].payload == v1.levels[k][i].payload);
            }
        }
    }

    /// A split on index level `k` keeps that level one group where it was.
    pub proof fn lemma_split_one_group(self, k: int, i: int)
        requires
            self.wf(),
            0 <= k < self.levels.len(),
            0 <= i < self.levels[k].len(),
            one_group(self.levels[k]),
        ensures
            one_group(self.split_result(k, i).levels[k]),
    {
        if self.children_count(k, i) > 2 {
            let c = child_of(self.levels[k][i]);
            let v1 = self.below_mode(k, c, NextMode::OuterBrother);
            let v2 = v1.range_set(k, i, v1.below_range(k, c));
            assert(v1.levels[k] == self.levels[k]);
            assert(forall|p: int| 0 <= p < v2.levels[k].len() ==> (#[trigger] v2.levels[k][p]).next_ptr == self.levels[k][p].next_ptr);
            lemma_one_group_links(self.levels[k], v2.levels[k]);
            assert(linked(self.levels[k]));
            assert(linked(v2.levels[k])) by {
                assert forall|m: int| 0 <= m < v2.levels[k].len() implies match #[trigger] v2.levels[k][m].next_ptr {
                    Some(n) => n.ptr == m + 1 && m + 1 < v2.levels[k].len(),
                    None => true,
                } by {
                    assert(self.levels[k][m].next_ptr == self.levels[k][m].next_ptr);
                }
            }
            let down = if k == 0 {
                DownType::Leaf((c + 1) as usize)
            } else {
                DownType::Internal((c + 1) as usize)
            };
            let node = SkipNode { payload: (down, v1.below_range(k, c + 1)), next_ptr: None };
            lemma_inserted_after_one_group(v2.levels[k], i, node);
        }
    }

    /// A merge pass on index level `k` keeps that level one group where it
    /// was.
    pub proof fn lemma_combine_one_group(self, k: int, i: int)
        requires
            self.wf(),
            0 <= k < self.levels.len(),
            0 <= i < self.levels[k].len(),
            one_group(self.levels[k]),
        ensures
            one_group(self.combine_result(k, i).levels[k]),
        decreases self.levels[k].len() - i,
    {
        if self.children_count(k, i) > 1 {
            if has_brother(self.levels[k], i) {
                self.lemma_combine_one_group(k, i + 1);
            }
        } else if has_brother(self.levels[k], i) {
            if self.children_count(k, i + 1) == 1 && self.children_count(k, i) == 1 {
                let c = child_of(self.levels[k][i]);
                let r = combined(self.levels[k][i].payload.1, self.levels[k][i + 1].payload.1);
                let v1 = self.range_set(k, i, r);
                let v2 = v1.below_mode(k, c, NextMode::Brother);
                assert(v2.levels[k] == v1.levels[k]);
                assert(forall|p: int| 0 <= p < v1.levels[k].len() ==> (#[trigger] v1.levels[k][p]).next_ptr == self.levels[k][p].next_ptr);
                lemma_one_group_links(self.levels[k], v1.levels[k]);
                lemma_removed_after_one_group(v1.levels[k], i);
                lemma_node_removed_frame(v2, k, i);
                assert(self.combine_result(k, i).levels[k] == removed_after(v2.levels[k], i));
            }
        }
    }

    pub proof fn lemma_combine_frame(self, k: int, i: int)
        requires
            self.wf(),
            0 <= k < self.levels.len(),
            0 <= i < self.levels[k].len(),
        ensures
            self.unchanged_above(self.combine_result(k, i), k),
            self.combine_result(k, i).leaves.len() == self.leaves.len(),
            forall|j: int| 0 <= j < k ==> (#[trigger] self.combine_result(k, i).levels[j]).len() == self.levels[j].len(),
            self.combine_result(k, i).levels[k].len() <= self.levels[k].len(),
        decreases self.levels[k].len() - i,
    {
        if self.children_count(k, i) > 1 {
            if has_brother(self.levels[k], i) {
                self.lemma_combine_frame(k, i + 1);
            }
        } else if has_brother(self.levels[k], i) {
            if self.children_count(k, i + 1) == 1 && self.children_count(k, i) == 1 {
                let c = child_of(self.levels[k][i]);
                assert(self.child_ok(k, self.levels[k][i].payload.0));
                let r = combined(self.levels[k][i].payload.1, self.levels[k][i + 1].payload.1);
                let v1 = self.range_set(k, i, r);
                self.lemma_range_set_wf(k, i, r);
                let v2 = v1.below_mode(k, c, NextMode::Brother);
                v1.lemma_below_mode_wf(k, c, NextMode::Brother);
                lemma_node_removed_frame(v2, k, i);
                assert(self.unchanged_above(v1, k));
                assert(v1.unchanged_above(v2, k));
            }
        }
    }
}

pub proof fn lemma_leaf_frames<T>(v: ForestView<T>, q: int, node: LeafNode<T>, payload: std::sync::Arc<T>)
    requires
        0 <= q < v.leaves.len(),
    ensures
        v.unchanged_above(v.leaf_inserted(q, node), -1),
        v.leaf_inserted(q, node).leaves.len() == v.leaves.len() + 1,
        v.unchanged_above(v.leaf_put_front(q, payload), -1),
        v.leaf_put_front(q, payload).leaves.len() == v.leaves.len() + 1,
{
    if 0 < v.levels.len() {
        lemma_shift_children_len(v.levels[0], q + 1, 1);
    }
}

/// The structure after `InternalNode::insert` put `data` in under node `i`
/// of index level `k`: into the group of the node found from node `i` (or of
/// node `i` itself, in front, where `data` lies below its range), one level
/// down at a time; then that node's range is widened to take in `data`, the
/// node is split where it has more than two children, and single children
/// are merged along the group of node `i`.
pub open spec fn insert_result<T: Ordered>(v0: ForestView<T>, k: int, i: int, data: LeafNode<T>) -> ForestView<T>
    decreases k,
{
    let key = leaf_key(data);
    let slot = level_slot(v0.levels[k], i, key);
    let target = match slot {
        Some(m) => m,
        None => i,
    };
    let c = child_of(v0.levels[k][target]);
    let v1 = if k > 0 {
        insert_result(v0, k - 1, c, data)
    } else if slot is Some {
        v0.leaf_inserted(leaf_slot(v0.leaves, c, key), data)
    } else {
        v0.leaf_put_front(c, data.payload)
    };
    let v2 = v1.range_set(k, target, updated(v1.levels[k][target].payload.1, data.payload));
    v2.split_result(k, target).combine_result(k, i)
}

/// What `InternalNode::insert` promises on an ordered structure `v0`, given
/// where `data` lies against node `i` of index level `k`: with `data` not
/// below its minimum, `v` is ordered and holds `data` just after the items
/// whose key is not above its key; with node `i` the first of its level and
/// `data` below its minimum, the same, but that the minimum of the first
/// node of the level above is stale, and node `i` has the key of `data` as
/// its minimum.
#[verifier::opaque]
pub open spec fn insert_post<T: Ordered>(v0: ForestView<T>, v: ForestView<T>, k: int, i: int, data: LeafNode<T>) -> bool {
    &&& v0.ordered() && v0.min_key(k, i) <= leaf_key(data) ==> {
        &&& v.ordered()
        &&& leaf_values(v.leaves) == leaf_values(v0.leaves).insert(
            count_not_above(leaf_values(v0.leaves), leaf_key(data)) as int,
            *data.payload,
        )
    }
    &&& v0.ordered() && i == 0 && leaf_key(data) < v0.min_key(k, 0) ==> {
        &&& v.shape_ok()
        &&& v.ranges_ok(k + 1)
        &&& v.min_key(k, 0) == leaf_key(data)
        &&& leaf_values(v.leaves) == leaf_values(v0.leaves).insert(
            count_not_above(leaf_values(v0.leaves), leaf_key(data)) as int,
            *data.payload,
        )
    }
}

/// The steps of `InternalNode::insert` keep its promise.
pub proof fn lemma_insert_post<T: Ordered>(
    v0: ForestView<T>,
    v1: ForestView<T>,
    v2: ForestView<T>,
    v3: ForestView<T>,
    v4: ForestView<T>,
    k: int,
    i: int,
    target: int,
    data: LeafNode<T>,
    payload: std::sync::Arc<T>,
)
    requires
        v0.wf(),
        0 <= k < v0.levels.len(),
        0 <= i < v0.levels[k].len(),
        v0.leaves.len() + 1 < usize::MAX,
        forall|j: int| 0 <= j <= k ==> (#[trigger] v0.levels[j]).len() + 1 < usize::MAX,
        payload == data.payload,
        target == (match level_slot(v0.levels[k], i, leaf_key(data)) {
            Some(m) => m,
            None => i,
        }),
        k > 0 ==> insert_post(v0, v1, k - 1, child_of(v0.levels[k][target]), data) && v0.unchanged_above(v1, k - 1),
        k == 0 ==> v1 == (if level_slot(v0.levels[k], i, leaf_key(data)) is Some {
            v0.leaf_inserted(leaf_slot(v0.leaves, child_of(v0.levels[k][target]), leaf_key(data)), data)
        } else {
            v0.leaf_put_front(child_of(v0.levels[k][target]), payload)
        }),
        v1.wf(),
        v2 == v1.range_set(k, target, updated(v1.levels[k][target].payload.1, payload)),
        v3 == v2.split_result(k, target),
        v4 == v3.combine_result(k, i),
    ensures
        insert_post(v0, v4, k, i, data),
{
    reveal(insert_post);
    let key = leaf_key(data);
    lemma_level_slot(v0.levels[k], i, key);
    let mode_a = v0.ordered() && v0.min_key(k, i) <= key;
    let mode_b = v0.ordered() && i == 0 && key < v0.min_key(k, 0);
    if mode_a || mode_b {
        let e: int = if mode_a { -1 } else { k + 1 };
        if mode_a {
            assert(level_slot(v0.levels[k], i, key) is Some);
        }
        if mode_b {
            assert(level_slot(v0.levels[k], i, key) is None);
        }
        let c = child_of(v0.levels[k][target]);
        assert(v0.child_ok(k, v0.levels[k][target].payload.0));
        assert(v0.min_key(k, target) == v0.child_min_key(k, target)) by {
            reveal(ForestView::mins_ok);
            assert(v0.levels[k][target] == v0.levels[k][target]);
        }
        if mode_b {
            assert(c == 0) by {
                reveal(ForestView::levels_chained);
            }
        }
        if k == 0 {
            if mode_a {
                v0.lemma_leaf_insert_ordered(c, data);
            } else {
                v0.lemma_put_front_ordered(payload);
            }
            lemma_leaf_frames(v0, c, data, payload);
        }
        // the range of the node on the way is untouched below it
        assert(v1.levels[k][target].payload.1 == v0.levels[k][target].payload.1);
        let r = updated(v1.levels[k][target].payload.1, payload);
        assert(v1.levels[k][target].payload.1.min_key() <= v1.levels[k][target].payload.1.max_key()) by {
            reveal(ForestView::ranges_upright);
            assert(v1.levels[k][target] == v1.levels[k][target]);
        }
        if mode_b {
            assert(child_of(v1.levels[k][0]) == 0) by {
                reveal(ForestView::levels_chained);
            }
            assert(r.min_key() == key);
            if k == 0 {
                assert(v1.leaves[0].payload == payload);
            } else {
                assert(v1.min_key(k - 1, 0) == key);
            }
            assert(r.min_key() == v1.child_min_key(k, 0));
            v1.lemma_range_set_ordered(k, k, 0, r, k + 1);
        } else {
            assert(v1.ordered());
            assert(v1.levels[k][target].payload.1.min_key() == v1.child_min_key(k, target)) by {
                reveal(ForestView::mins_ok);
                assert(v1.levels[k][target] == v1.levels[k][target]);
            }
            v1.lemma_range_set_ordered(-1, k, target, r, -1);
        }
        v2.lemma_split_ordered(e, k, target);
        v3.lemma_combine_ordered(e, k, i);
    }
}

/// The steps of `InternalNode::insert` keep index level `k` one group where
/// it was.
pub proof fn lemma_insert_one_group<T: Ordered>(
    v0: ForestView<T>,
    v1: ForestView<T>,
    v2: ForestView<T>,
    v3: ForestView<T>,
    v4: ForestView<T>,
    k: int,
    i: int,
    target: int,
    data: LeafNode<T>,
    payload: std::sync::Arc<T>,
)
    requires
        v0.wf(),
        0 <= k < v0.levels.len(),
        0 <= i < v0.levels[k].len(),
        0 <= target < v0.levels[k].len(),
        one_group(v0.levels[k]),
        k > 0 ==> v0.unchanged_above(v1, k - 1),
        k == 0 ==> v1 == (if level_slot(v0.levels[k], i, leaf_key(data)) is Some {
            v0.leaf_inserted(leaf_slot(v0.leaves, child_of(v0.levels[k][target]), leaf_key(data)), data)
        } else {
            v0.leaf_put_front(child_of(v0.levels[k][target]), payload)
        }),
        v1.wf(),
        v2 == v1.range_set(k, target, updated(v1.levels[k][target].payload.1, payload)),
        v3 == v2.split_result(k, target),
        v3.wf(),
        v4 == v3.combine_result(k, i),
    ensures
        one_group(v4.levels[k]),
{
    if k == 0 {
        let c = child_of(v0.levels[k][target]);
        assert(v0.child_ok(k, v0.levels[k][target].payload.0));
        let q = leaf_slot(v0.leaves, c, leaf_key(data));
        crate::leaf_node::lemma_leaf_slot_bound(v0.leaves, c, leaf_key(data));
        lemma_leaf_frames(v0, q, data, payload);
        lemma_leaf_frames(v0, c, data, payload);
    }
    assert(v1.levels[k].len() == v0.levels[k].len());
    assert(forall|p: int| 0 <= p < v1.levels[k].len() ==> (#[trigger] v1.levels[k][p]).next_ptr == v0.levels[k][p].next_ptr);
    lemma_one_group_links(v0.levels[k], v1.levels[k]);
    v1.lemma_range_set_wf(k, target, updated(v1.levels[k][target].payload.1, payload));
    assert(forall|p: int| 0 <= p < v2.levels[k].len() ==> (#[trigger] v2.levels[k][p]).next_ptr == v1.levels[k][p].next_ptr);
    lemma_one_group_links(v1.levels[k], v2.levels[k]);
    v2.lemma_split_one_group(k, target);
    v2.lemma_split_frame(k, target);
    v2.lemma_split_counts(k, target);
    v3.lemma_combine_one_group(k, i);
}

impl<T: Ordered> InternalNode<T> {
    /// Puts `data` into the leaf level under node `i` of index level `k`:
    /// into the group of the node found by `find_level_insert` from node `i`,
    /// or, where `data` lies below the range of node `i`, in front of its first
    /// leaf; then widens the ranges on the way, splits nodes with more than two
    /// children and merges nodes with a single child.
    ///
    /// On an ordered structure, with `data` not below the minimum of node `i`,
    /// or with node `i` the first of its level and `data` below every key,
    /// `data` goes in just after the items whose key is not above its key, and
    /// the structure stays ordered (see `insert_post`).
    #[verifier::rlimit(40)]
    pub fn insert(forest: &mut Forest<T>, k: usize, i: usize, data: LeafNode<T>)
        requires
            old(forest)@.wf(),
            k < old(forest).levels.len(),
            i < old(forest)@.levels[k as int].len(),
            old(forest).leaves.len() + 1 < usize::MAX,
            forall|j: int| 0 <= j <= k ==> (#[trigger] old(forest)@.levels[j]).len() + 1 < usize::MAX,
        ensures
            final(forest)@.wf(),
            final(forest).leaves.len() == old(forest).leaves.len() + 1,
            old(forest)@.unchanged_above(final(forest)@, k as int),
            old(forest)@.grows_at_most_one(final(forest)@, k as int),
            final(forest)@ == insert_result(old(forest)@, k as int, i as int, data),
            insert_post(old(forest)@, final(forest)@, k as int, i as int, data),
            one_group(old(forest)@.levels[k as int]) ==> one_group(final(forest)@.levels[k as int]),
        decreases k,
    {
        let ghost v0 = forest@;
        let payload = share(&data.payload);
        assert(v0.levels[k as int] == forest.levels@[k as int]@);
        let insert_node = Self::find_level_insert(&forest.levels[k], i, &*data.payload);
        proof {
            lemma_level_slot(v0.levels[k as int], i as int, leaf_key(data));
        }
        let target = match insert_node {
            Some(m) => m,
            None => i,
        };
        assert(v0.child_ok(k as int, v0.levels[k as int][target as int].payload.0));
        match *forest.levels[k][target].child() {
            DownType::Internal(c) => {
                Self::insert(forest, k - 1, c, data);
            },
            DownType::Leaf(c) => {
                proof {
                    lemma_leaf_frames(v0, c as int, data, data.payload);
                }
                if insert_node.is_some() {
                    LeafNode::insert(forest, c, data);
                } else {
                    forest.put_leaf_front(c, data.payload);
                }
            },
        }
        let ghost v1 = forest@;
        assert(v0.unchanged_above(v1, k - 1) || v0.unchanged_above(v1, -1));
        assert(forest.levels.len() == v0.levels.len());
        assert(forest@.levels[k as int] == forest.levels@[k as int]@);
        forest.update_range(k, target, payload);
        let ghost v2 = forest@;
        Self::check_split(forest, k, target);
        let ghost v3 = forest@;
        proof {
            v2.lemma_split_frame(k as int, target as int);
        }
        Self::check_combine(forest, k, i);
        proof {
            v3.lemma_combine_frame(k as int, i as int);
            lemma_insert_post(v0, v1, v2, v3, forest@, k as int, i as int, target as int, data, payload);
            if one_group(v0.levels[k as int]) {
                lemma_insert_one_group(v0, v1, v2, v3, forest@, k as int, i as int, target as int, data, payload);
            }
        }
    }

    /// Where node `i` of index level `k` has more than two children, ends its
    /// group of children after the first one and puts a new node just after
    /// node `i` for the other children.
    pub fn check_split(forest: &mut Forest<T>, k: usize, i: usize)
        requires
            old(forest)@.wf(),
            k < old(forest).levels.len(),
            i < old(forest)@.levels[k as int].len(),
            old(forest)@.levels[k as int].len() + 1 < usize::MAX,
        ensures
            final(forest)@ == old(forest)@.split_result(k as int, i as int),
            final(forest)@.wf(),
            old(forest)@.children_count(k as int, i as int) <= 2 ==> final(forest)@ == old(forest)@,
            old(forest)@.children_count(k as int, i as int) > 2 ==> {
                &&& final(forest)@.levels[k as int].len() == old(forest)@.levels[k as int].len() + 1
                &&& final(forest)@.children_count(k as int, i as int) == 1
                &&& final(forest)@.children_count(k as int, i as int + 1) == old(forest)@.children_count(
                    k as int,
                    i as int,
                ) - 1
                &&& has_brother(final(forest)@.levels[k as int], i as int)
                &&& final(forest)@.range_fits_children(k as int, i as int)
                &&& final(forest)@.range_fits_children(k as int, i as int + 1)
            },
    {
        let ghost v = forest@;
        proof {
            v.lemma_split_counts(k as int, i as int);
        }
        if Self::children_num(forest, k, i) > 2 {
            let d = *forest.levels[k][i].child();
            assert(v.child_ok(k as int, d));
            let ghost c = child_index(d);
            proof {
                v.lemma_below_mode_wf(k as int, c, NextMode::OuterBrother);
                if k == 0 {
                    assert(has_brother(v.leaves, c));
                } else {
                    assert(has_brother(v.levels[k - 1], c));
                }
            }
            let next = match d {
                DownType::Internal(c) => {
                    assert(v.levels[k - 1] == forest.levels@[k - 1]@);
                    let r = SkipNode::split_next(&mut forest.levels[k - 1], c);
                    assert(forest@.levels =~= v.below_mode(k as int, c as int, NextMode::OuterBrother).levels);
                    match r {
                        Some(p) => Some(DownType::Internal(p)),
                        None => None,
                    }
                },
                DownType::Leaf(c) => {
                    let r = SkipNode::split_next(&mut forest.leaves, c);
                    match r {
                        Some(p) => Some(DownType::Leaf(p)),
                        None => None,
                    }
                },
            };
            let ghost v1 = forest@;
            assert(v1 == v.below_mode(k as int, c, NextMode::OuterBrother));
            let down = match next {
                Some(d) => d,
                None => {
                    return ;
                },
            };
            let this_range = match d {
                DownType::Internal(c) => {
                    assert(v1.levels[k - 1] == forest.levels@[k - 1]@);
                    Self::gen_range(&forest.levels[k - 1], c)
                },
                DownType::Leaf(c) => LeafNode::gen_range(&forest.leaves, c),
            };
            let next_range = match down {
                DownType::Internal(c) => {
                    assert(v1.levels[k - 1] == forest.levels@[k - 1]@);
                    Self::gen_range(&forest.levels[k - 1], c)
                },
                DownType::Leaf(c) => LeafNode::gen_range(&forest.leaves, c),
            };
            proof {
                v.lemma_below_mode_wf(k as int, c, NextMode::OuterBrother);
            }
            assert(forest.levels.len() == v.levels.len());
            forest.set_range(k, i, this_range);
            assert(forest@.child_ok(k as int, down));
            let new_node = SkipNode::new((down, next_range));
            forest.insert_node_after(k, i, new_node);
        }
    }

    /// Walks the group of node `i` of index level `k` while nodes have more
    /// than one child, and merges the first node with a single child with the
    /// brother after it when that one has a single child too.
    pub fn check_combine(forest: &mut Forest<T>, k: usize, i: usize)
        requires
            old(forest)@.wf(),
            k < old(forest).levels.len(),
            i < old(forest)@.levels[k as int].len(),
        ensures
            final(forest)@ == old(forest)@.combine_result(k as int, i as int),
            final(forest)@.wf(),
            old(forest)@.levels[k as int].len() - 1 <= final(forest)@.levels[k as int].len() <= old(
                forest,
            )@.levels[k as int].len(),
            leaf_values(final(forest)@.leaves) == leaf_values(old(forest)@.leaves),
            final(forest)@.levels[k as int].len() == old(forest)@.levels[k as int].len() ==> final(forest)@ == old(
                forest,
            )@,
            final(forest)@.levels[k as int].len() < old(forest)@.levels[k as int].len() ==> brother_count(
                final(forest)@.levels[k as int],
                i as int,
            ) == brother_count(old(forest)@.levels[k as int], i as int) - 1,
            forall|m: int|
                #[trigger] old(forest)@.walk_ends_at(k as int, i as int, m) ==> (old(forest)@.single_pair_at(
                    k as int,
                    m,
                ) <==> final(forest)@.levels[k as int].len() < old(forest)@.levels[k as int].len()),
            forall|m: int|
                #[trigger] old(forest)@.walk_ends_at(k as int, i as int, m) && old(forest)@.single_pair_at(k as int, m)
                    ==> final(forest)@.levels[k as int][m].payload.1.min_key() == (if old(
                    forest,
                )@.levels[k as int][m].payload.1.min_key() <= old(forest)@.levels[k as int][m + 1].payload.1.min_key() {
                    old(forest)@.levels[k as int][m].payload.1.min_key()
                } else {
                    old(forest)@.levels[k as int][m + 1].payload.1.min_key()
                }) && final(forest)@.levels[k as int][m].payload.1.max_key() == (if old(
                    forest,
                )@.levels[k as int][m + 1].payload.1.max_key() <= old(forest)@.levels[k as int][m].payload.1.max_key() {
                    old(forest)@.levels[k as int][m].payload.1.max_key()
                } else {
                    old(forest)@.levels[k as int][m + 1].payload.1.max_key()
                }),
        decreases old(forest)@.levels[k as int].len() - i,
    {
        let ghost v = forest@;
        proof {
            v.lemma_combine_counts(k as int, i as int);
            assert forall|m: int| #[trigger] v.walk_ends_at(k as int, i as int, m) implies (v.single_pair_at(k as int, m)
                <==> v.combine_result(k as int, i as int).levels[k as int].len() < v.levels[k as int].len()) by {
                v.lemma_combine_walk(k as int, i as int, m);
            }
            assert forall|m: int|
                #[trigger] v.walk_ends_at(k as int, i as int, m) && v.single_pair_at(k as int, m) implies v.combine_result(
                k as int,
                i as int,
            ).levels[k as int][m].payload.1.min_key() == (if v.levels[k as int][m].payload.1.min_key()
                <= v.levels[k as int][m + 1].payload.1.min_key() {
                v.levels[k as int][m].payload.1.min_key()
            } else {
                v.levels[k as int][m + 1].payload.1.min_key()
            }) && v.combine_result(k as int, i as int).levels[k as int][m].payload.1.max_key() == (if v.levels[k as int][m
                + 1].payload.1.max_key() <= v.levels[k as int][m].payload.1.max_key() {
                v.levels[k as int][m].payload.1.max_key()
            } else {
                v.levels[k as int][m + 1].payload.1.max_key()
            }) by {
                v.lemma_combine_walk(k as int, i as int, m);
            }
        }
        assert(linked(v.levels[k as int]));
        if Self::children_num(forest, k, i) > 1 {
            if let Some(j) = forest.levels[k][i].go_brother_raw() {
                Self::check_combine(forest, k, j);
            }
        } else if let Some(j) = forest.levels[k][i].go_brother_raw() {
            if Self::children_num(forest, k, j) == 1 && Self::children_num(forest, k, i) == 1 {
                let r = forest.levels[k][j].range().clone();
                let mut own = forest.levels[k][i].range().clone();
                own.combine(&r);
                assert(forest.levels.len() == v.levels.len());
                forest.set_range(k, i, own);
                assert(forest@.levels[k as int] == forest.levels@[k as int]@);
                let d = *forest.levels[k][i].child();
                assert(d == v.levels[k as int][i as int].payload.0);
                assert(v.child_ok(k as int, d));
                d.as_brother(forest, k);
                forest.remove_node_after(k, i);
            }
        }
    }
}

} // verus!
