use vstd::prelude::*;

use crate::internal_node::down_child::{child_index, DownType};
use crate::internal_node::InternalNode;
use crate::leaf_node::LeafNode;
use crate::skip_node::linked::{
    inserted_after, lemma_inserted_after_linked, lemma_removed_after_linked, removed_after,
};
use crate::skip_node::{linked, SkipNode};

verus! {

/// The nodes of a leveled skip structure: the leaf level, and the index levels
/// above it, `levels[0]` sitting on the leaves and `levels[k]` on `levels[k - 1]`.
pub struct Forest<T> {
    pub leaves: Vec<LeafNode<T>>,
    pub levels: Vec<Vec<InternalNode<T>>>,
}

/// What a `Forest` holds, level by level.
pub struct ForestView<T> {
    pub leaves: Seq<LeafNode<T>>,
    pub levels: Seq<Seq<InternalNode<T>>>,
}

impl<T> View for Forest<T> {
    type V = ForestView<T>;

    open spec fn view(&self) -> ForestView<T> {
        ForestView { leaves: self.leaves@, levels: self.levels@.map_values(|v: Vec<InternalNode<T>>| v@) }
    }
}

pub open spec fn child_of<T>(n: InternalNode<T>) -> int {
    child_index(n.payload.0)
}

/// The downward link moved by `delta` where it points at `from` or beyond.
pub open spec fn shift_link(d: DownType, from: int, delta: int) -> DownType {
    match d {
        DownType::Internal(c) => DownType::Internal(if c >= from { (c + delta) as usize } else { c }),
        DownType::Leaf(c) => DownType::Leaf(if c >= from { (c + delta) as usize } else { c }),
    }
}

pub open spec fn shift_children<T>(level: Seq<InternalNode<T>>, from: int, delta: int) -> Seq<InternalNode<T>> {
    level.map_values(
        |n: InternalNode<T>|
            SkipNode { payload: (shift_link(n.payload.0, from, delta), n.payload.1), next_ptr: n.next_ptr },
    )
}

impl<T> ForestView<T> {
    /// How many nodes the level under index level `k` holds.
    pub open spec fn below_len(self, k: int) -> int {
        if k == 0 {
            self.leaves.len() as int
        } else {
            self.levels[k - 1].len() as int
        }
    }

    pub open spec fn child_ok(self, k: int, d: DownType) -> bool {
        &&& if k == 0 { d is Leaf } else { d is Internal }
        &&& 0 <= child_index(d) < self.below_len(k)
    }

    /// Every link within a level goes to the next node, and every downward link
    /// reaches a node of the level below.
    pub open spec fn wf(self) -> bool {
        &&& linked(self.leaves)
        &&& forall|k: int| 0 <= k < self.levels.len() ==> linked(#[trigger] self.levels[k])
        &&& forall|k: int, i: int|
            0 <= k < self.levels.len() && 0 <= i < self.levels[k].len() ==> self.child_ok(
                k,
                #[trigger] self.levels[k][i].payload.0,
            )
    }

    /// The downward links of the level above level `k` (above the leaves
    /// when `k` is -1) moved by `delta` where they point at `from` or beyond.
    pub open spec fn parents_shifted(self, k: int, from: int, delta: int) -> Self {
        if k + 1 < self.levels.len() {
            ForestView {
                leaves: self.leaves,
                levels: self.levels.update(k + 1, shift_children(self.levels[k + 1], from, delta)),
            }
        } else {
            self
        }
    }

    /// `node` put into the leaf level just after leaf `q`.
    pub open spec fn leaf_inserted(self, q: int, node: LeafNode<T>) -> Self {
        ForestView { leaves: inserted_after(self.leaves, q, node), levels: self.levels }.parents_shifted(-1, q + 1, 1)
    }

    /// `node` put into index level `k` just after node `i`.
    pub open spec fn node_inserted(self, k: int, i: int, node: InternalNode<T>) -> Self {
        ForestView {
            leaves: self.leaves,
            levels: self.levels.update(k, inserted_after(self.levels[k], i, node)),
        }.parents_shifted(k, i + 1, 1)
    }

    /// The node after node `i` taken out of index level `k`.
    pub open spec fn node_removed(self, k: int, i: int) -> Self {
        ForestView {
            leaves: self.leaves,
            levels: self.levels.update(k, removed_after(self.levels[k], i)),
        }.parents_shifted(k, i + 1, -1)
    }
}

impl<T> ForestView<T> {
    /// `w` differs from `self` only up to index level `k` and in the downward
    /// links of index level `k + 1`.
    pub open spec fn unchanged_above(self, w: Self, k: int) -> bool {
        &&& w.levels.len() == self.levels.len()
        &&& forall|j: int| k + 1 < j < self.levels.len() ==> #[trigger] w.levels[j] == self.levels[j]
        &&& k + 1 < self.levels.len() ==> {
            &&& w.levels[k + 1].len() == self.levels[k + 1].len()
            &&& forall|m: int|
                0 <= m < self.levels[k + 1].len() ==> (#[trigger] w.levels[k + 1][m]).payload.1
                    == self.levels[k + 1][m].payload.1 && w.levels[k + 1][m].next_ptr
                    == self.levels[k + 1][m].next_ptr
        }
    }

    /// Index levels `0` to `k` of `w` hold at most one node more than those of
    /// `self`.
    pub open spec fn grows_at_most_one(self, w: Self, k: int) -> bool {
        forall|j: int| 0 <= j <= k && j < self.levels.len() ==> (#[trigger] w.levels[j]).len() <= self.levels[j].len() + 1
    }
}

pub proof fn lemma_shift_children_len<T>(level: Seq<InternalNode<T>>, from: int, delta: int)
    ensures
        shift_children(level, from, delta).len() == level.len(),
        forall|i: int|
            0 <= i < level.len() ==> (#[trigger] shift_children(level, from, delta)[i]).next_ptr
                == level[i].next_ptr && shift_children(level, from, delta)[i].payload.1
                == level[i].payload.1,
{
}

pub proof fn lemma_shift_children_at<T>(level: Seq<InternalNode<T>>, from: int, delta: int, m: int)
    requires
        0 <= m < level.len(),
        0 <= child_of(level[m]),
        child_of(level[m]) >= from ==> 0 <= child_of(level[m]) + delta < usize::MAX,
    ensures
        child_of(shift_children(level, from, delta)[m]) == if child_of(level[m]) >= from {
            child_of(level[m]) + delta
        } else {
            child_of(level[m])
        },
        shift_children(level, from, delta)[m].payload.0 is Leaf == level[m].payload.0 is Leaf,
        shift_children(level, from, delta)[m].payload.1 == level[m].payload.1,
        shift_children(level, from, delta)[m].next_ptr == level[m].next_ptr,
        shift_children(level, from, delta).len() == level.len(),
{
}

pub proof fn lemma_shift_children_linked<T>(level: Seq<InternalNode<T>>, from: int, delta: int)
    requires
        linked(level),
    ensures
        linked(shift_children(level, from, delta)),
{
    let r = shift_children(level, from, delta);
    assert forall|j: int| 0 <= j < r.len() implies match #[trigger] r[j].next_ptr {
        Some(n) => n.ptr == j + 1 && j + 1 < r.len(),
        None => true,
    } by {
        assert(level[j].next_ptr == level[j].next_ptr);
    }
}

impl<T> ForestView<T> {
    pub proof fn lemma_leaf_inserted_wf(self, q: int, node: LeafNode<T>)
        requires
            self.wf(),
            0 <= q < self.leaves.len(),
            self.leaves.len() + 1 < usize::MAX,
        ensures
            self.leaf_inserted(q, node).wf(),
            self.leaf_inserted(q, node).levels.len() == self.levels.len(),
            self.leaf_inserted(q, node).leaves.len() == self.leaves.len() + 1,
    {
        let r = self.leaf_inserted(q, node);
        lemma_inserted_after_linked(self.leaves, q, node);
        if 0 < self.levels.len() {
            lemma_shift_children_linked(self.levels[0], q + 1, 1);
        }
        assert forall|k: int| 0 <= k < r.levels.len() implies linked(#[trigger] r.levels[k]) by {
            assert(linked(self.levels[k]));
        }
        assert forall|k: int, i: int|
            0 <= k < r.levels.len() && 0 <= i < r.levels[k].len() implies r.child_ok(
            k,
            #[trigger] r.levels[k][i].payload.0,
        ) by {
            assert(self.child_ok(k, self.levels[k][i].payload.0));
        }
    }

    pub proof fn lemma_node_inserted_wf(self, k: int, i: int, node: InternalNode<T>)
        requires
            self.wf(),
            0 <= k < self.levels.len(),
            0 <= i < self.levels[k].len(),
            self.levels[k].len() + 1 < usize::MAX,
            self.child_ok(k, node.payload.0),
        ensures
            self.node_inserted(k, i, node).wf(),
            self.node_inserted(k, i, node).levels.len() == self.levels.len(),
            self.node_inserted(k, i, node).leaves == self.leaves,
    {
        let r = self.node_inserted(k, i, node);
        lemma_inserted_after_linked(self.levels[k], i, node);
        if k + 1 < self.levels.len() {
            lemma_shift_children_linked(self.levels[k + 1], i + 1, 1);
        }
        assert forall|j: int| 0 <= j < r.levels.len() implies linked(#[trigger] r.levels[j]) by {
            assert(linked(self.levels[j]));
        }
        assert forall|j: int, m: int|
            0 <= j < r.levels.len() && 0 <= m < r.levels[j].len() implies r.child_ok(
            j,
            #[trigger] r.levels[j][m].payload.0,
        ) by {
            if j == k {
                if m < i {
                    assert(self.child_ok(j, self.levels[j][m].payload.0));
                } else if m == i {
                    assert(self.child_ok(j, self.levels[j][i].payload.0));
                } else if m > i + 1 {
                    assert(self.child_ok(j, self.levels[j][m - 1].payload.0));
                }
            } else {
                assert(self.child_ok(j, self.levels[j][m].payload.0));
            }
        }
    }

    pub proof fn lemma_node_removed_wf(self, k: int, i: int)
        requires
            self.wf(),
            0 <= k < self.levels.len(),
            0 <= i < self.levels[k].len(),
            self.levels[k][i].next_ptr is Some,
        ensures
            self.node_removed(k, i).wf(),
            self.node_removed(k, i).levels.len() == self.levels.len(),
            self.node_removed(k, i).leaves == self.leaves,
    {
        let r = self.node_removed(k, i);
        lemma_removed_after_linked(self.levels[k], i);
        if k + 1 < self.levels.len() {
            lemma_shift_children_linked(self.levels[k + 1], i + 1, -1);
        }
        assert forall|j: int| 0 <= j < r.levels.len() implies linked(#[trigger] r.levels[j]) by {
            assert(linked(self.levels[j]));
        }
        assert forall|j: int, m: int|
            0 <= j < r.levels.len() && 0 <= m < r.levels[j].len() implies r.child_ok(
            j,
            #[trigger] r.levels[j][m].payload.0,
        ) by {
            if j == k {
                if m < i {
                    assert(self.child_ok(j, self.levels[j][m].payload.0));
                } else if m == i {
                    assert(self.child_ok(j, self.levels[j][i].payload.0));
                } else {
                    assert(self.child_ok(j, self.levels[j][m + 1].payload.0));
                }
            } else {
                assert(self.child_ok(j, self.levels[j][m].payload.0));
            }
        }
    }
}

/// Moves by one the downward links of `level` that point at `from` or beyond:
/// one place on when `up`, one place back otherwise.
fn shift_level<T>(level: &mut Vec<InternalNode<T>>, from: usize, up: bool)
    requires
        up ==> forall|i: int| 0 <= i < old(level).len() ==> child_of(#[trigger] old(level)@[i]) + 1 < usize::MAX,
        !up ==> from >= 1,
    ensures
        final(level)@ == shift_children(old(level)@, from as int, if up { 1 } else { -1 }),
{
    let ghost old_level = level@;
    let ghost delta: int = if up { 1 } else { -1 };
    let mut j: usize = 0;
    while j < level.len()
        invariant
            up ==> forall|i: int| 0 <= i < old_level.len() ==> child_of(#[trigger] old_level[i]) + 1 < usize::MAX,
            !up ==> from >= 1,
            delta == if up { 1int } else { -1int },
            level.len() == old_level.len(),
            0 <= j <= level.len(),
            forall|i: int| 0 <= i < j ==> #[trigger] level@[i] == shift_children(old_level, from as int, delta)[i],
            forall|i: int| j <= i < level.len() ==> #[trigger] level@[i] == old_level[i],
        decreases level.len() - j,
    {
        let d = level[j].payload.0;
        let moved = match d {
            DownType::Internal(c) => if c >= from { DownType::Internal(if up { c + 1 } else { c - 1 }) } else { d },
            DownType::Leaf(c) => if c >= from { DownType::Leaf(if up { c + 1 } else { c - 1 }) } else { d },
        };
        level[j].payload.0 = moved;
        assert(level@[j as int] == shift_children(old_level, from as int, delta)[j as int]);
        j += 1;
    }
    assert(level@ =~= shift_children(old_level, from as int, delta));
}

impl<T> ForestView<T> {
    /// The leaf level with the payload of leaf `c` replaced.
    pub open spec fn leaf_payload_set(self, c: int, payload: std::sync::Arc<T>) -> Self {
        ForestView {
            leaves: self.leaves.update(c, SkipNode { payload, next_ptr: self.leaves[c].next_ptr }),
            levels: self.levels,
        }
    }

    /// `payload` put into the leaf level in front of leaf `c`: leaf `c` takes
    /// `payload` and links to a new leaf that holds what leaf `c` held.
    pub open spec fn leaf_put_front(self, c: int, payload: std::sync::Arc<T>) -> Self {
        self.leaf_inserted(c, SkipNode { payload: self.leaves[c].payload, next_ptr: None }).leaf_payload_set(
            c,
            payload,
        )
    }
}

impl<T> Forest<T> {
    /// Puts `node` into the leaf level just after leaf `q`.
    pub fn insert_leaf_after(&mut self, q: usize, node: LeafNode<T>)
        requires
            old(self)@.wf(),
            q < old(self).leaves.len(),
            old(self).leaves.len() + 1 < usize::MAX,
        ensures
            final(self)@ == old(self)@.leaf_inserted(q as int, node),
            final(self)@.wf(),
    {
        let ghost old_view = self@;
        proof {
            old_view.lemma_leaf_inserted_wf(q as int, node);
            if 0 < old_view.levels.len() {
                assert forall|i: int| 0 <= i < old_view.levels[0].len() implies child_of(
                    #[trigger] old_view.levels[0][i],
                ) + 1 < usize::MAX by {
                    assert(old_view.child_ok(0, old_view.levels[0][i].payload.0));
                }
            }
        }
        SkipNode::insert_next(&mut self.leaves, q, node);
        self.shift_parents(0, q + 1, true);
        assert(self@.levels =~= old_view.leaf_inserted(q as int, node).levels);
    }

    /// Puts `payload` into the leaf level in front of leaf `c`, so that the
    /// downward links to leaf `c` now reach it.
    pub fn put_leaf_front(&mut self, c: usize, payload: std::sync::Arc<T>)
        requires
            old(self)@.wf(),
            c < old(self).leaves.len(),
            old(self).leaves.len() + 1 < usize::MAX,
        ensures
            final(self)@ == old(self)@.leaf_put_front(c as int, payload),
            final(self)@.wf(),
    {
        let ghost old_view = self@;
        let old_payload = crate::internal_node::range::share(&self.leaves[c].payload);
        self.insert_leaf_after(c, SkipNode::new(old_payload));
        let ghost mid = self@;
        self.leaves[c].payload = payload;
        assert(self@.leaves =~= mid.leaf_payload_set(c as int, payload).leaves);
        assert(linked(self@.leaves)) by {
            assert forall|j: int| 0 <= j < self@.leaves.len() implies match #[trigger] self@.leaves[j].next_ptr {
                Some(n) => n.ptr == j + 1 && j + 1 < self@.leaves.len(),
                None => true,
            } by {
                assert(mid.leaves[j].next_ptr == mid.leaves[j].next_ptr);
            }
        }
    }

    /// Puts `node` into index level `k` just after node `i`.
    pub fn insert_node_after(&mut self, k: usize, i: usize, node: InternalNode<T>)
        requires
            old(self)@.wf(),
            k < old(self).levels.len(),
            i < old(self)@.levels[k as int].len(),
            old(self)@.levels[k as int].len() + 1 < usize::MAX,
            old(self)@.child_ok(k as int, node.payload.0),
        ensures
            final(self)@ == old(self)@.node_inserted(k as int, i as int, node),
            final(self)@.wf(),
    {
        let ghost old_view = self@;
        proof {
            old_view.lemma_node_inserted_wf(k as int, i as int, node);
            if k + 1 < old_view.levels.len() {
                assert forall|m: int| 0 <= m < old_view.levels[k + 1].len() implies child_of(
                    #[trigger] old_view.levels[k + 1][m],
                ) + 1 < usize::MAX by {
                    assert(old_view.child_ok(k + 1, old_view.levels[k + 1][m].payload.0));
                }
            }
        }
        assert(old_view.levels[k as int] == self.levels@[k as int]@);
        SkipNode::insert_next(&mut self.levels[k], i, node);
        let ghost mid = self@;
        assert(mid.levels =~= old_view.levels.update(
            k as int,
            inserted_after(old_view.levels[k as int], i as int, node),
        ));
        if k + 1 < self.levels.len() {
            self.shift_parents(k + 1, i + 1, true);
        }
        assert(self@.levels =~= old_view.node_inserted(k as int, i as int, node).levels);
    }

    /// Takes the node after node `i` out of index level `k`.
    pub fn remove_node_after(&mut self, k: usize, i: usize)
        requires
            old(self)@.wf(),
            k < old(self).levels.len(),
            i < old(self)@.levels[k as int].len(),
            old(self)@.levels[k as int][i as int].next_ptr is Some,
        ensures
            final(self)@ == old(self)@.node_removed(k as int, i as int),
            final(self)@.wf(),
    {
        let ghost old_view = self@;
        proof {
            old_view.lemma_node_removed_wf(k as int, i as int);
        }
        assert(old_view.levels[k as int] == self.levels@[k as int]@);
        SkipNode::remove_next(&mut self.levels[k], i);
        let ghost mid = self@;
        assert(mid.levels =~= old_view.levels.update(k as int, removed_after(old_view.levels[k as int], i as int)));
        if k + 1 < self.levels.len() {
            self.shift_parents(k + 1, i + 1, false);
        }
        assert(self@.levels =~= old_view.node_removed(k as int, i as int).levels);
    }

    /// Moves by one the downward links of index level `a` that point at `from`
    /// or beyond.
    fn shift_parents(&mut self, a: usize, from: usize, up: bool)
        requires
            a < old(self).levels.len() && up ==> forall|i: int|
                0 <= i < old(self)@.levels[a as int].len() ==> child_of(#[trigger] old(self)@.levels[a as int][i]) + 1
                    < usize::MAX,
            !up ==> from >= 1,
        ensures
            final(self)@ == (if a < old(self).levels.len() {
                ForestView {
                    leaves: old(self)@.leaves,
                    levels: old(self)@.levels.update(
                        a as int,
                        shift_children(old(self)@.levels[a as int], from as int, if up { 1 } else { -1 }),
                    ),
                }
            } else {
                old(self)@
            }),
    {
        if a < self.levels.len() {
            let ghost old_view = self@;
            assert(old_view.levels[a as int] == self.levels@[a as int]@);
            shift_level(&mut self.levels[a], from, up);
            assert(self@.levels =~= old_view.levels.update(
                a as int,
                shift_children(old_view.levels[a as int], from as int, if up { 1 } else { -1 }),
            ));
        }
    }
}

} // verus!
