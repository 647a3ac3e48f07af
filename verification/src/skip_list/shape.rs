use vstd::prelude::*;

use crate::forest::{child_of, lemma_shift_children_at, lemma_shift_children_len, shift_children, ForestView};
use crate::skip_node::linked::inserted_after;
use crate::skip_node::next::NextMode;
use crate::internal_node::InternalNode;
use crate::leaf_node::{leaf_key, leaf_range, leaf_slot, LeafNode};
use crate::internal_node::node_range;
use crate::order::Ordered;
use crate::skip_node::next::Next;
use crate::skip_node::{has_brother, linked, SkipNode};

verus! {

/// Every node of the level but the last links onward.
pub open spec fn chained<P>(level: Seq<SkipNode<P>>) -> bool {
    forall|i: int| 0 <= i < level.len() - 1 ==> (#[trigger] level[i]).next_ptr is Some
}

/// The items of the leaf level, in order.
pub open spec fn leaf_values<T>(leaves: Seq<LeafNode<T>>) -> Seq<T> {
    leaves.map_values(|n: LeafNode<T>| *n.payload)
}

/// The keys of the leaf level never go down.
pub open spec fn keys_sorted<T: Ordered>(leaves: Seq<LeafNode<T>>) -> bool {
    forall|a: int, b: int| 0 <= a <= b < leaves.len() ==> #[trigger] leaf_key(leaves[a]) <= #[trigger] leaf_key(leaves[b])
}

/// The items in `s` never go down by key.
pub open spec fn sorted_by_key<T: Ordered>(s: Seq<T>) -> bool {
    forall|a: int, b: int| 0 <= a <= b < s.len() ==> #[trigger] s[a].key() <= #[trigger] s[b].key()
}

/// How many items of `s` have a key not above `key`.
pub open spec fn count_not_above<T: Ordered>(s: Seq<T>, key: int) -> nat
    decreases s.len(),
{
    if s.len() == 0 {
        0
    } else {
        count_not_above(s.drop_last(), key) + if s.last().key() <= key { 1nat } else { 0nat }
    }
}

impl<T> ForestView<T> {
    /// The link after node `c` of the level under index level `j`.
    pub open spec fn below_link(self, j: int, c: int) -> Option<Next> {
        if j == 0 {
            self.leaves[c].next_ptr
        } else {
            self.levels[j - 1][c].next_ptr
        }
    }

    /// Every index level is unbroken and not empty, and its first node sits on
    /// the first node of the level below.
    #[verifier::opaque]
    pub open spec fn levels_chained(self) -> bool {
        forall|j: int|
            0 <= j < self.levels.len() ==> chained(#[trigger] self.levels[j]) && 1 <= self.levels[j].len()
                && child_of(self.levels[j][0]) == 0
    }

    /// Along every index level the first children go up strictly.
    #[verifier::opaque]
    pub open spec fn children_rise(self) -> bool {
        forall|j: int, a: int, b: int|
            0 <= j < self.levels.len() && 0 <= a < b < self.levels[j].len() ==> child_of(
                #[trigger] self.levels[j][a],
            ) < child_of(#[trigger] self.levels[j][b])
    }

    /// The link into the first child of every node but the first of an index
    /// level ends a group.
    #[verifier::opaque]
    pub open spec fn groups_start(self) -> bool {
        forall|j: int, m: int|
            0 <= j < self.levels.len() && 1 <= m < self.levels[j].len() ==> (self.below_link(
                j,
                child_of(#[trigger] self.levels[j][m]) - 1,
            ) matches Some(n) && n.mode is OuterBrother)
    }

    /// The shape of a skip structure: no level is empty or broken, the first
    /// node of each index level sits on the first node of the level below, the
    /// first children of the nodes of a level go up strictly, and the link
    /// into the first child of every node but the first ends a group.
    pub open spec fn shape_ok(self) -> bool {
        &&& self.wf()
        &&& chained(self.leaves)
        &&& 1 <= self.leaves.len()
        &&& self.levels_chained()
        &&& self.children_rise()
        &&& self.groups_start()
    }
}

impl<T: Ordered> ForestView<T> {
    pub open spec fn min_key(self, j: int, m: int) -> int {
        self.levels[j][m].payload.1.min_key()
    }

    /// The smallest key under the first child of node `m` of index level `j`.
    pub open spec fn child_min_key(self, j: int, m: int) -> int {
        let c = child_of(self.levels[j][m]);
        if j == 0 {
            leaf_key(self.leaves[c])
        } else {
            self.min_key(j - 1, c)
        }
    }

    /// No range of an index node is upside down.
    #[verifier::opaque]
    pub open spec fn ranges_upright(self) -> bool {
        forall|j: int, m: int|
            0 <= j < self.levels.len() && 0 <= m < self.levels[j].len() ==> (#[trigger] self.levels[j][m]).payload.1.min_key()
                <= self.levels[j][m].payload.1.max_key()
    }

    /// The minimum of every index node is the minimum under its first child,
    /// but perhaps for the first node of index level `e`.
    #[verifier::opaque]
    pub open spec fn mins_ok(self, e: int) -> bool {
        forall|j: int, m: int|
            0 <= j < self.levels.len() && 0 <= m < self.levels[j].len() && !(j == e && m == 0) ==> (
            #[trigger] self.levels[j][m]).payload.1.min_key() == self.child_min_key(j, m)
    }

    /// The leaves are sorted, no range is upside down, and the minimum of
    /// every index node is the minimum under its first child, but perhaps for
    /// the first node of index level `e`.
    pub open spec fn ranges_ok(self, e: int) -> bool {
        &&& keys_sorted(self.leaves)
        &&& self.ranges_upright()
        &&& self.mins_ok(e)
    }

    /// A well-built skip structure with exact minimums.
    pub open spec fn ordered(self) -> bool {
        self.shape_ok() && self.ranges_ok(-1)
    }

    /// Along index level `j`, below the level `e` that may hold a stale
    /// minimum, the minimums never go down.
    pub proof fn lemma_level_mins_sorted(self, e: int, j: int)
        requires
            self.shape_ok(),
            self.ranges_ok(e),
            0 <= j < self.levels.len(),
            e < 0 || j < e,
        ensures
            forall|a: int, b: int|
                0 <= a <= b < self.levels[j].len() ==> #[trigger] self.min_key(j, a) <= #[trigger] self.min_key(j, b),
        decreases j,
    {
        reveal(ForestView::children_rise);
        reveal(ForestView::mins_ok);
        if j > 0 {
            self.lemma_level_mins_sorted(e, j - 1);
        }
        assert forall|a: int, b: int| 0 <= a <= b < self.levels[j].len() implies #[trigger] self.min_key(j, a)
            <= #[trigger] self.min_key(j, b) by {
            assert(self.levels[j][a] == self.levels[j][a]);
            assert(self.levels[j][b] == self.levels[j][b]);
            assert(self.child_ok(j, self.levels[j][a].payload.0));
            assert(self.child_ok(j, self.levels[j][b].payload.0));
            if a < b {
                assert(child_of(self.levels[j][a]) < child_of(self.levels[j][b]));
            }
            if j == 0 {
                assert(leaf_key(self.leaves[child_of(self.levels[j][a])]) <= leaf_key(
                    self.leaves[child_of(self.levels[j][b])],
                ));
            } else {
                assert(self.min_key(j - 1, child_of(self.levels[j][a])) <= self.min_key(
                    j - 1,
                    child_of(self.levels[j][b]),
                ));
            }
        }
    }

    /// The first node of index level `j` holds the smallest key of all.
    pub proof fn lemma_first_min(self, e: int, j: int)
        requires
            self.shape_ok(),
            self.ranges_ok(e),
            0 <= j < self.levels.len(),
            e < 0 || j < e,
        ensures
            self.min_key(j, 0) == leaf_key(self.leaves[0]),
        decreases j,
    {
        reveal(ForestView::levels_chained);
        reveal(ForestView::mins_ok);
        assert(child_of(self.levels[j][0]) == 0);
        assert(self.levels[j][0] == self.levels[j][0]);
        if j > 0 {
            self.lemma_first_min(e, j - 1);
        }
    }

    /// Going down first children from the first node of a level ends at the
    /// first leaf.
    pub proof fn lemma_first_leaf_zero(self, j: int)
        requires
            self.shape_ok(),
            0 <= j < self.levels.len(),
        ensures
            self.first_leaf(j, 0) == 0,
        decreases j,
    {
        reveal(ForestView::levels_chained);
        assert(child_of(self.levels[j][0]) == 0);
        if j > 0 {
            self.lemma_first_leaf_zero(j - 1);
        }
    }

    /// Every index level holds at most as many nodes as the leaf level.
    pub proof fn lemma_level_len(self, j: int)
        requires
            self.shape_ok(),
            0 <= j < self.levels.len(),
        ensures
            self.levels[j].len() <= self.leaves.len(),
        decreases j,
    {
        reveal(ForestView::levels_chained);
        let n = self.levels[j].len();
        assert forall|m: int| 0 <= m < n implies m <= child_of(#[trigger] self.levels[j][m]) by {
            self.lemma_child_at_least(j, m);
        }
        assert(self.child_ok(j, self.levels[j][n - 1].payload.0));
        assert(n - 1 <= child_of(self.levels[j][n - 1]));
        if j > 0 {
            self.lemma_level_len(j - 1);
        }
    }

    pub proof fn lemma_child_at_least(self, j: int, m: int)
        requires
            self.shape_ok(),
            0 <= j < self.levels.len(),
            0 <= m < self.levels[j].len(),
        ensures
            m <= child_of(self.levels[j][m]),
        decreases m,
    {
        reveal(ForestView::children_rise);
        if m > 0 {
            self.lemma_child_at_least(j, m - 1);
            assert(child_of(self.levels[j][m - 1]) < child_of(self.levels[j][m]));
        }
    }
}

/// Over a group whose minimums never go down, the range of the group has the
/// minimum of its first node, and is not upside down.
pub proof fn lemma_node_range_min<T: Ordered>(level: Seq<InternalNode<T>>, c: int)
    requires
        0 <= c < level.len(),
        forall|a: int, b: int|
            c <= a <= b < level.len() ==> #[trigger] level[a].payload.1.min_key() <= #[trigger] level[b].payload.1.min_key(),
        forall|a: int| c <= a < level.len() ==> #[trigger] level[a].payload.1.min_key() <= level[a].payload.1.max_key(),
    ensures
        node_range(level, c).min_key() == level[c].payload.1.min_key(),
        node_range(level, c).min_key() <= node_range(level, c).max_key(),
    decreases level.len() - c,
{
    if has_brother(level, c) {
        lemma_node_range_min(level, c + 1);
        assert(level[c].payload.1.min_key() <= level[c + 1].payload.1.min_key());
    }
}

/// Over sorted leaves, the range of a group has the key of its first leaf,
/// and is not upside down.
pub proof fn lemma_leaf_range_min<T: Ordered>(leaves: Seq<LeafNode<T>>, c: int)
    requires
        0 <= c < leaves.len(),
        keys_sorted(leaves),
    ensures
        leaf_range(leaves, c).min_key() == leaf_key(leaves[c]),
        leaf_range(leaves, c).min_key() <= leaf_range(leaves, c).max_key(),
    decreases leaves.len() - c,
{
    if has_brother(leaves, c) {
        lemma_leaf_range_min(leaves, c + 1);
        assert(leaf_key(leaves[c]) <= leaf_key(leaves[c + 1]));
    }
}

/// Walking sorted, unbroken leaves from a leaf whose key is not above `key`,
/// the slot found is the last leaf whose key is not above `key`.
pub proof fn lemma_leaf_slot_sorted<T: Ordered>(leaves: Seq<LeafNode<T>>, c: int, key: int)
    requires
        linked(leaves),
        chained(leaves),
        keys_sorted(leaves),
        0 <= c < leaves.len(),
        leaf_key(leaves[c]) <= key,
    ensures
        c <= leaf_slot(leaves, c, key) < leaves.len(),
        leaf_key(leaves[leaf_slot(leaves, c, key)]) <= key,
        leaf_slot(leaves, c, key) + 1 < leaves.len() ==> key < leaf_key(
            leaves[leaf_slot(leaves, c, key) + 1],
        ),
    decreases leaves.len() - c,
{
    if c + 1 < leaves.len() {
        assert(leaves[c].next_ptr is Some);
        if !(leaf_key(leaves[c]) <= key && key < leaf_key(leaves[c + 1])) {
            lemma_leaf_slot_sorted(leaves, c + 1, key);
        }
    }
}

/// In a sequence sorted by key, the items with a key not above `key` are those
/// before the first item above it.
pub proof fn lemma_count_not_above<T: Ordered>(s: Seq<T>, p: int, key: int)
    requires
        sorted_by_key(s),
        0 <= p <= s.len(),
        forall|a: int| 0 <= a < p ==> (#[trigger] s[a]).key() <= key,
        forall|a: int| p <= a < s.len() ==> key < (#[trigger] s[a]).key(),
    ensures
        count_not_above(s, key) == p,
    decreases s.len(),
{
    if s.len() > 0 {
        let t = s.drop_last();
        if p == s.len() {
            assert(s.last().key() <= key);
            lemma_count_not_above(t, p - 1, key);
        } else {
            assert(key < s.last().key());
            lemma_count_not_above(t, p, key);
        }
    }
}

/// After `node` goes in after slot `q` of sorted, unbroken leaves, where it
/// fits by key, the leaves stay unbroken and sorted.
pub proof fn lemma_inserted_leaves<T: Ordered>(leaves: Seq<LeafNode<T>>, q: int, node: LeafNode<T>)
    requires
        linked(leaves),
        chained(leaves),
        keys_sorted(leaves),
        0 <= q < leaves.len(),
        leaves.len() + 1 < usize::MAX,
        leaf_key(leaves[q]) <= leaf_key(node),
        q + 1 < leaves.len() ==> leaf_key(node) < leaf_key(leaves[q + 1]),
    ensures
        chained(inserted_after(leaves, q, node)),
        keys_sorted(inserted_after(leaves, q, node)),
        leaf_values(inserted_after(leaves, q, node)) == leaf_values(leaves).insert(
            count_not_above(leaf_values(leaves), leaf_key(node)) as int,
            *node.payload,
        ),
{
    let key = leaf_key(node);
    let nl = inserted_after(leaves, q, node);
    assert forall|i: int| 0 <= i < nl.len() - 1 implies (#[trigger] nl[i]).next_ptr is Some by {
        if i > q + 1 {
            assert(leaves[i - 1].next_ptr is Some);
        } else if i == q + 1 {
            assert(leaves[q].next_ptr is Some);
        } else if i < q {
            assert(leaves[i].next_ptr is Some);
        }
    }
    assert forall|a: int, b: int| 0 <= a <= b < nl.len() implies #[trigger] leaf_key(nl[a]) <= #[trigger] leaf_key(
        nl[b],
    ) by {
        let oa = if a <= q { a } else { a - 1 };
        let ob = if b <= q { b } else { b - 1 };
        if a != q + 1 && b != q + 1 {
            assert(leaf_key(leaves[oa]) <= leaf_key(leaves[ob]));
        } else if a == q + 1 && b != q + 1 {
            if b > q + 1 {
                assert(leaf_key(leaves[q + 1]) <= leaf_key(leaves[ob]));
            }
        } else if a != q + 1 && b == q + 1 {
            assert(leaf_key(leaves[oa]) <= leaf_key(leaves[q]));
        }
    }
    let vals = leaf_values(leaves);
    assert(leaf_values(nl) =~= vals.insert(q + 1, *node.payload));
    assert forall|a: int| 0 <= a < q + 1 implies (#[trigger] vals[a]).key() <= key by {
        assert(leaf_key(leaves[a]) <= leaf_key(leaves[q]));
    }
    assert forall|a: int| q + 1 <= a < vals.len() implies key < (#[trigger] vals[a]).key() by {
        assert(leaf_key(leaves[q + 1]) <= leaf_key(leaves[a]));
    }
    assert(sorted_by_key(vals)) by {
        assert forall|a: int, b: int| 0 <= a <= b < vals.len() implies #[trigger] vals[a].key() <= #[trigger] vals[b].key() by {
            assert(leaf_key(leaves[a]) <= leaf_key(leaves[b]));
        }
    }
    lemma_count_not_above(vals, q + 1, key);
}

impl<T: Ordered> ForestView<T> {
    /// After a leaf goes in after leaf `q`, the index levels keep their shape,
    /// given that the leaves do.
    pub proof fn lemma_leaf_inserted_shape(self, q: int, node: LeafNode<T>)
        requires
            self.shape_ok(),
            0 <= q < self.leaves.len(),
            self.leaves.len() + 1 < usize::MAX,
            chained(self.leaf_inserted(q, node).leaves),
            q + 1 < self.leaves.len() ==> self.leaves[q].next_ptr is Some,
        ensures
            self.leaf_inserted(q, node).shape_ok(),
    {
        let w = self.leaf_inserted(q, node);
        self.lemma_leaf_inserted_wf(q, node);
        let old_leaves = self.leaves;
        let nl = w.leaves;
        if 0 < self.levels.len() {
            lemma_shift_children_len(self.levels[0], q + 1, 1);
        }
        assert(w.levels_chained()) by {
            reveal(ForestView::levels_chained);
            assert forall|j: int| 0 <= j < w.levels.len() implies chained(#[trigger] w.levels[j]) && 1
                <= w.levels[j].len() && child_of(w.levels[j][0]) == 0 by {
                assert(chained(self.levels[j]));
                assert(child_of(self.levels[j][0]) == 0);
                if j == 0 {
                    assert forall|i: int| 0 <= i < w.levels[j].len() - 1 implies (#[trigger] w.levels[j][i]).next_ptr is Some by {
                        assert(self.levels[j][i].next_ptr is Some);
                    }
                }
            }
        }
        assert(w.children_rise()) by {
            reveal(ForestView::children_rise);
            assert forall|j: int, a: int, b: int|
                0 <= j < w.levels.len() && 0 <= a < b < w.levels[j].len() implies child_of(
                #[trigger] w.levels[j][a],
            ) < child_of(#[trigger] w.levels[j][b]) by {
                assert(child_of(self.levels[j][a]) < child_of(self.levels[j][b]));
            }
        }
        self.lemma_leaf_inserted_groups(q, node);
    }

    pub proof fn lemma_leaf_inserted_groups(self, q: int, node: LeafNode<T>)
        requires
            self.wf(),
            self.groups_start(),
            self.levels_chained(),
            self.children_rise(),
            0 <= q < self.leaves.len(),
            self.leaves.len() + 1 < usize::MAX,
        ensures
            self.leaf_inserted(q, node).groups_start(),
    {
        let w = self.leaf_inserted(q, node);
        let old_leaves = self.leaves;
        let nl = w.leaves;
        reveal(ForestView::groups_start);
        reveal(ForestView::levels_chained);
        reveal(ForestView::children_rise);
        assert forall|j: int, m: int| 0 <= j < w.levels.len() && 1 <= m < w.levels[j].len() implies (w.below_link(
            j,
            child_of(#[trigger] w.levels[j][m]) - 1,
        ) matches Some(n) && n.mode is OuterBrother) by {
            assert(self.levels[j][m] == self.levels[j][m]);
            assert(self.below_link(j, child_of(self.levels[j][m]) - 1) matches Some(n) && n.mode is OuterBrother);
            assert(self.child_ok(j, self.levels[j][m].payload.0));
            let cm = child_of(self.levels[j][m]);
            assert(child_of(self.levels[j][0]) < cm);
            if j == 0 {
                lemma_shift_children_at(self.levels[0], q + 1, 1, m);
                if cm > q + 1 {
                    assert(nl[cm] == crate::skip_node::shift_node(old_leaves[cm - 1], 1));
                } else if cm == q + 1 {
                    assert(nl[q + 1].next_ptr == crate::skip_node::shifted(old_leaves[q].next_ptr, 1));
                } else {
                    assert(nl[cm - 1] == old_leaves[cm - 1]);
                }
            } else {
                if j == 1 {
                    assert(self.child_ok(0, self.levels[0][cm - 1].payload.0));
                    lemma_shift_children_at(self.levels[0], q + 1, 1, cm - 1);
                }
                assert(w.levels[j - 1][cm - 1].next_ptr == self.levels[j - 1][cm - 1].next_ptr);
            }
        }
    }

    /// After a leaf goes in after leaf `q`, the index levels keep their
    /// ranges and minimums, given that the leaves stay sorted.
    pub proof fn lemma_leaf_inserted_ranges(self, q: int, node: LeafNode<T>)
        requires
            self.wf(),
            self.ranges_upright(),
            self.mins_ok(-1),
            0 <= q < self.leaves.len(),
            self.leaves.len() + 1 < usize::MAX,
            keys_sorted(self.leaf_inserted(q, node).leaves),
        ensures
            self.leaf_inserted(q, node).ranges_ok(-1),
    {
        let w = self.leaf_inserted(q, node);
        let old_leaves = self.leaves;
        let nl = w.leaves;
        if 0 < self.levels.len() {
            lemma_shift_children_len(self.levels[0], q + 1, 1);
        }
        assert(w.ranges_upright()) by {
            reveal(ForestView::ranges_upright);
            assert forall|j: int, m: int|
                0 <= j < w.levels.len() && 0 <= m < w.levels[j].len() implies (#[trigger] w.levels[j][m]).payload.1.min_key()
                <= w.levels[j][m].payload.1.max_key() by {
                assert(self.levels[j][m] == self.levels[j][m]);
            }
        }
        assert(w.mins_ok(-1)) by {
            reveal(ForestView::mins_ok);
            assert forall|j: int, m: int|
                0 <= j < w.levels.len() && 0 <= m < w.levels[j].len() && !(j == -1 && m == 0) implies (
                #[trigger] w.levels[j][m]).payload.1.min_key() == w.child_min_key(j, m) by {
                assert(self.levels[j][m] == self.levels[j][m]);
                assert(self.child_ok(j, self.levels[j][m].payload.0));
                let cm = child_of(self.levels[j][m]);
                if j == 0 {
                    lemma_shift_children_at(self.levels[0], q + 1, 1, m);
                    if cm >= q + 1 {
                        assert(nl[cm + 1] == crate::skip_node::shift_node(old_leaves[cm], 1));
                    } else if cm < q {
                        assert(nl[cm] == old_leaves[cm]);
                    }
                } else {
                    if j == 1 {
                        assert(self.child_ok(0, self.levels[0][cm].payload.0));
                        lemma_shift_children_at(self.levels[0], q + 1, 1, cm);
                    }
                    assert(w.levels[j - 1][cm].payload.1 == self.levels[j - 1][cm].payload.1);
                }
            }
        }
    }

    /// Putting an item into the leaf level after the slot found from a leaf
    /// whose key is not above it keeps the structure ordered, and puts the item
    /// just after all items whose key is not above its key.
    pub proof fn lemma_leaf_insert_ordered(self, c: int, node: LeafNode<T>)
        requires
            self.ordered(),
            0 <= c < self.leaves.len(),
            leaf_key(self.leaves[c]) <= leaf_key(node),
            self.leaves.len() + 1 < usize::MAX,
        ensures
            self.leaf_inserted(leaf_slot(self.leaves, c, leaf_key(node)), node).ordered(),
            leaf_values(self.leaf_inserted(leaf_slot(self.leaves, c, leaf_key(node)), node).leaves)
                == leaf_values(self.leaves).insert(
                count_not_above(leaf_values(self.leaves), leaf_key(node)) as int,
                *node.payload,
            ),
    {
        let key = leaf_key(node);
        lemma_leaf_slot_sorted(self.leaves, c, key);
        let q = leaf_slot(self.leaves, c, key);
        lemma_inserted_leaves(self.leaves, q, node);
        if q + 1 < self.leaves.len() {
            assert(self.leaves[q].next_ptr is Some);
        }
        self.lemma_leaf_inserted_shape(q, node);
        self.lemma_leaf_inserted_ranges(q, node);
    }
}

impl<T: Ordered> ForestView<T> {
    /// Putting an item below every key in front of the first leaf keeps the
    /// shape and the leaves sorted; only the minimum of the first node of
    /// index level 0 goes stale, and the item comes first.
    pub proof fn lemma_put_front_ordered(self, payload: std::sync::Arc<T>)
        requires
            self.ordered(),
            self.leaves.len() + 1 < usize::MAX,
            (*payload).key() < leaf_key(self.leaves[0]),
        ensures
            self.leaf_put_front(0, payload).shape_ok(),
            self.leaf_put_front(0, payload).ranges_ok(0),
            leaf_values(self.leaf_put_front(0, payload).leaves) == leaf_values(self.leaves).insert(
                count_not_above(leaf_values(self.leaves), (*payload).key()) as int,
                *payload,
            ),
            count_not_above(leaf_values(self.leaves), (*payload).key()) == 0,
            self.leaf_put_front(0, payload).leaves[0].payload == payload,
    {
        let copy = SkipNode { payload: self.leaves[0].payload, next_ptr: None };
        let u = self.leaf_inserted(0, copy);
        let w = self.leaf_put_front(0, payload);
        let old_leaves = self.leaves;
        let ul = u.leaves;
        assert(ul == inserted_after(old_leaves, 0, copy));
        assert forall|i: int| 0 <= i < ul.len() - 1 implies (#[trigger] ul[i]).next_ptr is Some by {
            if i > 1 {
                assert(old_leaves[i - 1].next_ptr is Some);
            } else if i == 1 {
                assert(old_leaves[0].next_ptr is Some);
            }
        }
        assert forall|a: int, b: int| 0 <= a <= b < ul.len() implies #[trigger] leaf_key(ul[a]) <= #[trigger] leaf_key(
            ul[b],
        ) by {
            let oa = if a == 0 { 0 } else { a - 1 };
            let ob = if b == 0 { 0 } else { b - 1 };
            assert(leaf_key(old_leaves[oa]) <= leaf_key(old_leaves[ob]));
        }
        if 1 < old_leaves.len() {
            assert(old_leaves[0].next_ptr is Some);
        }
        self.lemma_leaf_inserted_shape(0, copy);
        self.lemma_leaf_inserted_ranges(0, copy);
        let wl = w.leaves;
        assert(w.levels == u.levels);
        assert(wl == ul.update(0, SkipNode { payload, next_ptr: ul[0].next_ptr }));
        // the shape does not look at payloads
        assert(linked(wl)) by {
            assert forall|i: int| 0 <= i < wl.len() implies match #[trigger] wl[i].next_ptr {
                Some(n) => n.ptr == i + 1 && i + 1 < wl.len(),
                None => true,
            } by {
                assert(ul[i].next_ptr == ul[i].next_ptr);
            }
        }
        assert(chained(wl)) by {
            assert forall|i: int| 0 <= i < wl.len() - 1 implies (#[trigger] wl[i]).next_ptr is Some by {
                assert(ul[i].next_ptr is Some);
            }
        }
        assert(w.wf()) by {
            assert forall|k: int, i: int|
                0 <= k < w.levels.len() && 0 <= i < w.levels[k].len() implies w.child_ok(
                k,
                #[trigger] w.levels[k][i].payload.0,
            ) by {
                assert(u.child_ok(k, u.levels[k][i].payload.0));
            }
        }
        assert(w.levels_chained() == u.levels_chained()) by {
            reveal(ForestView::levels_chained);
        }
        assert(w.children_rise() == u.children_rise()) by {
            reveal(ForestView::children_rise);
        }
        assert(w.groups_start()) by {
            reveal(ForestView::groups_start);
            reveal(ForestView::levels_chained);
            reveal(ForestView::children_rise);
            assert forall|j: int, m: int| 0 <= j < w.levels.len() && 1 <= m < w.levels[j].len() implies (w.below_link(
                j,
                child_of(#[trigger] w.levels[j][m]) - 1,
            ) matches Some(n) && n.mode is OuterBrother) by {
                assert(u.below_link(j, child_of(u.levels[j][m]) - 1) matches Some(n) && n.mode is OuterBrother);
                if j == 0 {
                    assert(child_of(u.levels[0][0]) < child_of(u.levels[0][m]));
                    assert(wl[child_of(u.levels[0][m]) - 1].next_ptr == ul[child_of(u.levels[0][m]) - 1].next_ptr);
                }
            }
        }
        // the keys
        assert(keys_sorted(wl)) by {
            assert forall|a: int, b: int| 0 <= a <= b < wl.len() implies #[trigger] leaf_key(wl[a]) <= #[trigger] leaf_key(
                wl[b],
            ) by {
                assert(leaf_key(ul[0]) <= leaf_key(ul[b]));
                if a > 0 {
                    assert(leaf_key(ul[a]) <= leaf_key(ul[b]));
                }
            }
        }
        assert(w.ranges_upright() == u.ranges_upright()) by {
            reveal(ForestView::ranges_upright);
        }
        assert(w.mins_ok(0)) by {
            reveal(ForestView::mins_ok);
            reveal(ForestView::levels_chained);
            reveal(ForestView::children_rise);
            assert forall|j: int, m: int|
                0 <= j < w.levels.len() && 0 <= m < w.levels[j].len() && !(j == 0 && m == 0) implies (
                #[trigger] w.levels[j][m]).payload.1.min_key() == w.child_min_key(j, m) by {
                assert(u.levels[j][m].payload.1.min_key() == u.child_min_key(j, m));
                if j == 0 {
                    assert(child_of(u.levels[0][0]) < child_of(u.levels[0][m]));
                }
            }
        }
        // the items
        let vals = leaf_values(old_leaves);
        assert(leaf_values(wl) =~= vals.insert(0, *payload));
        assert forall|a: int| 0 <= a < vals.len() implies (*payload).key() < (#[trigger] vals[a]).key() by {
            assert(leaf_key(old_leaves[0]) <= leaf_key(old_leaves[a]));
        }
        assert(sorted_by_key(vals)) by {
            assert forall|a: int, b: int| 0 <= a <= b < vals.len() implies #[trigger] vals[a].key() <= #[trigger] vals[b].key() by {
                assert(leaf_key(old_leaves[a]) <= leaf_key(old_leaves[b]));
            }
        }
        lemma_count_not_above(vals, 0, (*payload).key());
    }
}

impl<T: Ordered> ForestView<T> {
    /// Giving node `m` of index level `k` an upright range with the minimum
    /// under its first child keeps the structure's shape and ranges: with the
    /// same stale minimum where node `m` kept its minimum, and with the stale
    /// minimum moved one level up where node `m` was the stale first node.
    pub proof fn lemma_range_set_ordered(self, e: int, k: int, m: int, r: crate::internal_node::range::Range<T>, e2: int)
        requires
            self.shape_ok(),
            self.ranges_ok(e),
            0 <= k < self.levels.len(),
            0 <= m < self.levels[k].len(),
            r.min_key() <= r.max_key(),
            r.min_key() == self.child_min_key(k, m),
            (e2 == e && !(e == k && m == 0) && r.min_key() == self.min_key(k, m)) || (e == k && m == 0 && e2
                == k + 1),
        ensures
            self.range_set(k, m, r).shape_ok(),
            self.range_set(k, m, r).ranges_ok(e2),
            self.range_set(k, m, r).leaves == self.leaves,
    {
        let w = self.range_set(k, m, r);
        self.lemma_range_set_wf(k, m, r);
        assert(w.levels_chained()) by {
            reveal(ForestView::levels_chained);
            assert forall|j: int| 0 <= j < w.levels.len() implies chained(#[trigger] w.levels[j]) && 1
                <= w.levels[j].len() && child_of(w.levels[j][0]) == 0 by {
                assert(chained(self.levels[j]));
                if j == k {
                    assert forall|a: int| 0 <= a < w.levels[j].len() - 1 implies (#[trigger] w.levels[j][a]).next_ptr is Some by {
                        assert(self.levels[j][a].next_ptr is Some);
                    }
                }
            }
        }
        assert(w.children_rise()) by {
            reveal(ForestView::children_rise);
            assert forall|j: int, a: int, b: int|
                0 <= j < w.levels.len() && 0 <= a < b < w.levels[j].len() implies child_of(
                #[trigger] w.levels[j][a],
            ) < child_of(#[trigger] w.levels[j][b]) by {
                assert(child_of(self.levels[j][a]) < child_of(self.levels[j][b]));
            }
        }
        assert(w.groups_start()) by {
            reveal(ForestView::groups_start);
            assert forall|j: int, p: int| 0 <= j < w.levels.len() && 1 <= p < w.levels[j].len() implies (w.below_link(
                j,
                child_of(#[trigger] w.levels[j][p]) - 1,
            ) matches Some(n) && n.mode is OuterBrother) by {
                assert(self.levels[j][p] == self.levels[j][p]);
                assert(self.child_ok(j, self.levels[j][p].payload.0));
                if j == k + 1 {
                    assert(child_of(self.levels[j][0]) < child_of(self.levels[j][p])) by {
                        reveal(ForestView::children_rise);
                        reveal(ForestView::levels_chained);
                    }
                    assert(w.levels[k][child_of(self.levels[j][p]) - 1].next_ptr == self.levels[k][child_of(
                        self.levels[j][p],
                    ) - 1].next_ptr);
                }
            }
        }
        assert(w.ranges_upright()) by {
            reveal(ForestView::ranges_upright);
            assert forall|j: int, p: int|
                0 <= j < w.levels.len() && 0 <= p < w.levels[j].len() implies (#[trigger] w.levels[j][p]).payload.1.min_key()
                <= w.levels[j][p].payload.1.max_key() by {
                assert(self.levels[j][p] == self.levels[j][p]);
            }
        }
        assert(w.mins_ok(e2)) by {
            reveal(ForestView::mins_ok);
            assert forall|j: int, p: int|
                0 <= j < w.levels.len() && 0 <= p < w.levels[j].len() && !(j == e2 && p == 0) implies (
                #[trigger] w.levels[j][p]).payload.1.min_key() == w.child_min_key(j, p) by {
                assert(self.levels[j][p] == self.levels[j][p]);
                assert(self.child_ok(j, self.levels[j][p].payload.0));
                if !(j == k && p == m) {
                    if j == k + 1 && child_of(self.levels[j][p]) == m {
                        if e2 == k + 1 {
                            assert(child_of(self.levels[j][0]) < child_of(self.levels[j][p])) by {
                                reveal(ForestView::children_rise);
                                reveal(ForestView::levels_chained);
                            }
                        }
                    }
                }
            }
        }
    }
}

impl<T: Ordered> ForestView<T> {
    /// A stale minimum on a level that does not exist is none at all.
    pub proof fn lemma_ranges_ok_past_top(self, e: int)
        requires
            self.ranges_ok(e),
            e >= self.levels.len(),
        ensures
            self.ranges_ok(-1),
    {
        reveal(ForestView::mins_ok);
    }

    /// A new top level with one node over the whole old top level, and the
    /// range of it, keeps the structure ordered.
    pub proof fn lemma_push_top(self, node: InternalNode<T>)
        requires
            self.ordered(),
            1 <= self.levels.len(),
            node.payload.0 == crate::internal_node::down_child::DownType::Internal(0),
            node.payload.1 == node_range(self.levels[self.levels.len() - 1], 0),
            node.next_ptr is None,
        ensures
            (ForestView { leaves: self.leaves, levels: self.levels.push(seq![node]) }).ordered(),
    {
        let top = self.levels.len() - 1;
        let w = ForestView { leaves: self.leaves, levels: self.levels.push(seq![node]) };
        assert(linked(seq![node]));
        assert(w.wf()) by {
            assert forall|k: int| 0 <= k < w.levels.len() implies linked(#[trigger] w.levels[k]) by {
                if k < top + 1 {
                    assert(linked(self.levels[k]));
                }
            }
            assert forall|k: int, i: int|
                0 <= k < w.levels.len() && 0 <= i < w.levels[k].len() implies w.child_ok(
                k,
                #[trigger] w.levels[k][i].payload.0,
            ) by {
                if k < top + 1 {
                    assert(self.child_ok(k, self.levels[k][i].payload.0));
                } else {
                    reveal(ForestView::levels_chained);
                    assert(1 <= self.levels[top].len());
                }
            }
        }
        assert(w.levels_chained()) by {
            reveal(ForestView::levels_chained);
            assert(chained(seq![node]));
            assert forall|j: int| 0 <= j < w.levels.len() implies chained(#[trigger] w.levels[j]) && 1
                <= w.levels[j].len() && child_of(w.levels[j][0]) == 0 by {
                if j < top + 1 {
                    assert(w.levels[j] == self.levels[j]);
                }
            }
        }
        assert(w.children_rise()) by {
            reveal(ForestView::children_rise);
            assert forall|j: int, a: int, b: int|
                0 <= j < w.levels.len() && 0 <= a < b < w.levels[j].len() implies child_of(
                #[trigger] w.levels[j][a],
            ) < child_of(#[trigger] w.levels[j][b]) by {
                assert(child_of(self.levels[j][a]) < child_of(self.levels[j][b]));
            }
        }
        assert(w.groups_start()) by {
            reveal(ForestView::groups_start);
            assert forall|j: int, m: int| 0 <= j < w.levels.len() && 1 <= m < w.levels[j].len() implies (w.below_link(
                j,
                child_of(#[trigger] w.levels[j][m]) - 1,
            ) matches Some(n) && n.mode is OuterBrother) by {
                assert(self.levels[j][m] == self.levels[j][m]);
                assert(self.below_link(j, child_of(self.levels[j][m]) - 1) matches Some(n) && n.mode is OuterBrother);
            }
        }
        self.lemma_level_mins_sorted(-1, top);
        assert forall|a: int| 0 <= a < self.levels[top].len() implies #[trigger] self.levels[top][a].payload.1.min_key()
            <= self.levels[top][a].payload.1.max_key() by {
            reveal(ForestView::ranges_upright);
            assert(self.levels[top][a] == self.levels[top][a]);
        }
        assert forall|a: int, b: int| 0 <= a <= b < self.levels[top].len() implies #[trigger] self.levels[top][a].payload.1.min_key()
            <= #[trigger] self.levels[top][b].payload.1.min_key() by {
            assert(self.min_key(top, a) <= self.min_key(top, b));
        }
        assert(self.levels[top].len() >= 1 && child_of(self.levels[top][0]) == 0) by {
            reveal(ForestView::levels_chained);
        }
        lemma_node_range_min(self.levels[top], 0);
        assert(w.ranges_upright()) by {
            reveal(ForestView::ranges_upright);
            assert forall|j: int, p: int|
                0 <= j < w.levels.len() && 0 <= p < w.levels[j].len() implies (#[trigger] w.levels[j][p]).payload.1.min_key()
                <= w.levels[j][p].payload.1.max_key() by {
                assert(self.levels[j][p] == self.levels[j][p]);
            }
        }
        assert(w.mins_ok(-1)) by {
            reveal(ForestView::mins_ok);
            assert forall|j: int, p: int|
                0 <= j < w.levels.len() && 0 <= p < w.levels[j].len() && !(j == -1 && p == 0) implies (
                #[trigger] w.levels[j][p]).payload.1.min_key() == w.child_min_key(j, p) by {
                assert(self.levels[j][p] == self.levels[j][p]);
            }
        }
    }

    /// Dropping the top level keeps the structure ordered.
    pub proof fn lemma_pop_top(self)
        requires
            self.ordered(),
            2 <= self.levels.len(),
        ensures
            (ForestView { leaves: self.leaves, levels: self.levels.drop_last() }).ordered(),
    {
        let w = ForestView { leaves: self.leaves, levels: self.levels.drop_last() };
        assert(w.wf()) by {
            assert forall|k: int| 0 <= k < w.levels.len() implies linked(#[trigger] w.levels[k]) by {
                assert(linked(self.levels[k]));
            }
            assert forall|k: int, i: int|
                0 <= k < w.levels.len() && 0 <= i < w.levels[k].len() implies w.child_ok(
                k,
                #[trigger] w.levels[k][i].payload.0,
            ) by {
                assert(self.child_ok(k, self.levels[k][i].payload.0));
            }
        }
        assert(w.levels_chained()) by {
            reveal(ForestView::levels_chained);
            assert forall|j: int| 0 <= j < w.levels.len() implies chained(#[trigger] w.levels[j]) && 1
                <= w.levels[j].len() && child_of(w.levels[j][0]) == 0 by {
                assert(w.levels[j] == self.levels[j]);
            }
        }
        assert(w.children_rise()) by {
            reveal(ForestView::children_rise);
            assert forall|j: int, a: int, b: int|
                0 <= j < w.levels.len() && 0 <= a < b < w.levels[j].len() implies child_of(
                #[trigger] w.levels[j][a],
            ) < child_of(#[trigger] w.levels[j][b]) by {
                assert(child_of(self.levels[j][a]) < child_of(self.levels[j][b]));
            }
        }
        assert(w.groups_start()) by {
            reveal(ForestView::groups_start);
            assert forall|j: int, m: int| 0 <= j < w.levels.len() && 1 <= m < w.levels[j].len() implies (w.below_link(
                j,
                child_of(#[trigger] w.levels[j][m]) - 1,
            ) matches Some(n) && n.mode is OuterBrother) by {
                assert(self.levels[j][m] == self.levels[j][m]);
                assert(self.below_link(j, child_of(self.levels[j][m]) - 1) matches Some(n) && n.mode is OuterBrother);
            }
        }
        assert(w.ranges_upright()) by {
            reveal(ForestView::ranges_upright);
            assert forall|j: int, p: int|
                0 <= j < w.levels.len() && 0 <= p < w.levels[j].len() implies (#[trigger] w.levels[j][p]).payload.1.min_key()
                <= w.levels[j][p].payload.1.max_key() by {
                assert(self.levels[j][p] == self.levels[j][p]);
            }
        }
        assert(w.mins_ok(-1)) by {
            reveal(ForestView::mins_ok);
            assert forall|j: int, p: int|
                0 <= j < w.levels.len() && 0 <= p < w.levels[j].len() && !(j == -1 && p == 0) implies (
                #[trigger] w.levels[j][p]).payload.1.min_key() == w.child_min_key(j, p) by {
                assert(self.levels[j][p] == self.levels[j][p]);
            }
        }
    }

    /// One leaf under one index node with the range of that leaf is ordered.
    pub proof fn lemma_single_ordered(self)
        requires
            self.leaves.len() == 1,
            self.leaves[0].next_ptr is None,
            self.levels.len() == 1,
            self.levels[0].len() == 1,
            self.levels[0][0].next_ptr is None,
            self.levels[0][0].payload.0 == crate::internal_node::down_child::DownType::Leaf(0),
            self.levels[0][0].payload.1.min == self.leaves[0].payload,
            self.levels[0][0].payload.1.max == self.leaves[0].payload,
        ensures
            self.ordered(),
    {
        assert(self.levels[0][0] == self.levels[0][0]);
        assert(self.child_ok(0, self.levels[0][0].payload.0));
        assert(self.wf());
        assert(self.levels_chained()) by {
            reveal(ForestView::levels_chained);
        }
        assert(self.children_rise()) by {
            reveal(ForestView::children_rise);
        }
        assert(self.groups_start()) by {
            reveal(ForestView::groups_start);
        }
        assert(self.ranges_upright()) by {
            reveal(ForestView::ranges_upright);
        }
        assert(self.mins_ok(-1)) by {
            reveal(ForestView::mins_ok);
        }
    }
}

} // verus!