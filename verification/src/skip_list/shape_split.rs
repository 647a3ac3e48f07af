use vstd::prelude::*;

use super::shape::{chained, keys_sorted, lemma_leaf_range_min, lemma_node_range_min, leaf_values};
use crate::forest::{child_of, lemma_shift_children_at, lemma_shift_children_len, shift_children, ForestView};
use crate::internal_node::down_child::{child_index, DownType};
use crate::internal_node::node_range;
use crate::leaf_node::{leaf_key, leaf_range};
use crate::order::Ordered;
use crate::skip_node::linked::inserted_after;
use crate::skip_node::next::{Next, NextMode};
use crate::skip_node::{brother_count, has_brother, linked, shift_node, shifted, with_mode, SkipNode};

verus! {

pub proof fn lemma_count_above_two<P>(level: Seq<SkipNode<P>>, c: int)
    requires
        brother_count(level, c) > 2,
    ensures
        has_brother(level, c),
        has_brother(level, c + 1),
{
    reveal_with_fuel(brother_count, 3);
}

impl<T: Ordered> ForestView<T> {
    /// A node with more than two children: its first child links on within
    /// the group twice, and the next node of its level starts at least three
    /// places further.
    pub proof fn lemma_split_facts(self, k: int, m: int)
        requires
            self.shape_ok(),
            0 <= k < self.levels.len(),
            0 <= m < self.levels[k].len(),
            self.children_count(k, m) > 2,
        ensures
            child_of(self.levels[k][m]) + 2 < self.below_len(k),
            k == 0 ==> has_brother(self.leaves, child_of(self.levels[k][m])) && has_brother(
                self.leaves,
                child_of(self.levels[k][m]) + 1,
            ),
            k > 0 ==> has_brother(self.levels[k - 1], child_of(self.levels[k][m])) && has_brother(
                self.levels[k - 1],
                child_of(self.levels[k][m]) + 1,
            ),
            m + 1 < self.levels[k].len() ==> child_of(self.levels[k][m]) + 3 <= child_of(self.levels[k][m + 1]),
    {
        let c = child_of(self.levels[k][m]);
        assert(self.child_ok(k, self.levels[k][m].payload.0));
        if k == 0 {
            lemma_count_above_two(self.leaves, c);
        } else {
            lemma_count_above_two(self.levels[k - 1], c);
        }
        if m + 1 < self.levels[k].len() {
            let c2 = child_of(self.levels[k][m + 1]);
            assert(c < c2) by {
                reveal(ForestView::children_rise);
                assert(self.levels[k][m] == self.levels[k][m]);
                assert(self.levels[k][m + 1] == self.levels[k][m + 1]);
            }
            assert(self.below_link(k, c2 - 1) matches Some(n) && n.mode is OuterBrother) by {
                reveal(ForestView::groups_start);
                assert(self.levels[k][m + 1] == self.levels[k][m + 1]);
            }
        }
    }
}

impl<T: Ordered> ForestView<T> {
    /// The node that a split of node `m` of index level `k` puts after it.
    pub open spec fn split_node(self, k: int, m: int) -> crate::internal_node::InternalNode<T> {
        let c = child_of(self.levels[k][m]);
        let v1 = self.below_mode(k, c, NextMode::OuterBrother);
        let down = if k == 0 {
            DownType::Leaf((c + 1) as usize)
        } else {
            DownType::Internal((c + 1) as usize)
        };
        SkipNode { payload: (down, v1.below_range(k, c + 1)), next_ptr: None }
    }

    /// The range that a split leaves node `m` of index level `k`.
    pub open spec fn split_low_range(self, k: int, m: int) -> crate::internal_node::range::Range<T> {
        let c = child_of(self.levels[k][m]);
        self.below_mode(k, c, NextMode::OuterBrother).below_range(k, c)
    }

    pub proof fn lemma_split_describe(self, k: int, m: int)
        requires
            self.shape_ok(),
            0 <= k < self.levels.len(),
            0 <= m < self.levels[k].len(),
            self.levels[k].len() + 1 < usize::MAX,
            self.children_count(k, m) > 2,
        ensures
            ({
                let w = self.split_result(k, m);
                let c = child_of(self.levels[k][m]);
                &&& w.wf()
                &&& w.levels.len() == self.levels.len()
                &&& w.leaves == if k == 0 { with_mode(self.leaves, c, NextMode::OuterBrother) } else { self.leaves }
                &&& k > 0 ==> w.levels[k - 1] == with_mode(self.levels[k - 1], c, NextMode::OuterBrother)
                &&& w.levels[k] == inserted_after(
                    self.levels[k].update(
                        m,
                        SkipNode {
                            payload: (self.levels[k][m].payload.0, self.split_low_range(k, m)),
                            next_ptr: self.levels[k][m].next_ptr,
                        },
                    ),
                    m,
                    self.split_node(k, m),
                )
                &&& k + 1 < self.levels.len() ==> w.levels[k + 1] == shift_children(self.levels[k + 1], m + 1, 1)
                &&& forall|j: int|
                    0 <= j < self.levels.len() && j != k && j != k + 1 && j != k - 1 ==> #[trigger] w.levels[j]
                        == self.levels[j]
                &&& child_of(self.split_node(k, m)) == c + 1
                &&& self.split_node(k, m).payload.0 is Leaf == (k == 0)
            }),
    {
        self.lemma_split_facts(k, m);
        let c = child_of(self.levels[k][m]);
        assert(self.child_ok(k, self.levels[k][m].payload.0));
        let v1 = self.below_mode(k, c, NextMode::OuterBrother);
        let x = self.split_node(k, m);
        let r1 = self.split_low_range(k, m);
        let v2 = v1.range_set(k, m, r1);
        let w = v2.node_inserted(k, m, x);
        assert(w == self.split_result(k, m));
        self.lemma_below_mode_wf(k, c, NextMode::OuterBrother);
        v1.lemma_range_set_wf(k, m, r1);
        assert(v2.child_ok(k, x.payload.0));
        v2.lemma_node_inserted_wf(k, m, x);
        assert(v2.levels[k] == self.levels[k].update(
            m,
            SkipNode { payload: (self.levels[k][m].payload.0, r1), next_ptr: self.levels[k][m].next_ptr },
        ));
    }

    /// Splitting a node with more than two children keeps the levels
    /// unbroken, on their first children, and with rising children.
    pub proof fn lemma_split_chained(self, k: int, m: int)
        requires
            self.shape_ok(),
            0 <= k < self.levels.len(),
            0 <= m < self.levels[k].len(),
            self.levels[k].len() + 1 < usize::MAX,
            self.children_count(k, m) > 2,
        ensures
            chained(self.split_result(k, m).leaves),
            self.split_result(k, m).levels_chained(),
    {
        self.lemma_split_describe(k, m);
        self.lemma_split_facts(k, m);
        let c = child_of(self.levels[k][m]);
        let w = self.split_result(k, m);
        let old_k = self.levels[k];
        let lk = w.levels[k];
        if k + 1 < self.levels.len() {
            lemma_shift_children_len(self.levels[k + 1], m + 1, 1);
        }
        assert(chained(w.leaves)) by {
            if k == 0 {
                assert forall|i: int| 0 <= i < w.leaves.len() - 1 implies (#[trigger] w.leaves[i]).next_ptr is Some by {
                    assert(self.leaves[i].next_ptr is Some);
                }
            }
        }
        assert(w.levels_chained()) by {
            reveal(ForestView::levels_chained);
            assert forall|j: int| 0 <= j < w.levels.len() implies chained(#[trigger] w.levels[j]) && 1
                <= w.levels[j].len() && child_of(w.levels[j][0]) == 0 by {
                assert(chained(self.levels[j]));
                assert(child_of(self.levels[j][0]) == 0);
                if j == k - 1 {
                    assert forall|i: int| 0 <= i < w.levels[j].len() - 1 implies (#[trigger] w.levels[j][i]).next_ptr is Some by {
                        assert(self.levels[j][i].next_ptr is Some);
                    }
                } else if j == k {
                    assert forall|i: int| 0 <= i < lk.len() - 1 implies (#[trigger] lk[i]).next_ptr is Some by {
                        if i > m + 1 {
                            assert(old_k[i - 1].next_ptr is Some);
                        } else if i == m + 1 {
                            assert(old_k[m].next_ptr is Some);
                        } else if i < m {
                            assert(old_k[i].next_ptr is Some);
                        }
                    }
                } else if j == k + 1 {
                    assert(self.child_ok(j, self.levels[j][0].payload.0));
                    lemma_shift_children_at(self.levels[j], m + 1, 1, 0);
                    assert forall|i: int| 0 <= i < w.levels[j].len() - 1 implies (#[trigger] w.levels[j][i]).next_ptr is Some by {
                        assert(self.levels[j][i].next_ptr is Some);
                    }
                }
            }
        }
    }

    /// Splitting a node with more than two children keeps the children rising.
    pub proof fn lemma_split_rise(self, k: int, m: int)
        requires
            self.shape_ok(),
            0 <= k < self.levels.len(),
            0 <= m < self.levels[k].len(),
            self.levels[k].len() + 1 < usize::MAX,
            self.children_count(k, m) > 2,
        ensures
            self.split_result(k, m).children_rise(),
    {
        self.lemma_split_describe(k, m);
        self.lemma_split_facts(k, m);
        let c = child_of(self.levels[k][m]);
        let w = self.split_result(k, m);
        let old_k = self.levels[k];
        let lk = w.levels[k];
        if k + 1 < self.levels.len() {
            lemma_shift_children_len(self.levels[k + 1], m + 1, 1);
        }
        reveal(ForestView::children_rise);
        assert forall|j: int, a: int, b: int|
            0 <= j < w.levels.len() && 0 <= a < b < w.levels[j].len() implies child_of(
            #[trigger] w.levels[j][a],
        ) < child_of(#[trigger] w.levels[j][b]) by {
            if j == k {
                let oa = if a <= m { a } else { a - 1 };
                let ob = if b <= m { b } else { b - 1 };
                assert(child_of(lk[a]) == if a == m + 1 { c + 1 } else { child_of(old_k[oa]) });
                assert(child_of(lk[b]) == if b == m + 1 { c + 1 } else { child_of(old_k[ob]) });
                if oa < ob {
                    assert(child_of(old_k[oa]) < child_of(old_k[ob]));
                }
                if a <= m && oa < m {
                    assert(child_of(old_k[oa]) < child_of(old_k[m]));
                }
                if b > m + 1 && m + 1 < ob {
                    assert(child_of(old_k[m + 1]) < child_of(old_k[ob]));
                }
            } else if j == k + 1 {
                assert(self.child_ok(j, self.levels[j][a].payload.0));
                assert(self.child_ok(j, self.levels[j][b].payload.0));
                lemma_shift_children_at(self.levels[j], m + 1, 1, a);
                lemma_shift_children_at(self.levels[j], m + 1, 1, b);
                assert(child_of(self.levels[j][a]) < child_of(self.levels[j][b]));
            } else {
                assert(child_of(self.levels[j][a]) < child_of(self.levels[j][b]));
            }
        }
    }

    pub proof fn lemma_split_group_at(self, k: int, m: int, j: int, p: int)
        requires
            self.shape_ok(),
            0 <= k < self.levels.len(),
            0 <= m < self.levels[k].len(),
            self.levels[k].len() + 1 < usize::MAX,
            self.children_count(k, m) > 2,
            0 <= j < self.levels.len(),
            1 <= p < self.split_result(k, m).levels[j].len(),
        ensures
            self.split_result(k, m).below_link(j, child_of(self.split_result(k, m).levels[j][p]) - 1) matches Some(n)
                && n.mode is OuterBrother,
    {
        self.lemma_split_describe(k, m);
        self.lemma_split_facts(k, m);
        let c = child_of(self.levels[k][m]);
        let w = self.split_result(k, m);
        let old_k = self.levels[k];
        let lk = w.levels[k];
        let v2k = old_k.update(
            m,
            SkipNode { payload: (old_k[m].payload.0, self.split_low_range(k, m)), next_ptr: old_k[m].next_ptr },
        );
        if j == k {
            if p != m + 1 {
                let op = if p <= m { p } else { p - 1 };
                assert(child_of(lk[p]) == child_of(old_k[op]));
                assert(self.below_link(k, child_of(old_k[op]) - 1) matches Some(n) && n.mode is OuterBrother) by {
                    reveal(ForestView::groups_start);
                    assert(old_k[op] == self.levels[k][op]);
                }
                assert(child_of(old_k[0]) < child_of(old_k[op])) by {
                    reveal(ForestView::children_rise);
                    reveal(ForestView::levels_chained);
                }
                if p < m {
                    assert(child_of(old_k[op]) < c) by {
                        reveal(ForestView::children_rise);
                    }
                } else if p > m + 1 && m + 1 < op {
                    assert(child_of(old_k[m + 1]) < child_of(old_k[op])) by {
                        reveal(ForestView::children_rise);
                    }
                }
            }
        } else if j == k + 1 {
            lemma_shift_children_len(self.levels[k + 1], m + 1, 1);
            let lj = self.levels[j];
            assert(self.child_ok(j, lj[p].payload.0));
            lemma_shift_children_at(lj, m + 1, 1, p);
            let cp = child_of(lj[p]);
            assert(self.below_link(j, cp - 1) matches Some(n) && n.mode is OuterBrother) by {
                reveal(ForestView::groups_start);
                assert(lj[p] == self.levels[j][p]);
            }
            assert(child_of(lj[0]) < cp) by {
                reveal(ForestView::children_rise);
                reveal(ForestView::levels_chained);
            }
            if cp > m + 1 {
                assert(lk[cp] == shift_node(v2k[cp - 1], 1));
            } else if cp == m + 1 {
                assert(lk[m + 1].next_ptr == shifted(v2k[m].next_ptr, 1));
            } else {
                assert(lk[cp - 1] == v2k[cp - 1]);
            }
        } else {
            assert(self.below_link(j, child_of(self.levels[j][p]) - 1) matches Some(n) && n.mode is OuterBrother) by {
                reveal(ForestView::groups_start);
                assert(self.levels[j][p] == self.levels[j][p]);
            }
            if j == k + 2 {
                lemma_shift_children_len(self.levels[k + 1], m + 1, 1);
                assert(self.child_ok(j, self.levels[j][p].payload.0));
                assert(child_of(self.levels[j][0]) < child_of(self.levels[j][p])) by {
                    reveal(ForestView::children_rise);
                    reveal(ForestView::levels_chained);
                }
            } else if j > k + 2 {
                assert(w.levels[j - 1] == self.levels[j - 1]);
            } else if j == k - 1 {
                assert(w.levels[j] == with_mode(self.levels[j], c, NextMode::OuterBrother));
                assert(child_of(w.levels[j][p]) == child_of(self.levels[j][p]));
            }
        }
    }

    /// Splitting a node with more than two children keeps every node but the
    /// first of a level starting a group.
    pub proof fn lemma_split_groups(self, k: int, m: int)
        requires
            self.shape_ok(),
            0 <= k < self.levels.len(),
            0 <= m < self.levels[k].len(),
            self.levels[k].len() + 1 < usize::MAX,
            self.children_count(k, m) > 2,
        ensures
            self.split_result(k, m).groups_start(),
    {
        self.lemma_split_describe(k, m);
        let w = self.split_result(k, m);
        reveal(ForestView::groups_start);
        assert forall|j: int, p: int| 0 <= j < w.levels.len() && 1 <= p < w.levels[j].len() implies (w.below_link(
            j,
            child_of(#[trigger] w.levels[j][p]) - 1,
        ) matches Some(n) && n.mode is OuterBrother) by {
            self.lemma_split_group_at(k, m, j, p);
        }
    }

    /// The two ranges a split hands out: the low one is that of the first
    /// child alone, the other starts at the second child; neither is upside
    /// down.
    pub proof fn lemma_split_range_facts(self, e: int, k: int, m: int)
        requires
            self.shape_ok(),
            self.ranges_ok(e),
            e < 0 || e > k,
            0 <= k < self.levels.len(),
            0 <= m < self.levels[k].len(),
            self.children_count(k, m) > 2,
        ensures
            self.split_low_range(k, m).min_key() == self.child_min_key(k, m),
            self.split_low_range(k, m).min_key() <= self.split_low_range(k, m).max_key(),
            self.split_node(k, m).payload.1.min_key() == (if k == 0 {
                leaf_key(self.leaves[child_of(self.levels[k][m]) + 1])
            } else {
                self.min_key(k - 1, child_of(self.levels[k][m]) + 1)
            }),
            self.split_node(k, m).payload.1.min_key() <= self.split_node(k, m).payload.1.max_key(),
    {
        self.lemma_split_facts(k, m);
        let c = child_of(self.levels[k][m]);
        assert(self.child_ok(k, self.levels[k][m].payload.0));
        if k == 0 {
            let l1 = with_mode(self.leaves, c, NextMode::OuterBrother);
            assert(!has_brother(l1, c));
            assert(keys_sorted(l1)) by {
                assert forall|a: int, b: int| 0 <= a <= b < l1.len() implies #[trigger] leaf_key(l1[a]) <= #[trigger] leaf_key(
                    l1[b],
                ) by {
                    assert(leaf_key(self.leaves[a]) <= leaf_key(self.leaves[b]));
                }
            }
            lemma_leaf_range_min(l1, c + 1);
        } else {
            let l1 = with_mode(self.levels[k - 1], c, NextMode::OuterBrother);
            assert(!has_brother(l1, c));
            self.lemma_level_mins_sorted(e, k - 1);
            assert(self.ranges_upright());
            assert forall|a: int, b: int| c + 1 <= a <= b < l1.len() implies #[trigger] l1[a].payload.1.min_key()
                <= #[trigger] l1[b].payload.1.min_key() by {
                assert(self.min_key(k - 1, a) <= self.min_key(k - 1, b));
            }
            assert forall|a: int| c + 1 <= a < l1.len() implies #[trigger] l1[a].payload.1.min_key()
                <= l1[a].payload.1.max_key() by {
                reveal(ForestView::ranges_upright);
                assert(self.levels[k - 1][a] == self.levels[k - 1][a]);
            }
            lemma_node_range_min(l1, c + 1);
            assert(self.levels[k - 1][c].payload.1.min_key() <= self.levels[k - 1][c].payload.1.max_key()) by {
                reveal(ForestView::ranges_upright);
                assert(self.levels[k - 1][c] == self.levels[k - 1][c]);
            }
        }
    }

    /// Splitting keeps the ranges right, and the minimum of the first node of
    /// the split level.
    pub proof fn lemma_split_ranges(self, e: int, k: int, m: int)
        requires
            self.shape_ok(),
            self.ranges_ok(e),
            e < 0 || e > k,
            0 <= k < self.levels.len(),
            0 <= m < self.levels[k].len(),
            self.levels[k].len() + 1 < usize::MAX,
            self.children_count(k, m) > 2,
        ensures
            self.split_result(k, m).ranges_ok(e),
            leaf_values(self.split_result(k, m).leaves) == leaf_values(self.leaves),
            self.split_result(k, m).min_key(k, 0) == self.min_key(k, 0),
    {
        self.lemma_split_describe(k, m);
        self.lemma_split_facts(k, m);
        self.lemma_split_range_facts(e, k, m);
        let c = child_of(self.levels[k][m]);
        let w = self.split_result(k, m);
        let old_k = self.levels[k];
        let lk = w.levels[k];
        let r1 = self.split_low_range(k, m);
        let x = self.split_node(k, m);
        if k + 1 < self.levels.len() {
            lemma_shift_children_len(self.levels[k + 1], m + 1, 1);
        }
        assert(leaf_values(w.leaves) =~= leaf_values(self.leaves));
        assert(keys_sorted(w.leaves)) by {
            assert forall|a: int, b: int| 0 <= a <= b < w.leaves.len() implies #[trigger] leaf_key(w.leaves[a]) <= #[trigger] leaf_key(
                w.leaves[b],
            ) by {
                assert(leaf_key(self.leaves[a]) <= leaf_key(self.leaves[b]));
            }
        }
        assert(w.ranges_upright()) by {
            reveal(ForestView::ranges_upright);
            assert forall|j: int, p: int|
                0 <= j < w.levels.len() && 0 <= p < w.levels[j].len() implies (#[trigger] w.levels[j][p]).payload.1.min_key()
                <= w.levels[j][p].payload.1.max_key() by {
                if j == k {
                    if p < m {
                        assert(self.levels[j][p] == self.levels[j][p]);
                    } else if p > m + 1 {
                        assert(self.levels[j][p - 1] == self.levels[j][p - 1]);
                    }
                } else {
                    assert(self.levels[j][p] == self.levels[j][p]);
                }
            }
        }
        assert(w.mins_ok(e)) by {
            reveal(ForestView::mins_ok);
            assert forall|j: int, p: int|
                0 <= j < w.levels.len() && 0 <= p < w.levels[j].len() && !(j == e && p == 0) implies (
                #[trigger] w.levels[j][p]).payload.1.min_key() == w.child_min_key(j, p) by {
                self.lemma_split_min_at(e, k, m, j, p);
            }
        }
        if m == 0 {
            assert(self.min_key(k, 0) == self.child_min_key(k, 0)) by {
                reveal(ForestView::mins_ok);
                assert(self.levels[k][0] == self.levels[k][0]);
            }
        }
    }

    pub proof fn lemma_split_min_at(self, e: int, k: int, m: int, j: int, p: int)
        requires
            self.shape_ok(),
            self.ranges_ok(e),
            e < 0 || e > k,
            0 <= k < self.levels.len(),
            0 <= m < self.levels[k].len(),
            self.levels[k].len() + 1 < usize::MAX,
            self.children_count(k, m) > 2,
            0 <= j < self.levels.len(),
            0 <= p < self.split_result(k, m).levels[j].len(),
            !(j == e && p == 0),
        ensures
            self.split_result(k, m).levels[j][p].payload.1.min_key() == self.split_result(k, m).child_min_key(j, p),
    {
        self.lemma_split_describe(k, m);
        self.lemma_split_facts(k, m);
        self.lemma_split_range_facts(e, k, m);
        let c = child_of(self.levels[k][m]);
        let w = self.split_result(k, m);
        let old_k = self.levels[k];
        let lk = w.levels[k];
        if k + 1 < self.levels.len() {
            lemma_shift_children_len(self.levels[k + 1], m + 1, 1);
        }
        if j == k {
            if p != m && p != m + 1 {
                let op = if p < m { p } else { p - 1 };
                assert(lk[p].payload == old_k[op].payload);
                assert(self.levels[k][op].payload.1.min_key() == self.child_min_key(k, op)) by {
                    reveal(ForestView::mins_ok);
                    assert(self.levels[k][op] == self.levels[k][op]);
                }
                assert(self.child_ok(k, old_k[op].payload.0));
            }
        } else if j == k + 1 {
            let lj = self.levels[j];
            assert(self.child_ok(j, lj[p].payload.0));
            lemma_shift_children_at(lj, m + 1, 1, p);
            let cp = child_of(lj[p]);
            assert(self.levels[j][p].payload.1.min_key() == self.child_min_key(j, p)) by {
                reveal(ForestView::mins_ok);
                assert(self.levels[j][p] == self.levels[j][p]);
            }
            if cp == m {
                assert(self.levels[k][m].payload.1.min_key() == self.child_min_key(k, m)) by {
                    reveal(ForestView::mins_ok);
                    assert(self.levels[k][m] == self.levels[k][m]);
                }
            } else if cp > m {
                assert(lk[cp + 1].payload == old_k[cp].payload);
            } else {
                assert(lk[cp].payload == old_k[cp].payload);
            }
        } else {
            assert(self.levels[j][p].payload.1.min_key() == self.child_min_key(j, p)) by {
                reveal(ForestView::mins_ok);
                assert(self.levels[j][p] == self.levels[j][p]);
            }
            assert(self.child_ok(j, self.levels[j][p].payload.0));
            if j == k + 2 {
                assert(w.levels[k + 1][child_of(self.levels[j][p])].payload.1 == self.levels[k + 1][child_of(
                    self.levels[j][p],
                )].payload.1);
            } else if j == k - 1 {
                assert(w.levels[j] == with_mode(self.levels[j], c, NextMode::OuterBrother));
            }
        }
    }

    /// Splitting a node keeps the structure's shape and ranges, with the same
    /// stale minimum if any, and leaves the items alone.
    pub proof fn lemma_split_ordered(self, e: int, k: int, m: int)
        requires
            self.shape_ok(),
            self.ranges_ok(e),
            e < 0 || e > k,
            0 <= k < self.levels.len(),
            0 <= m < self.levels[k].len(),
            self.levels[k].len() + 1 < usize::MAX,
        ensures
            self.split_result(k, m).shape_ok(),
            self.split_result(k, m).ranges_ok(e),
            leaf_values(self.split_result(k, m).leaves) == leaf_values(self.leaves),
            self.split_result(k, m).min_key(k, 0) == self.min_key(k, 0),
    {
        if self.children_count(k, m) > 2 {
            self.lemma_split_describe(k, m);
            self.lemma_split_chained(k, m);
            self.lemma_split_rise(k, m);
            self.lemma_split_groups(k, m);
            self.lemma_split_ranges(e, k, m);
            self.lemma_split_facts(k, m);
        }
    }
}

} // verus!
