use vstd::prelude::*;

use super::shape::{chained, keys_sorted, leaf_values};
use crate::forest::{child_of, lemma_shift_children_at, lemma_shift_children_len, shift_children, ForestView};
use crate::internal_node::range::{combined, Range};
use crate::leaf_node::leaf_key;
use crate::order::Ordered;
use crate::skip_node::linked::removed_after;
use crate::skip_node::next::NextMode;
use crate::skip_node::{brother_count, has_brother, shift_node, shifted, with_mode, SkipNode};

verus! {

impl<T: Ordered> ForestView<T> {
    /// Whether `check_combine` merges node `i` of index level `k` with the
    /// brother after it right away.
    pub open spec fn merges_at(self, k: int, i: int) -> bool {
        &&& self.children_count(k, i) <= 1
        &&& has_brother(self.levels[k], i)
        &&& self.children_count(k, i + 1) == 1
        &&& self.children_count(k, i) == 1
    }

    /// The range node `i` takes in a merge with its brother.
    pub open spec fn merged_range(self, k: int, i: int) -> Range<T> {
        combined(self.levels[k][i].payload.1, self.levels[k][i + 1].payload.1)
    }

    pub proof fn lemma_merge_describe(self, k: int, i: int)
        requires
            self.shape_ok(),
            0 <= k < self.levels.len(),
            0 <= i < self.levels[k].len(),
            self.merges_at(k, i),
        ensures
            ({
                let w = self.combine_result(k, i);
                let c = child_of(self.levels[k][i]);
                &&& w.wf()
                &&& i + 1 < self.levels[k].len()
                &&& w.levels.len() == self.levels.len()
                &&& w.leaves == if k == 0 { with_mode(self.leaves, c, NextMode::Brother) } else { self.leaves }
                &&& k > 0 ==> w.levels[k - 1] == with_mode(self.levels[k - 1], c, NextMode::Brother)
                &&& w.levels[k] == removed_after(
                    self.levels[k].update(
                        i,
                        SkipNode {
                            payload: (self.levels[k][i].payload.0, self.merged_range(k, i)),
                            next_ptr: self.levels[k][i].next_ptr,
                        },
                    ),
                    i,
                )
                &&& k + 1 < self.levels.len() ==> w.levels[k + 1] == shift_children(self.levels[k + 1], i + 1, -1)
                &&& forall|j: int|
                    0 <= j < self.levels.len() && j != k && j != k + 1 && j != k - 1 ==> #[trigger] w.levels[j]
                        == self.levels[j]
                &&& 0 <= c < self.below_len(k)
                &&& c < child_of(self.levels[k][i + 1])
            }),
    {
        let c = child_of(self.levels[k][i]);
        assert(self.child_ok(k, self.levels[k][i].payload.0));
        let r = self.merged_range(k, i);
        let v1 = self.range_set(k, i, r);
        let v2 = v1.below_mode(k, c, NextMode::Brother);
        let w = v2.node_removed(k, i);
        assert(w == self.combine_result(k, i));
        self.lemma_range_set_wf(k, i, r);
        v1.lemma_below_mode_wf(k, c, NextMode::Brother);
        v2.lemma_node_removed_wf(k, i);
        assert(v2.levels[k] == self.levels[k].update(
            i,
            SkipNode { payload: (self.levels[k][i].payload.0, r), next_ptr: self.levels[k][i].next_ptr },
        ));
        assert(c < child_of(self.levels[k][i + 1])) by {
            reveal(ForestView::children_rise);
            assert(self.levels[k][i] == self.levels[k][i]);
            assert(self.levels[k][i + 1] == self.levels[k][i + 1]);
        }
    }

    /// The brother that a merge takes out is no first child of the level above.
    pub proof fn lemma_merge_not_child(self, k: int, i: int, p: int)
        requires
            self.shape_ok(),
            0 <= k < self.levels.len(),
            0 <= i < self.levels[k].len(),
            has_brother(self.levels[k], i),
            k + 1 < self.levels.len(),
            0 <= p < self.levels[k + 1].len(),
        ensures
            child_of(self.levels[k + 1][p]) != i + 1,
    {
        if p == 0 {
            reveal(ForestView::levels_chained);
            assert(chained(self.levels[k + 1]));
        } else {
            reveal(ForestView::groups_start);
            assert(self.levels[k + 1][p] == self.levels[k + 1][p]);
        }
    }

    pub proof fn lemma_merge_chained(self, k: int, i: int)
        requires
            self.shape_ok(),
            0 <= k < self.levels.len(),
            0 <= i < self.levels[k].len(),
            self.merges_at(k, i),
        ensures
            chained(self.combine_result(k, i).leaves),
            self.combine_result(k, i).levels_chained(),
            self.combine_result(k, i).children_rise(),
    {
        self.lemma_merge_describe(k, i);
        let c = child_of(self.levels[k][i]);
        let w = self.combine_result(k, i);
        let old_k = self.levels[k];
        let lk = w.levels[k];
        if k + 1 < self.levels.len() {
            lemma_shift_children_len(self.levels[k + 1], i + 1, -1);
        }
        assert(chained(w.leaves)) by {
            if k == 0 {
                assert forall|a: int| 0 <= a < w.leaves.len() - 1 implies (#[trigger] w.leaves[a]).next_ptr is Some by {
                    assert(self.leaves[a].next_ptr is Some);
                }
            }
        }
        assert(w.levels_chained()) by {
            reveal(ForestView::levels_chained);
            assert forall|j: int| 0 <= j < w.levels.len() implies chained(#[trigger] w.levels[j]) && 1
                <= w.levels[j].len() && child_of(w.levels[j][0]) == 0 by {
                assert(chained(self.levels[j]));
                assert(child_of(self.levels[j][0]) == 0);
                if j == k - 1 {
                    assert forall|a: int| 0 <= a < w.levels[j].len() - 1 implies (#[trigger] w.levels[j][a]).next_ptr is Some by {
                        assert(self.levels[j][a].next_ptr is Some);
                    }
                } else if j == k {
                    assert forall|a: int| 0 <= a < lk.len() - 1 implies (#[trigger] lk[a]).next_ptr is Some by {
                        if a >= i {
                            assert(old_k[a + 1].next_ptr is Some);
                        } else {
                            assert(old_k[a].next_ptr is Some);
                        }
                    }
                } else if j == k + 1 {
                    assert(self.child_ok(j, self.levels[j][0].payload.0));
                    lemma_shift_children_at(self.levels[j], i + 1, -1, 0);
                    assert forall|a: int| 0 <= a < w.levels[j].len() - 1 implies (#[trigger] w.levels[j][a]).next_ptr is Some by {
                        assert(self.levels[j][a].next_ptr is Some);
                    }
                }
            }
        }
        assert(w.children_rise()) by {
            reveal(ForestView::children_rise);
            assert forall|j: int, a: int, b: int|
                0 <= j < w.levels.len() && 0 <= a < b < w.levels[j].len() implies child_of(
                #[trigger] w.levels[j][a],
            ) < child_of(#[trigger] w.levels[j][b]) by {
                if j == k {
                    let oa = if a <= i { a } else { a + 1 };
                    let ob = if b <= i { b } else { b + 1 };
                    assert(child_of(lk[a]) == child_of(old_k[oa]));
                    assert(child_of(lk[b]) == child_of(old_k[ob]));
                    assert(child_of(old_k[oa]) < child_of(old_k[ob]));
                } else if j == k + 1 {
                    assert(self.child_ok(j, self.levels[j][a].payload.0));
                    assert(self.child_ok(j, self.levels[j][b].payload.0));
                    lemma_shift_children_at(self.levels[j], i + 1, -1, a);
                    lemma_shift_children_at(self.levels[j], i + 1, -1, b);
                    self.lemma_merge_not_child(k, i, a);
                    self.lemma_merge_not_child(k, i, b);
                    assert(child_of(self.levels[j][a]) < child_of(self.levels[j][b]));
                } else {
                    assert(child_of(self.levels[j][a]) < child_of(self.levels[j][b]));
                }
            }
        }
    }

    pub proof fn lemma_merge_group_at(self, k: int, i: int, j: int, p: int)
        requires
            self.shape_ok(),
            0 <= k < self.levels.len(),
            0 <= i < self.levels[k].len(),
            self.merges_at(k, i),
            0 <= j < self.levels.len(),
            1 <= p < self.combine_result(k, i).levels[j].len(),
        ensures
            self.combine_result(k, i).below_link(j, child_of(self.combine_result(k, i).levels[j][p]) - 1) matches Some(
                n,
            ) && n.mode is OuterBrother,
    {
        self.lemma_merge_describe(k, i);
        let c = child_of(self.levels[k][i]);
        let w = self.combine_result(k, i);
        let old_k = self.levels[k];
        let lk = w.levels[k];
        let v1k = old_k.update(
            i,
            SkipNode { payload: (old_k[i].payload.0, self.merged_range(k, i)), next_ptr: old_k[i].next_ptr },
        );
        if j == k {
            let op = if p <= i { p } else { p + 1 };
            assert(child_of(lk[p]) == child_of(old_k[op]));
            assert(self.child_ok(k, old_k[op].payload.0));
            assert(child_of(old_k[0]) < child_of(old_k[op])) by {
                reveal(ForestView::children_rise);
                reveal(ForestView::levels_chained);
            }
            assert(self.below_link(k, child_of(old_k[op]) - 1) matches Some(n) && n.mode is OuterBrother) by {
                reveal(ForestView::groups_start);
                assert(old_k[op] == self.levels[k][op]);
            }
            if op < i {
                assert(child_of(old_k[op]) < c) by {
                    reveal(ForestView::children_rise);
                }
            } else if op > i + 1 {
                assert(child_of(old_k[i + 1]) < child_of(old_k[op])) by {
                    reveal(ForestView::children_rise);
                }
            }
        } else if j == k + 1 {
            lemma_shift_children_len(self.levels[k + 1], i + 1, -1);
            let lj = self.levels[j];
            assert(self.child_ok(j, lj[p].payload.0));
            lemma_shift_children_at(lj, i + 1, -1, p);
            self.lemma_merge_not_child(k, i, p);
            let cp = child_of(lj[p]);
            assert(self.below_link(j, cp - 1) matches Some(n) && n.mode is OuterBrother) by {
                reveal(ForestView::groups_start);
                assert(lj[p] == self.levels[j][p]);
            }
            assert(child_of(lj[0]) < cp) by {
                reveal(ForestView::children_rise);
                reveal(ForestView::levels_chained);
            }
            if cp > i + 2 {
                assert(lk[cp - 2] == shift_node(v1k[cp - 1], -1));
            } else if cp == i + 2 {
                assert(lk[i].next_ptr == shifted(v1k[i + 1].next_ptr, -1));
            } else {
                assert(lk[cp - 1] == v1k[cp - 1]);
            }
        } else {
            assert(self.below_link(j, child_of(self.levels[j][p]) - 1) matches Some(n) && n.mode is OuterBrother) by {
                reveal(ForestView::groups_start);
                assert(self.levels[j][p] == self.levels[j][p]);
            }
            if j == k + 2 {
                lemma_shift_children_len(self.levels[k + 1], i + 1, -1);
                assert(self.child_ok(j, self.levels[j][p].payload.0));
                assert(child_of(self.levels[j][0]) < child_of(self.levels[j][p])) by {
                    reveal(ForestView::children_rise);
                    reveal(ForestView::levels_chained);
                }
            } else if j > k + 2 {
                assert(w.levels[j - 1] == self.levels[j - 1]);
            } else if j == k - 1 {
                assert(child_of(w.levels[j][p]) == child_of(self.levels[j][p]));
            }
        }
    }

    pub proof fn lemma_merge_groups(self, k: int, i: int)
        requires
            self.shape_ok(),
            0 <= k < self.levels.len(),
            0 <= i < self.levels[k].len(),
            self.merges_at(k, i),
        ensures
            self.combine_result(k, i).groups_start(),
    {
        self.lemma_merge_describe(k, i);
        let w = self.combine_result(k, i);
        reveal(ForestView::groups_start);
        assert forall|j: int, p: int| 0 <= j < w.levels.len() && 1 <= p < w.levels[j].len() implies (w.below_link(
            j,
            child_of(#[trigger] w.levels[j][p]) - 1,
        ) matches Some(n) && n.mode is OuterBrother) by {
            self.lemma_merge_group_at(k, i, j, p);
        }
    }

    /// The merged range keeps the minimum of node `i` and is not upside down.
    pub proof fn lemma_merged_range(self, e: int, k: int, i: int)
        requires
            self.shape_ok(),
            self.ranges_ok(e),
            e < 0 || e > k,
            0 <= k < self.levels.len(),
            0 <= i < self.levels[k].len(),
            self.merges_at(k, i),
        ensures
            self.merged_range(k, i).min_key() == self.min_key(k, i),
            self.merged_range(k, i).min_key() <= self.merged_range(k, i).max_key(),
    {
        self.lemma_merge_describe(k, i);
        self.lemma_level_mins_sorted(e, k);
        assert(self.min_key(k, i) <= self.min_key(k, i + 1));
        assert(self.levels[k][i].payload.1.min_key() <= self.levels[k][i].payload.1.max_key()) by {
            reveal(ForestView::ranges_upright);
            assert(self.levels[k][i] == self.levels[k][i]);
        }
        assert(self.levels[k][i + 1].payload.1.min_key() <= self.levels[k][i + 1].payload.1.max_key()) by {
            reveal(ForestView::ranges_upright);
            assert(self.levels[k][i + 1] == self.levels[k][i + 1]);
        }
    }

    pub proof fn lemma_merge_min_at(self, e: int, k: int, i: int, j: int, p: int)
        requires
            self.shape_ok(),
            self.ranges_ok(e),
            e < 0 || e > k,
            0 <= k < self.levels.len(),
            0 <= i < self.levels[k].len(),
            self.merges_at(k, i),
            0 <= j < self.levels.len(),
            0 <= p < self.combine_result(k, i).levels[j].len(),
            !(j == e && p == 0),
        ensures
            self.combine_result(k, i).levels[j][p].payload.1.min_key() == self.combine_result(k, i).child_min_key(j, p),
    {
        self.lemma_merge_describe(k, i);
        self.lemma_merged_range(e, k, i);
        let c = child_of(self.levels[k][i]);
        let w = self.combine_result(k, i);
        let old_k = self.levels[k];
        let lk = w.levels[k];
        if k + 1 < self.levels.len() {
            lemma_shift_children_len(self.levels[k + 1], i + 1, -1);
        }
        if j == k {
            let op = if p <= i { p } else { p + 1 };
            assert(self.levels[k][op].payload.1.min_key() == self.child_min_key(k, op)) by {
                reveal(ForestView::mins_ok);
                assert(self.levels[k][op] == self.levels[k][op]);
            }
            assert(self.child_ok(k, old_k[op].payload.0));
            assert(child_of(lk[p]) == child_of(old_k[op]));
        } else if j == k + 1 {
            let lj = self.levels[j];
            assert(self.child_ok(j, lj[p].payload.0));
            lemma_shift_children_at(lj, i + 1, -1, p);
            self.lemma_merge_not_child(k, i, p);
            let cp = child_of(lj[p]);
            assert(self.levels[j][p].payload.1.min_key() == self.child_min_key(j, p)) by {
                reveal(ForestView::mins_ok);
                assert(self.levels[j][p] == self.levels[j][p]);
            }
            if cp > i + 1 {
                assert(lk[cp - 1].payload == old_k[cp].payload);
            } else if cp < i {
                assert(lk[cp].payload == old_k[cp].payload);
            }
        } else {
            assert(self.levels[j][p].payload.1.min_key() == self.child_min_key(j, p)) by {
                reveal(ForestView::mins_ok);
                assert(self.levels[j][p] == self.levels[j][p]);
            }
            assert(self.child_ok(j, self.levels[j][p].payload.0));
            if j == k + 2 {
                assert(w.levels[k + 1][child_of(self.levels[j][p])].payload.1 == self.levels[k + 1][child_of(
                    self.levels[j][p],
                )].payload.1);
            } else if j == k - 1 {
                assert(w.levels[j] == with_mode(self.levels[j], c, NextMode::Brother));
            }
        }
    }

    pub proof fn lemma_merge_ranges(self, e: int, k: int, i: int)
        requires
            self.shape_ok(),
            self.ranges_ok(e),
            e < 0 || e > k,
            0 <= k < self.levels.len(),
            0 <= i < self.levels[k].len(),
            self.merges_at(k, i),
        ensures
            self.combine_result(k, i).ranges_ok(e),
            leaf_values(self.combine_result(k, i).leaves) == leaf_values(self.leaves),
            self.combine_result(k, i).min_key(k, 0) == self.min_key(k, 0),
    {
        self.lemma_merge_describe(k, i);
        self.lemma_merged_range(e, k, i);
        let w = self.combine_result(k, i);
        let old_k = self.levels[k];
        let lk = w.levels[k];
        if k + 1 < self.levels.len() {
            lemma_shift_children_len(self.levels[k + 1], i + 1, -1);
        }
        assert(leaf_values(w.leaves) =~= leaf_values(self.leaves));
        assert(keys_sorted(w.leaves)) by {
            assert forall|a: int, b: int| 0 <= a <= b < w.leaves.len() implies #[trigger] leaf_key(w.leaves[a]) <= #[trigger] leaf_key(
                w.leaves[b],
            ) by {
                assert(leaf_key(self.leaves[a]) <= leaf_key(self.leaves[b]));
            }
        }
        assert(w.ranges_upright()) by {
            reveal(ForestView::ranges_upright);
            assert forall|j: int, p: int|
                0 <= j < w.levels.len() && 0 <= p < w.levels[j].len() implies (#[trigger] w.levels[j][p]).payload.1.min_key()
                <= w.levels[j][p].payload.1.max_key() by {
                if j == k {
                    if p < i {
                        assert(self.levels[j][p] == self.levels[j][p]);
                    } else if p > i {
                        assert(self.levels[j][p + 1] == self.levels[j][p + 1]);
                    }
                } else {
                    assert(self.levels[j][p] == self.levels[j][p]);
                }
            }
        }
        assert(w.mins_ok(e)) by {
            reveal(ForestView::mins_ok);
            assert forall|j: int, p: int|
                0 <= j < w.levels.len() && 0 <= p < w.levels[j].len() && !(j == e && p == 0) implies (
                #[trigger] w.levels[j][p]).payload.1.min_key() == w.child_min_key(j, p) by {
                self.lemma_merge_min_at(e, k, i, j, p);
            }
        }
    }

    /// `check_combine` keeps the structure's shape and ranges, with the same
    /// stale minimum if any, the items, and the minimum of the first node of
    /// its level.
    pub proof fn lemma_combine_ordered(self, e: int, k: int, i: int)
        requires
            self.shape_ok(),
            self.ranges_ok(e),
            e < 0 || e > k,
            0 <= k < self.levels.len(),
            0 <= i < self.levels[k].len(),
        ensures
            self.combine_result(k, i).shape_ok(),
            self.combine_result(k, i).ranges_ok(e),
            leaf_values(self.combine_result(k, i).leaves) == leaf_values(self.leaves),
            self.combine_result(k, i).min_key(k, 0) == self.min_key(k, 0),
        decreases self.levels[k].len() - i,
    {
        if self.children_count(k, i) > 1 {
            if has_brother(self.levels[k], i) {
                self.lemma_combine_ordered(e, k, i + 1);
            }
        } else if self.merges_at(k, i) {
            self.lemma_merge_describe(k, i);
            self.lemma_merge_chained(k, i);
            self.lemma_merge_groups(k, i);
            self.lemma_merge_ranges(e, k, i);
        }
    }
}

} // verus!
