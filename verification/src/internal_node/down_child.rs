use vstd::prelude::*;

use crate::forest::{Forest, ForestView};
use crate::skip_node::next::NextMode;
use crate::skip_node::{lemma_with_mode_linked, linked, with_mode};

verus! {

/// The link from an index node down to its first child: a node of the index
/// level below, or a leaf.
#[derive(Debug, Clone, Copy)]
pub enum DownType {
    Internal(usize),
    Leaf(usize),
}

pub open spec fn child_index(d: DownType) -> int {
    match d {
        DownType::Internal(c) => c as int,
        DownType::Leaf(c) => c as int,
    }
}

impl<T> ForestView<T> {
    /// The link of node `c` of the level under index level `k` given mode `mode`.
    pub open spec fn below_mode(self, k: int, c: int, mode: NextMode) -> Self {
        if k == 0 {
            ForestView { leaves: with_mode(self.leaves, c, mode), levels: self.levels }
        } else {
            ForestView { leaves: self.leaves, levels: self.levels.update(k - 1, with_mode(self.levels[k - 1], c, mode)) }
        }
    }

    pub proof fn lemma_below_mode_wf(self, k: int, c: int, mode: NextMode)
        requires
            self.wf(),
            0 <= k < self.levels.len(),
            0 <= c < self.below_len(k),
        ensures
            self.below_mode(k, c, mode).wf(),
            self.below_mode(k, c, mode).levels.len() == self.levels.len(),
            forall|j: int|
                0 <= j < self.levels.len() ==> (#[trigger] self.below_mode(k, c, mode).levels[j]).len()
                    == self.levels[j].len(),
            self.below_mode(k, c, mode).leaves.len() == self.leaves.len(),
    {
        let r = self.below_mode(k, c, mode);
        if k == 0 {
            lemma_with_mode_linked(self.leaves, c, mode);
        } else {
            lemma_with_mode_linked(self.levels[k - 1], c, mode);
        }
        assert forall|j: int| 0 <= j < r.levels.len() implies linked(#[trigger] r.levels[j]) by {
            assert(linked(self.levels[j]));
        }
        assert forall|j: int, m: int|
            0 <= j < r.levels.len() && 0 <= m < r.levels[j].len() implies r.child_ok(
            j,
            #[trigger] r.levels[j][m].payload.0,
        ) by {
            if j == k - 1 {
                assert(self.child_ok(j, self.levels[j][m].payload.0));
            } else {
                assert(self.child_ok(j, self.levels[j][m].payload.0));
            }
        }
    }
}

impl DownType {
    /// Makes the link after the child that `self` reaches, below index level
    /// `k`, a link within the group.
    pub fn as_brother<T>(&self, forest: &mut Forest<T>, k: usize)
        requires
            old(forest)@.wf(),
            k < old(forest).levels.len(),
            old(forest)@.child_ok(k as int, *self),
        ensures
            final(forest)@ == old(forest)@.below_mode(k as int, child_index(*self), NextMode::Brother),
            final(forest)@.wf(),
            final(forest).levels.len() == old(forest).levels.len(),
            forall|j: int|
                0 <= j < old(forest).levels.len() ==> (#[trigger] final(forest)@.levels[j]).len() == old(
                    forest,
                )@.levels[j].len(),
            final(forest)@.leaves.len() == old(forest)@.leaves.len(),
    {
        let ghost old_view = forest@;
        proof {
            old_view.lemma_below_mode_wf(k as int, child_index(*self), NextMode::Brother);
        }
        match self {
            DownType::Internal(c) => {
                let c = *c;
                match forest.levels[k - 1][c].next_ptr {
                    Some(n) => {
                        let mut n = n;
                        n.as_brother();
                        forest.levels[k - 1][c].next_ptr = Some(n);
                    },
                    None => {},
                }
                assert(forest@.levels[k - 1] =~= with_mode(old_view.levels[k - 1], c as int, NextMode::Brother));
                assert(forest@.levels =~= old_view.below_mode(k as int, c as int, NextMode::Brother).levels);
            },
            DownType::Leaf(c) => {
                let c = *c;
                match forest.leaves[c].next_ptr {
                    Some(n) => {
                        let mut n = n;
                        n.as_brother();
                        forest.leaves[c].next_ptr = Some(n);
                    },
                    None => {},
                }
                assert(forest@.leaves =~= old_view.below_mode(k as int, c as int, NextMode::Brother).leaves);
            },
        }
    }
}

} // verus!
