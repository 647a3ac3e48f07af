use vstd::prelude::*;

use super::shape::{bottom_values, every_other, lemma_chain_len_full, lemma_grow_items, lemma_grow_shape, node_chained, towers_shape};
use super::{grown, SkipList};
use crate::order::Ordered;
use crate::node::navigator::{item_of, levels_view, towers_wf};
use crate::node::{linked, DownData, SkipNode};

verus! {

/// The first `m` nodes of a level over every other node of the level below.
pub open spec fn every_other_prefix<T>(m: int) -> Seq<SkipNode<T>> {
    Seq::new(
        m as nat,
        |k: int|
            SkipNode {
                next: if k + 1 < m {
                    Some((k + 1) as usize)
                } else {
                    None
                },
                down: DownData::Ptr((2 * k) as usize),
            },
    )
}

impl<T: Ordered> SkipList<T> {
    /// Where the top level holds more than two nodes, puts a new level on top
    /// over every other node of it, from its first node on.
    pub(super) fn grow_up(&mut self)
        requires
            old(self).wf_levels(),
            old(self).spec_top_len() <= 3,
            old(self).spec_top_len() + 1 < usize::MAX,
            old(self).spec_level() < usize::MAX,
        ensures
            final(self).wf(),
            final(self)@ == old(self)@,
            final(self).spec_len() == old(self).spec_len(),
            final(self).spec_levels() == grown(old(self).spec_levels()),
            old(self).spec_top_len() > 2 ==> final(self).spec_level() == old(self).spec_level() + 1
                && final(self).spec_top_len() == (old(self).spec_top_len() + 1) / 2,
            old(self).spec_top_len() <= 2 ==> final(self).spec_level() == old(self).spec_level()
                && final(self).spec_top_len() == old(self).spec_top_len(),
            forall|x: int|
                0 <= x < old(self).spec_levels().len() ==> #[trigger] final(self).spec_levels()[x] == old(
                    self,
                ).spec_levels()[x],
            old(self).spec_top_len() > 2 ==> forall|m: int|
                0 <= m < final(self).spec_top_len() ==> #[trigger] item_of(
                    final(self).spec_levels(),
                    old(self).spec_levels().len() as int,
                    m,
                ) == item_of(old(self).spec_levels(), old(self).spec_levels().len() - 1, 2 * m),
    {
        let head = match self.head {
            Some(h) => h,
            None => {
                return ;
            },
        };
        let ghost lv = levels_view(&self.levels);
        let top = self.levels.len() - 1;
        assert(lv[top as int] == self.levels@[top as int]@);
        proof {
            reveal(towers_shape);
            assert(node_chained(lv[top as int]));
            lemma_chain_len_full(lv[top as int], 0);
        }
        let len = SkipNode::level_len(&self.levels[top], head);
        if len > 2 {
            let ghost below = lv[top as int];
            let mut new_level: Vec<SkipNode<T>> = Vec::new();
            new_level.push(SkipNode::new_skip(head));
            let mut now_head: usize = 0;
            let mut old_head: usize = head;
            assert(new_level@ =~= every_other_prefix::<T>(1));
            loop
                invariant
                    top < self.levels.len(),
                    below == self.levels@[top as int]@,
                    linked(below),
                    node_chained(below),
                    len == below.len(),
                    len + 1 < usize::MAX,
                    old_head == 2 * now_head,
                    old_head < len,
                    new_level@ == every_other_prefix::<T>(now_head + 1),
                ensures
                    new_level@ == every_other(below),
                decreases len - old_head,
            {
                assert(linked(new_level@)) by {
                    assert forall|k: int| 0 <= k < new_level@.len() implies match #[trigger] new_level@[k].next {
                        Some(n) => n == k + 1 && k + 1 < new_level@.len(),
                        None => true,
                    } by {}
                }
                match SkipNode::skip_next(&self.levels[top], old_head) {
                    Some(node) => {
                        assert(below[old_head as int].next is Some);
                        assert(below[old_head + 1].next is Some);
                        old_head = node;
                        let ghost prev = new_level@;
                        now_head = SkipNode::set_next(&mut new_level, now_head, SkipNode::new_skip(node));
                        assert(new_level@ =~= every_other_prefix::<T>(now_head + 1));
                    },
                    None => {
                        if old_head + 1 < len {
                            assert(below[old_head as int].next is Some);
                            assert(below[old_head + 1].next is None);
                        }
                        assert(new_level@ =~= every_other(below));
                        break ;
                    },
                }
            }
            self.levels.push(new_level);
            self.level = self.level + 1;
            proof {
                lemma_grow_shape(lv);
                lemma_grow_items(lv);
                assert(levels_view(&self.levels) =~= lv.push(every_other(lv[top as int])));
                assert(bottom_values(levels_view(&self.levels)) == bottom_values(lv));
            }
        }
    }
}

} // verus!
