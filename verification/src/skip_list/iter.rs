use vstd::prelude::*;

use super::shape::{chained, leaf_values};
use super::SkipLinkedList;
use crate::forest::ForestView;
use crate::internal_node::InternalNode;
use crate::leaf_node::LeafNode;
use crate::order::Ordered;
use crate::skip_node::linked;

verus! {

/// Walks the leaf level of a `SkipLinkedList` from its first leaf on.
pub struct SkipLinkedListRefIter<'r, T> {
    leaves: &'r Vec<LeafNode<T>>,
    ptr: Option<usize>,
}

impl<'r, T> SkipLinkedListRefIter<'r, T> {
    /// The items still to come.
    pub closed spec fn remaining(&self) -> Seq<T> {
        match self.ptr {
            Some(i) => leaf_values(self.leaves@).subrange(i as int, self.leaves@.len() as int),
            None => Seq::empty(),
        }
    }

    pub closed spec fn wf(&self) -> bool {
        &&& linked(self.leaves@)
        &&& chained(self.leaves@)
        &&& self.ptr matches Some(i) ==> i < self.leaves@.len()
    }

    /// The next item, if any.
    pub fn next(&mut self) -> (r: Option<&'r T>)
        requires
            old(self).wf(),
        ensures
            final(self).wf(),
            old(self).remaining().len() == 0 ==> r is None && final(self).remaining() == old(self).remaining(),
            old(self).remaining().len() > 0 ==> r is Some && *r.unwrap() == old(self).remaining()[0]
                && final(self).remaining() == old(self).remaining().drop_first(),
    {
        match self.ptr {
            Some(ptr) => {
                let ghost vals = leaf_values(self.leaves@);
                let node = &self.leaves[ptr];
                self.ptr = match node.next_ptr {
                    Some(next) => Some(next.next()),
                    None => None,
                };
                proof {
                    if ptr + 1 < self.leaves@.len() {
                        assert(self.leaves@[ptr as int].next_ptr is Some);
                    }
                    assert(vals.subrange(ptr as int, vals.len() as int).drop_first() =~= (match self.ptr {
                        Some(i) => vals.subrange(i as int, vals.len() as int),
                        None => Seq::empty(),
                    }));
                }
                Some(node.value())
            },
            None => None,
        }
    }
}

impl<T: Ordered> SkipLinkedList<T> {
    /// Walks the items from the first leaf on.
    pub fn iter(&self) -> (r: SkipLinkedListRefIter<'_, T>)
        requires
            self.wf(),
        ensures
            r.wf(),
            r.remaining() == self@,
    {
        let ptr = match self.head {
            Some(head) => {
                proof {
                    self.forest@.lemma_first_leaf_zero(self.height - 1);
                    assert(self.forest@.levels[self.height - 1].len() >= 1) by {
                        reveal(ForestView::levels_chained);
                    }
                }
                Some(InternalNode::go_leaf_raw(&self.forest, self.height - 1, head))
            },
            None => None,
        };
        let r = SkipLinkedListRefIter { leaves: &self.forest.leaves, ptr };
        assert(r.remaining() =~= self@);
        r
    }
}

} // verus!
