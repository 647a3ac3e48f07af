use std::sync::Arc;
use vstd::prelude::*;

use super::shape::{bottom_values, lemma_bottom_rise, node_chained, towers_shape};
use super::{head_taken, SkipList};
use crate::node::navigator::{levels_view, towers_wf};
use crate::node::SkipNode;
use crate::order::Ordered;

verus! {

/// Walks the bottom level of a `SkipList` from its first node on.
pub struct SkipListRefIter<'a, T> {
    levels: &'a Vec<Vec<SkipNode<T>>>,
    ptr: Option<usize>,
}

impl<'a, T> SkipListRefIter<'a, T> {
    /// The items still to come.
    pub closed spec fn remaining(&self) -> Seq<T> {
        match self.ptr {
            Some(i) => bottom_values(levels_view(self.levels)).subrange(i as int, self.levels@[0].len() as int),
            None => Seq::empty(),
        }
    }

    pub closed spec fn wf(&self) -> bool {
        self.ptr matches Some(i) ==> {
            &&& 1 <= self.levels.len()
            &&& towers_wf(levels_view(self.levels))
            &&& node_chained(levels_view(self.levels)[0])
            &&& i < self.levels@[0].len()
        }
    }

    /// The next item, if any.
    pub fn next(&mut self) -> (r: Option<&'a T>)
        requires
            old(self).wf(),
        ensures
            final(self).wf(),
            old(self).remaining().len() == 0 ==> r is None && final(self).remaining() == old(self).remaining(),
            old(self).remaining().len() > 0 ==> r is Some && *r.unwrap() == old(self).remaining()[0]
                && final(self).remaining() == old(self).remaining().drop_first(),
    {
        match self.ptr {
            Some(ptr) => {
                let ghost lv = levels_view(self.levels);
                let ghost vals = bottom_values(lv);
                assert(lv[0] == self.levels@[0]@);
                let item = SkipNode::get_raw_item(self.levels, 0, ptr);
                self.ptr = self.levels[0][ptr].next;
                proof {
                    assert(lv[0][ptr as int].next == lv[0][ptr as int].next);
                    if ptr + 1 < lv[0].len() {
                        assert(lv[0][ptr as int].next is Some);
                    }
                    assert(vals.subrange(ptr as int, vals.len() as int).drop_first() =~= (match self.ptr {
                        Some(i) => vals.subrange(i as int, vals.len() as int),
                        None => Seq::empty(),
                    }));
                }
                Some(item)
            },
            None => None,
        }
    }
}

impl<T: Ordered> SkipList<T> {
    /// Walks the items from the bottom of the head's tower on.
    pub fn iter(&self) -> (r: SkipListRefIter<'_, T>)
        requires
            self.wf(),
        ensures
            r.wf(),
            r.remaining() == self@,
    {
        let ptr = match self.head {
            Some(head) => {
                let ghost lv = levels_view(&self.levels);
                let top = self.levels.len() - 1;
                proof {
                    reveal(towers_shape);
                    lemma_bottom_rise(lv, top as int);
                    assert(lv[top as int] == self.levels@[top as int]@);
                    assert(node_chained(lv[0]));
                }
                Some(SkipNode::go_bottom_raw(&self.levels, top, head))
            },
            None => None,
        };
        let r = SkipListRefIter { levels: &self.levels, ptr };
        assert(r.remaining() =~= self@);
        r
    }

    /// Hands the list over to an iterator that takes its head off at each
    /// step.
    pub fn into_iter(self) -> (r: SkipListIter<T>)
        ensures
            r.list() == self,
    {
        SkipListIter { inner: self }
    }
}

/// Takes the items of a `SkipList` by taking off its head, step by step.
pub struct SkipListIter<T> {
    inner: SkipList<T>,
}

impl<T: Ordered> SkipListIter<T> {
    /// The list still to walk.
    pub closed spec fn list(&self) -> SkipList<T> {
        self.inner
    }

    /// The head of the list, taken off it.
    pub fn next(&mut self) -> (r: Option<Arc<T>>)
        requires
            old(self).list().wf(),
        ensures
            head_taken(old(self).list(), final(self).list(), r),
    {
        self.inner.pop_head()
    }
}

} // verus!
