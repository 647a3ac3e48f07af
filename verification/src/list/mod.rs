pub mod iter;
pub mod shape;
mod skip_grow;
pub mod trim;

use std::sync::Arc;
use vstd::prelude::*;

use self::shape::{
    bottom_values, count_less, lemma_bottom_rise, lemma_chain_len_full, lemma_level_len_le,
    lemma_put_front_ordered, lemma_single_tower_ordered, node_chained, single_tower, towers_ordered, every_other,
    towers_shape,
};
use self::trim::{lemma_popped_items, lemma_popped_shape, levels_popped, path, trim_levels};
use crate::node::create::is_tower;
use crate::node::modify::{find_insert_result, find_slot, levels_put_front};
use crate::node::navigator::{bottom_of, data_of, item_of, levels_view, towers_wf};
use crate::node::{DownData, SkipNode};
use crate::order::Ordered;
use crate::skip_list::shape::sorted_by_key;

verus! {

/// A skip list of towers: every item stands in a tower of nodes, one node
/// per level from the bottom up, and each level links its nodes in order.
/// The list holds its levels bottom first; its head is the first node of the
/// top level.
pub struct SkipList<T> {
    levels: Vec<Vec<SkipNode<T>>>,
    head: Option<usize>,
    length: usize,
    level: usize,
}

impl<T> View for SkipList<T> {
    type V = Seq<T>;

    /// The items reachable from the head, in the order of the bottom level.
    closed spec fn view(&self) -> Seq<T> {
        if self.levels.len() == 0 {
            Seq::empty()
        } else {
            bottom_values(levels_view(&self.levels))
        }
    }
}

/// The levels once `grow_up` is done: a new level on top over every other
/// node of the top level, from its first node on, where that level holds more
/// than two nodes; else the levels as they were.
pub open spec fn grown<T>(lv: Seq<Seq<SkipNode<T>>>) -> Seq<Seq<SkipNode<T>>> {
    if lv.len() > 0 && lv[lv.len() - 1].len() > 2 {
        lv.push(every_other(lv[lv.len() - 1]))
    } else {
        lv
    }
}

/// The levels once the tower `t` went in, before the list grows: the tower
/// alone where there were no levels; else the tower put in from the head of
/// the top level down, or, where the head's item is not below the new item,
/// in front of every level.
pub open spec fn levels_with_tower<T: Ordered>(lv: Seq<Seq<SkipNode<T>>>, t: Seq<SkipNode<T>>) -> Seq<
    Seq<SkipNode<T>>,
> {
    if lv.len() == 0 {
        single_tower(t)
    } else {
        let (w, r) = find_insert_result(lv, lv.len() - 1, 0, t);
        match r {
            Ok(_) => w,
            Err(rest) => levels_put_front(lv, rest),
        }
    }
}

/// What taking the head off `before` leaves in `after`, where `r` is what it
/// handed back: the first item, and the items from the bottom of the second
/// tower of the top level on, the ones in between being dropped with the
/// head.
pub open spec fn head_taken<T: Ordered>(before: SkipList<T>, after: SkipList<T>, r: Option<Arc<T>>) -> bool {
    &&& after.wf()
    &&& after.spec_level() == before.spec_level()
    &&& if before@.len() == 0 {
        &&& r is None
        &&& after@ == before@
        &&& after.spec_len() == before.spec_len()
        &&& after.spec_top_len() == 0
    } else {
        &&& r is Some
        &&& *r.unwrap() == before@[0]
        &&& 1 <= before.spec_next_head() <= before@.len()
        &&& before.spec_level() == 1 ==> before.spec_next_head() == 1
        &&& after@ == before@.subrange(before.spec_next_head(), before@.len() as int)
        &&& after.spec_len() == before.spec_len() - 1
        &&& after.spec_top_len() == before.spec_top_len() - 1
        &&& before.spec_top_len() > 1 ==> {
            &&& after.spec_levels().len() == before.spec_levels().len()
            &&& forall|j: int|
                0 <= j < after.spec_top_len() ==> #[trigger] item_of(
                    after.spec_levels(),
                    after.spec_levels().len() - 1,
                    j,
                ) == item_of(before.spec_levels(), before.spec_levels().len() - 1, j + 1)
        }
    }
}

impl<T: Ordered> SkipList<T> {
    /// The list's invariant: its levels are well kept (see `wf_levels`) and
    /// the top level holds at most two nodes.
    pub closed spec fn wf(&self) -> bool {
        &&& self.wf_levels()
        &&& self.spec_top_len() <= 2
    }

    /// An empty list has no levels; a non-empty one has as many levels as its
    /// level counter says, well linked and well shaped, with its head the
    /// first node of the top level; the items are sorted by key; the length
    /// counter is never below the number of items.
    pub closed spec fn wf_levels(&self) -> bool {
        &&& self.level >= 1
        &&& self@.len() <= self.length
        &&& sorted_by_key(self@)
        &&& match self.head {
            None => self.levels.len() == 0,
            Some(h) => {
                &&& h == 0
                &&& self.levels.len() == self.level
                &&& towers_wf(levels_view(&self.levels))
                &&& towers_shape(levels_view(&self.levels))
            },
        }
    }

    /// The levels of the list, bottom first.
    pub closed spec fn spec_levels(&self) -> Seq<Seq<SkipNode<T>>> {
        levels_view(&self.levels)
    }

    /// The length counter.
    pub closed spec fn spec_len(&self) -> nat {
        self.length as nat
    }

    /// The level counter: how tall a new tower is.
    pub closed spec fn spec_level(&self) -> nat {
        self.level as nat
    }

    /// How many nodes the top level holds, none for an empty list.
    pub closed spec fn spec_top_len(&self) -> nat {
        if self.levels.len() == 0 {
            0
        } else {
            levels_view(&self.levels)[self.levels.len() - 1].len()
        }
    }

    /// The place among the items of the bottom of the tower under the second
    /// node of the top level; the number of items where the top level has a
    /// single node.
    pub closed spec fn spec_next_head(&self) -> int {
        let lv = levels_view(&self.levels);
        if self.levels.len() == 0 {
            0
        } else if lv[lv.len() - 1].len() > 1 {
            bottom_of(lv, lv.len() - 1, 1)
        } else {
            lv[0].len() as int
        }
    }

    /// An empty list, whose towers will be one node tall.
    pub fn new() -> (r: Self)
        ensures
            r.wf(),
            r@ == Seq::<T>::empty(),
            r.spec_len() == 0,
            r.spec_level() == 1,
            r.spec_top_len() == 0,
    {
        SkipList { levels: Vec::new(), head: None, length: 0, level: 1 }
    }

    pub fn len(&self) -> (r: usize)
        ensures
            r == self.spec_len(),
    {
        self.length
    }

    pub fn hight(&self) -> (r: usize)
        ensures
            r == self.spec_level(),
    {
        self.level
    }

    /// How many nodes the top level holds.
    pub fn top_len(&self) -> (r: usize)
        requires
            self.wf(),
        ensures
            r == self.spec_top_len(),
    {
        match self.head {
            Some(head) => {
                let top = self.levels.len() - 1;
                let ghost lv = levels_view(&self.levels);
                proof {
                    reveal(towers_shape);
                    assert(lv[top as int] == self.levels@[top as int]@);
                    assert(node_chained(lv[top as int]));
                    lemma_chain_len_full(lv[top as int], 0);
                }
                SkipNode::level_len(&self.levels[top], head)
            },
            None => 0,
        }
    }

    /// Takes off the head of the top level and hands back its item, the
    /// first; the list goes on from the next node of the top level.
    pub fn pop_head(&mut self) -> (r: Option<Arc<T>>)
        requires
            old(self).wf(),
        ensures
            head_taken(*old(self), *final(self), r),
    {
        let ghost before = *self;
        match self.head {
            Some(head) => {
                let ghost lv = levels_view(&self.levels);
                let top = self.levels.len() - 1;
                proof {
                    reveal(towers_shape);
                    lemma_bottom_rise(lv, top as int);
                    assert(lv[top as int] == self.levels@[top as int]@);
                    assert(lv[top as int][0] == lv[top as int][0]);
                    assert(1 <= lv[0].len());
                }
                let item = SkipNode::get_item(&self.levels, top, head);
                assert(*item == self@[0]);
                match self.levels[top][head].next {
                    Some(_) => {
                        trim_levels(&mut self.levels);
                        self.head = Some(0);
                        proof {
                            lemma_popped_shape(lv);
                            lemma_bottom_rise(lv, top as int);
                            assert(bottom_of(lv, top as int, 0) < bottom_of(lv, top as int, 1));
                            assert(levels_view(&self.levels) == levels_popped(lv));
                            assert(path(lv, 0) == before.spec_next_head());
                            assert(self@ == before@.subrange(before.spec_next_head(), before@.len() as int));
                            assert(self.spec_top_len() == before.spec_top_len() - 1);
                            lemma_popped_items(lv, top as int);
                        }
                    },
                    None => {
                        proof {
                            assert(node_chained(lv[top as int]));
                            if lv.len() == 1 {
                                assert(lv[0].len() == 1);
                            }
                        }
                        self.levels = Vec::new();
                        self.head = None;
                        assert(self@ =~= before@.subrange(before.spec_next_head(), before@.len() as int));
                    },
                }
                self.length = self.length - 1;
                assert(sorted_by_key(self@)) by {
                    let k = before.spec_next_head();
                    assert forall|a: int, b: int| 0 <= a <= b < self@.len() implies #[trigger] self@[a].key()
                        <= #[trigger] self@[b].key() by {
                        assert(before@[k + a].key() <= before@[k + b].key());
                    }
                }
                assert(self.wf());
                assert(head_taken(before, *self, Some(item)));
                Some(item)
            },
            None => None,
        }
    }

    /// The levels of a list holding one tower: `tower`, bottom first, each of
    /// its nodes alone on its level.
    fn tower_levels(tower: Vec<SkipNode<T>>) -> (r: Vec<Vec<SkipNode<T>>>)
        requires
            1 <= tower.len(),
            tower@[0].down is Data,
        ensures
            levels_view(&r) == single_tower(tower@),
    {
        let ghost t = tower@;
        let n = tower.len();
        let mut tower = tower;
        let bottom = tower.remove(0);
        let mut levels: Vec<Vec<SkipNode<T>>> = Vec::new();
        let mut first = Vec::new();
        first.push(SkipNode { next: None, down: bottom.down });
        levels.push(first);
        let mut l: usize = 1;
        while l < n
            invariant
                n == t.len(),
                1 <= l <= n,
                levels.len() == l,
                forall|k: int| 0 <= k < l ==> #[trigger] levels_view(&levels)[k] == single_tower(t)[k],
            decreases n - l,
        {
            let mut above = Vec::new();
            above.push(SkipNode::new_skip(0));
            let ghost before = levels_view(&levels);
            levels.push(above);
            assert(levels_view(&levels)[l as int] =~= single_tower(t)[l as int]);
            assert forall|k: int| 0 <= k < l implies #[trigger] levels_view(&levels)[k] == before[k] by {}
            l += 1;
        }
        assert(levels_view(&levels) =~= single_tower(t));
        levels
    }
}

impl<T: Ordered> SkipList<T> {
    /// A well-kept list has its items sorted by key, at most two nodes on its
    /// top level, and a length counter not below its number of items.
    pub proof fn lemma_wf_facts(&self)
        requires
            self.wf(),
        ensures
            sorted_by_key(self@),
            self.spec_top_len() <= 2,
            self@.len() <= self.spec_len(),
            (self.spec_top_len() == 0) == (self@.len() == 0),
    {
        if self.levels.len() > 0 {
            reveal(towers_shape);
            assert(1 <= levels_view(&self.levels)[0].len());
            assert(1 <= levels_view(&self.levels)[self.levels.len() - 1].len());
        }
    }

    /// Taking the head off a list hands back an item with the smallest key,
    /// and keeps the items left sorted.
    pub proof fn lemma_taken_sorted(before: SkipList<T>, after: SkipList<T>, r: Option<Arc<T>>)
        requires
            before.wf(),
            head_taken(before, after, r),
        ensures
            sorted_by_key(after@),
            r matches Some(item) ==> forall|x: int| 0 <= x < before@.len() ==> (*item).key() <= #[trigger] before@[x].key(),
    {
        if before@.len() > 0 {
            let k = before.spec_next_head();
            assert forall|a: int, b: int| 0 <= a <= b < after@.len() implies #[trigger] after@[a].key()
                <= #[trigger] after@[b].key() by {
                assert(before@[k + a].key() <= before@[k + b].key());
            }
        }
    }
}

impl<T: Ordered> SkipList<T> {
    /// Puts `data` into the list just after the items whose key is below its
    /// key, in a tower as tall as the level counter says; then, where the top
    /// level has grown to more than two nodes, puts a new level over every
    /// other node of it.
    pub fn insert(&mut self, data: T)
        requires
            old(self).wf(),
            old(self).spec_len() + 2 < usize::MAX,
            old(self).spec_level() < usize::MAX,
        ensures
            final(self).wf(),
            sorted_by_key(final(self)@),
            final(self)@ == old(self)@.insert(count_less(old(self)@, data.key()) as int, data),
            final(self).spec_len() == old(self).spec_len() + 1,
            final(self).spec_level() == old(self).spec_level() + if old(self).spec_top_len() >= 2 {
                1nat
            } else {
                0nat
            },
            final(self).spec_top_len() == if old(self).spec_top_len() >= 2 {
                ((old(self).spec_top_len() + 2) / 2) as nat
            } else {
                old(self).spec_top_len() + 1
            },
            old(self).spec_top_len() <= 2 ==> final(self).spec_top_len() <= 2,
            exists|t: Seq<SkipNode<T>>|
                #[trigger] is_tower(t, old(self).spec_level() as int, data) && final(self).spec_levels() == grown(
                    levels_with_tower(old(self).spec_levels(), t),
                ),
    {
        let ghost old_view = self@;
        let ghost key = data.key();
        let ghost lv = levels_view(&self.levels);
        self.length = self.length + 1;
        let node = SkipNode::new_level(self.level, data);
        let ghost t = node@;
        assert(is_tower(t, self.level as int, data));
        assert(data_of(t[0]) == data);
        match self.head {
            Some(head) => {
                let top = self.levels.len() - 1;
                proof {
                    assert forall|j: int| 0 <= j < lv.len() implies (#[trigger] lv[j]).len() + 1 < usize::MAX by {
                        lemma_level_len_le(lv, j);
                    }
                    reveal(towers_shape);
                    assert(1 <= lv[top as int].len());
                    assert(1 <= lv[0].len());
                    lemma_bottom_rise(lv, top as int);
                    assert(lv[top as int] == self.levels@[top as int]@);
                    assert(item_of(lv, top as int, 0) == data_of(lv[0][0]));
                }
                match SkipNode::find_insert(&mut self.levels, top, head, node) {
                    Ok(_) => {
                        assert(levels_view(&self.levels) == levels_with_tower(lv, t));
                    },
                    Err(node) => {
                        assert(!(item_of(lv, top as int, 0).key() < key));
                        assert(find_slot(lv, top as int, 0, key) is None);
                        assert(node@ == t);
                        proof {
                            assert(old_view[0] == data_of(lv[0][0]));
                            lemma_put_front_ordered(lv, t);
                        }
                        SkipNode::set_all_next(&mut self.levels, node);
                        assert(levels_view(&self.levels) == levels_with_tower(lv, t));
                    },
                }
                assert(towers_ordered(levels_view(&self.levels)));
            },
            None => {
                proof {
                    lemma_single_tower_ordered(t);
                }
                self.levels = Self::tower_levels(node);
                self.head = Some(0);
                assert(levels_view(&self.levels) == levels_with_tower(lv, t));
                assert(count_less(old_view, key) == 0);
                assert(old_view.insert(0, data) =~= seq![data]);
            },
        }
        let ghost mid = levels_view(&self.levels);
        proof {
            lemma_level_len_le(mid, mid.len() - 1);
        }
        assert(self@ == old_view.insert(count_less(old_view, key) as int, data));
        self.grow_up();
        assert(is_tower(t, old(self).spec_level() as int, data));
        assert(self.spec_levels() == grown(levels_with_tower(old(self).spec_levels(), t)));
    }
}

} // verus!
