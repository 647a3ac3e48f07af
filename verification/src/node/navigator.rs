use std::sync::Arc;
use vstd::prelude::*;

use super::{linked, DownData, SkipNode};
use crate::internal_node::range::share;

verus! {

/// The levels of a tower skip list, bottom first.
pub open spec fn levels_view<T>(levels: &Vec<Vec<SkipNode<T>>>) -> Seq<Seq<SkipNode<T>>> {
    levels@.map_values(|v: Vec<SkipNode<T>>| v@)
}

pub open spec fn down_index<T>(n: SkipNode<T>) -> int {
    match n.down {
        DownData::Ptr(d) => d as int,
        DownData::Data(_) => 0,
    }
}

pub open spec fn data_of<T>(n: SkipNode<T>) -> T {
    match n.down {
        DownData::Data(d) => *d,
        DownData::Ptr(_) => arbitrary(),
    }
}

/// Every level is linked, the bottom level holds items, and every node above
/// it holds the index of a node of the level below.
pub open spec fn towers_wf<T>(levels: Seq<Seq<SkipNode<T>>>) -> bool {
    &&& forall|l: int| 0 <= l < levels.len() ==> linked(#[trigger] levels[l])
    &&& forall|l: int, i: int|
        0 <= l < levels.len() && 0 <= i < levels[l].len() ==> {
            &&& (l == 0 <==> (#[trigger] levels[l][i]).down is Data)
            &&& l > 0 ==> 0 <= down_index(levels[l][i]) < levels[l - 1].len()
        }
}

/// The index of the bottom node under node `i` of level `l`.
pub open spec fn bottom_of<T>(levels: Seq<Seq<SkipNode<T>>>, l: int, i: int) -> int
    decreases l,
{
    if l <= 0 {
        i
    } else {
        bottom_of(levels, l - 1, down_index(levels[l][i]))
    }
}

/// The item under node `i` of level `l`.
pub open spec fn item_of<T>(levels: Seq<Seq<SkipNode<T>>>, l: int, i: int) -> T {
    data_of(levels[0][bottom_of(levels, l, i)])
}

pub proof fn lemma_bottom_of_bound<T>(levels: Seq<Seq<SkipNode<T>>>, l: int, i: int)
    requires
        towers_wf(levels),
        0 <= l < levels.len(),
        0 <= i < levels[l].len(),
    ensures
        0 <= bottom_of(levels, l, i) < levels[0].len(),
        levels[0][bottom_of(levels, l, i)].down is Data,
    decreases l,
{
    assert(levels[l][i] == levels[l][i]);
    if l > 0 {
        lemma_bottom_of_bound(levels, l - 1, down_index(levels[l][i]));
    }
}

impl<T> SkipNode<T> {
    /// The bottom node under node `i` of level `l`.
    pub fn go_bottom_raw(levels: &Vec<Vec<SkipNode<T>>>, l: usize, i: usize) -> (r: usize)
        requires
            towers_wf(levels_view(levels)),
            l < levels.len(),
            i < levels@[l as int].len(),
        ensures
            r == bottom_of(levels_view(levels), l as int, i as int),
            r < levels@[0].len(),
        decreases l,
    {
        let ghost lv = levels_view(levels);
        assert(lv[l as int] == levels@[l as int]@);
        assert(lv[l as int][i as int] == lv[l as int][i as int]);
        proof {
            lemma_bottom_of_bound(lv, l as int, i as int);
        }
        match levels[l][i].down {
            DownData::Ptr(ptr) => Self::go_bottom_raw(levels, l - 1, ptr),
            DownData::Data(_) => i,
        }
    }

    /// The item under node `i` of level `l`.
    pub fn get_item(levels: &Vec<Vec<SkipNode<T>>>, l: usize, i: usize) -> (r: Arc<T>)
        requires
            towers_wf(levels_view(levels)),
            l < levels.len(),
            i < levels@[l as int].len(),
        ensures
            *r == item_of(levels_view(levels), l as int, i as int),
    {
        let b = Self::go_bottom_raw(levels, l, i);
        let ghost lv = levels_view(levels);
        assert(lv[0] == levels@[0]@);
        match &levels[0][b].down {
            DownData::Data(data) => share(data),
            DownData::Ptr(_) => {
                proof {
                    lemma_bottom_of_bound(lv, l as int, i as int);
                }
                vstd::pervasive::unreached()
            },
        }
    }

    /// The item under node `i` of level `l`, by reference.
    pub fn get_raw_item(levels: &Vec<Vec<SkipNode<T>>>, l: usize, i: usize) -> (r: &T)
        requires
            towers_wf(levels_view(levels)),
            l < levels.len(),
            i < levels@[l as int].len(),
        ensures
            *r == item_of(levels_view(levels), l as int, i as int),
    {
        let b = Self::go_bottom_raw(levels, l, i);
        let ghost lv = levels_view(levels);
        assert(lv[0] == levels@[0]@);
        proof {
            lemma_bottom_of_bound(lv, l as int, i as int);
        }
        levels[0][b].data()
    }

    /// The item of a bottom node.
    pub fn data(&self) -> (r: &T)
        requires
            self.down is Data,
        ensures
            *r == data_of(*self),
    {
        match &self.down {
            DownData::Data(d) => &**d,
            DownData::Ptr(_) => vstd::pervasive::unreached(),
        }
    }

    /// The node below node `i` of level `l`, none on the bottom level.
    pub fn go_down(levels: &Vec<Vec<SkipNode<T>>>, l: usize, i: usize) -> (r: Option<&SkipNode<T>>)
        requires
            towers_wf(levels_view(levels)),
            l < levels.len(),
            i < levels@[l as int].len(),
        ensures
            l == 0 ==> r is None,
            l > 0 ==> r == Some(&levels_view(levels)[l - 1][down_index(levels_view(levels)[l as int][i as int])]),
    {
        let ghost lv = levels_view(levels);
        assert(lv[l as int] == levels@[l as int]@);
        assert(lv[l as int][i as int] == lv[l as int][i as int]);
        match levels[l][i].down {
            DownData::Ptr(ptr) => {
                assert(lv[l - 1] == levels@[l - 1]@);
                Some(&levels[l - 1][ptr])
            },
            DownData::Data(_) => None,
        }
    }

    /// The node below node `i` of level `l`, to change in place; none on the
    /// bottom level.
    pub fn go_down_mut(levels: &mut Vec<Vec<SkipNode<T>>>, l: usize, i: usize) -> (r: Option<&mut SkipNode<T>>)
        requires
            towers_wf(levels_view(old(levels))),
            l < old(levels).len(),
            i < old(levels)@[l as int].len(),
        ensures
            l == 0 ==> r is None && levels_view(final(levels)) == levels_view(old(levels)),
            l > 0 ==> r is Some && *r.unwrap() == levels_view(old(levels))[l - 1][down_index(
                levels_view(old(levels))[l as int][i as int],
            )] && levels_view(final(levels)) == levels_view(old(levels)).update(
                l - 1,
                levels_view(old(levels))[l - 1].update(
                    down_index(levels_view(old(levels))[l as int][i as int]),
                    *final(r.unwrap()),
                ),
            ),
    {
        let ghost lv = levels_view(levels);
        assert(lv[l as int] == levels@[l as int]@);
        assert(lv[l as int][i as int] == lv[l as int][i as int]);
        match levels[l][i].down {
            DownData::Ptr(ptr) => {
                assert(lv[l - 1] == levels@[l - 1]@);
                let below = &mut levels[l - 1];
                Some(&mut below[ptr])
            },
            DownData::Data(_) => None,
        }
    }

    pub fn go_down_raw(&self) -> (r: Option<usize>)
        ensures
            r == (match self.down {
                DownData::Ptr(d) => Some(d),
                DownData::Data(_) => None::<usize>,
            }),
    {
        match self.down {
            DownData::Ptr(ptr) => Some(ptr),
            DownData::Data(_) => None,
        }
    }

    /// The node after node `i` of its level.
    pub fn go_next(level: &Vec<SkipNode<T>>, i: usize) -> (r: Option<&SkipNode<T>>)
        requires
            linked(level@),
            i < level.len(),
        ensures
            level@[i as int].next is Some ==> r == Some(&level@[i + 1]),
            level@[i as int].next is None ==> r is None,
    {
        match level[i].next {
            Some(ptr) => Some(&level[ptr]),
            None => None,
        }
    }

    /// The node after node `i` of its level, to change in place.
    pub fn go_next_mut(level: &mut Vec<SkipNode<T>>, i: usize) -> (r: Option<&mut SkipNode<T>>)
        requires
            linked(old(level)@),
            i < old(level).len(),
        ensures
            old(level)@[i as int].next is None ==> r is None && final(level)@ == old(level)@,
            old(level)@[i as int].next is Some ==> r is Some && *r.unwrap() == old(level)@[i + 1] && final(level)@
                == old(level)@.update(i + 1, *final(r.unwrap())),
    {
        match level[i].next {
            Some(ptr) => Some(&mut level[ptr]),
            None => None,
        }
    }

    pub fn go_next_raw(&self) -> (r: Option<usize>)
        ensures
            r == self.next,
    {
        self.next
    }
}

} // verus!
