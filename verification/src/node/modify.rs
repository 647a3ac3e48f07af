use std::sync::Arc;
use vstd::prelude::*;

use super::create::is_tower;
use super::navigator::{bottom_of, data_of, down_index, item_of, lemma_bottom_of_bound, levels_view, towers_wf};
use super::{linked, two_on, DownData, SkipNode};
use crate::internal_node::range::share;
use crate::order::Ordered;
use crate::list::shape::{
    lemma_bottom_of_prefix, lemma_levels_inserted_items,
    bottom_values, count_less, lemma_below_count, lemma_find_slot_sorted, lemma_level_insert_ordered,
    lemma_level_sorted, level_items, towers_ordered,
};

verus! {

pub open spec fn shifted_next(n: Option<usize>, d: int) -> Option<usize> {
    match n {
        Some(x) => Some((x + d) as usize),
        None => None,
    }
}

pub open spec fn shifted_down<T>(d: DownData<T>, from: int, delta: int) -> DownData<T> {
    match d {
        DownData::Ptr(p) => DownData::Ptr(if p >= from { (p + delta) as usize } else { p }),
        DownData::Data(x) => DownData::Data(x),
    }
}

/// The downward links of `level` moved by `delta` where they point at `from`
/// or beyond.
pub open spec fn shift_downs<T>(level: Seq<SkipNode<T>>, from: int, delta: int) -> Seq<SkipNode<T>> {
    level.map_values(|n: SkipNode<T>| SkipNode { next: n.next, down: shifted_down(n.down, from, delta) })
}

/// The level after `node` went in just after node `i`: node `i` links to it,
/// it takes over the link node `i` had, and the nodes behind it move one
/// place on.
pub open spec fn inserted_next<T>(level: Seq<SkipNode<T>>, i: int, node: SkipNode<T>) -> Seq<SkipNode<T>> {
    Seq::new(
        level.len() + 1,
        |j: int|
            if j < i {
                level[j]
            } else if j == i {
                SkipNode { next: Some((i + 1) as usize), down: level[i].down }
            } else if j == i + 1 {
                SkipNode { next: shifted_next(level[i].next, 1), down: node.down }
            } else {
                SkipNode { next: shifted_next(level[j - 1].next, 1), down: level[j - 1].down }
            },
    )
}

/// The level after the node after node `i` left it.
pub open spec fn removed_next<T>(level: Seq<SkipNode<T>>, i: int) -> Seq<SkipNode<T>> {
    Seq::new(
        (level.len() - 1) as nat,
        |j: int|
            if j < i {
                level[j]
            } else if j == i {
                SkipNode { next: shifted_next(level[i + 1].next, -1), down: level[i].down }
            } else {
                SkipNode { next: shifted_next(level[j + 1].next, -1), down: level[j + 1].down }
            },
    )
}

/// The levels after `node` went into level `l` just after node `i`, with the
/// downward links of the level above kept on their nodes.
pub open spec fn levels_inserted<T>(lv: Seq<Seq<SkipNode<T>>>, l: int, i: int, node: SkipNode<T>) -> Seq<Seq<SkipNode<T>>> {
    let a = lv.update(l, inserted_next(lv[l], i, node));
    if l + 1 < lv.len() {
        a.update(l + 1, shift_downs(lv[l + 1], i + 1, 1))
    } else {
        a
    }
}

/// Level `l` with `front` put in front of it, linked to the old first node,
/// and with its downward links moved one place on when it is not the bottom.
pub open spec fn put_in_front<T>(level: Seq<SkipNode<T>>, l: int, front: DownData<T>) -> Seq<SkipNode<T>> {
    Seq::new(
        level.len() + 1,
        |j: int|
            if j == 0 {
                SkipNode { next: Some(1usize), down: front }
            } else {
                SkipNode {
                    next: shifted_next(level[j - 1].next, 1),
                    down: if l == 0 { level[j - 1].down } else { shifted_down(level[j - 1].down, 0, 1) },
                }
            },
    )
}

/// The levels with a new tower in front: the bottom node of `tower` in front
/// of the bottom level, and in front of every other level a node over the new
/// first node below it.
pub open spec fn levels_put_front<T>(lv: Seq<Seq<SkipNode<T>>>, tower: Seq<SkipNode<T>>) -> Seq<Seq<SkipNode<T>>> {
    Seq::new(
        lv.len(),
        |l: int| put_in_front(lv[l], l, if l == 0 { tower[0].down } else { DownData::Ptr(0) }),
    )
}

/// The nodes at `levels`' level `l` reachable from node `i` on, with a key
/// below `key`: the last node walking on from node `i` while the items stay
/// below `key`, `None` when the item of node `i` is not below it.
pub open spec fn find_slot<T: Ordered>(lv: Seq<Seq<SkipNode<T>>>, l: int, i: int, key: int) -> Option<int>
    decreases lv[l].len() - i,
{
    if item_of(lv, l, i).key() < key {
        if 0 <= i && i + 1 < lv[l].len() && lv[l][i].next is Some {
            match find_slot(lv, l, i + 1, key) {
                Some(x) => Some(x),
                None => Some(i),
            }
        } else {
            Some(i)
        }
    } else {
        None
    }
}

pub proof fn lemma_find_slot_bound<T: Ordered>(lv: Seq<Seq<SkipNode<T>>>, l: int, i: int, key: int)
    requires
        0 <= i < lv[l].len(),
    ensures
        find_slot(lv, l, i, key) matches Some(x) ==> i <= x < lv[l].len(),
    decreases lv[l].len() - i,
{
    if i + 1 < lv[l].len() {
        lemma_find_slot_bound(lv, l, i + 1, key);
    }
}

pub proof fn lemma_put_in_front_linked<T>(level: Seq<SkipNode<T>>, l: int, front: DownData<T>)
    requires
        linked(level),
        1 <= level.len(),
        level.len() + 1 < usize::MAX,
    ensures
        linked(put_in_front(level, l, front)),
{
    let r = put_in_front(level, l, front);
    assert forall|k: int| 0 <= k < r.len() implies match #[trigger] r[k].next {
        Some(n) => n == k + 1 && k + 1 < r.len(),
        None => true,
    } by {
        if k > 0 {
            assert(level[k - 1].next == level[k - 1].next);
        }
    }
}

pub proof fn lemma_put_front_wf<T>(lv: Seq<Seq<SkipNode<T>>>, t: Seq<SkipNode<T>>)
    requires
        towers_wf(lv),
        1 <= t.len(),
        t[0].down is Data,
        forall|k: int| 0 <= k < lv.len() ==> 1 <= (#[trigger] lv[k]).len() && lv[k].len() + 1 < usize::MAX,
    ensures
        towers_wf(levels_put_front(lv, t)),
        levels_put_front(lv, t).len() == lv.len(),
{
    let r = levels_put_front(lv, t);
    assert forall|k: int| 0 <= k < r.len() implies linked(#[trigger] r[k]) by {
        assert(linked(lv[k]));
        lemma_put_in_front_linked(lv[k], k, if k == 0 { t[0].down } else { DownData::Ptr(0) });
    }
    assert forall|k: int, j: int|
        0 <= k < r.len() && 0 <= j < r[k].len() implies {
        &&& (k == 0 <==> (#[trigger] r[k][j]).down is Data)
        &&& k > 0 ==> 0 <= down_index(r[k][j]) < r[k - 1].len()
    } by {
        if j > 0 {
            assert(lv[k][j - 1] == lv[k][j - 1]);
        }
    }
}

/// Putting a tower in front of every level keeps every old node over the
/// bottom node it stood over, one place on, and so over the same item; the
/// new node of every level stands over the new item.
pub proof fn lemma_put_front_bottoms<T>(lv: Seq<Seq<SkipNode<T>>>, t: Seq<SkipNode<T>>, l: int)
    requires
        towers_wf(lv),
        1 <= t.len(),
        t[0].down is Data,
        forall|k: int| 0 <= k < lv.len() ==> 1 <= (#[trigger] lv[k]).len() && lv[k].len() + 1 < usize::MAX,
        0 <= l < lv.len(),
    ensures
        bottom_of(levels_put_front(lv, t), l, 0) == 0,
        forall|j: int|
            0 <= j < lv[l].len() ==> #[trigger] bottom_of(levels_put_front(lv, t), l, j + 1) == bottom_of(lv, l, j)
                + 1,
        item_of(levels_put_front(lv, t), l, 0) == data_of(t[0]),
        forall|j: int|
            0 <= j < lv[l].len() ==> #[trigger] item_of(levels_put_front(lv, t), l, j + 1) == item_of(lv, l, j),
    decreases l,
{
    let w = levels_put_front(lv, t);
    if l > 0 {
        lemma_put_front_bottoms(lv, t, l - 1);
        assert forall|j: int| 0 <= j < lv[l].len() implies #[trigger] bottom_of(w, l, j + 1) == bottom_of(lv, l, j)
            + 1 by {
            assert(lv[l][j] == lv[l][j]);
            assert(0 <= down_index(lv[l][j]) < lv[l - 1].len());
            let d = down_index(lv[l][j]);
            assert(down_index(w[l][j + 1]) == d + 1);
            assert(bottom_of(w, l - 1, d + 1) == bottom_of(lv, l - 1, d) + 1);
            assert(bottom_of(w, l, j + 1) == bottom_of(w, l - 1, d + 1));
            assert(bottom_of(lv, l, j) == bottom_of(lv, l - 1, d));
        }
    }
    assert forall|j: int| 0 <= j < lv[l].len() implies #[trigger] item_of(w, l, j + 1) == item_of(lv, l, j) by {
        lemma_bottom_of_bound(lv, l, j);
        let b = bottom_of(lv, l, j);
        assert(w[0][b + 1].down == lv[0][b].down);
    }
}

pub proof fn lemma_inserted_next_linked<T>(level: Seq<SkipNode<T>>, i: int, node: SkipNode<T>)
    requires
        linked(level),
        0 <= i < level.len(),
        level.len() + 1 < usize::MAX,
    ensures
        linked(inserted_next(level, i, node)),
{
    let r = inserted_next(level, i, node);
    assert forall|j: int| 0 <= j < r.len() implies match #[trigger] r[j].next {
        Some(n) => n == j + 1 && j + 1 < r.len(),
        None => true,
    } by {
        if j > i + 1 {
            assert(level[j - 1].next == level[j - 1].next);
        } else if j == i + 1 {
            assert(level[i].next == level[i].next);
        } else if j < i {
            assert(level[j].next == level[j].next);
        }
    }
}

pub proof fn lemma_shift_downs<T>(level: Seq<SkipNode<T>>, from: int, delta: int)
    ensures
        shift_downs(level, from, delta).len() == level.len(),
        linked(level) ==> linked(shift_downs(level, from, delta)),
        forall|j: int|
            0 <= j < level.len() ==> (#[trigger] shift_downs(level, from, delta)[j]).next == level[j].next
                && shift_downs(level, from, delta)[j].down == shifted_down(level[j].down, from, delta),
{
    let r = shift_downs(level, from, delta);
    if linked(level) {
        assert forall|j: int| 0 <= j < r.len() implies match #[trigger] r[j].next {
            Some(n) => n == j + 1 && j + 1 < r.len(),
            None => true,
        } by {
            assert(level[j].next == level[j].next);
        }
    }
}

pub proof fn lemma_levels_inserted_wf<T>(lv: Seq<Seq<SkipNode<T>>>, l: int, i: int, node: SkipNode<T>)
    requires
        towers_wf(lv),
        0 <= l < lv.len(),
        0 <= i < lv[l].len(),
        lv[l].len() + 1 < usize::MAX,
        l == 0 <==> node.down is Data,
        l > 0 ==> 0 <= down_index(node) < lv[l - 1].len(),
    ensures
        towers_wf(levels_inserted(lv, l, i, node)),
        levels_inserted(lv, l, i, node).len() == lv.len(),
        levels_inserted(lv, l, i, node)[l].len() == lv[l].len() + 1,
        forall|j: int| 0 <= j < lv.len() && j != l ==> (#[trigger] levels_inserted(lv, l, i, node)[j]).len() == lv[j].len(),
{
    let r = levels_inserted(lv, l, i, node);
    lemma_inserted_next_linked(lv[l], i, node);
    if l + 1 < lv.len() {
        lemma_shift_downs(lv[l + 1], i + 1, 1);
    }
    assert forall|k: int| 0 <= k < r.len() implies linked(#[trigger] r[k]) by {
        assert(linked(lv[k]));
    }
    assert forall|k: int, j: int|
        0 <= k < r.len() && 0 <= j < r[k].len() implies {
        &&& (k == 0 <==> (#[trigger] r[k][j]).down is Data)
        &&& k > 0 ==> 0 <= down_index(r[k][j]) < r[k - 1].len()
    } by {
        if k == l {
            if j < i {
                assert(lv[k][j] == lv[k][j]);
            } else if j == i {
                assert(lv[k][i] == lv[k][i]);
            } else if j > i + 1 {
                assert(lv[k][j - 1] == lv[k][j - 1]);
            }
        } else {
            assert(lv[k][j] == lv[k][j]);
        }
    }
}

impl<T> SkipNode<T> {
    /// Links node `i`, which has no next node, to `rhs`, put just after it,
    /// and hands back the index of `rhs`.
    pub fn set_next(level: &mut Vec<SkipNode<T>>, i: usize, rhs: SkipNode<T>) -> (r: usize)
        requires
            linked(old(level)@),
            i < old(level).len(),
            old(level)@[i as int].next is None,
            old(level).len() + 1 < usize::MAX,
        ensures
            r == i + 1,
            final(level)@ == inserted_next(old(level)@, i as int, rhs),
            linked(final(level)@),
    {
        Self::insert_next(level, i, rhs);
        i + 1
    }

    /// Puts `rhs` into the level just after node `i`.
    pub fn insert_next(level: &mut Vec<SkipNode<T>>, i: usize, rhs: SkipNode<T>)
        requires
            linked(old(level)@),
            i < old(level).len(),
            old(level).len() + 1 < usize::MAX,
        ensures
            final(level)@ == inserted_next(old(level)@, i as int, rhs),
            linked(final(level)@),
    {
        let ghost old_level = level@;
        let old_next = level[i].next;
        level[i].next = Some(i + 1);
        let SkipNode { next: _, down } = rhs;
        level.insert(i + 1, SkipNode { next: old_next, down });
        let mut j = i + 1;
        while j < level.len()
            invariant
                linked(old_level),
                i < old_level.len(),
                old_level.len() + 1 < usize::MAX,
                i + 1 <= j <= level.len(),
                level.len() == old_level.len() + 1,
                forall|k: int| 0 <= k < j ==> #[trigger] level@[k] == inserted_next(old_level, i as int, rhs)[k],
                level@[i + 1].down == rhs.down,
                forall|k: int| j <= k < level.len() ==> #[trigger] level@[k] == (if k == i + 1 {
                    SkipNode { next: old_level[i as int].next, down: rhs.down }
                } else {
                    old_level[k - 1]
                }),
            decreases level.len() - j,
        {
            if let Some(x) = level[j].next {
                level[j].next = Some(x + 1);
            }
            j += 1;
        }
        assert(level@ =~= inserted_next(old_level, i as int, rhs));
        proof {
            lemma_inserted_next_linked(old_level, i as int, rhs);
        }
    }

    /// Takes the node after node `i` out of the level.
    pub fn remove_next(level: &mut Vec<SkipNode<T>>, i: usize)
        requires
            linked(old(level)@),
            i < old(level).len(),
        ensures
            old(level)@[i as int].next is Some ==> final(level)@ == removed_next(old(level)@, i as int),
            old(level)@[i as int].next is None ==> final(level)@ == old(level)@,
            linked(final(level)@),
    {
        let ghost old_level = level@;
        if level[i].next.is_some() {
            let removed = level.remove(i + 1);
            level[i].next = removed.next;
            let mut j = i;
            while j < level.len()
                invariant
                    linked(old_level),
                    i < old_level.len(),
                    old_level[i as int].next is Some,
                    i <= j <= level.len(),
                    level.len() == old_level.len() - 1,
                    forall|k: int| 0 <= k < j ==> #[trigger] level@[k] == removed_next(old_level, i as int)[k],
                    forall|k: int| j <= k < level.len() ==> #[trigger] level@[k] == (if k == i {
                        SkipNode { next: old_level[i + 1].next, down: old_level[i as int].down }
                    } else {
                        old_level[k + 1]
                    }),
                decreases level.len() - j,
            {
                if let Some(x) = level[j].next {
                    level[j].next = Some(x - 1);
                }
                j += 1;
            }
            assert(level@ =~= removed_next(old_level, i as int));
            assert forall|k: int| 0 <= k < level@.len() implies match #[trigger] level@[k].next {
                Some(n) => n == k + 1 && k + 1 < level@.len(),
                None => true,
            } by {
                if k >= i {
                    assert(old_level[k + 1].next == old_level[k + 1].next);
                } else {
                    assert(old_level[k].next == old_level[k].next);
                }
            }
        }
    }
}

/// Puts a node holding `front` in front of level `l`, linked to the old first
/// node; when `l` is not the bottom, the old downward links move one place on.
fn put_front_level<T>(level: &mut Vec<SkipNode<T>>, l: usize, front: DownData<T>)
    requires
        linked(old(level)@),
        1 <= old(level).len(),
        old(level).len() + 1 < usize::MAX,
        l > 0 ==> forall|i: int| 0 <= i < old(level).len() ==> down_index(#[trigger] old(level)@[i]) + 1 < usize::MAX,
    ensures
        final(level)@ == put_in_front(old(level)@, l as int, front),
        linked(final(level)@),
{
    let ghost old_level = level@;
    level.insert(0, SkipNode { next: Some(1), down: front });
    let mut j: usize = 1;
    while j < level.len()
        invariant
            linked(old_level),
            1 <= old_level.len(),
            old_level.len() + 1 < usize::MAX,
            l > 0 ==> forall|i: int| 0 <= i < old_level.len() ==> down_index(#[trigger] old_level[i]) + 1 < usize::MAX,
            level.len() == old_level.len() + 1,
            1 <= j <= level.len(),
            forall|k: int| 0 <= k < j ==> #[trigger] level@[k] == put_in_front(old_level, l as int, front)[k],
            forall|k: int| j <= k < level.len() ==> #[trigger] level@[k] == old_level[k - 1],
        decreases level.len() - j,
    {
        if let Some(x) = level[j].next {
            level[j].next = Some(x + 1);
        }
        if l > 0 {
            if let DownData::Ptr(p) = level[j].down {
                assert(down_index(old_level[j - 1]) == p);
                level[j].down = DownData::Ptr(p + 1);
            }
        }
        j += 1;
    }
    assert(level@ =~= put_in_front(old_level, l as int, front));
    assert forall|k: int| 0 <= k < level@.len() implies match #[trigger] level@[k].next {
        Some(n) => n == k + 1 && k + 1 < level@.len(),
        None => true,
    } by {
        if k > 0 {
            assert(old_level[k - 1].next == old_level[k - 1].next);
        }
    }
}

/// Moves by one place on the downward links of `level` that point at `from`
/// or beyond.
fn shift_level_downs<T>(level: &mut Vec<SkipNode<T>>, from: usize)
    requires
        forall|i: int| 0 <= i < old(level).len() ==> down_index(#[trigger] old(level)@[i]) + 1 < usize::MAX,
    ensures
        final(level)@ == shift_downs(old(level)@, from as int, 1),
{
    let ghost old_level = level@;
    let mut j: usize = 0;
    while j < level.len()
        invariant
            forall|i: int| 0 <= i < old_level.len() ==> down_index(#[trigger] old_level[i]) + 1 < usize::MAX,
            level.len() == old_level.len(),
            0 <= j <= level.len(),
            forall|i: int| 0 <= i < j ==> #[trigger] level@[i] == shift_downs(old_level, from as int, 1)[i],
            forall|i: int| j <= i < level.len() ==> #[trigger] level@[i] == old_level[i],
        decreases level.len() - j,
    {
        if let DownData::Ptr(p) = level[j].down {
            if p >= from {
                assert(down_index(old_level[j as int]) == p);
                level[j].down = DownData::Ptr(p + 1);
            }
        }
        j += 1;
    }
    assert(level@ =~= shift_downs(old_level, from as int, 1));
}

/// Puts `node` into level `l` of `levels` just after node `i`, keeping the
/// downward links of the level above on their nodes.
pub fn insert_at_level<T>(levels: &mut Vec<Vec<SkipNode<T>>>, l: usize, i: usize, node: SkipNode<T>)
    requires
        towers_wf(levels_view(old(levels))),
        l < old(levels).len(),
        i < old(levels)@[l as int].len(),
        old(levels)@[l as int].len() + 1 < usize::MAX,
        l == 0 <==> node.down is Data,
        l > 0 ==> 0 <= down_index(node) < old(levels)@[l - 1].len(),
    ensures
        levels_view(final(levels)) == levels_inserted(levels_view(old(levels)), l as int, i as int, node),
        towers_wf(levels_view(final(levels))),
        final(levels).len() == old(levels).len(),
        forall|x: int, y: int|
            0 <= x < old(levels).len() && x != l && 0 <= y < levels_view(old(levels))[x].len() ==> #[trigger] item_of(
                levels_view(final(levels)),
                x,
                y,
            ) == item_of(levels_view(old(levels)), x, y),
        forall|y: int|
            0 <= y <= i ==> #[trigger] item_of(levels_view(final(levels)), l as int, y) == item_of(
                levels_view(old(levels)),
                l as int,
                y,
            ),
        forall|y: int|
            i < y < levels_view(old(levels))[l as int].len() ==> #[trigger] item_of(
                levels_view(final(levels)),
                l as int,
                y + 1,
            ) == item_of(levels_view(old(levels)), l as int, y),
        item_of(levels_view(final(levels)), l as int, i + 1) == if l == 0 {
            data_of(node)
        } else {
            item_of(levels_view(old(levels)), l - 1, down_index(node))
        },
{
    let ghost lv = levels_view(levels);
    proof {
        lemma_levels_inserted_wf(lv, l as int, i as int, node);
    }
    assert(lv[l as int] == levels@[l as int]@);
    assert(linked(lv[l as int]));
    SkipNode::insert_next(&mut levels[l], i, node);
    let ghost mid = levels_view(levels);
    assert(mid =~= lv.update(l as int, inserted_next(lv[l as int], i as int, node)));
    if l + 1 < levels.len() {
        assert(lv[l + 1] == levels@[l + 1]@);
        assert forall|m: int| 0 <= m < lv[l + 1].len() implies down_index(#[trigger] lv[l + 1][m]) + 1 < usize::MAX by {
            assert(lv[l + 1][m] == lv[l + 1][m]);
        }
        shift_level_downs(&mut levels[l + 1], i + 1);
    }
    assert(levels_view(levels) =~= levels_inserted(lv, l as int, i as int, node));
    proof {
        let w = levels_inserted(lv, l as int, i as int, node);
        lemma_levels_inserted_items(lv, l as int, i as int, node, l as int);
        assert forall|x: int, y: int| 0 <= x < lv.len() && x != l && 0 <= y < lv[x].len() implies #[trigger] item_of(
            w,
            x,
            y,
        ) == item_of(lv, x, y) by {
            lemma_levels_inserted_items(lv, l as int, i as int, node, x);
            if x < l {
                assert forall|z: int| 0 <= z <= x implies #[trigger] w[z] == lv[z] by {
                    lemma_levels_inserted_items(lv, l as int, i as int, node, z);
                }
                lemma_bottom_of_prefix(w, lv, x, y);
            }
        }
    }
}

impl<T> SkipNode<T> {
    /// Puts the tower `tower` in front of every level: its bottom node in front
    /// of the bottom level, linked to the old first node, and over it, level by
    /// level, a node over the new first node below, linked to the old first
    /// node of its level.
    pub fn set_all_next(levels: &mut Vec<Vec<SkipNode<T>>>, tower: Vec<SkipNode<T>>)
        requires
            towers_wf(levels_view(old(levels))),
            1 <= tower.len(),
            tower.len() == old(levels).len(),
            tower@[0].down is Data,
            forall|l: int|
                0 <= l < old(levels).len() ==> 1 <= (#[trigger] levels_view(old(levels))[l]).len()
                    && levels_view(old(levels))[l].len() + 1 < usize::MAX,
        ensures
            levels_view(final(levels)) == levels_put_front(levels_view(old(levels)), tower@),
            towers_wf(levels_view(final(levels))),
            final(levels).len() == old(levels).len(),
            forall|l: int|
                0 <= l < old(levels).len() ==> #[trigger] item_of(levels_view(final(levels)), l, 0) == data_of(
                    tower@[0],
                ),
            forall|l: int, j: int|
                0 <= l < old(levels).len() && 0 <= j < levels_view(old(levels))[l].len() ==> #[trigger] item_of(
                    levels_view(final(levels)),
                    l,
                    j + 1,
                ) == item_of(levels_view(old(levels)), l, j),
    {
        let ghost lv = levels_view(levels);
        let ghost t = tower@;
        let mut tower = tower;
        let bottom = tower.remove(0);
        let mut front = bottom.down;
        let mut l: usize = 0;
        while l < levels.len()
            invariant
                towers_wf(lv),
                lv == levels_view(old(levels)),
                levels.len() == lv.len(),
                t[0].down is Data,
                forall|k: int| 0 <= k < lv.len() ==> 1 <= (#[trigger] lv[k]).len() && lv[k].len() + 1 < usize::MAX,
                0 <= l <= levels.len(),
                l == 0 ==> front == t[0].down,
                forall|k: int| 0 <= k < l ==> #[trigger] levels_view(levels)[k] == levels_put_front(lv, t)[k],
                forall|k: int| l <= k < levels.len() ==> #[trigger] levels_view(levels)[k] == lv[k],
            decreases levels.len() - l,
        {
            assert(levels_view(levels)[l as int] == levels@[l as int]@);
            assert(linked(lv[l as int]));
            if l > 0 {
                assert forall|i: int| 0 <= i < lv[l as int].len() implies down_index(#[trigger] lv[l as int][i]) + 1
                    < usize::MAX by {
                    assert(lv[l as int][i] == lv[l as int][i]);
                }
            }
            let ghost before = levels_view(levels);
            let this_front = if l == 0 {
                front
            } else {
                DownData::Ptr(0)
            };
            front = DownData::Ptr(0);
            put_front_level(&mut levels[l], l, this_front);
            assert forall|k: int| 0 <= k < levels.len() && k != l implies #[trigger] levels_view(levels)[k] == before[k] by {}
            l += 1;
        }
        assert(levels_view(levels) =~= levels_put_front(lv, t));
        proof {
            lemma_put_front_wf(lv, t);
            assert forall|l: int| 0 <= l < lv.len() implies #[trigger] item_of(levels_view(levels), l, 0) == data_of(
                t[0],
            ) by {
                lemma_put_front_bottoms(lv, t, l);
            }
            assert forall|l: int, j: int| 0 <= l < lv.len() && 0 <= j < lv[l].len() implies #[trigger] item_of(
                levels_view(levels),
                l,
                j + 1,
            ) == item_of(lv, l, j) by {
                lemma_put_front_bottoms(lv, t, l);
            }
        }
    }

    /// Whether the node two links on from node `i` of level `l` sits on the
    /// node two links on from the node below node `i`.
    pub fn check_next_redundant(levels: &Vec<Vec<SkipNode<T>>>, l: usize, i: usize) -> (r: bool)
        requires
            towers_wf(levels_view(levels)),
            l < levels.len(),
            i < levels@[l as int].len(),
        ensures
            r == (l > 0 && match two_on(levels_view(levels)[l as int], i as int) {
                Some(x) => match two_on(levels_view(levels)[l - 1], down_index(levels_view(levels)[l as int][i as int])) {
                    Some(z) => levels_view(levels)[l as int][x as int].down == DownData::<T>::Ptr(z),
                    None => false,
                },
                None => false,
            }),
    {
        let ghost lv = levels_view(levels);
        assert(lv[l as int] == levels@[l as int]@);
        assert(lv[l as int][i as int] == lv[l as int][i as int]);
        let down = match levels[l][i].go_down_raw() {
            Some(d) => d,
            None => {
                return false;
            },
        };
        assert(lv[l - 1] == levels@[l - 1]@);
        let this = match SkipNode::skip_next(&levels[l], i) {
            Some(x) => {
                match levels[l][x].go_down_raw() {
                    Some(y) => y,
                    None => {
                        return false;
                    },
                }
            },
            None => {
                return false;
            },
        };
        let down = match SkipNode::skip_next(&levels[l - 1], down) {
            Some(z) => z,
            None => {
                return false;
            },
        };
        this == down
    }
}

impl<T: Ordered> SkipNode<T> {
    /// The node of level `l`, walking on from node `i` while the items stay
    /// below `data`, behind which `data` goes; `None` when the item of node
    /// `i` is not below `data`, and `data` should go in front.
    pub fn find_insert_node(levels: &Vec<Vec<SkipNode<T>>>, l: usize, i: usize, data: &T) -> (r: Option<usize>)
        requires
            towers_wf(levels_view(levels)),
            l < levels.len(),
            i < levels@[l as int].len(),
        ensures
            r == (match find_slot(levels_view(levels), l as int, i as int, data.key()) {
                Some(x) => Some(x as usize),
                None => None::<usize>,
            }),
        decreases levels@[l as int].len() - i,
    {
        let ghost lv = levels_view(levels);
        assert(lv[l as int] == levels@[l as int]@);
        assert(linked(lv[l as int]));
        proof {
            lemma_find_slot_bound(lv, l as int, i as int, data.key());
        }
        let this_item = Self::get_raw_item(levels, l, i);
        match levels[l][i].next {
            Some(ptr) => {
                if this_item.less_than(data) {
                    match Self::find_insert_node(levels, l, ptr, data) {
                        Some(x) => Some(x),
                        None => Some(i),
                    }
                } else {
                    None
                }
            },
            None => {
                if this_item.less_than(data) {
                    Some(i)
                } else {
                    None
                }
            },
        }
    }
}

/// What `find_insert` leaves of levels `lv` and hands back, putting the
/// tower `rhs` into levels `0` to `l` from node `i` of level `l`: where level
/// `l` finds no node for the item, the levels as they were and the tower;
/// else, below it, what the level below leaves from the node under the one
/// found, and, where that went well, the top node of the tower put just after
/// the node found, over the place the node below took.
pub open spec fn find_insert_result<T: Ordered>(
    lv: Seq<Seq<SkipNode<T>>>,
    l: int,
    i: int,
    rhs: Seq<SkipNode<T>>,
) -> (Seq<Seq<SkipNode<T>>>, Result<usize, Seq<SkipNode<T>>>)
    decreases l,
{
    match find_slot(lv, l, i, data_of(rhs[0]).key()) {
        None => (lv, Err(rhs)),
        Some(j) => if l > 0 {
            let (below, r) = find_insert_result(lv, l - 1, down_index(lv[l][j]), rhs.drop_last());
            match r {
                Ok(p) => (
                    levels_inserted(below, l, j, SkipNode { next: rhs.last().next, down: DownData::Ptr(p) }),
                    Ok((j + 1) as usize),
                ),
                Err(t) => (below, Err(t)),
            }
        } else {
            (levels_inserted(lv, l, j, rhs.last()), Ok((j + 1) as usize))
        },
    }
}

impl<T: Ordered> SkipNode<T> {
    /// Puts the tower `rhs`, bottom first, into levels `0` to `l`: at level
    /// `l` after the node found by `find_insert_node` from node `i`, and below
    /// it, level by level, from the node under the one found above. Hands
    /// back the index the top node of the tower took; `Err` with the rest of
    /// the tower, and the levels untouched, where some level found no node,
    /// so that the tower should go in front.
    pub fn find_insert(levels: &mut Vec<Vec<SkipNode<T>>>, l: usize, i: usize, rhs: Vec<SkipNode<T>>) -> (r: Result<
        usize,
        Vec<SkipNode<T>>,
    >)
        requires
            towers_wf(levels_view(old(levels))),
            l < old(levels).len(),
            i < old(levels)@[l as int].len(),
            rhs@.len() == l + 1,
            rhs@[0].down is Data,
            forall|m: int| 1 <= m <= l ==> (#[trigger] rhs@[m]).down is Ptr,
            forall|j: int| 0 <= j <= l ==> (#[trigger] levels_view(old(levels))[j]).len() + 1 < usize::MAX,
        ensures
            towers_wf(levels_view(final(levels))),
            final(levels).len() == old(levels).len(),
            match r {
                Ok(p) => {
                    &&& forall|j: int|
                        l + 1 < j < old(levels).len() ==> #[trigger] levels_view(final(levels))[j] == levels_view(
                            old(levels),
                        )[j]
                    &&& l + 1 < old(levels).len() ==> levels_view(final(levels))[l + 1] == shift_downs(
                        levels_view(old(levels))[l + 1],
                        p as int,
                        1,
                    )
                    &&& forall|j: int|
                        0 <= j <= l ==> (#[trigger] levels_view(final(levels))[j]).len() == levels_view(
                            old(levels),
                        )[j].len() + 1
                    &&& 1 <= p <= levels_view(old(levels))[l as int].len()
                },
                Err(t) => {
                    &&& levels_view(final(levels)) == levels_view(old(levels))
                    &&& 1 <= t@.len() <= l + 1
                    &&& t@[0] == rhs@[0]
                    &&& forall|m: int| 1 <= m < t@.len() ==> (#[trigger] t@[m]).down is Ptr
                },
            },
            (levels_view(final(levels)), match r {
                Ok(p) => Ok(p),
                Err(t) => Err(t@),
            }) == find_insert_result(levels_view(old(levels)), l as int, i as int, rhs@),
            find_slot(levels_view(old(levels)), l as int, i as int, data_of(rhs@[0]).key()) is None ==> r == Err::<
                usize,
                Vec<SkipNode<T>>,
            >(rhs),
            towers_ordered(levels_view(old(levels))) && item_of(levels_view(old(levels)), l as int, i as int).key()
                < data_of(rhs@[0]).key() ==> (r matches Ok(p) && {
                &&& p == count_less(level_items(levels_view(old(levels)), l as int), data_of(rhs@[0]).key())
                &&& towers_ordered(levels_view(final(levels)))
                &&& bottom_values(levels_view(final(levels))) == bottom_values(levels_view(old(levels))).insert(
                    count_less(bottom_values(levels_view(old(levels))), data_of(rhs@[0]).key()) as int,
                    data_of(rhs@[0]),
                )
            }),
        decreases l,
    {
        let ghost lv = levels_view(levels);
        let ghost key = data_of(rhs@[0]).key();
        let ghost ordered_case = towers_ordered(lv) && item_of(lv, l as int, i as int).key() < key;
        let data = match &rhs[0].down {
            DownData::Data(d) => share(d),
            DownData::Ptr(_) => vstd::pervasive::unreached(),
        };
        assert(*data == data_of(rhs@[0]));
        assert(lv[l as int] == levels@[l as int]@);
        let node = Self::find_insert_node(levels, l, i, &*data);
        proof {
            lemma_find_slot_bound(lv, l as int, i as int, key);
            if ordered_case {
                lemma_find_slot_sorted(lv, l as int, i as int, key);
            }
        }
        match node {
            Some(j) => {
                let ghost t = rhs@;
                let mut rhs = rhs;
                let mut top = match rhs.pop() {
                    Some(n) => n,
                    None => vstd::pervasive::unreached(),
                };
                assert(rhs@ =~= t.subrange(0, l as int));
                let ghost lv1 = levels_view(levels);
                assert(lv[l as int][j as int] == lv[l as int][j as int]);
                if l > 0 {
                    if let DownData::Ptr(d) = levels[l][j].down {
                        assert(down_index(lv[l as int][j as int]) == d);
                        assert(rhs@[0] == t[0]);
                        match Self::find_insert(levels, l - 1, d, rhs) {
                            Ok(p) => {
                                top.down = DownData::Ptr(p);
                                proof {
                                    if ordered_case {
                                        let below = level_items(lv, l - 1);
                                        lemma_level_sorted(lv, l - 1);
                                        lemma_level_sorted(lv, l as int);
                                        assert(item_of(lv, l as int, j as int) == item_of(lv, l - 1, d as int));
                                        lemma_below_count(below, key, d as int);
                                        if j + 1 < lv[l as int].len() {
                                            let d2 = down_index(lv[l as int][j + 1]);
                                            assert(lv[l as int][j + 1] == lv[l as int][j + 1]);
                                            assert(item_of(lv, l as int, j + 1) == item_of(lv, l - 1, d2));
                                            lemma_below_count(below, key, d2);
                                        }
                                    }
                                }
                            },
                            Err(t) => {
                                return Err(t);
                            },
                        }
                    }
                }
                let ghost lv2 = levels_view(levels);
                proof {
                    if l > 0 {
                        assert(lv2[l as int] == shift_downs(lv[l as int], down_index(top) as int, 1));
                        lemma_shift_downs(lv[l as int], down_index(top) as int, 1);
                        assert(lv2[l as int][j as int].down == shifted_down(lv[l as int][j as int].down, down_index(top) as int, 1));
                    }
                    if ordered_case {
                        if l == 0 {
                            assert(level_items(lv, 0) =~= bottom_values(lv));
                            lemma_level_sorted(lv, 0);
                            assert(item_of(lv, 0, j as int) == data_of(lv[0][j as int]));
                            if j + 1 < lv[0].len() {
                                assert(item_of(lv, 0, j + 1) == data_of(lv[0][j + 1]));
                            }
                        } else {
                            if j + 1 < lv[l as int].len() {
                                assert(lv2[l as int][j + 1].down == shifted_down(lv[l as int][j + 1].down, down_index(top) as int, 1));
                            }
                        }
                        lemma_level_insert_ordered(lv2, l as int, j as int, top);
                    }
                }
                assert(lv2[l as int] == levels@[l as int]@);
                insert_at_level(levels, l, j, top);
                proof {
                    if ordered_case {
                        if l == 0 {
                            lemma_level_sorted(lv, 0);
                        }
                        assert(level_items(lv, 0) =~= bottom_values(lv));
                    }
                }
                Ok(j + 1)
            },
            None => Err(rhs),
        }
    }
}

} // verus!
