use vstd::prelude::*;

use super::shape::{bottom_values, lemma_bottom_rise, node_chained, towers_shape};
use crate::node::modify::{shifted_down, shifted_next};
use crate::node::navigator::{bottom_of, data_of, down_index, item_of, lemma_bottom_of_bound, levels_view, towers_wf};
use crate::node::{linked, DownData, SkipNode};

verus! {

/// The place, at level `l`, of the tower under the second node of the top
/// level.
pub open spec fn path<T>(lv: Seq<Seq<SkipNode<T>>>, l: int) -> int
    decreases lv.len() - 1 - l,
{
    if l + 1 >= lv.len() {
        1
    } else {
        down_index(lv[l + 1][path(lv, l + 1)])
    }
}

/// The nodes of `level` from `from` on, their links counted from `from` and
/// their downward links counted from `below`.
pub open spec fn rebased<T>(level: Seq<SkipNode<T>>, from: int, below: int) -> Seq<SkipNode<T>> {
    Seq::new(
        (level.len() - from) as nat,
        |i: int|
            SkipNode {
                next: shifted_next(level[from + i].next, -from),
                down: shifted_down(level[from + i].down, 0, -below),
            },
    )
}

/// The levels from the tower under the second node of the top level on: all
/// that is left once the head of the top level is gone.
pub open spec fn levels_popped<T>(lv: Seq<Seq<SkipNode<T>>>) -> Seq<Seq<SkipNode<T>>> {
    Seq::new(
        lv.len(),
        |l: int|
            rebased(
                lv[l],
                path(lv, l),
                if l > 0 {
                    path(lv, l - 1)
                } else {
                    0
                },
            ),
    )
}

pub proof fn lemma_path_bound<T>(lv: Seq<Seq<SkipNode<T>>>, l: int)
    requires
        towers_wf(lv),
        lv[lv.len() - 1].len() > 1,
        0 <= l < lv.len(),
    ensures
        0 <= path(lv, l) < lv[l].len(),
    decreases lv.len() - l,
{
    if l + 1 < lv.len() {
        lemma_path_bound(lv, l + 1);
        assert(lv[l + 1][path(lv, l + 1)] == lv[l + 1][path(lv, l + 1)]);
    }
}

/// The bottom node under the tower's node at level `l` is the tower's bottom
/// node.
pub proof fn lemma_path_bottom<T>(lv: Seq<Seq<SkipNode<T>>>, l: int)
    requires
        0 <= l < lv.len(),
    ensures
        bottom_of(lv, l, path(lv, l)) == path(lv, 0),
    decreases l,
{
    if l > 0 {
        lemma_path_bottom(lv, l - 1);
    }
}

/// Dropping everything in front of the tower under the second node of the
/// top level keeps the shape of the list and leaves the items from the bottom
/// of that tower on.
pub proof fn lemma_popped_shape<T>(lv: Seq<Seq<SkipNode<T>>>)
    requires
        towers_wf(lv),
        towers_shape(lv),
        1 <= lv.len(),
        lv[lv.len() - 1].len() > 1,
    ensures
        towers_wf(levels_popped(lv)),
        towers_shape(levels_popped(lv)),
        levels_popped(lv)[lv.len() - 1].len() == lv[lv.len() - 1].len() - 1,
        path(lv, 0) == bottom_of(lv, lv.len() - 1, 1),
        1 <= path(lv, 0) < lv[0].len(),
        bottom_values(levels_popped(lv)) == bottom_values(lv).subrange(path(lv, 0), lv[0].len() as int),
{
    reveal(towers_shape);
    let w = levels_popped(lv);
    let top = lv.len() - 1;
    lemma_path_bottom(lv, top);
    lemma_bottom_rise(lv, top);
    assert(bottom_of(lv, top, 0) < bottom_of(lv, top, 1));
    assert forall|l: int| 0 <= l < lv.len() implies 0 <= #[trigger] path(lv, l) < lv[l].len() by {
        lemma_path_bound(lv, l);
    }
    assert forall|l: int, a: int, b: int|
        1 <= l < lv.len() && 0 <= a <= b < lv[l].len() implies down_index(#[trigger] lv[l][a]) <= down_index(
        #[trigger] lv[l][b],
    ) by {
        if a < b {
            assert(down_index(lv[l][a]) < down_index(lv[l][b]));
        }
    }
    assert forall|l: int| 0 <= l < w.len() implies linked(#[trigger] w[l]) by {
        let p = path(lv, l);
        assert(linked(lv[l]));
        assert forall|i: int| 0 <= i < w[l].len() implies match #[trigger] w[l][i].next {
            Some(n) => n == i + 1 && i + 1 < w[l].len(),
            None => true,
        } by {
            assert(lv[l][p + i].next == lv[l][p + i].next);
        }
    }
    assert forall|l: int, i: int|
        0 <= l < w.len() && 0 <= i < w[l].len() implies {
        &&& (l == 0 <==> (#[trigger] w[l][i]).down is Data)
        &&& l > 0 ==> 0 <= down_index(w[l][i]) < w[l - 1].len()
    } by {
        let p = path(lv, l);
        assert(lv[l][p + i] == lv[l][p + i]);
        if l > 0 {
            assert(lv[l][p] == lv[l][p]);
            assert(down_index(lv[l][p]) <= down_index(lv[l][p + i]));
        }
    }
    assert(towers_wf(w));
    assert forall|l: int| 0 <= l < w.len() implies 1 <= (#[trigger] w[l]).len() && node_chained(w[l]) && (l > 0
        ==> down_index(w[l][0]) == 0) by {
        let p = path(lv, l);
        assert(node_chained(lv[l]));
        assert forall|i: int| 0 <= i < w[l].len() - 1 implies (#[trigger] w[l][i]).next is Some by {
            assert(lv[l][p + i].next is Some);
        }
        if l > 0 {
            assert(lv[l][p] == lv[l][p]);
        }
    }
    assert forall|l: int, a: int, b: int|
        1 <= l < w.len() && 0 <= a < b < w[l].len() implies down_index(#[trigger] w[l][a]) < down_index(
        #[trigger] w[l][b],
    ) by {
        let p = path(lv, l);
        assert(lv[l][p + a] == lv[l][p + a]);
        assert(lv[l][p + b] == lv[l][p + b]);
        assert(lv[l][p] == lv[l][p]);
        assert(down_index(lv[l][p]) <= down_index(lv[l][p + a]));
        assert(down_index(lv[l][p + a]) < down_index(lv[l][p + b]));
    }
    assert(towers_shape(w));
    let p0 = path(lv, 0);
    assert(bottom_values(w) =~= bottom_values(lv).subrange(p0, lv[0].len() as int)) by {
        assert forall|i: int| 0 <= i < w[0].len() implies data_of(#[trigger] w[0][i]) == data_of(lv[0][p0 + i]) by {
            assert(lv[0][p0 + i] == lv[0][p0 + i]);
        }
    }
}

/// Node `j` of level `l` left after the head is gone links down to the node
/// the old node `path(l) + j` linked to, counted from `path(l - 1)`.
pub proof fn lemma_popped_down<T>(lv: Seq<Seq<SkipNode<T>>>, l: int, j: int)
    requires
        towers_wf(lv),
        towers_shape(lv),
        1 <= lv.len(),
        lv[lv.len() - 1].len() > 1,
        0 < l < lv.len(),
        0 <= j < levels_popped(lv)[l].len(),
    ensures
        down_index(levels_popped(lv)[l][j]) == down_index(lv[l][path(lv, l) + j]) - path(lv, l - 1),
        0 <= down_index(levels_popped(lv)[l][j]) < levels_popped(lv)[l - 1].len(),
        path(lv, l - 1) <= down_index(lv[l][path(lv, l) + j]),
{
    lemma_popped_shape(lv);
    lemma_path_bound(lv, l);
    let w = levels_popped(lv);
    let p = path(lv, l);
    let q = path(lv, l - 1);
    assert(lv[l][p + j] == lv[l][p + j]);
    assert(lv[l][p] == lv[l][p]);
    assert(q == down_index(lv[l][p]));
    reveal(towers_shape);
    if j > 0 {
        assert(down_index(lv[l][p]) < down_index(lv[l][p + j]));
    }
    assert(w[l][j] == w[l][j]);
}

/// Once the head of the top level is gone, every node left stands over the
/// item it stood over before: node `j` of level `l` is the old node
/// `path(l) + j`; on the top level, the old node `j + 1`.
#[verifier::rlimit(50)]
pub proof fn lemma_popped_items<T>(lv: Seq<Seq<SkipNode<T>>>, l: int)
    requires
        towers_wf(lv),
        towers_shape(lv),
        1 <= lv.len(),
        lv[lv.len() - 1].len() > 1,
        0 <= l < lv.len(),
    ensures
        forall|j: int|
            0 <= j < levels_popped(lv)[l].len() ==> #[trigger] bottom_of(levels_popped(lv), l, j) == bottom_of(
                lv,
                l,
                path(lv, l) + j,
            ) - path(lv, 0),
        forall|j: int|
            0 <= j < levels_popped(lv)[l].len() ==> #[trigger] item_of(levels_popped(lv), l, j) == item_of(
                lv,
                l,
                path(lv, l) + j,
            ),
        l == lv.len() - 1 ==> path(lv, l) == 1,
    decreases l,
{
    let w = levels_popped(lv);
    lemma_popped_shape(lv);
    lemma_path_bound(lv, l);
    if l > 0 {
        lemma_popped_items(lv, l - 1);
        lemma_path_bound(lv, l - 1);
        assert forall|j: int| 0 <= j < w[l].len() implies #[trigger] bottom_of(w, l, j) == bottom_of(
            lv,
            l,
            path(lv, l) + j,
        ) - path(lv, 0) by {
            lemma_popped_down(lv, l, j);
            let d = down_index(lv[l][path(lv, l) + j]);
            let q = path(lv, l - 1);
            assert(bottom_of(w, l - 1, d - q) == bottom_of(lv, l - 1, q + (d - q)) - path(lv, 0));
        }
    }
    assert forall|j: int| 0 <= j < w[l].len() implies #[trigger] item_of(w, l, j) == item_of(lv, l, path(lv, l) + j) by {
        lemma_bottom_of_bound(w, l, j);
        let b = bottom_of(w, l, j);
        let p0 = path(lv, 0);
        assert(w[0][b] == rebased(lv[0], p0, 0)[b]);
        assert(lv[0][p0 + b] == lv[0][p0 + b]);
        assert(data_of(w[0][b]) == data_of(lv[0][p0 + b]));
    }
}

/// Keeps the nodes of `level` from `from` on, counting their links from
/// `from` and their downward links from `below`.
fn rebase_level<T>(level: &mut Vec<SkipNode<T>>, from: usize, below: usize)
    requires
        linked(old(level)@),
        from < old(level).len(),
        forall|i: int|
            from <= i < old(level).len() ==> ((#[trigger] old(level)@[i]).down is Ptr ==> below <= down_index(
                old(level)@[i],
            )),
    ensures
        final(level)@ == rebased(old(level)@, from as int, below as int),
{
    let ghost old_level = level@;
    let mut tail = level.split_off(from);
    let mut j: usize = 0;
    while j < tail.len()
        invariant
            linked(old_level),
            from < old_level.len(),
            forall|i: int|
                from <= i < old_level.len() ==> ((#[trigger] old_level[i]).down is Ptr ==> below <= down_index(
                    old_level[i],
                )),
            tail.len() == old_level.len() - from,
            0 <= j <= tail.len(),
            forall|i: int| 0 <= i < j ==> #[trigger] tail@[i] == rebased(old_level, from as int, below as int)[i],
            forall|i: int| j <= i < tail.len() ==> #[trigger] tail@[i] == old_level[from + i],
        decreases tail.len() - j,
    {
        assert(old_level[from + j] == old_level[from + j]);
        if let Some(x) = tail[j].next {
            tail[j].next = Some(x - from);
        }
        if let DownData::Ptr(d) = tail[j].down {
            tail[j].down = DownData::Ptr(d - below);
        }
        j += 1;
    }
    assert(tail@ =~= rebased(old_level, from as int, below as int));
    *level = tail;
}

/// Drops every node in front of the tower under the second node of the top
/// level, and renumbers what is left.
pub fn trim_levels<T>(levels: &mut Vec<Vec<SkipNode<T>>>)
    requires
        towers_wf(levels_view(old(levels))),
        old(levels).len() >= 1,
        levels_view(old(levels))[old(levels).len() - 1].len() > 1,
        towers_shape(levels_view(old(levels))),
    ensures
        levels_view(final(levels)) == levels_popped(levels_view(old(levels))),
{
    let ghost lv = levels_view(levels);
    let ghost w = levels_popped(lv);
    let mut l = levels.len();
    let mut p: usize = 1;
    while l > 0
        invariant
            lv == levels_view(old(levels)),
            w == levels_popped(lv),
            towers_wf(lv),
            towers_shape(lv),
            lv.len() >= 1,
            lv[lv.len() - 1].len() > 1,
            levels.len() == lv.len(),
            0 <= l <= lv.len(),
            l > 0 ==> p == path(lv, l - 1),
            forall|k: int| l <= k < lv.len() ==> #[trigger] levels_view(levels)[k] == w[k],
            forall|k: int| 0 <= k < l ==> #[trigger] levels_view(levels)[k] == lv[k],
        decreases l,
    {
        l -= 1;
        proof {
            lemma_path_bound(lv, l as int);
        }
        assert(levels_view(levels)[l as int] == levels@[l as int]@);
        assert(lv[l as int][p as int] == lv[l as int][p as int]);
        let below = if l > 0 {
            match levels[l][p].down {
                DownData::Ptr(d) => d,
                DownData::Data(_) => vstd::pervasive::unreached(),
            }
        } else {
            0
        };
        assert forall|i: int|
            p <= i < lv[l as int].len() && (#[trigger] lv[l as int][i]).down is Ptr implies below <= down_index(
            lv[l as int][i],
        ) by {
            reveal(towers_shape);
            if l > 0 && p < i {
                assert(down_index(lv[l as int][p as int]) < down_index(lv[l as int][i]));
            }
        }
        assert(linked(lv[l as int]));
        let ghost before = levels_view(levels);
        rebase_level(&mut levels[l], p, below);
        assert(levels_view(levels)[l as int] == levels@[l as int]@);
        assert forall|k: int| 0 <= k < levels.len() && k != l implies #[trigger] levels_view(levels)[k] == before[k] by {}
        p = below;
    }
    assert(levels_view(levels) =~= w);
}

} // verus!
