use vstd::prelude::*;

use super::next::{Next, NextMode};
use super::{brother_count, has_brother, linked, one_group, shift_node, shifted, SkipNode};

verus! {

/// The level after `node` went in just after node `i`: node `i` links to it as
/// a brother, it takes over the link node `i` had, and the nodes behind it move
/// one place on.
pub open spec fn inserted_after<P>(level: Seq<SkipNode<P>>, i: int, node: SkipNode<P>) -> Seq<SkipNode<P>> {
    Seq::new(
        level.len() + 1,
        |j: int|
            if j < i {
                level[j]
            } else if j == i {
                SkipNode { payload: level[i].payload, next_ptr: Some(Next { mode: NextMode::Brother, ptr: (i + 1) as usize }) }
            } else if j == i + 1 {
                SkipNode { payload: node.payload, next_ptr: shifted(level[i].next_ptr, 1) }
            } else {
                shift_node(level[j - 1], 1)
            },
    )
}

/// The level after the node after node `i` left it: node `i` takes over its
/// link, and the nodes behind it move one place back.
pub open spec fn removed_after<P>(level: Seq<SkipNode<P>>, i: int) -> Seq<SkipNode<P>> {
    Seq::new(
        (level.len() - 1) as nat,
        |j: int|
            if j < i {
                level[j]
            } else if j == i {
                SkipNode { payload: level[i].payload, next_ptr: shifted(level[i + 1].next_ptr, -1) }
            } else {
                shift_node(level[j + 1], -1)
            },
    )
}

/// Once the node after node `i` left the level, the group from node `j` on,
/// `j` not before `i`, is the group that went on from node `j + 1` before.
pub proof fn lemma_removed_after_count<P>(level: Seq<SkipNode<P>>, i: int, j: int)
    requires
        0 <= i <= j,
        j + 1 < level.len(),
    ensures
        brother_count(removed_after(level, i), j) == brother_count(level, j + 1),
    decreases level.len() - j,
{
    let r = removed_after(level, i);
    assert(r[j].next_ptr == shifted(level[j + 1].next_ptr, -1));
    if has_brother(level, j + 1) {
        lemma_removed_after_count(level, i, j + 1);
    }
}

/// A node put into a level that is one group joins that group.
pub proof fn lemma_inserted_after_one_group<P>(level: Seq<SkipNode<P>>, i: int, node: SkipNode<P>)
    requires
        one_group(level),
        linked(level),
        0 <= i < level.len(),
    ensures
        one_group(inserted_after(level, i, node)),
{
    let r = inserted_after(level, i, node);
    assert forall|p: int| 0 <= p < r.len() - 1 implies ((#[trigger] r[p]).next_ptr matches Some(n) && n.mode
        is Brother) by {
        if p > i {
            assert(level[p - 1].next_ptr matches Some(n) && n.mode is Brother);
        } else if p < i {
            assert(level[p].next_ptr matches Some(n) && n.mode is Brother);
        }
    }
}

/// A level that is one group stays one group when a node leaves it.
pub proof fn lemma_removed_after_one_group<P>(level: Seq<SkipNode<P>>, i: int)
    requires
        one_group(level),
        0 <= i,
        i + 1 < level.len(),
    ensures
        one_group(removed_after(level, i)),
{
    let r = removed_after(level, i);
    assert forall|p: int| 0 <= p < r.len() - 1 implies ((#[trigger] r[p]).next_ptr matches Some(n) && n.mode
        is Brother) by {
        if p >= i {
            assert(level[p + 1].next_ptr matches Some(n) && n.mode is Brother);
        } else {
            assert(level[p].next_ptr matches Some(n) && n.mode is Brother);
        }
    }
}

pub proof fn lemma_inserted_after_linked<P>(level: Seq<SkipNode<P>>, i: int, node: SkipNode<P>)
    requires
        linked(level),
        0 <= i < level.len(),
        level.len() + 1 < usize::MAX,
    ensures
        linked(inserted_after(level, i, node)),
        inserted_after(level, i, node).len() == level.len() + 1,
{
    let r = inserted_after(level, i, node);
    assert forall|j: int| 0 <= j < r.len() implies match #[trigger] r[j].next_ptr {
        Some(n) => n.ptr == j + 1 && j + 1 < r.len(),
        None => true,
    } by {
        if j > i + 1 {
            assert(level[j - 1].next_ptr == level[j - 1].next_ptr);
        } else if j == i + 1 {
            assert(level[i].next_ptr == level[i].next_ptr);
        } else if j < i {
            assert(level[j].next_ptr == level[j].next_ptr);
        }
    }
}

pub proof fn lemma_removed_after_linked<P>(level: Seq<SkipNode<P>>, i: int)
    requires
        linked(level),
        0 <= i < level.len(),
        level[i].next_ptr is Some,
    ensures
        linked(removed_after(level, i)),
        removed_after(level, i).len() == level.len() - 1,
{
    let r = removed_after(level, i);
    assert(level[i].next_ptr == level[i].next_ptr);
    assert forall|j: int| 0 <= j < r.len() implies match #[trigger] r[j].next_ptr {
        Some(n) => n.ptr == j + 1 && j + 1 < r.len(),
        None => true,
    } by {
        if j > i {
            assert(level[j + 1].next_ptr == level[j + 1].next_ptr);
        } else if j == i {
            assert(level[i + 1].next_ptr == level[i + 1].next_ptr);
        } else {
            assert(level[j].next_ptr == level[j].next_ptr);
        }
    }
}

impl<P> SkipNode<P> {
    /// Puts `node` into the level just after node `i`.
    pub fn insert_next(level: &mut Vec<SkipNode<P>>, i: usize, node: SkipNode<P>)
        requires
            linked(old(level)@),
            i < old(level).len(),
            old(level).len() + 1 < usize::MAX,
        ensures
            final(level)@ == inserted_after(old(level)@, i as int, node),
            linked(final(level)@),
    {
        let ghost old_level = level@;
        let old_next = level[i].next_ptr;
        level[i].next_ptr = Some(Next::new(i + 1));
        let SkipNode { payload, next_ptr: _ } = node;
        level.insert(i + 1, SkipNode { payload, next_ptr: old_next });
        let mut j = i + 1;
        while j < level.len()
            invariant
                linked(old_level),
                i < old_level.len(),
                old_level.len() + 1 < usize::MAX,
                i + 1 <= j <= level.len(),
                level.len() == old_level.len() + 1,
                forall|k: int| 0 <= k < j ==> #[trigger] level@[k] == inserted_after(old_level, i as int, node)[k],
                level@[i + 1].payload == node.payload,
                forall|k: int| j <= k < level.len() ==> #[trigger] level@[k] == (if k == i + 1 {
                    SkipNode { payload: node.payload, next_ptr: old_level[i as int].next_ptr }
                } else {
                    old_level[k - 1]
                }),
            decreases level.len() - j,
        {
            let n = level[j].next_ptr;
            if let Some(x) = n {
                level[j].next_ptr = Some(Next { mode: x.mode, ptr: x.ptr + 1 });
            }
            j += 1;
        }
        assert(level@ =~= inserted_after(old_level, i as int, node));
        proof {
            lemma_inserted_after_linked(old_level, i as int, node);
        }
    }

    /// Takes the node after node `i` out of the level.
    pub fn remove_next(level: &mut Vec<SkipNode<P>>, i: usize)
        requires
            linked(old(level)@),
            i < old(level).len(),
        ensures
            old(level)@[i as int].next_ptr is Some ==> final(level)@ == removed_after(old(level)@, i as int),
            old(level)@[i as int].next_ptr is None ==> final(level)@ == old(level)@,
            linked(final(level)@),
    {
        let ghost old_level = level@;
        if level[i].next_ptr.is_some() {
            let removed = level.remove(i + 1);
            level[i].next_ptr = removed.next_ptr;
            let mut j = i;
            while j < level.len()
                invariant
                    linked(old_level),
                    i < old_level.len(),
                    old_level[i as int].next_ptr is Some,
                    i <= j <= level.len(),
                    level.len() == old_level.len() - 1,
                    forall|k: int| 0 <= k < j ==> #[trigger] level@[k] == removed_after(old_level, i as int)[k],
                    forall|k: int| j <= k < level.len() ==> #[trigger] level@[k] == (if k == i {
                        SkipNode { payload: old_level[i as int].payload, next_ptr: old_level[i + 1].next_ptr }
                    } else {
                        old_level[k + 1]
                    }),
                decreases level.len() - j,
            {
                let n = level[j].next_ptr;
                if let Some(x) = n {
                    level[j].next_ptr = Some(Next { mode: x.mode, ptr: x.ptr - 1 });
                }
                j += 1;
            }
            assert(level@ =~= removed_after(old_level, i as int));
            proof {
                lemma_removed_after_linked(old_level, i as int);
            }
        }
    }
}

} // verus!
