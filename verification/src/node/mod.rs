pub mod create;
pub mod modify;
pub mod navigator;

use std::sync::Arc;
use vstd::prelude::*;

verus! {

/// What a node of a tower skip list holds below it: the node of the same tower
/// in the level below, or, on the bottom level, the item.
pub enum DownData<T> {
    Ptr(usize),
    Data(Arc<T>),
}

/// A node of a level of a tower skip list: the index of the next node of its
/// level, and what it holds below it.
pub struct SkipNode<T> {
    pub next: Option<usize>,
    pub down: DownData<T>,
}

/// Every link of the level goes from a node to the node just after it.
pub open spec fn linked<T>(level: Seq<SkipNode<T>>) -> bool {
    forall|i: int|
        0 <= i < level.len() ==> match #[trigger] level[i].next {
            Some(n) => n == i + 1 && i + 1 < level.len(),
            None => true,
        }
}

/// How many nodes the level holds from node `i` on, following the links.
pub open spec fn chain_len<T>(level: Seq<SkipNode<T>>, i: int) -> nat
    decreases level.len() - i,
{
    if 0 <= i && i + 1 < level.len() && level[i].next is Some {
        1 + chain_len(level, i + 1)
    } else {
        1
    }
}

pub proof fn lemma_chain_len_bound<T>(level: Seq<SkipNode<T>>, i: int)
    requires
        0 <= i < level.len(),
    ensures
        1 <= chain_len(level, i) <= level.len() - i,
    decreases level.len() - i,
{
    if i + 1 < level.len() && level[i].next is Some {
        lemma_chain_len_bound(level, i + 1);
    }
}

/// The chain from node `i` is the run of linked nodes from `i` on: each of
/// its nodes but the last links on, and the last does not.
pub proof fn lemma_chain_len_run<T>(level: Seq<SkipNode<T>>, i: int)
    requires
        linked(level),
        0 <= i < level.len(),
    ensures
        i + chain_len(level, i) <= level.len(),
        forall|p: int| i <= p < i + chain_len(level, i) - 1 ==> (#[trigger] level[p]).next == Some((p + 1) as usize),
        level[i + chain_len(level, i) - 1].next is None,
    decreases level.len() - i,
{
    assert(level[i].next == level[i].next);
    if i + 1 < level.len() && level[i].next is Some {
        lemma_chain_len_run(level, i + 1);
    }
}

/// The index of the node two links on from node `i`, if there is one.
pub open spec fn two_on<T>(level: Seq<SkipNode<T>>, i: int) -> Option<usize> {
    match level[i].next {
        Some(n) => level[n as int].next,
        None => None,
    }
}

impl<T> SkipNode<T> {
    /// How many nodes the level holds from node `i` on.
    pub fn level_len(level: &Vec<SkipNode<T>>, i: usize) -> (r: usize)
        requires
            linked(level@),
            i < level.len(),
        ensures
            r == chain_len(level@, i as int),
            i + r <= level.len(),
            forall|p: int| i <= p < i + r - 1 ==> (#[trigger] level@[p]).next == Some((p + 1) as usize),
            level@[i + r - 1].next is None,
        decreases level.len() - i,
    {
        proof {
            lemma_chain_len_bound(level@, i as int);
            lemma_chain_len_run(level@, i as int);
        }
        match level[i].next {
            Some(ptr) => Self::level_len(level, ptr) + 1,
            None => 1,
        }
    }

    /// The node two links on from node `i`.
    pub fn skip_next(level: &Vec<SkipNode<T>>, i: usize) -> (r: Option<usize>)
        requires
            linked(level@),
            i < level.len(),
        ensures
            r == two_on(level@, i as int),
            r == (if level@[i as int].next is Some && level@[i + 1].next is Some {
                Some((i + 2) as usize)
            } else {
                None::<usize>
            }),
    {
        match level[i].next {
            Some(n) => level[n].next,
            None => None,
        }
    }
}

} // verus!
