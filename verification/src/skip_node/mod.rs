pub mod next;
pub mod linked;

use vstd::prelude::*;

use self::next::{Next, NextMode};

verus! {

/// A node of a level: its payload and the link to the node after it.
pub struct SkipNode<P> {
    pub payload: P,
    pub next_ptr: Option<Next>,
}

/// Every link of the level goes from a node to the node just after it.
pub open spec fn linked<P>(level: Seq<SkipNode<P>>) -> bool {
    forall|i: int|
        0 <= i < level.len() ==> match #[trigger] level[i].next_ptr {
            Some(n) => n.ptr == i + 1 && i + 1 < level.len(),
            None => true,
        }
}

/// Whether node `i` links to a node of its own group.
pub open spec fn has_brother<P>(level: Seq<SkipNode<P>>, i: int) -> bool {
    &&& 0 <= i && i + 1 < level.len()
    &&& level[i].next_ptr matches Some(n) && n.mode is Brother
}

/// How many nodes the group holds from node `i` on, node `i` included.
pub open spec fn brother_count<P>(level: Seq<SkipNode<P>>, i: int) -> nat
    decreases level.len() - i,
{
    if has_brother(level, i) {
        1 + brother_count(level, i + 1)
    } else {
        1
    }
}

/// The group of node `i` is the run of nodes from `i` on joined by brother
/// links: each of its nodes but the last links to a brother, and the last
/// does not.
pub proof fn lemma_brother_count_run<P>(level: Seq<SkipNode<P>>, i: int)
    requires
        0 <= i < level.len(),
    ensures
        i + brother_count(level, i) <= level.len(),
        forall|p: int| i <= p < i + brother_count(level, i) - 1 ==> #[trigger] has_brother(level, p),
        !has_brother(level, i + brother_count(level, i) - 1),
    decreases level.len() - i,
{
    if has_brother(level, i) {
        lemma_brother_count_run(level, i + 1);
    }
}

/// Two levels of one length whose links agree from node `j` on have groups of
/// the same size from node `j` on.
pub proof fn lemma_brother_count_from<P, Q>(a: Seq<SkipNode<P>>, b: Seq<SkipNode<Q>>, j: int)
    requires
        a.len() == b.len(),
        forall|p: int| j <= p < a.len() ==> (#[trigger] a[p]).next_ptr == b[p].next_ptr,
    ensures
        brother_count(a, j) == brother_count(b, j),
    decreases a.len() - j,
{
    if 0 <= j < a.len() {
        assert(a[j].next_ptr == b[j].next_ptr);
    }
    if has_brother(a, j) {
        lemma_brother_count_from(a, b, j + 1);
    }
}

/// Every node of the level but the last links on to a brother: the level is
/// one group.
pub open spec fn one_group<P>(level: Seq<SkipNode<P>>) -> bool {
    forall|p: int| 0 <= p < level.len() - 1 ==> ((#[trigger] level[p]).next_ptr matches Some(n) && n.mode is Brother)
}

/// A level that is one group has every node from `i` on in the group of `i`.
pub proof fn lemma_one_group_count<P>(level: Seq<SkipNode<P>>, i: int)
    requires
        one_group(level),
        0 <= i < level.len(),
    ensures
        brother_count(level, i) == level.len() - i,
    decreases level.len() - i,
{
    if i + 1 < level.len() {
        assert(level[i].next_ptr matches Some(n) && n.mode is Brother);
        lemma_one_group_count(level, i + 1);
    }
}

/// Being one group depends on the links alone.
pub proof fn lemma_one_group_links<P, Q>(a: Seq<SkipNode<P>>, b: Seq<SkipNode<Q>>)
    requires
        one_group(a),
        a.len() == b.len(),
        forall|p: int| 0 <= p < a.len() ==> (#[trigger] a[p]).next_ptr == b[p].next_ptr,
    ensures
        one_group(b),
{
    assert forall|p: int| 0 <= p < b.len() - 1 implies ((#[trigger] b[p]).next_ptr matches Some(n) && n.mode is Brother) by {
        assert(a[p].next_ptr == b[p].next_ptr);
    }
}

/// The link moved by `d` places.
pub open spec fn shifted(n: Option<Next>, d: int) -> Option<Next> {
    match n {
        Some(x) => Some(Next { mode: x.mode, ptr: (x.ptr + d) as usize }),
        None => None,
    }
}

pub open spec fn shift_node<P>(n: SkipNode<P>, d: int) -> SkipNode<P> {
    SkipNode { payload: n.payload, next_ptr: shifted(n.next_ptr, d) }
}

/// The link of node `c` given mode `mode`.
pub open spec fn with_mode<P>(level: Seq<SkipNode<P>>, c: int, mode: NextMode) -> Seq<SkipNode<P>> {
    level.update(
        c,
        SkipNode {
            payload: level[c].payload,
            next_ptr: match level[c].next_ptr {
                Some(n) => Some(Next { mode, ptr: n.ptr }),
                None => None,
            },
        },
    )
}

pub proof fn lemma_with_mode_linked<P>(level: Seq<SkipNode<P>>, c: int, mode: NextMode)
    requires
        linked(level),
        0 <= c < level.len(),
    ensures
        linked(with_mode(level, c, mode)),
        with_mode(level, c, mode).len() == level.len(),
{
    let r = with_mode(level, c, mode);
    assert forall|j: int| 0 <= j < r.len() implies match #[trigger] r[j].next_ptr {
        Some(n) => n.ptr == j + 1 && j + 1 < r.len(),
        None => true,
    } by {
        assert(level[j].next_ptr == level[j].next_ptr);
    }
}

pub proof fn lemma_brother_count_bound<P>(level: Seq<SkipNode<P>>, i: int)
    requires
        0 <= i < level.len(),
    ensures
        1 <= brother_count(level, i) <= level.len() - i,
    decreases level.len() - i,
{
    if has_brother(level, i) {
        lemma_brother_count_bound(level, i + 1);
    }
}

impl<P> SkipNode<P> {
    pub fn new(payload: P) -> (r: Self)
        ensures
            r.payload == payload,
            r.next_ptr is None,
    {
        SkipNode { payload, next_ptr: None }
    }

    /// How many nodes the group of node `i` holds from node `i` on.
    pub fn brother_num(level: &Vec<SkipNode<P>>, i: usize) -> (r: usize)
        requires
            linked(level@),
            i < level.len(),
        ensures
            r == brother_count(level@, i as int),
            i + r <= level.len(),
            forall|p: int| i <= p < i + r - 1 ==> #[trigger] has_brother(level@, p),
            !has_brother(level@, i + r - 1),
        decreases level.len() - i,
    {
        proof {
            lemma_brother_count_bound(level@, i as int);
            lemma_brother_count_run(level@, i as int);
        }
        match level[i].next_ptr {
            Some(Next { mode: NextMode::Brother, ptr }) => {
                let n = Self::brother_num(level, ptr);
                n + 1
            },
            _ => 1,
        }
    }

    /// Ends the group after node `i` and hands back the node it linked to.
    pub fn split_next(level: &mut Vec<SkipNode<P>>, i: usize) -> (r: Option<usize>)
        requires
            i < old(level).len(),
        ensures
            r == (match old(level)@[i as int].next_ptr {
                Some(n) => Some(n.ptr),
                None => None::<usize>,
            }),
            final(level)@ == with_mode(old(level)@, i as int, NextMode::OuterBrother),
    {
        match level[i].next_ptr {
            Some(n) => {
                let mut n = n;
                n.split();
                level[i].next_ptr = Some(n);
                Some(n.next())
            },
            None => {
                assert(level@ =~= with_mode(level@, i as int, NextMode::OuterBrother));
                None
            },
        }
    }

    pub fn go_next_raw(&self) -> (r: Option<usize>)
        ensures
            r == (match self.next_ptr {
                Some(n) => Some(n.ptr),
                None => None::<usize>,
            }),
    {
        match self.next_ptr {
            Some(n) => Some(n.next()),
            None => None,
        }
    }

    pub fn go_brother_raw(&self) -> (r: Option<usize>)
        ensures
            r == (match self.next_ptr {
                Some(n) => if n.mode is Brother { Some(n.ptr) } else { None::<usize> },
                None => None::<usize>,
            }),
    {
        match self.next_ptr {
            Some(n) => n.next_brother(),
            None => None,
        }
    }

    /// The node after node `i`, where it lies in the same group.
    pub fn go_brother(level: &Vec<SkipNode<P>>, i: usize) -> (r: Option<&SkipNode<P>>)
        requires
            linked(level@),
            i < level.len(),
        ensures
            has_brother(level@, i as int) ==> r == Some(&level@[i + 1]),
            !has_brother(level@, i as int) ==> r is None,
    {
        match level[i].go_brother_raw() {
            Some(j) => Some(&level[j]),
            None => None,
        }
    }
}

} // verus!
