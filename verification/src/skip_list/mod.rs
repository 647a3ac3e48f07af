pub mod iter;
pub mod shape;
pub mod shape_combine;
pub mod shape_split;

use std::sync::Arc;
use vstd::prelude::*;

use self::shape::{count_not_above, leaf_values, sorted_by_key};
use crate::forest::{Forest, ForestView};
use crate::internal_node::down_child::DownType;
use crate::internal_node::range::{share, Range};
use crate::internal_node::{node_range, InternalNode};
use crate::leaf_node::{leaf_key, LeafNode};
use crate::order::Ordered;
use crate::internal_node::insert::insert_result;
use crate::skip_node::{
    brother_count, has_brother, lemma_brother_count_bound, lemma_one_group_count, one_group, SkipNode,
};

verus! {

/// A skip list whose items sit in a leaf level under levels of index nodes,
/// every index node covering a group of nodes of the level below and the
/// range of the items under them.
pub struct SkipLinkedList<T> {
    forest: Forest<T>,
    head: Option<usize>,
    length: usize,
    height: usize,
}

impl<T> View for SkipLinkedList<T> {
    type V = Seq<T>;

    /// The items, in the order of the leaf level.
    closed spec fn view(&self) -> Seq<T> {
        leaf_values(self.forest@.leaves)
    }
}

/// `leaf` is a fresh leaf holding `data`.
pub open spec fn is_leaf_of<T>(leaf: LeafNode<T>, data: T) -> bool {
    *leaf.payload == data && leaf.next_ptr is None
}

/// The structure once `leaf` went in, before the list grows: a single index
/// node over the leaf where there were no levels; else `leaf` put in from the
/// head of the top level down.
pub open spec fn forest_with_leaf<T: Ordered>(v: ForestView<T>, leaf: LeafNode<T>) -> ForestView<T> {
    if v.levels.len() == 0 {
        ForestView {
            leaves: v.leaves.push(leaf),
            levels: seq![
                seq![SkipNode { payload: (DownType::Leaf(0), Range { min: leaf.payload, max: leaf.payload }), next_ptr: None }],
            ],
        }
    } else {
        insert_result(v, v.levels.len() - 1, 0, leaf)
    }
}

/// The structure with a new node on top of it, over the group of the first
/// node of its top level and with the range of that group, once the node is
/// split and merged as an index node is.
pub open spec fn topped<T: Ordered>(v: ForestView<T>) -> ForestView<T> {
    let top = v.levels.len() - 1;
    let node = SkipNode { payload: (DownType::Internal(0), node_range(v.levels[top], 0)), next_ptr: None };
    ForestView { leaves: v.leaves, levels: v.levels.push(seq![node]) }.split_result(top + 1, 0).combine_result(
        top + 1,
        0,
    )
}

/// The structure once the list checked whether to grow: the topped
/// structure where the new top node gained a brother, else the topped one
/// with its top level dropped again.
pub open spec fn forest_grown<T: Ordered>(v: ForestView<T>) -> ForestView<T> {
    let w = topped(v);
    if brother_count(w.levels[w.levels.len() - 1], 0) > 1 {
        w
    } else {
        ForestView { leaves: w.leaves, levels: w.levels.drop_last() }
    }
}

impl<T: Ordered> SkipLinkedList<T> {
    /// The leaf and index levels of the list.
    pub closed spec fn spec_forest(&self) -> ForestView<T> {
        self.forest@
    }

    /// The list's invariant: its counters match its levels, there are no
    /// more levels than items, the top level is one group of at most two
    /// nodes, and a non-empty list is an ordered structure whose head is the
    /// first node of the top level.
    pub closed spec fn wf(&self) -> bool {
        &&& self.height == self.forest.levels.len()
        &&& self.length == self.forest.leaves.len()
        &&& self.height <= self.length
        &&& self.height > 0 ==> one_group(self.forest@.levels[self.height - 1]) && self.forest@.levels[self.height
            - 1].len() <= 2
        &&& if self.height == 0 {
            self.head is None && self.forest.leaves.len() == 0
        } else {
            self.head == Some(0usize) && self.forest@.ordered()
        }
    }

    /// How many index levels the list has.
    pub closed spec fn spec_height(&self) -> nat {
        self.height as nat
    }

    /// The items of a well-formed list are sorted by key, and it has index
    /// levels exactly when it has items, never more levels than items.
    pub proof fn lemma_sorted(&self)
        requires
            self.wf(),
        ensures
            sorted_by_key(self@),
            (self.spec_height() == 0) == (self@.len() == 0),
            self.spec_height() <= self@.len(),
            self.spec_height() > 0 ==> one_group(self.spec_forest().levels[self.spec_height() - 1])
                && self.spec_forest().levels[self.spec_height() - 1].len() <= 2,
    {
        if self.height > 0 {
            let leaves = self.forest@.leaves;
            assert forall|a: int, b: int| 0 <= a <= b < self@.len() implies #[trigger] self@[a].key()
                <= #[trigger] self@[b].key() by {
                assert(leaf_key(leaves[a]) <= leaf_key(leaves[b]));
            }
        }
    }

    pub fn new() -> (r: Self)
        ensures
            r.wf(),
            r@ == Seq::<T>::empty(),
            r.spec_height() == 0,
    {
        let r = SkipLinkedList { forest: Forest { leaves: Vec::new(), levels: Vec::new() }, head: None, length: 0, height: 0 };
        assert(r@ =~= Seq::<T>::empty());
        r
    }

    pub fn height(&self) -> (r: usize)
        ensures
            r == self.spec_height(),
    {
        self.height
    }

    pub fn len(&self) -> (r: usize)
        requires
            self.wf(),
        ensures
            r == self@.len(),
    {
        self.length
    }

    /// Puts `data` into the list, just after the items whose key is not above
    /// its key; then adds a level on top where the top level has grown to
    /// more than two nodes.
    pub fn insert(&mut self, data: T)
        requires
            old(self).wf(),
            old(self)@.len() + 3 < usize::MAX,
        ensures
            final(self).wf(),
            final(self)@ == old(self)@.insert(count_not_above(old(self)@, data.key()) as int, data),
            old(self)@.len() == 0 ==> final(self).spec_height() == 1,
            old(self)@.len() > 0 ==> old(self).spec_height() <= final(self).spec_height() <= old(self).spec_height()
                + 1,
            final(self).spec_height() == final(self).spec_forest().levels.len(),
            exists|leaf: LeafNode<T>|
                #[trigger] is_leaf_of(leaf, data) && final(self).spec_forest() == forest_grown(
                    forest_with_leaf(old(self).spec_forest(), leaf),
                ),
    {
        let ghost v0 = self.forest@;
        let ghost was_empty = self.head is None;
        let ghost key = data.key();
        let skip_node = SkipNode::new(Arc::new(data));
        let ghost leaf = skip_node;
        assert(is_leaf_of(leaf, data));
        match self.head {
            Some(head) => {
                proof {
                    assert forall|j: int| 0 <= j < v0.levels.len() implies (#[trigger] v0.levels[j]).len() + 1
                        < usize::MAX by {
                        v0.lemma_level_len(j);
                    }
                    v0.lemma_first_min(-1, v0.levels.len() - 1);
                    assert(v0.levels[v0.levels.len() - 1].len() >= 1) by {
                        reveal(ForestView::levels_chained);
                    }
                }
                InternalNode::insert(&mut self.forest, self.height - 1, head, skip_node);
                proof {
                    reveal(crate::internal_node::insert::insert_post);
                    let top = v0.levels.len() - 1;
                    if key < v0.min_key(top, 0) {
                        self.forest@.lemma_ranges_ok_past_top(top + 1);
                    }
                }
            },
            None => {
                let range = Range::new(share(&skip_node.payload));
                self.forest.leaves.push(skip_node);
                let mut top = Vec::new();
                top.push(SkipNode::new((DownType::Leaf(0), range)));
                self.forest.levels.push(top);
                self.head = Some(0);
                self.height += 1;
                proof {
                    let v = self.forest@;
                    assert(v.levels[0] == self.forest.levels@[0]@);
                    assert(v.leaves =~= v0.leaves.push(leaf));
                    assert(v.levels =~= forest_with_leaf(v0, leaf).levels);
                    v.lemma_single_ordered();
                    assert(leaf_values(v.leaves) =~= v0.leaves.map_values(|n: LeafNode<T>| *n.payload).insert(
                        0,
                        data,
                    ));
                }
            },
        }
        self.length += 1;
        assert(self.forest@ == forest_with_leaf(v0, leaf));
        if let Some(head) = self.head {
            let ghost v1 = self.forest@;
            let top = self.height - 1;
            assert(v1.levels[top as int] == self.forest.levels@[top as int]@);
            assert(v1.levels[top as int].len() >= 1) by {
                reveal(ForestView::levels_chained);
            }
            let range = InternalNode::gen_range(&self.forest.levels[top], head);
            let temp = SkipNode::new((DownType::Internal(head), range));
            let mut level = Vec::new();
            level.push(temp);
            self.forest.levels.push(level);
            let ghost v2 = self.forest@;
            proof {
                v1.lemma_push_top(temp);
                assert(v2.levels =~= v1.levels.push(seq![temp]));
                assert(v2.levels[top + 1] == self.forest.levels@[top + 1]@);
            }
            InternalNode::check_split(&mut self.forest, top + 1, 0);
            let ghost v3 = self.forest@;
            proof {
                v2.lemma_split_ordered(-1, top + 1, 0);
                v2.lemma_split_frame(top + 1, 0);
            }
            InternalNode::check_combine(&mut self.forest, top + 1, 0);
            proof {
                v3.lemma_combine_ordered(-1, top + 1, 0);
                v3.lemma_combine_frame(top + 1, 0);
                assert(self.forest@.levels[top + 1] == self.forest.levels@[top + 1]@);
            }
            assert(self.forest.levels.len() == self.height + 1);
            proof {
                assert(one_group(v1.levels[top as int]));
                lemma_one_group_count(v1.levels[top as int], 0);
                assert(v2.levels[top as int] == v1.levels[top as int]);
                assert(v2.children_count(top + 1, 0) == v1.levels[top as int].len());
                if was_empty {
                    assert(v1.levels.len() == 1 && v1.levels[0].len() == 1);
                    assert(v3 == v2);
                    assert(self.forest@ == v2);
                }
                if v2.children_count(top + 1, 0) <= 2 {
                    assert(v3 == v2);
                    assert(self.forest@ == v2);
                    assert(brother_count(v2.levels[top + 1], 0) == 1);
                } else {
                    assert(v3.children_count(top + 1, 0) == 1);
                    assert(has_brother(v3.levels[top + 1], 0));
                    assert(self.forest@ == v3);
                    lemma_brother_count_bound(v3.levels[top + 1], 1);
                    assert(brother_count(v3.levels[top + 1], 0) >= 2);
                }
                lemma_brother_count_bound(self.forest@.levels[top + 1], 0);
            }
            if SkipNode::brother_num(&self.forest.levels[top + 1], 0) > 1 {
                self.head = Some(0);
                self.height += 1;
                proof {
                    let w = self.forest@.levels[top + 1];
                    assert(w.len() == 2);
                    assert(has_brother(w, 0));
                    assert(one_group(w));
                }
            } else {
                let ghost v4 = self.forest@;
                self.forest.levels.pop();
                proof {
                    v4.lemma_pop_top();
                    assert(self.forest@.levels =~= v4.levels.drop_last());
                }
            }
            assert(self.forest@ == forest_grown(v1));
        }
    }
}

} // verus!
