use std::sync::Arc;
use vstd::prelude::*;

use super::{DownData, SkipNode};

verus! {

/// A tower for `data` of `level` nodes, bottom first: the bottom node holds
/// the item, every other node the index of the node below it in the tower.
pub open spec fn is_tower<T>(t: Seq<SkipNode<T>>, level: int, data: T) -> bool {
    &&& t.len() == level
    &&& forall|l: int| 0 <= l < level ==> (#[trigger] t[l]).next is None
    &&& t[0].down matches DownData::Data(d) && *d == data
    &&& forall|l: int| 1 <= l < level ==> (#[trigger] t[l]).down == DownData::<T>::Ptr((l - 1) as usize)
}

impl<T> SkipNode<T> {
    /// A bottom node holding `data`.
    pub fn new_normal(data: T) -> (r: Self)
        ensures
            r.next is None,
            r.down matches DownData::Data(d) && *d == data,
    {
        SkipNode { next: None, down: DownData::Data(Arc::new(data)) }
    }

    /// A node over node `down` of the level below.
    pub fn new_skip(down: usize) -> (r: Self)
        ensures
            r.next is None,
            r.down == DownData::<T>::Ptr(down),
    {
        SkipNode { next: None, down: DownData::Ptr(down) }
    }

    /// A tower of `level` nodes for `data`, bottom first.
    pub fn new_level(level: usize, data: T) -> (r: Vec<Self>)
        requires
            level >= 1,
        ensures
            is_tower(r@, level as int, data),
        decreases level,
    {
        if level == 1 {
            let mut t = Vec::new();
            t.push(Self::new_normal(data));
            t
        } else {
            let mut t = Self::new_level(level - 1, data);
            t.push(Self::new_skip(level - 2));
            t
        }
    }
}

} // verus!
