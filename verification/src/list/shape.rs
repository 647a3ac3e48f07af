use vstd::prelude::*;

use crate::node::modify::{
    find_slot, inserted_next, lemma_levels_inserted_wf, lemma_put_front_wf, lemma_shift_downs, levels_inserted,
    levels_put_front, put_in_front, shift_downs, shifted_down,
};
use crate::node::navigator::{bottom_of, data_of, down_index, item_of, lemma_bottom_of_bound, towers_wf};
use crate::node::{chain_len, linked, DownData, SkipNode};
use crate::order::Ordered;
use crate::skip_list::shape::sorted_by_key;

verus! {

/// Every node of the level but the last links onward.
pub open spec fn node_chained<T>(level: Seq<SkipNode<T>>) -> bool {
    forall|i: int| 0 <= i < level.len() - 1 ==> (#[trigger] level[i]).next is Some
}

/// The items of the bottom level, in order.
pub open spec fn bottom_values<T>(lv: Seq<Seq<SkipNode<T>>>) -> Seq<T> {
    lv[0].map_values(|n: SkipNode<T>| data_of(n))
}

/// The items under the nodes of level `l`, in order.
pub open spec fn level_items<T>(lv: Seq<Seq<SkipNode<T>>>, l: int) -> Seq<T> {
    Seq::new(lv[l].len(), |i: int| item_of(lv, l, i))
}

/// How many items of `s` have a key below `key`.
pub open spec fn count_less<T: Ordered>(s: Seq<T>, key: int) -> nat
    decreases s.len(),
{
    if s.len() == 0 {
        0
    } else {
        count_less(s.drop_last(), key) + if s.last().key() < key { 1nat } else { 0nat }
    }
}

/// In a sequence sorted by key, the items with a key below `key` are those
/// before the first item whose key is not below it.
pub proof fn lemma_count_less<T: Ordered>(s: Seq<T>, p: int, key: int)
    requires
        sorted_by_key(s),
        0 <= p <= s.len(),
        forall|a: int| 0 <= a < p ==> (#[trigger] s[a]).key() < key,
        forall|a: int| p <= a < s.len() ==> key <= (#[trigger] s[a]).key(),
    ensures
        count_less(s, key) == p,
    decreases s.len(),
{
    if s.len() > 0 {
        let t = s.drop_last();
        if p == s.len() {
            assert(s.last().key() < key);
            lemma_count_less(t, p - 1, key);
        } else {
            assert(key <= s.last().key());
            lemma_count_less(t, p, key);
        }
    }
}

/// The shape of a tower skip list: no level is empty or broken, each level
/// above the bottom starts over the first node below, and its downward links
/// go up strictly.
#[verifier::opaque]
pub open spec fn towers_shape<T>(lv: Seq<Seq<SkipNode<T>>>) -> bool {
    &&& forall|l: int|
        0 <= l < lv.len() ==> 1 <= (#[trigger] lv[l]).len() && node_chained(lv[l]) && (l > 0 ==> down_index(
            lv[l][0],
        ) == 0)
    &&& forall|l: int, a: int, b: int|
        1 <= l < lv.len() && 0 <= a < b < lv[l].len() ==> down_index(#[trigger] lv[l][a]) < down_index(
            #[trigger] lv[l][b],
        )
}

/// A well-built tower skip list with its bottom sorted by key.
pub open spec fn towers_ordered<T: Ordered>(lv: Seq<Seq<SkipNode<T>>>) -> bool {
    &&& towers_wf(lv)
    &&& 1 <= lv.len()
    &&& towers_shape(lv)
    &&& sorted_by_key(bottom_values(lv))
}

/// Along every level the bottom nodes under the nodes go up strictly, from
/// the first bottom node.
pub proof fn lemma_bottom_rise<T>(lv: Seq<Seq<SkipNode<T>>>, l: int)
    requires
        towers_wf(lv),
        towers_shape(lv),
        0 <= l < lv.len(),
    ensures
        forall|a: int, b: int|
            0 <= a < b < lv[l].len() ==> #[trigger] bottom_of(lv, l, a) < #[trigger] bottom_of(lv, l, b),
        bottom_of(lv, l, 0) == 0,
        forall|a: int| 0 <= a < lv[l].len() ==> 0 <= #[trigger] bottom_of(lv, l, a) < lv[0].len(),
    decreases l,
{
    reveal(towers_shape);
    if l > 0 {
        lemma_bottom_rise(lv, l - 1);
        assert forall|a: int, b: int| 0 <= a < b < lv[l].len() implies #[trigger] bottom_of(lv, l, a) < #[trigger] bottom_of(
            lv,
            l,
            b,
        ) by {
            assert(down_index(lv[l][a]) < down_index(lv[l][b]));
            assert(lv[l][a] == lv[l][a]);
            assert(lv[l][b] == lv[l][b]);
            assert(0 <= down_index(lv[l][a]) < lv[l - 1].len());
            assert(0 <= down_index(lv[l][b]) < lv[l - 1].len());
            assert(bottom_of(lv, l - 1, down_index(lv[l][a])) < bottom_of(lv, l - 1, down_index(lv[l][b])));
        }
        assert(lv[l][0] == lv[l][0]);
    }
    assert forall|a: int| 0 <= a < lv[l].len() implies 0 <= #[trigger] bottom_of(lv, l, a) < lv[0].len() by {
        lemma_bottom_of_bound(lv, l, a);
    }
}

/// The items along every level are sorted by key.
pub proof fn lemma_level_sorted<T: Ordered>(lv: Seq<Seq<SkipNode<T>>>, l: int)
    requires
        towers_ordered(lv),
        0 <= l < lv.len(),
    ensures
        sorted_by_key(level_items(lv, l)),
        level_items(lv, l).len() == lv[l].len(),
{
    lemma_bottom_rise(lv, l);
    let s = level_items(lv, l);
    let bv = bottom_values(lv);
    assert forall|a: int, b: int| 0 <= a <= b < s.len() implies #[trigger] s[a].key() <= #[trigger] s[b].key() by {
        assert(bottom_of(lv, l, a) <= bottom_of(lv, l, b));
        assert(bv[bottom_of(lv, l, a)].key() <= bv[bottom_of(lv, l, b)].key());
    }
}

/// In a sorted sequence, an item lies below `key` exactly when it comes before
/// the count of such items.
pub proof fn lemma_below_count<T: Ordered>(s: Seq<T>, key: int, x: int)
    requires
        sorted_by_key(s),
        0 <= x < s.len(),
    ensures
        (s[x].key() < key) == (x < count_less(s, key)),
    decreases s.len(),
{
    let t = s.drop_last();
    assert(sorted_by_key(t));
    if x < s.len() - 1 {
        lemma_below_count(t, key, x);
        if s.last().key() < key {
            assert(s[x].key() <= s.last().key());
        }
        if !(s[x].key() < key) && s.last().key() < key {
            assert(s[x].key() <= s.last().key());
        }
    } else {
        if t.len() > 0 {
            lemma_count_less_le(t, key);
        }
        if s.last().key() < key {
            lemma_all_below(t, key, s.last());
        }
    }
}

pub proof fn lemma_count_less_le<T: Ordered>(s: Seq<T>, key: int)
    ensures
        count_less(s, key) <= s.len(),
    decreases s.len(),
{
    if s.len() > 0 {
        lemma_count_less_le(s.drop_last(), key);
    }
}

pub proof fn lemma_all_below<T: Ordered>(s: Seq<T>, key: int, top: T)
    requires
        sorted_by_key(s),
        forall|a: int| 0 <= a < s.len() ==> (#[trigger] s[a]).key() <= top.key(),
        top.key() < key,
    ensures
        count_less(s, key) == s.len(),
{
    lemma_count_less(s, s.len() as int, key);
}

/// Over a level whose nodes all link on, `find_slot` from node `i` is the
/// last node of the run from `i` on whose items lie below `key`, and `None`
/// where the item of node `i` does not.
pub proof fn lemma_find_slot_direct<T: Ordered>(lv: Seq<Seq<SkipNode<T>>>, l: int, i: int, key: int)
    requires
        0 <= l < lv.len(),
        node_chained(lv[l]),
        0 <= i < lv[l].len(),
    ensures
        match find_slot(lv, l, i, key) {
            Some(j) => {
                &&& i <= j < lv[l].len()
                &&& forall|p: int| i <= p <= j ==> (#[trigger] item_of(lv, l, p)).key() < key
                &&& j + 1 < lv[l].len() ==> key <= item_of(lv, l, j + 1).key()
            },
            None => key <= item_of(lv, l, i).key(),
        },
    decreases lv[l].len() - i,
{
    if i + 1 < lv[l].len() {
        assert(lv[l][i].next is Some);
        lemma_find_slot_direct(lv, l, i + 1, key);
    }
}

/// Walking a level from a node whose item lies below `key`, the node found
/// is the last whose item lies below `key`.
pub proof fn lemma_find_slot_sorted<T: Ordered>(lv: Seq<Seq<SkipNode<T>>>, l: int, i: int, key: int)
    requires
        towers_ordered(lv),
        0 <= l < lv.len(),
        0 <= i < lv[l].len(),
        item_of(lv, l, i).key() < key,
    ensures
        find_slot(lv, l, i, key) matches Some(j) && i <= j < lv[l].len() && item_of(lv, l, j).key() < key
            && (j + 1 < lv[l].len() ==> key <= item_of(lv, l, j + 1).key()) && j + 1 == count_less(level_items(lv, l), key),
    decreases lv[l].len() - i,
{
    lemma_level_sorted(lv, l);
    let s = level_items(lv, l);
    if i + 1 < lv[l].len() {
        assert(node_chained(lv[l])) by {
            reveal(towers_shape);
        }
        assert(lv[l][i].next is Some);
        if item_of(lv, l, i + 1).key() < key {
            lemma_find_slot_sorted(lv, l, i + 1, key);
        } else {
            assert(find_slot(lv, l, i + 1, key) is None);
            assert(s[i + 1].key() >= key);
            lemma_below_count(s, key, i);
            lemma_below_count(s, key, i + 1);
        }
    } else {
        lemma_below_count(s, key, i);
        lemma_count_less_le(s, key);
    }
}

/// On a level whose every node but the last links onward, the chain from node
/// `i` holds every node from `i` on.
pub proof fn lemma_chain_len_full<T>(level: Seq<SkipNode<T>>, i: int)
    requires
        linked(level),
        node_chained(level),
        0 <= i < level.len(),
    ensures
        chain_len(level, i) == level.len() - i,
    decreases level.len() - i,
{
    if i + 1 < level.len() {
        assert(level[i].next is Some);
        lemma_chain_len_full(level, i + 1);
    }
}

/// The bottom node under node `a` of a level lies at `a` or beyond.
pub proof fn lemma_bottom_of_ge<T>(lv: Seq<Seq<SkipNode<T>>>, l: int, a: int)
    requires
        towers_wf(lv),
        towers_shape(lv),
        0 <= l < lv.len(),
        0 <= a < lv[l].len(),
    ensures
        a <= bottom_of(lv, l, a),
    decreases a,
{
    lemma_bottom_rise(lv, l);
    if a > 0 {
        lemma_bottom_of_ge(lv, l, a - 1);
        assert(bottom_of(lv, l, a - 1) < bottom_of(lv, l, a));
    }
}

/// No level holds more nodes than the bottom level.
pub proof fn lemma_level_len_le<T>(lv: Seq<Seq<SkipNode<T>>>, l: int)
    requires
        towers_wf(lv),
        towers_shape(lv),
        0 <= l < lv.len(),
    ensures
        1 <= lv[l].len() <= lv[0].len(),
{
    reveal(towers_shape);
    assert(1 <= lv[l].len());
    lemma_bottom_rise(lv, l);
    lemma_bottom_of_ge(lv, l, lv[l].len() - 1);
}

/// Putting a node into level `l` just after node `j`, between its neighbours
/// by downward link (or by key on the bottom level), keeps the list ordered.
pub proof fn lemma_level_insert_ordered<T: Ordered>(lv: Seq<Seq<SkipNode<T>>>, l: int, j: int, n: SkipNode<T>)
    requires
        towers_ordered(lv),
        0 <= l < lv.len(),
        0 <= j < lv[l].len(),
        lv[l].len() + 1 < usize::MAX,
        l == 0 ==> n.down is Data && data_of(lv[0][j]).key() <= data_of(n).key() && (j + 1 < lv[0].len()
            ==> data_of(n).key() <= data_of(lv[0][j + 1]).key()),
        l > 0 ==> n.down is Ptr && down_index(lv[l][j]) < down_index(n) && (j + 1 < lv[l].len() ==> down_index(n)
            < down_index(lv[l][j + 1])) && down_index(n) < lv[l - 1].len(),
    ensures
        towers_ordered(levels_inserted(lv, l, j, n)),
        bottom_values(levels_inserted(lv, l, j, n)) == if l == 0 {
            bottom_values(lv).insert(j + 1, data_of(n))
        } else {
            bottom_values(lv)
        },
{
    let w = levels_inserted(lv, l, j, n);
    assert(towers_wf(lv));
    assert(lv[l][j] == lv[l][j]);
    lemma_levels_inserted_wf(lv, l, j, n);
    let nl = w[l];
    assert(nl == inserted_next(lv[l], j, n));
    if l + 1 < lv.len() {
        lemma_shift_downs(lv[l + 1], j + 1, 1);
        assert(w[l + 1] == shift_downs(lv[l + 1], j + 1, 1));
    }
    lemma_level_insert_shape(lv, l, j, n);
    lemma_level_insert_bottom(lv, l, j, n);
}

pub proof fn lemma_level_insert_shape<T: Ordered>(lv: Seq<Seq<SkipNode<T>>>, l: int, j: int, n: SkipNode<T>)
    requires
        towers_wf(lv),
        towers_shape(lv),
        0 <= l < lv.len(),
        0 <= j < lv[l].len(),
        lv[l].len() + 1 < usize::MAX,
        l > 0 ==> n.down is Ptr && down_index(lv[l][j]) < down_index(n) && (j + 1 < lv[l].len() ==> down_index(n)
            < down_index(lv[l][j + 1])) && down_index(n) < lv[l - 1].len(),
    ensures
        towers_shape(levels_inserted(lv, l, j, n)),
{
    let w = levels_inserted(lv, l, j, n);
    let nl = w[l];
    assert(nl == inserted_next(lv[l], j, n));
    if l + 1 < lv.len() {
        lemma_shift_downs(lv[l + 1], j + 1, 1);
        assert(w[l + 1] == shift_downs(lv[l + 1], j + 1, 1));
    }
    assert(towers_shape(w)) by {
        reveal(towers_shape);
        assert forall|k: int| 0 <= k < w.len() implies 1 <= (#[trigger] w[k]).len() && node_chained(w[k]) && (k > 0
            ==> down_index(w[k][0]) == 0) by {
            assert(node_chained(lv[k]));
            if k == l {
                assert forall|a: int| 0 <= a < nl.len() - 1 implies (#[trigger] nl[a]).next is Some by {
                    if a > j + 1 {
                        assert(lv[l][a - 1].next is Some);
                    } else if a == j + 1 {
                        assert(lv[l][j].next is Some);
                    } else if a < j {
                        assert(lv[l][a].next is Some);
                    }
                }
            } else if k == l + 1 {
                assert forall|a: int| 0 <= a < w[k].len() - 1 implies (#[trigger] w[k][a]).next is Some by {
                    assert(lv[k][a].next is Some);
                }
                assert(lv[k][0] == lv[k][0]);
            }
        }
        assert forall|k: int, a: int, b: int|
            1 <= k < w.len() && 0 <= a < b < w[k].len() implies down_index(#[trigger] w[k][a]) < down_index(
            #[trigger] w[k][b],
        ) by {
            if k == l {
                let oa = if a <= j { a } else { a - 1 };
                let ob = if b <= j { b } else { b - 1 };
                if a != j + 1 && b != j + 1 {
                    assert(down_index(lv[l][oa]) < down_index(lv[l][ob]));
                } else if a == j + 1 {
                    if b > j + 1 && j + 1 < ob {
                        assert(down_index(lv[l][j + 1]) < down_index(lv[l][ob]));
                    }
                } else {
                    if oa < j {
                        assert(down_index(lv[l][oa]) < down_index(lv[l][j]));
                    }
                }
            } else if k == l + 1 {
                assert(down_index(lv[k][a]) < down_index(lv[k][b]));
                assert(lv[k][a] == lv[k][a]);
                assert(lv[k][b] == lv[k][b]);
            } else {
                assert(down_index(lv[k][a]) < down_index(lv[k][b]));
            }
        }
    }
}

pub proof fn lemma_level_insert_bottom<T: Ordered>(lv: Seq<Seq<SkipNode<T>>>, l: int, j: int, n: SkipNode<T>)
    requires
        towers_ordered(lv),
        0 <= l < lv.len(),
        0 <= j < lv[l].len(),
        l == 0 ==> n.down is Data && data_of(lv[0][j]).key() <= data_of(n).key() && (j + 1 < lv[0].len()
            ==> data_of(n).key() <= data_of(lv[0][j + 1]).key()),
    ensures
        sorted_by_key(bottom_values(levels_inserted(lv, l, j, n))),
        bottom_values(levels_inserted(lv, l, j, n)) == if l == 0 {
            bottom_values(lv).insert(j + 1, data_of(n))
        } else {
            bottom_values(lv)
        },
{
    let w = levels_inserted(lv, l, j, n);
    if l == 0 {
        assert(bottom_values(w) =~= bottom_values(lv).insert(j + 1, data_of(n)));
        let bv = bottom_values(lv);
        let nb = bottom_values(w);
        assert forall|a: int, b: int| 0 <= a <= b < nb.len() implies #[trigger] nb[a].key() <= #[trigger] nb[b].key() by {
            let oa = if a <= j { a } else { a - 1 };
            let ob = if b <= j { b } else { b - 1 };
            if a != j + 1 && b != j + 1 {
                assert(bv[oa].key() <= bv[ob].key());
            } else if a == j + 1 && b > j + 1 {
                assert(bv[j + 1].key() <= bv[ob].key());
            } else if b == j + 1 && a < j + 1 {
                assert(bv[oa].key() <= bv[j].key());
            }
        }
    } else {
        if l + 1 < lv.len() {
            lemma_shift_downs(lv[l + 1], j + 1, 1);
        }
        assert(bottom_values(w) =~= bottom_values(lv));
    }
}

/// A tower put in front of every level, with an item whose key is not above
/// the first key, keeps the list ordered and comes first.
pub proof fn lemma_put_front_ordered<T: Ordered>(lv: Seq<Seq<SkipNode<T>>>, t: Seq<SkipNode<T>>)
    requires
        towers_ordered(lv),
        1 <= t.len(),
        t[0].down is Data,
        forall|k: int| 0 <= k < lv.len() ==> (#[trigger] lv[k]).len() + 1 < usize::MAX,
        data_of(t[0]).key() <= data_of(lv[0][0]).key(),
    ensures
        towers_ordered(levels_put_front(lv, t)),
        bottom_values(levels_put_front(lv, t)) == bottom_values(lv).insert(
            count_less(bottom_values(lv), data_of(t[0]).key()) as int,
            data_of(t[0]),
        ),
{
    reveal(towers_shape);
    let w = levels_put_front(lv, t);
    lemma_put_front_wf(lv, t);
    assert forall|k: int| 0 <= k < w.len() implies 1 <= (#[trigger] w[k]).len() && node_chained(w[k]) && (k > 0
        ==> down_index(w[k][0]) == 0) by {
        assert(node_chained(lv[k]));
        assert forall|a: int| 0 <= a < w[k].len() - 1 implies (#[trigger] w[k][a]).next is Some by {
            if a > 0 {
                assert(lv[k][a - 1].next is Some);
            }
        }
    }
    assert forall|k: int, a: int, b: int|
        1 <= k < w.len() && 0 <= a < b < w[k].len() implies down_index(#[trigger] w[k][a]) < down_index(
        #[trigger] w[k][b],
    ) by {
        assert(lv[k][b - 1] == lv[k][b - 1]);
        if a > 0 {
            assert(lv[k][a - 1] == lv[k][a - 1]);
            assert(down_index(lv[k][a - 1]) < down_index(lv[k][b - 1]));
        }
    }
    let bv = bottom_values(lv);
    let key = data_of(t[0]).key();
    assert(bottom_values(w) =~= bv.insert(0, data_of(t[0])));
    let nb = bottom_values(w);
    assert forall|a: int, b: int| 0 <= a <= b < nb.len() implies #[trigger] nb[a].key() <= #[trigger] nb[b].key() by {
        if b > 0 {
            assert(bv[0].key() <= bv[b - 1].key());
            if a > 0 {
                assert(bv[a - 1].key() <= bv[b - 1].key());
            }
        }
    }
    assert forall|a: int| 0 <= a < bv.len() implies key <= (#[trigger] bv[a]).key() by {
        assert(bv[0].key() <= bv[a].key());
    }
    lemma_count_less(bv, 0, key);
}

/// The levels of a single tower, bottom first, each holding one node over the
/// node below.
pub open spec fn single_tower<T>(t: Seq<SkipNode<T>>) -> Seq<Seq<SkipNode<T>>> {
    Seq::new(
        t.len(),
        |l: int| seq![SkipNode { next: None, down: if l == 0 { t[0].down } else { DownData::Ptr(0) } }],
    )
}

pub proof fn lemma_single_tower_ordered<T: Ordered>(t: Seq<SkipNode<T>>)
    requires
        1 <= t.len(),
        t[0].down is Data,
    ensures
        towers_ordered(single_tower(t)),
        bottom_values(single_tower(t)) == seq![data_of(t[0])],
{
    reveal(towers_shape);
    let w = single_tower(t);
    assert forall|l: int| 0 <= l < w.len() implies linked(#[trigger] w[l]) by {
        assert(w[l][0].next is None);
    }
    assert(towers_wf(w));
    assert(bottom_values(w) =~= seq![data_of(t[0])]);
}

/// Levels that agree up to level `l` agree on the bottom nodes and items under
/// the nodes of level `l`.
pub proof fn lemma_bottom_of_prefix<T>(a: Seq<Seq<SkipNode<T>>>, b: Seq<Seq<SkipNode<T>>>, l: int, i: int)
    requires
        0 <= l,
        l < a.len(),
        l < b.len(),
        forall|x: int| 0 <= x <= l ==> #[trigger] a[x] == b[x],
    ensures
        bottom_of(a, l, i) == bottom_of(b, l, i),
        item_of(a, l, i) == item_of(b, l, i),
    decreases l,
{
    assert(a[l] == b[l]);
    assert(a[0] == b[0]);
    if l > 0 {
        lemma_bottom_of_prefix(a, b, l - 1, down_index(a[l][i]));
    }
}

/// The item under a node above the bottom is the item under the node below
/// it.
pub proof fn lemma_item_down<T>(lv: Seq<Seq<SkipNode<T>>>, l: int, i: int)
    requires
        l > 0,
    ensures
        item_of(lv, l, i) == item_of(lv, l - 1, down_index(lv[l][i])),
{
}

/// Putting `node` into level `l` just after node `j` keeps every old node of
/// every level over the item it stood over: the nodes of the levels below `l`
/// and above it where they were, the nodes of level `l` behind node `j` one
/// place on; the new node stands over the item under its downward link (its
/// own item on the bottom level).
pub proof fn lemma_levels_inserted_items<T>(lv: Seq<Seq<SkipNode<T>>>, l: int, j: int, node: SkipNode<T>, x: int)
    requires
        towers_wf(lv),
        0 <= l < lv.len(),
        0 <= j < lv[l].len(),
        lv[l].len() + 1 < usize::MAX,
        l == 0 <==> node.down is Data,
        0 <= x < lv.len(),
    ensures
        x < l ==> levels_inserted(lv, l, j, node)[x] == lv[x],
        x == l ==> {
            &&& forall|y: int| 0 <= y <= j ==> #[trigger] item_of(levels_inserted(lv, l, j, node), l, y) == item_of(lv, l, y)
            &&& forall|y: int|
                j < y < lv[l].len() ==> #[trigger] item_of(levels_inserted(lv, l, j, node), l, y + 1) == item_of(lv, l, y)
            &&& item_of(levels_inserted(lv, l, j, node), l, j + 1) == if l == 0 {
                data_of(node)
            } else {
                item_of(lv, l - 1, down_index(node))
            }
        },
        x > l ==> forall|y: int|
            0 <= y < lv[x].len() ==> #[trigger] item_of(levels_inserted(lv, l, j, node), x, y) == item_of(lv, x, y),
    decreases x,
{
    let w = levels_inserted(lv, l, j, node);
    if x < l {
    } else if x == l {
        assert forall|y: int| 0 <= y <= j implies #[trigger] item_of(w, l, y) == item_of(lv, l, y) by {
            assert(w[l][y].down == lv[l][y].down);
            if l > 0 {
                lemma_item_down(w, l, y);
                lemma_item_down(lv, l, y);
                lemma_bottom_of_prefix(w, lv, l - 1, down_index(lv[l][y]));
            } else {
                assert(w[0][y].down == lv[0][y].down);
            }
        }
        assert forall|y: int| j < y < lv[l].len() implies #[trigger] item_of(w, l, y + 1) == item_of(lv, l, y) by {
            assert(w[l][y + 1].down == lv[l][y].down);
            if l > 0 {
                lemma_item_down(w, l, y + 1);
                lemma_item_down(lv, l, y);
                lemma_bottom_of_prefix(w, lv, l - 1, down_index(lv[l][y]));
            }
        }
        assert(w[l][j + 1].down == node.down);
        if l > 0 {
            lemma_item_down(w, l, j + 1);
            lemma_bottom_of_prefix(w, lv, l - 1, down_index(node));
        }
    } else {
        lemma_levels_inserted_items(lv, l, j, node, x - 1);
        assert forall|y: int| 0 <= y < lv[x].len() implies #[trigger] item_of(w, x, y) == item_of(lv, x, y) by {
            assert(lv[x][y] == lv[x][y]);
            let d = down_index(lv[x][y]);
            assert(0 <= d < lv[x - 1].len());
            lemma_item_down(w, x, y);
            lemma_item_down(lv, x, y);
            if x == l + 1 {
                lemma_shift_downs(lv[l + 1], j + 1, 1);
                assert(w[x][y].down == shifted_down(lv[x][y].down, j + 1, 1));
                if d >= j + 1 {
                    assert(down_index(w[x][y]) == d + 1);
                    assert(item_of(w, l, d + 1) == item_of(lv, l, d));
                } else {
                    assert(down_index(w[x][y]) == d);
                    assert(item_of(w, l, d) == item_of(lv, l, d));
                }
            } else {
                assert(w[x] == lv[x]);
            }
        }
    }
}

/// The level put on top by `grow_up` has a node for every other node of the
/// old top level, from its first on, each over the item of that node.
pub proof fn lemma_grow_items<T>(lv: Seq<Seq<SkipNode<T>>>)
    requires
        1 <= lv.len(),
        lv[lv.len() - 1].len() + 1 < usize::MAX,
    ensures
        lv.push(every_other(lv[lv.len() - 1]))[lv.len() as int].len() == (lv[lv.len() - 1].len() + 1) / 2,
        forall|m: int|
            0 <= m < (lv[lv.len() - 1].len() + 1) / 2 ==> #[trigger] item_of(
                lv.push(every_other(lv[lv.len() - 1])),
                lv.len() as int,
                m,
            ) == item_of(lv, lv.len() - 1, 2 * m),
{
    let top = lv.len() - 1;
    let w = lv.push(every_other(lv[top]));
    assert forall|m: int| 0 <= m < (lv[top].len() + 1) / 2 implies #[trigger] item_of(w, lv.len() as int, m)
        == item_of(lv, top, 2 * m) by {
        assert(w[top + 1] == every_other(lv[top]));
        assert(w[top + 1][m].down == DownData::<T>::Ptr((2 * m) as usize));
        assert(down_index(w[top + 1][m]) == 2 * m);
        assert(bottom_of(w, top + 1, m) == bottom_of(w, top, 2 * m));
        lemma_bottom_of_prefix(w, lv, top, 2 * m);
        lemma_bottom_of_prefix(w, lv, 0, bottom_of(w, top, 2 * m));
    }
}

/// Level `l` of `lv` topped by a level over every other node of it.
pub open spec fn every_other<T>(level: Seq<SkipNode<T>>) -> Seq<SkipNode<T>> {
    Seq::new(
        ((level.len() + 1) / 2) as nat,
        |m: int|
            SkipNode {
                next: if m + 1 < (level.len() + 1) / 2 { Some((m + 1) as usize) } else { None },
                down: DownData::Ptr((2 * m) as usize),
            },
    )
}

/// A new top level over every other node of the old top keeps the shape of
/// the list and its items.
pub proof fn lemma_grow_shape<T>(lv: Seq<Seq<SkipNode<T>>>)
    requires
        towers_wf(lv),
        towers_shape(lv),
        1 <= lv.len(),
        lv[lv.len() - 1].len() + 1 < usize::MAX,
    ensures
        towers_wf(lv.push(every_other(lv[lv.len() - 1]))),
        towers_shape(lv.push(every_other(lv[lv.len() - 1]))),
        bottom_values(lv.push(every_other(lv[lv.len() - 1]))) == bottom_values(lv),
{
    reveal(towers_shape);
    let top = lv.len() - 1;
    let nl = every_other(lv[top]);
    let w = lv.push(nl);
    assert(1 <= lv[top].len());
    let n = (lv[top].len() + 1) / 2;
    assert(nl.len() == n);
    assert forall|m: int| 0 <= m < n implies 2 * m < lv[top].len() && (#[trigger] nl[m]).down == DownData::<T>::Ptr(
        (2 * m) as usize,
    ) by {}
    assert forall|m: int| 0 <= m < nl.len() implies match #[trigger] nl[m].next {
        Some(x) => x == m + 1 && m + 1 < nl.len(),
        None => true,
    } by {}
    assert(linked(nl));
    assert forall|l: int| 0 <= l < w.len() implies linked(#[trigger] w[l]) by {
        if l < lv.len() {
            assert(w[l] == lv[l]);
        }
    }
    assert forall|l: int, i: int|
        0 <= l < w.len() && 0 <= i < w[l].len() implies {
        &&& (l == 0 <==> (#[trigger] w[l][i]).down is Data)
        &&& l > 0 ==> 0 <= down_index(w[l][i]) < w[l - 1].len()
    } by {
        if l < lv.len() {
            assert(w[l] == lv[l]);
            assert(lv[l][i] == lv[l][i]);
        } else {
            assert(w[l - 1] == lv[top]);
        }
    }
    assert forall|l: int| 0 <= l < w.len() implies 1 <= (#[trigger] w[l]).len() && node_chained(w[l]) && (l > 0
        ==> down_index(w[l][0]) == 0) by {
        if l < lv.len() {
            assert(w[l] == lv[l]);
        }
    }
    assert forall|l: int, a: int, b: int|
        1 <= l < w.len() && 0 <= a < b < w[l].len() implies down_index(#[trigger] w[l][a]) < down_index(
        #[trigger] w[l][b],
    ) by {
        if l < lv.len() {
            assert(w[l] == lv[l]);
            assert(down_index(lv[l][a]) < down_index(lv[l][b]));
        }
    }
    assert(bottom_values(w) =~= bottom_values(lv)) by {
        if lv.len() > 0 {
            assert(w[0] == lv[0]);
        }
    }
}

} // verus!
