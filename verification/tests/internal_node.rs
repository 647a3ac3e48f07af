use std::sync::Arc;

use skiplist::forest::Forest;
use skiplist::internal_node::down_child::DownType;
use skiplist::internal_node::range::Range;
use skiplist::internal_node::InternalNode;
use skiplist::leaf_node::LeafNode;
use skiplist::skip_node::next::{Next, NextMode};
use skiplist::skip_node::SkipNode;

fn leaf<T>(v: T) -> LeafNode<T> {
    SkipNode::new(Arc::new(v))
}

/// An index level of one node over one leaf holding `v`.
fn gen_internal_node<T>(v: T) -> Forest<T> {
    let data = Arc::new(v);
    let range = Range { min: data.clone(), max: data.clone() };
    Forest {
        leaves: vec![SkipNode::new(data)],
        levels: vec![vec![SkipNode::new((DownType::Leaf(0), range))]],
    }
}

#[test]
fn test_check_split() {
    let mut f: Forest<u8> = Forest { leaves: vec![leaf(1u8)], levels: vec![] };
    LeafNode::insert(&mut f, 0, leaf(2));
    LeafNode::insert(&mut f, 0, leaf(3));

    let range = Range { min: Arc::new(1), max: Arc::new(3) };
    f.levels.push(vec![SkipNode::new((DownType::Leaf(0), range))]);
    assert_eq!(InternalNode::children_num(&f, 0, 0), 3);
    assert_eq!(SkipNode::brother_num(&f.levels[0], 0), 1);
    assert_eq!(InternalNode::height(&f, 0, 0), 1);

    InternalNode::check_split(&mut f, 0, 0);

    assert_eq!(SkipNode::brother_num(&f.levels[0], 0), 2);
    assert_eq!(InternalNode::children_num(&f, 0, 0), 1);
    assert_eq!(*f.levels[0][0].range(), Range::new_in(1, 1));
    let brother = f.levels[0][0].go_brother_raw().unwrap();
    assert_eq!(SkipNode::brother_num(&f.levels[0], brother), 1);
    assert_eq!(InternalNode::children_num(&f, 0, brother), 2);
    assert_eq!(*f.levels[0][brother].range(), Range::new_in(2, 3));
}

#[test]
fn test_check_combine() {
    let mut f = gen_internal_node(1);
    let root2 = gen_internal_node(5);
    // the leaf of the second node comes after the first leaf, in another group
    let leaf5 = root2.leaves[0].payload.clone();
    let range5 = root2.levels[0][0].range().clone();
    let mut next = Next::new(1);
    next.split();
    f.leaves[0].next_ptr = Some(next);
    f.leaves.push(SkipNode::new(leaf5));
    f.levels[0].push(SkipNode::new((DownType::Leaf(1), range5)));
    assert_eq!(SkipNode::brother_num(&f.levels[0], 1), 1);
    assert_eq!(InternalNode::children_num(&f, 0, 1), 1);
    f.levels[0][0].next_ptr = Some(Next::new(1));

    assert_eq!(SkipNode::brother_num(&f.levels[0], 0), 2);
    assert_eq!(InternalNode::children_num(&f, 0, 0), 1);

    InternalNode::check_combine(&mut f, 0, 0);

    assert_eq!(SkipNode::brother_num(&f.levels[0], 0), 1);
    assert_eq!(InternalNode::children_num(&f, 0, 0), 2);
}

#[test]
fn test_head_insert() {
    let mut f: Forest<u8> = Forest { leaves: vec![leaf(2u8)], levels: vec![] };
    let range = Range::new_in(2, 2);
    f.levels.push(vec![SkipNode::new((DownType::Leaf(0), range))]);
    assert_eq!(SkipNode::brother_num(&f.levels[0], 0), 1);
    assert_eq!(InternalNode::children_num(&f, 0, 0), 1);
    assert_eq!(f.levels[0][0].payload.1, Range::new_in(2, 2));

    let insert_node = InternalNode::find_level_insert(&f.levels[0], 0, &1);
    assert!(insert_node.is_none());

    InternalNode::insert(&mut f, 0, 0, leaf(1));

    assert_eq!(SkipNode::brother_num(&f.levels[0], 0), 1);
    assert_eq!(InternalNode::children_num(&f, 0, 0), 2);
    //first child is 1
    assert_eq!(InternalNode::go_leaf(&f, 0, 0).value(), &1);
    let first = InternalNode::go_leaf_raw(&f, 0, 0);
    let second = f.leaves[first].next_ptr.unwrap().next_brother().unwrap();
    assert_eq!(f.leaves[second].value(), &2);

    assert_eq!(f.levels[0][0].payload.1, Range::new_in(1, 2));
}

#[test]
fn test_inner_insert() {
    let mut f: Forest<u8> = Forest { leaves: vec![leaf(2u8)], levels: vec![] };
    let range = Range::new_in(2, 2);
    f.levels.push(vec![SkipNode::new((DownType::Leaf(0), range))]);

    assert_eq!(SkipNode::brother_num(&f.levels[0], 0), 1);
    assert_eq!(InternalNode::children_num(&f, 0, 0), 1);
    assert_eq!(f.levels[0][0].payload.1, Range::new_in(2, 2));

    let insert_node = InternalNode::find_level_insert(&f.levels[0], 0, &5);
    // insert in current node
    assert!(insert_node.is_some());

    InternalNode::insert(&mut f, 0, 0, leaf(5));

    assert_eq!(SkipNode::brother_num(&f.levels[0], 0), 1);
    assert_eq!(InternalNode::children_num(&f, 0, 0), 2);
    assert_eq!(InternalNode::go_leaf(&f, 0, 0).value(), &2);
    let first = InternalNode::go_leaf_raw(&f, 0, 0);
    let second = f.leaves[first].next_ptr.unwrap().next_brother().unwrap();
    assert_eq!(f.leaves[second].value(), &5);

    assert_eq!(f.levels[0][0].payload.1, Range::new_in(2, 5));
}

#[test]
fn test_brother_insert() {
    // two index nodes, each over a leaf of its own; the two leaves are not linked
    let mut f = gen_internal_node(1);
    let root2 = gen_internal_node(5);
    f.leaves.push(SkipNode::new(root2.leaves[0].payload.clone()));
    f.levels[0].push(SkipNode::new((DownType::Leaf(1), root2.levels[0][0].range().clone())));
    f.levels[0][0].next_ptr = Some(Next::new(1));

    assert_eq!(SkipNode::brother_num(&f.levels[0], 0), 2);
    assert_eq!(InternalNode::children_num(&f, 0, 0), 1);
    assert_eq!(SkipNode::brother_num(&f.levels[0], 1), 1);
    assert_eq!(InternalNode::children_num(&f, 0, 1), 1);

    let data = 15;
    let insert_node = InternalNode::find_level_insert(&f.levels[0], 0, &data);
    assert!(insert_node.is_some());
    assert_eq!(*f.levels[0][insert_node.unwrap()].range(), Range::new_in(5, 5));

    InternalNode::insert(&mut f, 0, 0, leaf(data));

    assert_eq!(SkipNode::brother_num(&f.levels[0], 0), 2);
    assert_eq!(InternalNode::children_num(&f, 0, 0), 1);
    assert_eq!(SkipNode::brother_num(&f.levels[0], 1), 1);
    assert_eq!(InternalNode::children_num(&f, 0, 1), 2);
    assert_eq!(*f.levels[0][1].range(), Range::new_in(5, 15));
}

#[test]
fn full_test() {
    let mut f = gen_internal_node(125u8);

    // add 2
    InternalNode::insert(&mut f, 0, 0, leaf(244));
    InternalNode::insert(&mut f, 0, 0, leaf(100));
    // root -- Node
    //  |       |
    // 100 -.-.125 --244

    // expect
    //1: split to 2
    assert_eq!(SkipNode::brother_num(&f.levels[0], 0), 2);
    //2: one child,
    assert_eq!(InternalNode::children_num(&f, 0, 0), 1);
    //3: child value is 100
    assert_eq!(InternalNode::go_leaf(&f, 0, 0).value(), &100);
    //4: range is 100~100
    assert_eq!(*f.levels[0][0].range(), Range::new_in(100, 100));

    // brother1
    let brother = f.levels[0][0].go_brother_raw().unwrap();
    //1: brother has 2 child
    assert_eq!(InternalNode::children_num(&f, 0, brother), 2);
    //2: first child is 125
    assert_eq!(InternalNode::go_leaf(&f, 0, brother).value(), &125);
    //3: second child is 244
    let first = InternalNode::go_leaf_raw(&f, 0, brother);
    assert_eq!(SkipNode::go_brother(&f.leaves, first).unwrap().value(), &244);
    //4: range is 125~244
    assert_eq!(*f.levels[0][brother].range(), Range::new_in(125, 244));

    // add 1 to brother
    InternalNode::insert(&mut f, 0, 0, leaf(255));
    // root -- node -- node
    //  |       |       |
    // 100     125      244 -- 255
    //
    // need combine
    //
    // root  -------- node
    //  |              |
    // 100----- 125   244 -- 255

    // root
    assert_eq!(SkipNode::brother_num(&f.levels[0], 0), 2);
    assert_eq!(InternalNode::children_num(&f, 0, 0), 2);
    assert_eq!(InternalNode::go_leaf(&f, 0, 0).value(), &100);
    let first = InternalNode::go_leaf_raw(&f, 0, 0);
    assert_eq!(SkipNode::go_brother(&f.leaves, first).unwrap().value(), &125);
    assert_eq!(*f.levels[0][0].range(), Range::new_in(100, 125));

    // brother
    let brother = f.levels[0][0].go_brother_raw().unwrap();
    assert_eq!(InternalNode::children_num(&f, 0, brother), 2);
    assert_eq!(InternalNode::go_leaf(&f, 0, brother).value(), &244);
    let first = InternalNode::go_leaf_raw(&f, 0, brother);
    assert_eq!(SkipNode::go_brother(&f.leaves, first).unwrap().value(), &255);
    assert_eq!(*f.levels[0][brother].range(), Range::new_in(244, 255));
}

#[test]
fn next_modes() {
    let mut n = Next::new(3);
    assert_eq!(n.next(), 3);
    assert_eq!(n.next_brother(), Some(3));
    n.split();
    assert!(matches!(n.mode, NextMode::OuterBrother));
    assert_eq!(n.next_brother(), None);
    n.as_brother();
    assert_eq!(n.next_brother(), Some(3));
}
