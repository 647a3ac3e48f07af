use std::sync::Arc;

use rand::Rng;

use skiplist::list::SkipList;
use skiplist::node::{DownData, SkipNode};

fn items(list: &SkipList<i64>) -> Vec<i64> {
    let mut out = Vec::new();
    let mut it = list.iter();
    while let Some(v) = it.next() {
        out.push(*v);
    }
    out
}

fn down_of<T>(n: &SkipNode<T>) -> Option<usize> {
    n.go_down_raw()
}

#[test]
fn new_list_is_empty() {
    let mut list: SkipList<i64> = SkipList::new();
    assert_eq!(list.len(), 0);
    assert_eq!(list.hight(), 1);
    assert_eq!(list.top_len(), 0);
    assert!(items(&list).is_empty());
    assert!(list.pop_head().is_none());
    assert_eq!(list.len(), 0);
}

#[test]
fn inserts_come_out_sorted() {
    let mut list = SkipList::new();
    for v in [5i64, 3, 9, 1, 7, 3, -4, 12, 0, 9] {
        list.insert(v);
    }
    assert_eq!(list.len(), 10);
    assert_eq!(items(&list), vec![-4, 0, 1, 3, 3, 5, 7, 9, 9, 12]);
}

#[test]
fn top_level_grows_past_two_nodes() {
    let mut list = SkipList::new();
    list.insert(10i64);
    assert_eq!((list.hight(), list.top_len()), (1, 1));
    list.insert(20);
    assert_eq!((list.hight(), list.top_len()), (1, 2));
    // a third node on the top level makes a new level over nodes 0 and 2
    list.insert(30);
    assert_eq!((list.hight(), list.top_len()), (2, 2));
    // every new tower is as tall as the list, so the top grows again
    list.insert(40);
    assert_eq!((list.hight(), list.top_len()), (3, 2));
    assert_eq!(items(&list), vec![10, 20, 30, 40]);
}

#[test]
fn front_insert_goes_first() {
    let mut list = SkipList::new();
    for v in [50i64, 40, 30, 20, 10] {
        list.insert(v);
    }
    assert_eq!(items(&list), vec![10, 20, 30, 40, 50]);
    assert_eq!(list.len(), 5);
}

#[test]
fn pop_head_on_one_level_takes_the_first_item() {
    let mut list = SkipList::new();
    list.insert(2i64);
    list.insert(1);
    assert_eq!(list.hight(), 1);
    assert_eq!(list.pop_head().map(|v| *v), Some(1));
    assert_eq!(items(&list), vec![2]);
    assert_eq!(list.len(), 1);
    assert_eq!(list.pop_head().map(|v| *v), Some(2));
    assert!(items(&list).is_empty());
    assert_eq!(list.len(), 0);
    assert!(list.pop_head().is_none());
}

#[test]
fn pop_head_goes_on_from_the_next_top_node() {
    let mut list = SkipList::new();
    for v in [1i64, 2, 3] {
        list.insert(v);
    }
    assert_eq!((list.hight(), list.top_len()), (2, 2));
    // the top level stands over 1 and 3: taking its head drops 2 as well
    assert_eq!(list.pop_head().map(|v| *v), Some(1));
    assert_eq!(items(&list), vec![3]);
    assert_eq!(list.len(), 2);
    assert_eq!(list.top_len(), 1);
    assert_eq!(list.hight(), 2);
    // the list takes new items in towers of its height
    list.insert(0);
    assert_eq!(items(&list), vec![0, 3]);
    assert_eq!(list.len(), 3);
}

#[test]
fn refill_after_emptying() {
    let mut list = SkipList::new();
    for v in [4i64, 5, 6] {
        list.insert(v);
    }
    while list.pop_head().is_some() {}
    assert!(items(&list).is_empty());
    assert_eq!(list.top_len(), 0);
    let h = list.hight();
    list.insert(9);
    assert_eq!(items(&list), vec![9]);
    assert_eq!(list.top_len(), 1);
    assert_eq!(list.hight(), h);
}

#[test]
fn into_iter_takes_heads() {
    let mut list = SkipList::new();
    list.insert(7i64);
    list.insert(8);
    let mut it = list.into_iter();
    assert_eq!(it.next().map(|v| *v), Some(7));
    assert_eq!(it.next().map(|v| *v), Some(8));
    assert!(it.next().is_none());
}

#[test]
fn random_tower_inserts_stay_sorted() {
    let mut list = SkipList::new();
    let mut rng = rand::thread_rng();
    let mut all = Vec::new();
    for _ in 0..150 {
        let v: i64 = rng.gen_range(-100..100);
        all.push(v);
        list.insert(v);
    }
    all.sort();
    assert_eq!(list.len(), 150);
    assert_eq!(items(&list), all);
}

#[test]
fn new_level_builds_a_tower() {
    let t = SkipNode::new_level(3, 42u32);
    assert_eq!(t.len(), 3);
    assert!(t.iter().all(|n| n.next.is_none()));
    assert!(matches!(&t[0].down, DownData::Data(d) if **d == 42));
    assert_eq!(down_of(&t[1]), Some(0));
    assert_eq!(down_of(&t[2]), Some(1));
    assert_eq!(down_of(&SkipNode::new_normal(1u32)), None);
    assert_eq!(down_of(&SkipNode::<u32>::new_skip(5)), Some(5));
}

#[test]
fn level_links() {
    let mut level: Vec<SkipNode<u32>> = vec![SkipNode::new_normal(1)];
    assert_eq!(SkipNode::set_next(&mut level, 0, SkipNode::new_normal(3)), 1);
    SkipNode::insert_next(&mut level, 0, SkipNode::new_normal(2));
    assert_eq!(SkipNode::level_len(&level, 0), 3);
    assert_eq!(SkipNode::level_len(&level, 1), 2);
    assert_eq!(level[0].go_next_raw(), Some(1));
    assert_eq!(level[1].go_next_raw(), Some(2));
    assert_eq!(level[2].go_next_raw(), None);
    assert_eq!(SkipNode::skip_next(&level, 0), Some(2));
    assert_eq!(SkipNode::skip_next(&level, 1), None);
    assert_eq!(*SkipNode::go_next(&level, 0).unwrap().data(), 2);
    assert!(SkipNode::go_next(&level, 2).is_none());

    SkipNode::remove_next(&mut level, 0);
    assert_eq!(level.len(), 2);
    assert_eq!(*level[1].data(), 3);
    assert_eq!(level[0].go_next_raw(), Some(1));
    SkipNode::remove_next(&mut level, 1);
    assert_eq!(level.len(), 2);
}

fn two_levels() -> Vec<Vec<SkipNode<u32>>> {
    // bottom: 1 -> 3 -> 5 -> 7 -> 9, top over 1, 5 and 9
    let mut bottom = Vec::new();
    for (i, v) in [1u32, 3, 5, 7, 9].into_iter().enumerate() {
        let mut n = SkipNode::new_normal(v);
        if i < 4 {
            n.next = Some(i + 1);
        }
        bottom.push(n);
    }
    let mut top = Vec::new();
    for (i, d) in [0usize, 2, 4].into_iter().enumerate() {
        let mut n = SkipNode::new_skip(d);
        if i < 2 {
            n.next = Some(i + 1);
        }
        top.push(n);
    }
    vec![bottom, top]
}

#[test]
fn navigation() {
    let levels = two_levels();
    assert_eq!(SkipNode::go_bottom_raw(&levels, 1, 1), 2);
    assert_eq!(*SkipNode::get_item(&levels, 1, 2), 9);
    assert_eq!(*SkipNode::get_raw_item(&levels, 1, 1), 5);
    assert_eq!(*SkipNode::go_down(&levels, 1, 1).unwrap().data(), 5);
    assert!(SkipNode::go_down(&levels, 0, 1).is_none());
}

#[test]
fn find_insert_node_and_find_insert() {
    let mut levels = two_levels();
    assert_eq!(SkipNode::find_insert_node(&levels, 1, 0, &6), Some(1));
    assert_eq!(SkipNode::find_insert_node(&levels, 0, 0, &6), Some(2));
    assert_eq!(SkipNode::find_insert_node(&levels, 1, 0, &1), None);
    assert_eq!(SkipNode::find_insert_node(&levels, 1, 0, &100), Some(2));

    let tower = SkipNode::new_level(2, 6u32);
    assert!(SkipNode::find_insert(&mut levels, 1, 0, tower).is_ok());
    let bottom: Vec<u32> = (0..levels[0].len()).map(|i| *levels[0][i].data()).collect();
    assert_eq!(bottom, vec![1, 3, 5, 6, 7, 9]);
    let top: Vec<usize> = levels[1].iter().map(|n| down_of(n).unwrap()).collect();
    assert_eq!(top, vec![0, 2, 3, 5]);

    let front = SkipNode::new_level(2, 0u32);
    let back = SkipNode::find_insert(&mut levels, 1, 0, front);
    assert!(back.is_err());
    SkipNode::set_all_next(&mut levels, back.err().unwrap());
    let bottom: Vec<u32> = (0..levels[0].len()).map(|i| *levels[0][i].data()).collect();
    assert_eq!(bottom, vec![0, 1, 3, 5, 6, 7, 9]);
    let top: Vec<usize> = levels[1].iter().map(|n| down_of(n).unwrap()).collect();
    assert_eq!(top, vec![0, 1, 3, 4, 6]);
}

#[test]
fn redundant_next() {
    let levels = two_levels();
    // top node 0 sits on bottom 0; two links on it reaches the node over
    // bottom 4, and two links on from bottom 0 is bottom 2
    assert!(!SkipNode::check_next_redundant(&levels, 1, 0));
    assert!(!SkipNode::check_next_redundant(&levels, 0, 0));

    let mut close = two_levels();
    close[1][1].down = DownData::Ptr(1);
    close[1][2].down = DownData::Ptr(2);
    assert!(SkipNode::check_next_redundant(&close, 1, 0));
}

#[test]
fn change_nodes_in_place() {
    let mut levels = two_levels();
    if let Some(n) = SkipNode::go_down_mut(&mut levels, 1, 2) {
        n.down = DownData::Data(Arc::new(10));
    }
    assert_eq!(*levels[0][4].data(), 10);
    assert!(SkipNode::go_down_mut(&mut levels, 0, 0).is_none());
    if let Some(n) = SkipNode::go_next_mut(&mut levels[0], 0) {
        n.down = DownData::Data(Arc::new(2));
    }
    assert_eq!(*levels[0][1].data(), 2);
    assert!(SkipNode::go_next_mut(&mut levels[0], 4).is_none());
}

#[test]
fn top_level_never_passes_two_nodes() {
    let mut list = SkipList::new();
    for v in 0..60i64 {
        list.insert((v * 37) % 61);
        assert!(list.top_len() <= 2);
        assert!(list.top_len() >= 1);
    }
    while list.pop_head().is_some() {
        assert!(list.top_len() <= 2);
    }
}
