use rand::Rng;

use skiplist::skip_list::SkipLinkedList;

fn items(list: &SkipLinkedList<i32>) -> Vec<i32> {
    let mut out = Vec::new();
    let mut it = list.iter();
    while let Some(v) = it.next() {
        out.push(*v);
    }
    out
}

#[test]
fn test2() {
    let mut list = SkipLinkedList::new();
    let mut rand = rand::thread_rng();
    for _ in 0..10000 {
        list.insert(rand.gen_range(i32::MIN..=i32::MAX))
    }

    let mut it = list.iter();
    while let Some(i) = it.next() {
        println!("now is {i}")
    }
    println!("height {}, len {}", list.height(), list.len());
}

#[test]
fn empty_list() {
    let list: SkipLinkedList<i32> = SkipLinkedList::new();
    assert_eq!(list.len(), 0);
    assert_eq!(list.height(), 0);
    assert!(items(&list).is_empty());
}

#[test]
fn first_insert_makes_one_level() {
    let mut list = SkipLinkedList::new();
    list.insert(42);
    assert_eq!(list.len(), 1);
    assert_eq!(list.height(), 1);
    assert_eq!(items(&list), vec![42]);
}

#[test]
fn items_come_out_sorted() {
    let mut list = SkipLinkedList::new();
    for v in [5, 3, 9, 1, 7, 3, -4, 12, 0, 9] {
        list.insert(v);
    }
    assert_eq!(list.len(), 10);
    assert_eq!(items(&list), vec![-4, 0, 1, 3, 3, 5, 7, 9, 9, 12]);
}

#[test]
fn ascending_and_descending_inserts() {
    let mut up = SkipLinkedList::new();
    let mut down = SkipLinkedList::new();
    for v in 0..200 {
        up.insert(v);
        down.insert(199 - v);
    }
    let expected: Vec<i32> = (0..200).collect();
    assert_eq!(items(&up), expected);
    assert_eq!(items(&down), expected);
    assert!(up.height() > 1);
    assert!(down.height() > 1);
}

#[test]
fn random_inserts_stay_sorted() {
    let mut list = SkipLinkedList::new();
    let mut rng = rand::thread_rng();
    let mut all = Vec::new();
    for _ in 0..3000 {
        let v = rng.gen_range(-1000..1000);
        all.push(v);
        list.insert(v);
    }
    all.sort();
    assert_eq!(list.len(), 3000);
    assert_eq!(items(&list), all);
}

#[test]
fn height_never_passes_length() {
    let mut list = SkipLinkedList::new();
    for v in 0..500i32 {
        list.insert((v * 7919) % 503);
        assert!(list.height() >= 1);
        assert!(list.height() <= list.len());
    }
    assert_eq!(list.len(), 500);
}
