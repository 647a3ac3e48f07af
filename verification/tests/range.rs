use std::sync::Arc;

use skiplist::internal_node::range::Range;

#[test]
fn test_update_upper() {
    let mut range = Range::new_in(4, 4);
    range.update(Arc::new(15i32));

    assert_eq!(&*range.min, &4);
    assert_eq!(&*range.max, &15);
}

#[test]
fn test_update_lower() {
    let mut range = Range::new_in(4, 4);
    range.update(Arc::new(1i32));

    assert_eq!(&*range.min, &1);
    assert_eq!(&*range.max, &4);
}

#[test]
fn update_inside_keeps_range() {
    let mut range = Range::new_in(4, 9);
    range.update(Arc::new(6i32));
    assert_eq!(&*range.min, &4);
    assert_eq!(&*range.max, &9);
}

#[test]
fn combine_widens_both_ends() {
    let mut range = Range::new_in(4, 9);
    range.combine(&Range::new_in(2, 12i32));
    assert_eq!(&*range.min, &2);
    assert_eq!(&*range.max, &12);
    let mut inner = Range::new_in(4, 9);
    inner.combine(&Range::new_in(5, 6i32));
    assert_eq!(&*inner.min, &4);
    assert_eq!(&*inner.max, &9);
}

#[test]
fn in_range_and_left_range() {
    let range = Range::new(Arc::new(7u8));
    assert!(range.in_range(&7));
    assert!(!range.in_range(&8));
    assert!(range.left_range(&6));
    assert!(!range.left_range(&7));
    let wide = Range::new_in(3u8, 10);
    assert!(wide.in_range(&3) && wide.in_range(&10) && wide.in_range(&5));
    assert!(!wide.in_range(&11) && !wide.in_range(&2));
}

#[test]
fn clone_keeps_bounds() {
    let range = Range::new_in(1u64, 2);
    let copy = range.clone();
    assert_eq!(*copy.min, 1);
    assert_eq!(*copy.max, 2);
}

#[test]
fn combine_either_way_round() {
    let mut ab = Range::new_in(3i32, 8);
    ab.combine(&Range::new_in(5, 11));
    let mut ba = Range::new_in(5i32, 11);
    ba.combine(&Range::new_in(3, 8));
    assert_eq!((*ab.min, *ab.max), (*ba.min, *ba.max));
    assert_eq!((*ab.min, *ab.max), (3, 11));
    let mut same = Range::new_in(2i32, 4);
    let copy = same.clone();
    same.combine(&copy);
    assert_eq!((*same.min, *same.max), (2, 4));
}

#[test]
fn ranges_compare_by_bounds() {
    let mut range = Range::new_in(4, 4);
    range.update(Arc::new(15i32));
    assert_eq!(range, Range::new_in(4, 15));
    assert_ne!(range, Range::new_in(4, 14));
    assert_eq!(range.clone(), range);
}
