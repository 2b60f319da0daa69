use dupfinder::grouper::{group_by_size, group_by_text};
use dupfinder::order::order_by_size;

#[test]
fn sizes_are_grouped_in_first_seen_order() {
    let classes = group_by_size(&vec![5, 3, 5, 7, 3, 5]);
    assert_eq!(classes, vec![vec![0, 2, 5], vec![1, 4], vec![3]]);
    assert!(group_by_size(&Vec::new()).is_empty());
}

#[test]
fn texts_are_grouped_in_first_seen_order() {
    let keys: Vec<String> = ["b", "a", "b", "c", "a"].iter().map(|s| s.to_string()).collect();
    let classes = group_by_text(&keys);
    assert_eq!(classes, vec![vec![0, 2], vec![1, 4], vec![3]]);
    assert!(group_by_text(&Vec::new()).is_empty());
}

#[test]
fn every_position_is_in_exactly_one_class() {
    let keys: Vec<u64> = vec![9, 9, 1, 2, 1, 9, 3];
    let classes = group_by_size(&keys);
    let mut seen = vec![0; keys.len()];
    for class in &classes {
        for position in class {
            seen[*position] += 1;
            assert_eq!(keys[*position], keys[class[0]]);
        }
    }
    assert_eq!(seen, vec![1; keys.len()]);
}

#[test]
fn larger_sizes_come_first_and_ties_keep_their_order() {
    assert_eq!(order_by_size(&vec![1, 5, 3, 5]), vec![1, 3, 2, 0]);
    assert_eq!(order_by_size(&vec![2, 2, 2]), vec![0, 1, 2]);
    assert!(order_by_size(&Vec::new()).is_empty());
}
