use bs_list_utils::diff::with_key;
use bs_list_utils::dup::{dedup, get_dups};
use std::collections::BTreeMap;

#[test]
fn test_get_dups() {
    let list = &[1, 1, 1, 1, 2, 2, 2, 3, 3, 4, 5, 6];
    let map = get_dups(list);
    assert_eq!(map, {
        vec![(1, 4), (2, 3), (3, 2)].into_iter().collect()
    });
}

#[test]
fn test_dedup() {
    let list = &[1, 1, 1, 1, 2, 2, 2, 3, 3, 4, 5, 6];
    let dedup = dedup(list.to_vec());
    assert_eq!(&dedup.set as &[i32], &[1, 2, 3, 4, 5, 6]);
    assert_eq!(dedup.removed, {
        vec![(1, vec![1, 1, 1]), (2, vec![2, 2]), (3, vec![3])]
            .into_iter()
            .collect()
    })
}

#[test]
fn get_dups_of_empty_list_is_empty() {
    let list: &[i32] = &[];
    assert!(get_dups(list).is_empty());
}

#[test]
fn get_dups_without_repeats_is_empty() {
    assert!(get_dups(&[5, 3, 9, -1]).is_empty());
}

#[test]
fn get_dups_counts_unsorted_input() {
    let map = get_dups(&[7, -2, 7, 0, -2, 7]);
    let expected: BTreeMap<i32, usize> = vec![(-2, 2), (7, 3)].into_iter().collect();
    assert_eq!(map, expected);
}

#[test]
fn get_dups_reads_keys_through_index_pairs() {
    let list = vec![(0usize, 4), (1usize, 4), (2usize, 8)];
    let map = get_dups(&list);
    let expected: BTreeMap<i32, usize> = vec![(4, 2)].into_iter().collect();
    assert_eq!(map, expected);
}

#[test]
fn dedup_of_empty_list_is_empty() {
    let d = dedup(Vec::<i32>::new());
    assert!(d.set.is_empty());
    assert!(d.removed.is_empty());
}

#[test]
fn dedup_orders_kept_items_by_key() {
    let d = dedup(vec![9, 3, 9, -4, 3]);
    assert_eq!(d.set.into_inner(), vec![-4, 3, 9]);
    let expected: BTreeMap<i32, Vec<i32>> = vec![(3, vec![3]), (9, vec![9])].into_iter().collect();
    assert_eq!(d.removed, expected);
}

#[test]
fn dedup_keeps_the_last_item_of_each_key() {
    let names = vec!["a1", "b1", "a2", "a3", "b2", "c1"];
    let keyed = with_key(&names, |s| s.as_bytes()[0]);
    let d = dedup(keyed);
    let kept: Vec<&str> = d.set.iter().map(|w| *w.item).collect();
    assert_eq!(kept, vec!["a3", "b2", "c1"]);
    let removed_a: Vec<&str> = d.removed[&b'a'].iter().map(|w| *w.item).collect();
    let removed_b: Vec<&str> = d.removed[&b'b'].iter().map(|w| *w.item).collect();
    assert_eq!(removed_a, vec!["a1", "a2"]);
    assert_eq!(removed_b, vec!["b1"]);
    assert!(!d.removed.contains_key(&b'c'));
}

#[test]
fn dedup_kept_and_removed_make_up_the_input() {
    let input = vec![4, 1, 4, 4, 2, 1, 3];
    let d = dedup(input.clone());
    let mut all: Vec<i32> = d.set.into_inner();
    for (_, v) in d.removed {
        all.extend(v);
    }
    all.sort();
    let mut sorted = input;
    sorted.sort();
    assert_eq!(all, sorted);
}

#[test]
fn dedup_removed_lists_are_one_short_of_the_count() {
    let input = vec![2, 2, 2, 5, 5, 8];
    let counts = get_dups(&input);
    let d = dedup(input.clone());
    assert_eq!(counts.len(), d.removed.len());
    for (k, v) in &d.removed {
        assert_eq!(v.len() + 1, counts[k]);
    }
}
