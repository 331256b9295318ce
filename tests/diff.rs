use bs_list_utils::diff::{diff, with_key, DiffIgnored};

#[derive(Debug, PartialEq)]
struct V1(String);

#[derive(Debug, PartialEq)]
struct V2(&'static str);

#[test]
fn test_diff() {
    let l1: Vec<V1> = ["0", "a", "a", "a", "b", "b", "c"]
        .iter()
        .map(|v| V1(v.to_string()))
        .collect();
    let l2: Vec<V2> = ["a", "a", "a", "b", "b", "c", "d"]
        .iter()
        .map(|v| V2(v))
        .collect();

    let w1 = with_key(&l1, |v| v.0.as_str());
    let w2 = with_key(&l2, |v| v.0);
    let res = diff(&w1, &w2);

    assert_eq!(
        res.left.iter().map(|w| w.item).collect::<Vec<_>>(),
        vec![&V1("0".to_string())]
    );
    assert_eq!(
        res.both.iter().map(|(l, r)| (l.item, r.item)).collect::<Vec<_>>(),
        vec![
            (&V1("a".to_string()), &V2("a")),
            (&V1("b".to_string()), &V2("b")),
            (&V1("c".to_string()), &V2("c"))
        ]
    );
    assert_eq!(res.right.iter().map(|w| w.item).collect::<Vec<_>>(), vec![&V2("d")]);
    assert_eq!(
        res.ignored
            .iter()
            .map(|e| match e {
                DiffIgnored::Left(w) => DiffIgnored::Left(w.item),
                DiffIgnored::Right(w) => DiffIgnored::Right(w.item),
            })
            .collect::<Vec<_>>(),
        vec![
            DiffIgnored::Left(&V1("a".to_string())),
            DiffIgnored::Left(&V1("a".to_string())),
            DiffIgnored::Left(&V1("b".to_string())),
            DiffIgnored::Right(&V2("a")),
            DiffIgnored::Right(&V2("a")),
            DiffIgnored::Right(&V2("b")),
        ]
    );
}

#[test]
fn test_with_key() {
    let l1: Vec<String> = [1, 2, 3, 4].iter().map(|v| v.to_string()).collect();
    let l2: Vec<String> = [3, 4, 5, 6].iter().map(|v| v.to_string()).collect();

    let w1 = with_key(&l1, |v| v.as_str());
    let w2 = with_key(&l2, |v| v.as_str());

    let res = diff(&w1, &w2);

    assert_eq!(
        res.left
            .into_iter()
            .map(|item| item.item.clone())
            .collect::<Vec<_>>(),
        vec!["1".to_string(), "2".to_string(),]
    );

    assert_eq!(
        res.both
            .into_iter()
            .map(|(l, r)| (l.item.clone(), r.item.clone()))
            .collect::<Vec<_>>(),
        vec![
            ("3".to_string(), "3".to_string()),
            ("4".to_string(), "4".to_string()),
        ]
    );

    assert_eq!(
        res.right
            .into_iter()
            .map(|item| item.item.clone())
            .collect::<Vec<_>>(),
        vec!["5".to_string(), "6".to_string(),]
    );
    assert!(res.ignored.is_empty());
}

#[test]
fn diff_of_empty_lists_is_empty() {
    let l: Vec<i32> = vec![];
    let r: Vec<i32> = vec![];
    let res = diff(&l, &r);
    assert!(res.left.is_empty() && res.both.is_empty() && res.right.is_empty() && res.ignored.is_empty());
}

#[test]
fn diff_sorts_each_part_by_key() {
    let l = vec![9, 1, 5, 3];
    let r = vec![4, 5, 0, 9];
    let res = diff(&l, &r);
    assert_eq!(res.left, vec![&1, &3]);
    assert_eq!(res.both, vec![(&5, &5), (&9, &9)]);
    assert_eq!(res.right, vec![&0, &4]);
}

#[test]
fn diff_with_sides_swapped_swaps_the_parts() {
    let l = vec![2, 7, 7, 1, 8];
    let r = vec![8, 3, 2, 3];
    let ab = diff(&l, &r);
    let ba = diff(&r, &l);
    assert_eq!(ab.left, ba.right);
    assert_eq!(ab.right, ba.left);
    let swapped: Vec<(&i32, &i32)> = ba.both.iter().map(|(x, y)| (*y, *x)).collect();
    assert_eq!(ab.both, swapped);
}

#[test]
fn diff_accounts_for_every_left_item() {
    let l = vec![3, 1, 3, 2, 3];
    let r = vec![2, 4];
    let res = diff(&l, &r);
    let mut seen: Vec<i32> = res.left.iter().map(|x| **x).collect();
    seen.extend(res.both.iter().map(|(x, _)| **x));
    for e in &res.ignored {
        if let DiffIgnored::Left(x) = e {
            seen.push(**x);
        }
    }
    seen.sort();
    assert_eq!(seen, vec![1, 2, 3, 3, 3]);
}

#[test]
fn diff_keeps_the_last_item_of_each_key() {
    let l = vec![(0usize, 6), (1usize, 6)];
    let r = vec![(5usize, 6)];
    let res = diff(&l, &r);
    assert_eq!(res.both, vec![(&(1usize, 6), &(5usize, 6))]);
    assert_eq!(res.ignored, vec![DiffIgnored::Left(&(0usize, 6))]);
}

#[test]
fn diff_ignored_entries_compare_by_side_and_item() {
    assert_eq!(DiffIgnored::<i32, i32>::Left(1), DiffIgnored::Left(1));
    assert_ne!(DiffIgnored::<i32, i32>::Left(1), DiffIgnored::Right(1));
    assert_ne!(DiffIgnored::<i32, i32>::Right(1), DiffIgnored::Right(2));
}

#[test]
fn with_key_pairs_each_item_with_its_key() {
    let words = vec!["pear".to_string(), "fig".to_string()];
    let keyed = with_key(&words, |w| w.len());
    assert_eq!(keyed.len(), 2);
    assert_eq!(keyed[0].key, 4);
    assert_eq!(keyed[1].key, 3);
    assert_eq!(keyed[1].item, &"fig".to_string());
    assert_eq!(keyed[0].as_str(), "pear");
}
