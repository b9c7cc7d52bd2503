use rx_core::collections::{TopQueue, VecMap};
use rx_core::m::stat::{calc_hist, hist_top_n, top_n};
use rx_core::text::text_map::TextMap;
use std::cmp::Reverse;
use std::collections::BTreeMap;

#[test]
fn top_queue_test() {
    let v = vec![
        18, 13, 21, 25, 11, 30, 23, 28, 15, 20, 22, 27, 12, 19, 26, 17, 29, 16, 24, 14,
    ];

    let mut top = TopQueue::with_capacity(5);
    for elem in &v {
        top.insert(*elem);
    }

    assert_eq!(top.first(), Some(&11));
    assert_eq!(top.get(1), Some(&12));
    assert_eq!(top.get(2), Some(&13));
    assert_eq!(top.get(3), Some(&14));
    assert_eq!(top.last(), Some(&15));

    let mut top = TopQueue::with_capacity(5);
    for elem in &v {
        top.insert(Reverse(*elem));
    }

    assert_eq!(top.first(), Some(&Reverse(30)));
    assert_eq!(top.get(1), Some(&Reverse(29)));
    assert_eq!(top.get(2), Some(&Reverse(28)));
    assert_eq!(top.get(3), Some(&Reverse(27)));
    assert_eq!(top.last(), Some(&Reverse(26)));
}

#[test]
fn test_vec_map() {
    let mut map = VecMap::new();

    // Test set
    map.insert("key1", "value1");
    assert_eq!(map.get("key1"), Some(&"value1".to_string()));

    // Test update
    map.insert("key1", "value2");
    assert_eq!(map.get("key1"), Some(&"value2".to_string()));

    // Test get non-existing key
    assert_eq!(map.get("key2"), None);

    let mut it = map.iter();
    while let Some((key, value)) = it.next() {
        println!("{}: {}", key, value);
    }
}

#[test]
fn test_calc_hist() {
    let values = vec![1, 1, 1, 2, 3, 3, 0, 0, 0, 0];

    let hist1 = calc_hist(&values);
    let hist2 = BTreeMap::from([(0, 4), (1, 3), (2, 1), (3, 2)]);
    assert_eq!(hist1, hist2);

    let v1 = top_n(&hist1, 3);
    let v2 = vec![(0, 4), (1, 3), (3, 2)];
    assert_eq!(v1, v2);
}

#[test]
fn top_queue_keeps_the_smallest_in_order() {
    let mut top = TopQueue::with_capacity(3);
    assert_eq!(top.len(), 0);
    assert_eq!(top.capacity(), 3);
    assert_eq!(top.first(), None);
    for x in [5, 1, 4, 1, 3] {
        top.insert(x);
    }
    assert_eq!(top.len(), 3);
    assert_eq!(top.iter().copied().collect::<Vec<_>>(), vec![1, 1, 3]);
    assert_eq!(top.get(3), None);
    assert_eq!(top.into_vec(), vec![1, 1, 3]);
}

#[test]
fn top_queue_merge_keeps_the_first_of_both() {
    let mut a = TopQueue::with_capacity(4);
    for x in [10, 2, 7] {
        a.insert(x);
    }
    let mut b = TopQueue::with_capacity(4);
    for x in [3, 8, 1] {
        b.insert(x);
    }
    a.merge(&b);
    assert_eq!(a.iter().copied().collect::<Vec<_>>(), vec![1, 2, 3, 7]);
}

#[test]
fn top_queue_zero_capacity_holds_nothing() {
    let mut top: TopQueue<i32> = TopQueue::default();
    assert_eq!(top.capacity(), 0);
    top.insert(1);
    assert_eq!(top.len(), 0);
    assert_eq!(top.last(), None);
}

#[test]
fn vec_map_read_after_write_and_order() {
    let mut map = VecMap::default();
    map.insert("b", "1");
    map.insert("a", "2");
    map.insert("b", "3");
    assert_eq!(map.len(), 2);
    assert_eq!(map.get("b"), Some(&"3".to_string()));
    assert_eq!(map.get("a"), Some(&"2".to_string()));
    let mut it = map.iter();
    assert_eq!(it.next(), Some((&"b".to_string(), &"3".to_string())));
    assert_eq!(it.next(), Some((&"a".to_string(), &"2".to_string())));
    assert_eq!(it.next(), None);
    let copy = map.clone();
    assert_eq!(copy.get("a"), Some(&"2".to_string()));
    assert_eq!(copy.len(), 2);
}

#[test]
fn text_map_lines_round_trip() {
    let lines = vec![
        "KEY1=VALUE1".to_string(),
        "no separator".to_string(),
        "KEY2=VALUE2=more".to_string(),
        "KEY1=AGAIN".to_string(),
    ];
    let mut envs = TextMap::parse(&lines, '=');
    assert_eq!(envs.get("KEY1"), Some(&"AGAIN".to_string()));
    assert_eq!(envs.get("KEY2"), Some(&"VALUE2=more".to_string()));
    assert_eq!(envs.get("no separator"), None);

    envs.set("KEY1", "NEW_VALUE1");
    envs.set("KEY3", "VALUE3");
    let saved = envs.to_lines();
    assert_eq!(
        saved,
        vec![
            "KEY1=NEW_VALUE1".to_string(),
            "KEY2=VALUE2=more".to_string(),
            "KEY3=VALUE3".to_string(),
        ]
    );
    let envs = TextMap::parse(&saved, '=');
    assert_eq!(envs.get("KEY1"), Some(&"NEW_VALUE1".to_string()));
    assert_eq!(envs.get("KEY2"), Some(&"VALUE2=more".to_string()));
    assert_eq!(envs.get("KEY3"), Some(&"VALUE3".to_string()));
}

#[test]
fn hist_top_n_orders_by_count_then_first_value() {
    let values = vec![4, 2, 2, 4, 9, 1];
    assert_eq!(hist_top_n(&values, 2), vec![(2, 2), (4, 2)]);
    assert_eq!(hist_top_n(&values, 10), vec![(2, 2), (4, 2), (1, 1), (9, 1)]);
    let none: Vec<i32> = Vec::new();
    assert_eq!(hist_top_n(&none, 3), Vec::<(i32, usize)>::new());
}

#[test]
fn top_queue_holds_strings_and_merges_clones() {
    let mut a: TopQueue<String> = TopQueue::with_capacity(3);
    for w in ["pear", "apple", "fig"] {
        a.insert(w.to_string());
    }
    let mut b: TopQueue<String> = TopQueue::with_capacity(2);
    for w in ["banana", "cherry", "date"] {
        b.insert(w.to_string());
    }
    assert_eq!(b.iter().cloned().collect::<Vec<_>>(), vec!["banana".to_string(), "cherry".to_string()]);
    a.merge(&b);
    assert_eq!(
        a.into_vec(),
        vec!["apple".to_string(), "banana".to_string(), "cherry".to_string()]
    );
    assert_eq!(b.len(), 2);
}

#[test]
fn top_queue_merge_keeps_the_largest_with_reverse() {
    let mut a = TopQueue::with_capacity(3);
    for x in [4, 9, 1] {
        a.insert(Reverse(x));
    }
    let mut b = TopQueue::with_capacity(3);
    for x in [7, 12, 3] {
        b.insert(Reverse(x));
    }
    a.merge(&b);
    assert_eq!(a.into_vec(), vec![Reverse(12), Reverse(9), Reverse(7)]);
}

#[test]
fn top_queue_from_elems_inserts_them_in_order() {
    let q = TopQueue::from_elems(3, vec![5, 1, 4, 1, 3]);
    assert_eq!(q.capacity(), 3);
    assert_eq!(q.into_vec(), vec![1, 1, 3]);
    let q = TopQueue::from_elems(10, vec![2, 1]);
    assert_eq!(q.into_vec(), vec![1, 2]);
}
