use rx_core::algo::{
    deque_pop_front_n, deque_remove_first, diff, locate_range, low_bound, max_index,
    search_first, search_last, search_slice, slice_by_radius, unwrap, update_range, upper_bound,
    vec_into,
};
use rx_core::m::basic::{partial_max, partial_min};
use std::collections::{HashMap, VecDeque};

#[test]
fn search_test() {
    let v = vec![0, 1, 2, 3, 4, 5, 5, 5, 5, 5, 5, 6, 6, 6, 6, 6, 6, 6, 7, 7];
    assert_eq!(search_first(&v[..], &-1), Err(0));
    assert_eq!(search_first(&v[..], &100), Err(v.len()));
    assert_eq!(search_first(&v[..], &0), Ok(0));
    assert_eq!(search_first(&v[..], &5), Ok(5));
    assert_eq!(search_first(&v[..], &6), Ok(11));

    assert_eq!(search_last(&v[..], &-1), Err(0));
    assert_eq!(search_last(&v[..], &100), Err(v.len()));
    assert_eq!(search_last(&v[..], &0), Ok(0));
    assert_eq!(search_last(&v[..], &5), Ok(10));
    assert_eq!(search_last(&v[..], &6), Ok(17));
}

#[test]
fn bound_test() {
    let v = vec![0, 1, 2, 3, 4, 5, 5, 5, 5, 5, 5, 6, 6, 6, 6, 6, 6, 6, 7, 7];
    assert_eq!(low_bound(&v[..], &-1), 0);
    assert_eq!(low_bound(&v[..], &100), v.len());
    assert_eq!(low_bound(&v[..], &0), 0);
    assert_eq!(low_bound(&v[..], &5), 5);
    assert_eq!(low_bound(&v[..], &6), 11);

    assert_eq!(upper_bound(&v[..], &-1), 0);
    assert_eq!(upper_bound(&v[..], &100), v.len());
    assert_eq!(upper_bound(&v[..], &0), 1);
    assert_eq!(upper_bound(&v[..], &5), 11);
    assert_eq!(upper_bound(&v[..], &6), 18);
}

#[test]
fn locate_range_test() {
    let v = vec![0, 1, 2, 3, 4, 5, 5, 5, 5, 5, 5, 6, 6, 6, 6, 6, 6, 6, 7, 7];
    assert_eq!(locate_range(&v[..], &(-1..9)), 0..20);
    assert_eq!(locate_range(&v[..], &(5..5)), 5..5);
    assert_eq!(locate_range(&v[..], &(5..6)), 5..11);
    assert_eq!(locate_range(&v[..], &(6..9)), 11..20);
}

#[test]
fn deque_test() {
    let mut q = VecDeque::new();

    for i in 0..10 {
        q.push_back(i);
    }
    assert_eq!(q.len(), 10);
    assert_eq!(q.back(), Some(&9));

    if let Some(i) = q.iter().position(|x| x == &5) {
        assert_eq!(i, 5);

        deque_pop_front_n(&mut q, i + 1);
        assert_eq!(q.len(), 4);
    }
}

#[test]
fn it_it_works() {
    let arr = [1, 2, 3, 4, 5];
    let max = max_index(&arr);
    assert_eq!(max, Some((4usize, &5)));

    let arr = [1.1, 2.0, 1.3];
    let max = max_index(&arr);
    assert_eq!(max, Some((1usize, &2.0)));
}

#[test]
fn slice_by_radius_test() {
    let v = vec![0, 1, 2, 3, 4];

    let (_start, s1) = slice_by_radius(&v[..], 1, 2);
    assert_eq!(s1.len(), 4);
    assert_eq!(s1[0], 0);
    assert_eq!(s1[3], 3);

    let (_start, s1) = slice_by_radius(&v[..], 3, 2);
    assert_eq!(s1.len(), 4);
    assert_eq!(s1[0], 1);
    assert_eq!(s1[3], 4);
}

#[test]
fn vec_it_works() {
    let v1: Vec<i32> = vec![1, 2, 3, 4, 5];
    let v2: Vec<i64> = vec![1, 2, 3, 4, 5];
    let v3: Vec<i64> = vec_into(v1);
    assert_eq!(v2, v3);
}

#[test]
fn search_first_test() {
    let v = vec![(1, 1), (1, 2), (2, 2), (2, 1)];
    let mut map = HashMap::new();
    let _i = v.iter();
    for (k, v) in v.iter() {
        let e = map.entry(*k).or_insert(Vec::new());
        e.push(*v);
    }
}

#[test]
fn search_results_on_empty_and_single() {
    let empty: Vec<i32> = Vec::new();
    assert_eq!(search_first(&empty[..], &3), Err(0));
    assert_eq!(search_last(&empty[..], &3), Err(0));
    assert_eq!(low_bound(&empty[..], &3), 0);
    assert_eq!(upper_bound(&empty[..], &3), 0);
    let one = vec![3];
    assert_eq!(search_first(&one[..], &3), Ok(0));
    assert_eq!(search_last(&one[..], &3), Ok(0));
    assert_eq!(search_first(&one[..], &4), Err(1));
    assert_eq!(low_bound(&one[..], &3), 0);
    assert_eq!(upper_bound(&one[..], &3), 1);
}

#[test]
fn bounds_split_the_slice() {
    // Everything before the lower bound is smaller, from the upper bound on
    // everything is greater, and the equal elements lie in between.
    let v = vec![1, 2, 2, 2, 4, 4, 9];
    for x in 0..11 {
        let lo = low_bound(&v[..], &x);
        let hi = upper_bound(&v[..], &x);
        assert!(lo <= hi);
        assert!(v[..lo].iter().all(|y| *y < x));
        assert!(v[lo..hi].iter().all(|y| *y == x));
        assert!(v[hi..].iter().all(|y| *y > x));
    }
}

#[test]
fn unwrap_takes_either_side() {
    assert_eq!(*unwrap(&Ok(3)), 3);
    assert_eq!(*unwrap(&Err(7)), 7);
}

#[test]
fn deque_remove_first_removes_only_the_first() {
    let mut q: VecDeque<i32> = VecDeque::from(vec![1, 4, 6, 4, 8]);
    assert!(deque_remove_first(&mut q, |x: &i32| *x == 4));
    assert_eq!(q, VecDeque::from(vec![1, 6, 4, 8]));
    assert!(!deque_remove_first(&mut q, |x: &i32| *x > 100));
    assert_eq!(q, VecDeque::from(vec![1, 6, 4, 8]));
}

#[test]
fn deque_pop_front_n_past_the_end_empties() {
    let mut q: VecDeque<i32> = VecDeque::from(vec![1, 2, 3]);
    deque_pop_front_n(&mut q, 10);
    assert!(q.is_empty());
}

#[test]
fn update_range_widens() {
    let mut r = 5..6;
    update_range(&mut r, 3);
    assert_eq!(r, 3..6);
    update_range(&mut r, 9);
    assert_eq!(r, 3..10);
    update_range(&mut r, 4);
    assert_eq!(r, 3..10);
}

#[test]
fn diff_lists_changed_and_extra_indices() {
    let new = vec![1, 2, 3, 4, 5];
    let old = vec![1, 0, 3];
    assert_eq!(diff(&new, &old), vec![1, 3, 4]);
    assert_eq!(diff(&old, &new), vec![1]);
    let none: Vec<i32> = Vec::new();
    assert_eq!(diff(&none, &new), Vec::<usize>::new());
}

#[test]
fn search_slice_finds_every_position() {
    let bytes = [7u8, 1, 7, 7, 2];
    assert_eq!(search_slice(&bytes, 7), vec![0, 2, 3]);
    assert_eq!(search_slice(&bytes, 9), Vec::<usize>::new());
}

#[test]
fn max_index_prefers_the_first_of_equals() {
    let arr = [3, 9, 2, 9];
    assert_eq!(max_index(&arr), Some((1usize, &9)));
    let empty: [i32; 0] = [];
    assert_eq!(max_index(&empty), None);
}

#[test]
fn partial_min_max() {
    assert_eq!(partial_min(3, 5), 3);
    assert_eq!(partial_max(3, 5), 5);
    assert_eq!(partial_min(2.5, 1.5), 1.5);
    assert_eq!(partial_max(2.5, 1.5), 2.5);
    assert_eq!(partial_min(4, 4), 4);
}

#[test]
fn slice_by_radius_never_goes_out_of_bounds() {
    let v = vec![0, 1, 2, 3, 4];
    let (start, s) = slice_by_radius(&v[..], 9, 2);
    assert_eq!(start, 7);
    assert!(s.is_empty());
    let (start, s) = slice_by_radius(&v[..], 6, 2);
    assert_eq!(start, 4);
    assert_eq!(s, &[4]);
    let (start, s) = slice_by_radius(&v[..], 2, usize::MAX);
    assert_eq!(start, 0);
    assert_eq!(s, &[0, 1, 2, 3, 4]);
    let (start, s) = slice_by_radius(&v[..], usize::MAX, 1);
    assert_eq!(start, usize::MAX - 1);
    assert!(s.is_empty());
    let (start, s) = slice_by_radius(&v[..], 0, 0);
    assert_eq!(start, 0);
    assert_eq!(s, &[0]);
}
