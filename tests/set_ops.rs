use btree_intersection::{
    collect_ascending, difference_future, intersection_future, intersection_search,
    intersection_stitch, intersection_switch, intersection_swivel, is_subset_future,
    symmdiff_future, union_future, AscendingCursor, ITER_PERFORMANCE_TIPPING_SIZE_DIFF,
};
use std::collections::BTreeSet;

fn set<T: Ord + Copy>(items: &[T]) -> BTreeSet<T> {
    items.iter().copied().collect()
}

fn drain<'a, T: Ord + Copy + 'a, C: AscendingCursor<'a, T>>(cursor: C) -> Vec<T> {
    collect_ascending(cursor).into_iter().copied().collect()
}

fn expected_intersection<T: Ord + Copy>(a: &BTreeSet<T>, b: &BTreeSet<T>) -> Vec<T> {
    a.iter().filter(|x| b.contains(x)).copied().collect()
}

fn expected_difference<T: Ord + Copy>(a: &BTreeSet<T>, b: &BTreeSet<T>) -> Vec<T> {
    a.iter().filter(|x| !b.contains(x)).copied().collect()
}

/// Every strategy on the same pair, drained.
fn all_intersections(a: &BTreeSet<u32>, b: &BTreeSet<u32>) -> Vec<Vec<u32>> {
    let mut out = vec![
        drain(intersection_future(a, b)),
        drain(intersection_stitch(a, b)),
        drain(intersection_switch(a, b)),
        drain(intersection_swivel(a, b)),
    ];
    if a.len() <= b.len() {
        out.push(drain(intersection_search(a, b)));
    } else {
        out.push(drain(intersection_search(b, a)));
    }
    out
}

fn sample_pairs() -> Vec<(BTreeSet<u32>, BTreeSet<u32>)> {
    let evens: BTreeSet<u32> = (0..400).map(|i| i * 2).collect();
    let threes: BTreeSet<u32> = (0..300).map(|i| i * 3).collect();
    let sparse: BTreeSet<u32> = [5, 6, 300, 601, 798].iter().copied().collect();
    let block: BTreeSet<u32> = (100..200).collect();
    let far: BTreeSet<u32> = (1000..1100).collect();
    let touching: BTreeSet<u32> = (199..260).collect();
    vec![
        (evens.clone(), threes.clone()),
        (threes.clone(), evens.clone()),
        (sparse.clone(), evens.clone()),
        (evens.clone(), sparse.clone()),
        (block.clone(), far.clone()),
        (block.clone(), touching.clone()),
        (touching.clone(), block.clone()),
        (BTreeSet::new(), evens.clone()),
        (evens.clone(), BTreeSet::new()),
        (block.clone(), block.clone()),
        (sparse.clone(), sparse.clone()),
    ]
}

#[test]
fn small_example_all_operations() {
    let a = set(&[1, 2, 3]);
    let b = set(&[2, 3, 4]);
    assert_eq!(drain(intersection_future(&a, &b)), vec![2, 3]);
    assert_eq!(drain(difference_future(&a, &b)), vec![1]);
    assert_eq!(drain(symmdiff_future(&a, &b)), vec![1, 4]);
    assert_eq!(drain(union_future(&a, &b)), vec![1, 2, 3, 4]);
    assert!(!is_subset_future(&a, &b));
}

#[test]
fn small_example_next_by_next() {
    let a = set(&[1, 2, 3]);
    let b = set(&[2, 3, 4]);
    let mut it = intersection_future(&a, &b);
    assert_eq!(it.next(), Some(&2));
    assert_eq!(it.next(), Some(&3));
    assert_eq!(it.next(), None);
    let mut it = union_future(&a, &b);
    assert_eq!(it.next(), Some(&1));
    assert_eq!(it.next(), Some(&2));
    assert_eq!(it.next(), Some(&3));
    assert_eq!(it.next(), Some(&4));
    assert_eq!(it.next(), None);
}

#[test]
fn disjoint_negative_and_positive_ranges() {
    let a: BTreeSet<i32> = (-100..=-1).collect();
    let b: BTreeSet<i32> = (1..=10000).collect();
    let it = intersection_future(&a, &b);
    assert_eq!(it.size_hint(), (0, Some(0)));
    assert_eq!(drain(it), Vec::<i32>::new());
    let it = intersection_switch(&a, &b);
    assert_eq!(it.size_hint(), (0, Some(0)));
    assert_eq!(drain(it), Vec::<i32>::new());
    assert_eq!(drain(intersection_stitch(&a, &b)), Vec::<i32>::new());
    assert_eq!(drain(intersection_swivel(&a, &b)), Vec::<i32>::new());
    assert_eq!(drain(intersection_search(&a, &b)), Vec::<i32>::new());
    assert_eq!(drain(difference_future(&a, &b)), (-100..=-1).collect::<Vec<i32>>());
    assert!(!is_subset_future(&a, &b));
}

#[test]
fn empty_first_set() {
    let a: BTreeSet<u32> = BTreeSet::new();
    let b = set(&[7, 9, 11]);
    assert_eq!(drain(intersection_future(&a, &b)), Vec::<u32>::new());
    assert_eq!(drain(intersection_switch(&a, &b)), Vec::<u32>::new());
    assert_eq!(drain(intersection_swivel(&a, &b)), Vec::<u32>::new());
    assert!(is_subset_future(&a, &b));
    assert!(is_subset_future(&a, &a));
    assert_eq!(drain(difference_future(&a, &b)), Vec::<u32>::new());
    assert_eq!(drain(union_future(&a, &b)), vec![7, 9, 11]);
    assert_eq!(drain(symmdiff_future(&a, &b)), vec![7, 9, 11]);
}

#[test]
fn empty_second_set() {
    let a = set(&[7, 9, 11]);
    let b: BTreeSet<u32> = BTreeSet::new();
    assert_eq!(drain(intersection_future(&a, &b)), Vec::<u32>::new());
    assert!(!is_subset_future(&a, &b));
    assert_eq!(drain(difference_future(&a, &b)), vec![7, 9, 11]);
}

#[test]
fn touching_ranges_give_the_shared_bound() {
    let a = set(&[1u8, 2, 3]);
    let b = set(&[3u8, 4, 5]);
    let it = intersection_future(&a, &b);
    assert_eq!(it.size_hint(), (1, Some(1)));
    assert_eq!(drain(it), vec![3]);
    let it = intersection_future(&b, &a);
    assert_eq!(it.size_hint(), (1, Some(1)));
    assert_eq!(drain(it), vec![3]);
    assert_eq!(drain(intersection_switch(&a, &b)), vec![3]);
    assert_eq!(drain(intersection_switch(&b, &a)), vec![3]);
    assert_eq!(drain(difference_future(&a, &b)), vec![1, 2]);
    assert_eq!(drain(difference_future(&b, &a)), vec![4, 5]);
}

#[test]
fn boundaries_at_the_type_limits() {
    let low = set(&[u8::MIN, 1, 2]);
    let high = set(&[2u8, 200, u8::MAX]);
    assert_eq!(drain(intersection_future(&low, &high)), vec![2]);
    let only_max = set(&[u8::MAX]);
    let up_to_max = set(&[10u8, 100, u8::MAX]);
    assert_eq!(drain(intersection_future(&up_to_max, &only_max)), vec![u8::MAX]);
    assert_eq!(drain(intersection_future(&only_max, &up_to_max)), vec![u8::MAX]);
    let only_min = set(&[u8::MIN]);
    let from_min = set(&[u8::MIN, 5, 6]);
    assert_eq!(drain(intersection_future(&only_min, &from_min)), vec![u8::MIN]);
    assert!(is_subset_future(&only_min, &from_min));
    assert!(is_subset_future(&only_max, &up_to_max));
    assert_eq!(drain(difference_future(&from_min, &only_min)), vec![5, 6]);
    assert_eq!(drain(difference_future(&up_to_max, &only_max)), vec![10, 100]);
    let apart_low = set(&[u8::MIN, 1]);
    let apart_high = set(&[254u8, u8::MAX]);
    assert_eq!(drain(intersection_future(&apart_low, &apart_high)), Vec::<u8>::new());
    assert_eq!(drain(intersection_future(&apart_high, &apart_low)), Vec::<u8>::new());
}

#[test]
fn strategies_agree() {
    for (a, b) in sample_pairs() {
        let expected = expected_intersection(&a, &b);
        for got in all_intersections(&a, &b) {
            assert_eq!(got, expected);
        }
    }
}

#[test]
fn search_is_chosen_for_a_much_smaller_set() {
    let small = set(&[3u32, 50, 777, 2000]);
    let large: BTreeSet<u32> = (0..1000).collect();
    assert!(small.len() <= large.len() / ITER_PERFORMANCE_TIPPING_SIZE_DIFF);
    let it = intersection_future(&small, &large);
    assert_eq!(it.size_hint(), (0, Some(4)));
    assert_eq!(drain(it), vec![3, 50, 777]);
    let it = intersection_future(&large, &small);
    assert_eq!(it.size_hint(), (0, Some(4)));
    assert_eq!(drain(it), vec![3, 50, 777]);
    let it = difference_future(&small, &large);
    assert_eq!(it.size_hint(), (0, Some(4)));
    assert_eq!(drain(it), vec![2000]);
    assert!(!is_subset_future(&small, &large));
    let inside = set(&[3u32, 50, 777]);
    assert!(is_subset_future(&inside, &large));
}

#[test]
fn stitch_size_hint_is_the_shorter_side() {
    let a: BTreeSet<u32> = (0..40).collect();
    let b: BTreeSet<u32> = (20..100).collect();
    assert_eq!(intersection_future(&a, &b).size_hint(), (0, Some(40)));
    assert_eq!(intersection_stitch(&a, &b).size_hint(), (0, Some(40)));
    assert_eq!(intersection_switch(&a, &b).size_hint(), (0, Some(40)));
    assert_eq!(intersection_swivel(&a, &b).size_hint(), (0, Some(40)));
    assert_eq!(difference_future(&b, &a).size_hint(), (40, Some(80)));
    assert_eq!(difference_future(&a, &b).size_hint(), (0, Some(40)));
}

#[test]
fn merge_size_hints() {
    let a: BTreeSet<u32> = (0..40).collect();
    let b: BTreeSet<u32> = (20..100).collect();
    assert_eq!(union_future(&a, &b).size_hint(), (80, Some(120)));
    assert_eq!(symmdiff_future(&a, &b).size_hint(), (0, Some(120)));
    assert_eq!(drain(union_future(&a, &b)), (0..100).collect::<Vec<u32>>());
    let sd: Vec<u32> = (0..20).chain(40..100).collect();
    assert_eq!(drain(symmdiff_future(&a, &b)), sd);
}

#[test]
fn size_hint_bounds_the_output() {
    for (a, b) in sample_pairs() {
        let checks: Vec<((usize, Option<usize>), usize)> = vec![
            (intersection_future(&a, &b).size_hint(), drain(intersection_future(&a, &b)).len()),
            (intersection_stitch(&a, &b).size_hint(), drain(intersection_stitch(&a, &b)).len()),
            (intersection_switch(&a, &b).size_hint(), drain(intersection_switch(&a, &b)).len()),
            (intersection_swivel(&a, &b).size_hint(), drain(intersection_swivel(&a, &b)).len()),
            (difference_future(&a, &b).size_hint(), drain(difference_future(&a, &b)).len()),
            (symmdiff_future(&a, &b).size_hint(), drain(symmdiff_future(&a, &b)).len()),
            (union_future(&a, &b).size_hint(), drain(union_future(&a, &b)).len()),
        ];
        for ((lo, hi), n) in checks {
            assert!(lo <= n);
            if let Some(hi) = hi {
                assert!(n <= hi);
            }
        }
    }
}

#[test]
fn cursors_stay_exhausted() {
    let a: BTreeSet<u32> = (0..50).map(|i| i * 2).collect();
    let b: BTreeSet<u32> = (0..50).map(|i| i * 3).collect();
    let mut i1 = intersection_future(&a, &b);
    while i1.next().is_some() {}
    let mut i2 = intersection_switch(&a, &b);
    while i2.next().is_some() {}
    let mut i3 = intersection_swivel(&a, &b);
    while i3.next().is_some() {}
    let mut d = difference_future(&a, &b);
    while d.next().is_some() {}
    let mut s = symmdiff_future(&a, &b);
    while s.next().is_some() {}
    let mut u = union_future(&a, &b);
    while u.next().is_some() {}
    for _ in 0..42 {
        assert!(i1.next().is_none());
        assert!(i2.next().is_none());
        assert!(i3.next().is_none());
        assert!(d.next().is_none());
        assert!(s.next().is_none());
        assert!(u.next().is_none());
    }
}

#[test]
fn subset_matches_empty_difference() {
    let mut pairs = sample_pairs();
    let big: BTreeSet<u32> = (0..1000).collect();
    pairs.push((set(&[1, 500, 999]), big.clone()));
    pairs.push(((2..998).collect(), big.clone()));
    pairs.push(((0..1000).collect(), big.clone()));
    pairs.push(((1..999).collect(), big.clone()));
    pairs.push(((0..999).collect(), big.clone()));
    pairs.push(((1..1000).collect(), big.clone()));
    pairs.push((set(&[0, 999]), big.clone()));
    for (a, b) in pairs {
        let empty_difference = difference_future(&a, &b).next().is_none();
        assert_eq!(is_subset_future(&a, &b), empty_difference);
        assert_eq!(is_subset_future(&a, &b), a.is_subset(&b));
    }
}

#[test]
fn subset_early_answers() {
    let b = set(&[10u32, 20, 30]);
    assert!(!is_subset_future(&set(&[10u32, 20, 30, 40]), &b));
    assert!(!is_subset_future(&set(&[5u32, 20]), &b));
    assert!(!is_subset_future(&set(&[20u32, 35]), &b));
    assert!(is_subset_future(&set(&[10u32, 30]), &b));
    assert!(is_subset_future(&set(&[20u32]), &b));
    assert!(!is_subset_future(&set(&[15u32]), &b));
    assert!(is_subset_future(&b, &b));
}

#[test]
fn difference_trims_a_shared_bound() {
    let a = set(&[5u32, 6, 7]);
    let b = set(&[1u32, 3, 5]);
    let it = difference_future(&a, &b);
    assert_eq!(it.size_hint(), (2, Some(2)));
    assert_eq!(drain(it), vec![6, 7]);
    let a = set(&[1u32, 2, 5]);
    let b = set(&[5u32, 8, 9]);
    let it = difference_future(&a, &b);
    assert_eq!(it.size_hint(), (2, Some(2)));
    assert_eq!(drain(it), vec![1, 2]);
    let single = set(&[5u32]);
    assert_eq!(drain(difference_future(&single, &b)), Vec::<u32>::new());
}

#[test]
fn difference_matches_filter() {
    for (a, b) in sample_pairs() {
        assert_eq!(drain(difference_future(&a, &b)), expected_difference(&a, &b));
    }
}

#[test]
fn switch_falls_back_to_search_mid_way() {
    // The first set ends early, so after a few steps its remainder is tiny
    // next to what the second set has left.
    let a: BTreeSet<u32> = (0..100).map(|i| i * 10).collect();
    let b: BTreeSet<u32> = (0..5000).collect();
    let expected = expected_intersection(&a, &b);
    assert_eq!(drain(intersection_switch(&a, &b)), expected);
    assert_eq!(drain(intersection_switch(&b, &a)), expected);
    let c: BTreeSet<u32> = (0..40).chain(4000..4004).collect();
    let d: BTreeSet<u32> = (0..4100).collect();
    assert_eq!(drain(intersection_switch(&c, &d)), expected_intersection(&c, &d));
}

#[test]
fn swivel_seeks_past_long_misses() {
    let a: BTreeSet<u32> = (0..50).chain(10_000..10_010).collect();
    let b: BTreeSet<u32> = (5000..10_005).collect();
    let expected: Vec<u32> = (10_000..10_005).collect();
    assert_eq!(drain(intersection_swivel(&a, &b)), expected);
    assert_eq!(drain(intersection_swivel(&b, &a)), expected);
    let mut it = intersection_swivel(&a, &b);
    assert_eq!(it.next(), Some(&10_000));
    assert_eq!(it.next(), Some(&10_001));
}

#[test]
fn union_and_symmetric_difference_match_std() {
    for (a, b) in sample_pairs() {
        let u: Vec<u32> = a.union(&b).copied().collect();
        let s: Vec<u32> = a.symmetric_difference(&b).copied().collect();
        assert_eq!(drain(union_future(&a, &b)), u);
        assert_eq!(drain(symmdiff_future(&a, &b)), s);
    }
}

#[test]
fn equal_sets() {
    let a: BTreeSet<u32> = (0..30).collect();
    assert_eq!(drain(intersection_future(&a, &a)), (0..30).collect::<Vec<u32>>());
    assert_eq!(drain(difference_future(&a, &a)), Vec::<u32>::new());
    assert_eq!(drain(symmdiff_future(&a, &a)), Vec::<u32>::new());
    assert_eq!(drain(union_future(&a, &a)), (0..30).collect::<Vec<u32>>());
    assert!(is_subset_future(&a, &a));
}

#[test]
fn single_element_sets() {
    let a = set(&[4u32]);
    let b = set(&[4u32]);
    let it = intersection_future(&a, &b);
    assert_eq!(it.size_hint(), (1, Some(1)));
    assert_eq!(drain(it), vec![4]);
    assert!(is_subset_future(&a, &b));
    let c = set(&[5u32]);
    assert_eq!(drain(intersection_future(&a, &c)), Vec::<u32>::new());
    assert!(!is_subset_future(&a, &c));
}

#[test]
fn clones_resume_where_the_cloned_cursor_stands() {
    let a: BTreeSet<u32> = (0..60).map(|i| i * 2).collect();
    let b: BTreeSet<u32> = (0..60).map(|i| i * 3).collect();
    let mut i1 = intersection_future(&a, &b);
    assert_eq!(i1.next(), Some(&0));
    assert_eq!(drain(i1.clone()), drain(i1));
    let mut i2 = intersection_switch(&a, &b);
    assert_eq!(i2.next(), Some(&0));
    assert_eq!(drain(i2.clone()), drain(i2));
    let mut d = difference_future(&a, &b);
    assert_eq!(d.next(), Some(&2));
    assert_eq!(drain(d.clone()), drain(d));
    let mut s = symmdiff_future(&a, &b);
    assert_eq!(s.next(), Some(&2));
    assert_eq!(drain(s.clone()), drain(s));
    let mut u = union_future(&a, &b);
    assert_eq!(u.next(), Some(&0));
    assert_eq!(drain(u.clone()), drain(u));
}

#[test]
fn advance_through_the_common_trait() {
    let a = set(&[1u32, 2, 3]);
    let b = set(&[2u32, 3, 4]);
    let mut it = difference_future(&a, &b);
    assert_eq!(it.advance(), Some(&1));
    assert_eq!(it.advance(), None);
    let mut it = intersection_swivel(&a, &b);
    assert_eq!(it.advance(), Some(&2));
    assert_eq!(it.advance(), Some(&3));
    assert_eq!(it.advance(), None);
}

#[test]
fn size_hints_follow_the_remaining_sides() {
    let a: BTreeSet<u32> = (0..10).collect();
    let b: BTreeSet<u32> = (5..25).collect();
    let mut u = union_future(&a, &b);
    assert_eq!(u.size_hint(), (20, Some(30)));
    assert_eq!(u.next(), Some(&0));
    assert_eq!(u.size_hint(), (20, Some(29)));
    for _ in 0..5 {
        u.next();
    }
    // 5 was on both sides, so both shrank by one.
    assert_eq!(u.size_hint(), (19, Some(23)));
    let mut s = symmdiff_future(&a, &b);
    assert_eq!(s.size_hint(), (0, Some(30)));
    assert_eq!(s.next(), Some(&0));
    assert_eq!(s.size_hint(), (0, Some(29)));
    let mut w = intersection_swivel(&a, &b);
    assert_eq!(w.size_hint(), (0, Some(10)));
    assert_eq!(w.next(), Some(&5));
    assert_eq!(w.size_hint(), (0, Some(10)));
    let small = set(&[1u32, 7]);
    let large: BTreeSet<u32> = (0..100).collect();
    assert_eq!(intersection_future(&small, &large).size_hint(), (0, Some(2)));
    assert_eq!(intersection_switch(&small, &large).size_hint(), (0, Some(2)));
    assert_eq!(intersection_search(&small, &large).size_hint(), (0, Some(2)));
    let mut i = intersection_stitch(&a, &b);
    assert_eq!(i.size_hint(), (0, Some(10)));
    assert_eq!(i.next(), Some(&5));
    assert_eq!(i.size_hint(), (0, Some(4)));
}
