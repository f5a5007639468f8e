use btree_intersection::{
    collect_ascending, difference_future, intersection_future, intersection_search,
    intersection_stitch, intersection_switch, intersection_swivel, is_subset_future,
    symmdiff_future, union_future, AscendingCursor,
};
use std::collections::BTreeSet;

/// A small deterministic generator, so that every run sees the same sets.
struct Lcg(u64);

impl Lcg {
    fn next(&mut self) -> u64 {
        self.0 = self.0.wrapping_mul(6364136223846793005).wrapping_add(1442695040888963407);
        self.0 >> 33
    }

    fn set(&mut self) -> BTreeSet<u8> {
        let n = (self.next() % 80) as usize;
        let dense = self.next() % 3 == 0;
        (0..n)
            .map(|_| {
                let v = self.next();
                if dense {
                    (v % 40) as u8 + 100
                } else {
                    v as u8
                }
            })
            .collect()
    }
}

fn drain<'a, C: AscendingCursor<'a, u8>>(cursor: C) -> Vec<u8> {
    collect_ascending(cursor).into_iter().copied().collect()
}

fn fused<'a>(mut next: impl FnMut() -> Option<&'a u8>) -> bool {
    while next().is_some() {}
    (0..42).all(|_| next().is_none())
}

fn check_pair(s1: &BTreeSet<u8>, s2: &BTreeSet<u8>) {
    let inter: Vec<u8> = s1.intersection(s2).copied().collect();
    let diff: Vec<u8> = s1.difference(s2).copied().collect();
    let sym: Vec<u8> = s1.symmetric_difference(s2).copied().collect();
    let uni: Vec<u8> = s1.union(s2).copied().collect();
    assert_eq!(drain(intersection_future(s1, s2)), inter);
    assert_eq!(drain(intersection_stitch(s1, s2)), inter);
    assert_eq!(drain(intersection_switch(s1, s2)), inter);
    assert_eq!(drain(intersection_swivel(s1, s2)), inter);
    if s1.len() <= s2.len() {
        assert_eq!(drain(intersection_search(s1, s2)), inter);
    } else {
        assert_eq!(drain(intersection_search(s2, s1)), inter);
    }
    assert_eq!(drain(difference_future(s1, s2)), diff);
    assert_eq!(drain(symmdiff_future(s1, s2)), sym);
    assert_eq!(drain(union_future(s1, s2)), uni);
    assert_eq!(is_subset_future(s1, s2), s1.is_subset(s2));
    assert_eq!(is_subset_future(s1, s2), diff.is_empty());

    let mut i = intersection_future(s1, s2);
    assert!(fused(|| i.next()));
    let mut i = intersection_switch(s1, s2);
    assert!(fused(|| i.next()));
    let mut i = intersection_swivel(s1, s2);
    assert!(fused(|| i.next()));
    let mut d = difference_future(s1, s2);
    assert!(fused(|| d.next()));
    let mut s = symmdiff_future(s1, s2);
    assert!(fused(|| s.next()));
    let mut u = union_future(s1, s2);
    assert!(fused(|| u.next()));
}

fn run(shape: impl Fn(BTreeSet<u8>, BTreeSet<u8>, bool) -> (BTreeSet<u8>, BTreeSet<u8>), seed: u64) {
    let mut g = Lcg(seed);
    for _ in 0..300 {
        let (a, b) = (g.set(), g.set());
        let flip = g.next() % 2 == 0;
        let (s1, s2) = shape(a, b, flip);
        check_pair(&s1, &s2);
    }
}

#[test]
fn arbitrary_pairs() {
    run(|a, b, _| (a, b), 1);
}

#[test]
fn pairs_aligned_at_both_ends() {
    run(
        |mut a, mut b, _| {
            for v in [u8::MIN, u8::MAX] {
                a.insert(v);
                b.insert(v);
            }
            (a, b)
        },
        2,
    );
}

#[test]
fn pairs_aligned_at_the_low_end() {
    run(
        |mut a, mut b, _| {
            a.insert(u8::MIN);
            b.insert(u8::MIN);
            (a, b)
        },
        3,
    );
}

#[test]
fn pairs_aligned_at_the_high_end() {
    run(
        |mut a, mut b, _| {
            a.insert(u8::MAX);
            b.insert(u8::MAX);
            (a, b)
        },
        4,
    );
}

#[test]
fn pairs_with_disjoint_ranges() {
    run(
        |mut a, _, flip| {
            let split = (u8::MAX - u8::MIN) / 2;
            let mut b = a.split_off(&split);
            a.insert(u8::MIN);
            b.insert(u8::MAX);
            let pair = if flip { (b, a) } else { (a, b) };
            let it = intersection_future(&pair.0, &pair.1);
            assert_eq!(it.size_hint(), (0, Some(0)));
            pair
        },
        5,
    );
}

#[test]
fn pairs_with_touching_ranges() {
    run(
        |mut a, _, flip| {
            let split = (u8::MAX - u8::MIN) / 2;
            let mut b = a.split_off(&split);
            a.insert(split);
            b.insert(split);
            let pair = if flip { (b, a) } else { (a, b) };
            let it = intersection_future(&pair.0, &pair.1);
            assert_eq!(it.size_hint(), (1, Some(1)));
            assert_eq!(drain(it), vec![split]);
            pair
        },
        6,
    );
}
