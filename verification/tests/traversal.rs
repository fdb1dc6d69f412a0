use skew_heap::{IntoIter, Iter, SkewHeap};

#[test]
fn iter_yields_every_item_once() {
    let h = SkewHeap::from_iter(vec![3, 1, 4, 1, 5, 9, 2, 6]);
    let mut iter = h.iter();
    assert_eq!(iter.len(), 8);
    assert_eq!(iter.size_hint(), (8, Some(8)));
    let mut seen = Vec::new();
    while let Some(x) = iter.next() {
        seen.push(*x);
        assert_eq!(iter.len(), 8 - seen.len());
    }
    assert_eq!(iter.next(), None);
    assert_eq!(iter.len(), 0);
    seen.sort();
    assert_eq!(seen, vec![1, 1, 2, 3, 4, 5, 6, 9]);
    assert_eq!(h.len(), 8);
    assert_eq!(h.peek(), Some(&9));
}

#[test]
fn iter_starts_over_each_time() {
    let h = SkewHeap::from_iter(vec![2, 7, 1]);
    let mut first = Vec::new();
    let mut iter = h.iter();
    while let Some(x) = iter.next() {
        first.push(*x);
    }
    let mut second = Vec::new();
    let mut iter = h.iter();
    while let Some(x) = iter.next() {
        second.push(*x);
    }
    assert_eq!(first, second);
    assert_eq!(first.len(), 3);
}

#[test]
fn iter_clone_goes_on_from_the_same_place() {
    let h = SkewHeap::from_iter(vec![2, 7, 1, 8]);
    let mut iter = h.iter();
    iter.next();
    let mut copy = iter.clone();
    assert_eq!(copy.len(), 3);
    let mut a = Vec::new();
    while let Some(x) = iter.next() {
        a.push(*x);
    }
    let mut b = Vec::new();
    while let Some(x) = copy.next_back() {
        b.push(*x);
    }
    assert_eq!(a, b);
    assert_eq!(a.len(), 3);
}

#[test]
fn into_iter_yields_every_item_once() {
    let h = SkewHeap::from_iter(vec![3, 1, 4, 1, 5, 9, 2, 6]);
    let mut iter = h.into_iter();
    assert_eq!(iter.len(), 8);
    assert_eq!(iter.size_hint(), (8, Some(8)));
    let mut seen = Vec::new();
    while let Some(x) = iter.next() {
        seen.push(x);
        assert_eq!(iter.len(), 8 - seen.len());
        assert_eq!(iter.size_hint(), (8 - seen.len(), Some(8 - seen.len())));
    }
    assert_eq!(iter.next(), None);
    assert_eq!(iter.next_back(), None);
    seen.sort();
    assert_eq!(seen, vec![1, 1, 2, 3, 4, 5, 6, 9]);
}

#[test]
fn into_iter_from_the_back() {
    let h = SkewHeap::from_iter(vec![10, 30, 20]);
    let mut iter = h.into_iter();
    let mut seen = Vec::new();
    while let Some(x) = iter.next_back() {
        seen.push(x);
    }
    seen.sort();
    assert_eq!(seen, vec![10, 20, 30]);
}

#[test]
fn empty_traversals() {
    let h: SkewHeap<i32> = SkewHeap::new();
    let mut iter = h.iter();
    assert_eq!(iter.len(), 0);
    assert_eq!(iter.size_hint(), (0, Some(0)));
    assert_eq!(iter.next(), None);
    assert_eq!(iter.next_back(), None);
    let mut iter = h.into_iter();
    assert_eq!(iter.len(), 0);
    assert_eq!(iter.next(), None);
}

#[test]
fn default_iterators_are_done() {
    let mut iter: Iter<i32> = Iter::default();
    assert_eq!(iter.len(), 0);
    assert_eq!(iter.next(), None);
    let mut iter: IntoIter<i32> = IntoIter::default();
    assert_eq!(iter.len(), 0);
    assert_eq!(iter.size_hint(), (0, Some(0)));
    assert_eq!(iter.next(), None);
}

#[test]
fn into_iter_may_be_dropped_half_way() {
    let h = SkewHeap::from_iter((0..1000).collect());
    let mut iter = h.into_iter();
    for _ in 0..500 {
        assert!(iter.next().is_some());
    }
    assert_eq!(iter.len(), 500);
}
