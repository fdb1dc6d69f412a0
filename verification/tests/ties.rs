use skew_heap::SkewHeap;
use std::cmp::Ordering;

/// An item that is ordered by its key alone: two items with one key are tied
/// without being equal.
#[derive(Clone, Debug)]
struct Keyed {
    key: u32,
    tag: &'static str,
}

impl PartialEq for Keyed {
    fn eq(&self, other: &Self) -> bool {
        self.key == other.key
    }
}

impl Eq for Keyed {}

impl PartialOrd for Keyed {
    fn partial_cmp(&self, other: &Self) -> Option<Ordering> {
        Some(self.cmp(other))
    }
}

impl Ord for Keyed {
    fn cmp(&self, other: &Self) -> Ordering {
        self.key.cmp(&other.key)
    }
}

fn keyed(key: u32, tag: &'static str) -> Keyed {
    Keyed { key, tag }
}

#[test]
fn push_pop_of_a_tied_item_gives_that_item_back() {
    let mut h = SkewHeap::new();
    h.push(keyed(5, "old"));
    h.push(keyed(3, "low"));
    let out = h.push_pop(keyed(5, "new"));
    assert_eq!(out.tag, "new");
    assert_eq!(h.len(), 2);
    assert_eq!(h.peek().map(|x| x.tag), Some("old"));
}

#[test]
fn replace_by_a_tied_item_swaps_at_the_top() {
    let mut h = SkewHeap::new();
    h.push(keyed(5, "old"));
    h.push(keyed(3, "low"));
    let out = h.replace(keyed(5, "new"));
    assert_eq!(out.map(|x| x.tag), Some("old"));
    assert_eq!(h.len(), 2);
    assert_eq!(h.peek().map(|x| x.tag), Some("new"));
    assert_eq!(h.pop().map(|x| x.tag), Some("new"));
    assert_eq!(h.pop().map(|x| x.tag), Some("low"));
    assert!(h.pop().is_none());
}

#[test]
fn tied_items_all_come_out() {
    let mut h = SkewHeap::new();
    for tag in ["a", "b", "c", "d"] {
        h.push(keyed(1, tag));
    }
    h.push(keyed(2, "top"));
    assert_eq!(h.pop().map(|x| x.tag), Some("top"));
    let mut tags = Vec::new();
    while let Some(x) = h.pop() {
        assert_eq!(x.key, 1);
        tags.push(x.tag);
    }
    tags.sort();
    assert_eq!(tags, vec!["a", "b", "c", "d"]);
}

#[test]
fn clone_of_tied_items_keeps_them_all() {
    let mut h = SkewHeap::new();
    h.push(keyed(1, "a"));
    h.push(keyed(1, "b"));
    h.push(keyed(0, "c"));
    let c = h.clone();
    let mut tags = Vec::new();
    let mut iter = c.iter();
    while let Some(x) = iter.next() {
        tags.push(x.tag);
    }
    tags.sort();
    assert_eq!(tags, vec!["a", "b", "c"]);
    assert_eq!(h.len(), 3);
}
