use skew_heap::{IntoIter, Iter, SkewHeap};

fn heap_shortens<'a, T: Ord>(heap: SkewHeap<&'static T>) -> SkewHeap<&'a T> {
    heap
}

fn into_iter_shortens<'a, T: Ord>(iter: IntoIter<&'static T>) -> IntoIter<&'a T> {
    iter
}

fn iter_shortens<'a, 'i, T: Ord>(iter: Iter<'i, &'static T>) -> Iter<'i, &'a T> {
    iter
}

fn is_send<T: Send>() {}

fn is_sync<T: Sync>() {}

fn all_send_and_sync<A: Ord + Send, B: Ord + Sync>() {
    is_send::<IntoIter<A>>();
    is_sync::<IntoIter<B>>();

    is_send::<Iter<B>>();
    is_sync::<Iter<B>>();

    is_send::<SkewHeap<A>>();
    is_sync::<SkewHeap<B>>();
}

static SEVEN: i32 = 7;

#[test]
fn heap_and_iterators_are_covariant() {
    let mut heap: SkewHeap<&'static i32> = SkewHeap::new();
    heap.push(&SEVEN);
    let local = 3;
    let mut shorter = heap_shortens(heap);
    shorter.push(&local);
    assert_eq!(shorter.peek(), Some(&&7));

    assert_eq!(shorter.len(), 2);

    let mut heap: SkewHeap<&'static i32> = SkewHeap::new();
    heap.push(&SEVEN);
    let mut iter = iter_shortens(heap.iter());
    assert_eq!(iter.len(), 1);
    assert_eq!(iter.next(), Some(&&SEVEN));

    let mut heap: SkewHeap<&'static i32> = SkewHeap::new();
    heap.push(&SEVEN);
    let mut iter = into_iter_shortens(heap.into_iter());
    assert_eq!(iter.next(), Some(&7));
}

#[test]
fn heap_and_iterators_are_send_and_sync_as_their_items_are() {
    all_send_and_sync::<i32, i32>();
    all_send_and_sync::<String, Vec<u8>>();
}
