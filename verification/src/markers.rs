//! What the compiler is to confirm of the heap and its iterators: that they
//! are covariant in the item type, and that they can be sent to and shared
//! with other threads whenever the items can.
//!
//! Nothing calls these functions. That they compile is the point.

use crate::heap::SkewHeap;
use crate::iter::{IntoIter, Iter};
use vstd::prelude::*;

verus! {

/// A heap and its iterators over items that live forever pass for ones over
/// items that live shorter.
#[allow(dead_code)]
fn assert_covariant<'a, 'i, T: Ord>(
    heap: SkewHeap<&'static T>,
    into_iter: IntoIter<&'static T>,
    iter: Iter<'i, &'static T>,
) -> (shortened: (SkewHeap<&'a T>, IntoIter<&'a T>, Iter<'i, &'a T>))
    ensures
        shortened == (heap, into_iter, iter),
{
    (heap, into_iter, iter)
}

#[allow(dead_code)]
fn assert_send<T: Send>() {
}

#[allow(dead_code)]
fn assert_sync<T: Sync>() {
}

/// The heap and both iterators are `Send` if the items are, and `Sync` if the
/// items are; the borrowing iterator is `Send` already if the items are
/// `Sync`.
#[allow(dead_code)]
fn assert_send_sync<A: Ord + Send, B: Ord + Sync>() {
    assert_send::<IntoIter<A>>();
    assert_sync::<IntoIter<B>>();

    assert_send::<Iter<B>>();
    assert_sync::<Iter<B>>();

    assert_send::<SkewHeap<A>>();
    assert_sync::<SkewHeap<B>>();
}

} // verus!
