//! The two traversals of a heap: one that lends its items, one that gives
//! them away. Neither yields them in any order worth relying on.

use crate::nodes::{drained, lemma_drained_items, lemma_pluck, Nodes};
use crate::tree::{size, walk, Node};
use vstd::prelude::*;

verus! {

/// The items that a walk will still come by, given the nodes on its stack:
/// first the whole tree under the node on top, last the one under the node
/// at the bottom.
pub open spec fn pending<T>(stack: Seq<&Node<T>>) -> Seq<T>
    decreases stack.len(),
{
    if stack.len() == 0 {
        Seq::empty()
    } else {
        walk(Some(Box::new(*stack.last()))) + pending(stack.drop_last())
    }
}

/// Putting a node on top of the stack puts the walk of its tree in front of
/// what was pending.
proof fn lemma_pending_push<T>(stack: Seq<&Node<T>>, n: &Node<T>)
    ensures
        pending(stack.push(n)) == walk(Some(Box::new(*n))) + pending(stack),
{
    assert(stack.push(n).drop_last() =~= stack);
}

/// An iterator that yields references to a `SkewHeap`'s items in arbitrary
/// order.
pub struct Iter<'a, T: 'a> {
    pub(crate) nodes: Vec<&'a Node<T>>,
    pub(crate) len: usize,
}

impl<'a, T> View for Iter<'a, T> {
    type V = Seq<T>;

    /// The items still to come, the next one first.
    open(crate) spec fn view(&self) -> Seq<T> {
        pending(self.nodes@)
    }
}

impl<'a, T> Iter<'a, T> {
    /// The iterator knows how many items are still to come.
    pub open(crate) spec fn wf(&self) -> bool {
        self.len == pending(self.nodes@).len()
    }

    /// Yields the next item, or `None` when all have been yielded.
    pub fn next(&mut self) -> (item: Option<&'a T>)
        requires
            old(self).wf(),
        ensures
            final(self).wf(),
            match item {
                None => old(self)@.len() == 0 && final(self)@ == old(self)@,
                Some(x) => old(self)@.len() > 0 && *x == old(self)@[0] && final(self)@ == old(
                    self,
                )@.drop_first(),
            },
    {
        match self.nodes.pop() {
            None => None,
            Some(node) => {
                let ghost below = self.nodes@;
                proof {
                    assert(old(self).nodes@.drop_last() =~= below);
                    assert(old(self)@ =~= seq![node.item] + (walk(node.r) + walk(node.l) + pending(
                        below,
                    )));
                }
                self.len -= 1;
                if let Some(l) = &node.l {
                    proof {
                        lemma_pending_push(self.nodes@, &**l);
                    }
                    self.nodes.push(&**l);
                }
                let ghost mid = self.nodes@;
                assert(pending(mid) =~= walk(node.l) + pending(below));
                if let Some(r) = &node.r {
                    proof {
                        lemma_pending_push(self.nodes@, &**r);
                    }
                    self.nodes.push(&**r);
                }
                assert(pending(self.nodes@) =~= walk(node.r) + (walk(node.l) + pending(below)));
                assert(self@ =~= old(self)@.drop_first());
                Some(&node.item)
            },
        }
    }

    /// Returns the number of items still to come, as the lower and the upper
    /// bound.
    pub fn size_hint(&self) -> (hint: (usize, Option<usize>))
        requires
            self.wf(),
        ensures
            hint.0 == self@.len(),
            hint.1 == Some(hint.0),
    {
        (self.len, Some(self.len))
    }

    /// Yields an item from the back. Since the order is arbitrary, this is
    /// the item that `next` would yield.
    pub fn next_back(&mut self) -> (item: Option<&'a T>)
        requires
            old(self).wf(),
        ensures
            final(self).wf(),
            match item {
                None => old(self)@.len() == 0 && final(self)@ == old(self)@,
                Some(x) => old(self)@.len() > 0 && *x == old(self)@[0] && final(self)@ == old(
                    self,
                )@.drop_first(),
            },
    {
        self.next()
    }

    /// Returns the number of items still to come.
    pub fn len(&self) -> (len: usize)
        requires
            self.wf(),
        ensures
            len == self@.len(),
    {
        self.len
    }
}

impl<'a, T> Clone for Iter<'a, T> {
    fn clone(&self) -> (copy: Self)
        ensures
            copy@ == self@,
            copy.wf() == self.wf(),
    {
        let nodes = self.nodes.clone();
        assert(nodes@ =~= self.nodes@);
        Iter { nodes, len: self.len }
    }
}

impl<'a, T> Default for Iter<'a, T> {
    fn default() -> (iter: Self)
        ensures
            iter.wf(),
            iter@ == Seq::<T>::empty(),
    {
        Iter { nodes: Vec::new(), len: 0 }
    }
}

/// An iterator that yields a `SkewHeap`'s items in arbitrary order.
pub struct IntoIter<T> {
    pub(crate) nodes: Nodes<T>,
    pub(crate) len: usize,
}

impl<T> View for IntoIter<T> {
    type V = Seq<T>;

    /// The items still to come, the next one first.
    open(crate) spec fn view(&self) -> Seq<T> {
        drained(self.nodes.node)
    }
}

impl<T> IntoIter<T> {
    /// The iterator knows how many items are still to come.
    pub open(crate) spec fn wf(&self) -> bool {
        self.len == size(self.nodes.node)
    }

    /// Yields the next item, or `None` when all have been yielded.
    pub fn next(&mut self) -> (item: Option<T>)
        requires
            old(self).wf(),
        ensures
            final(self).wf(),
            match item {
                None => old(self)@.len() == 0 && final(self)@ == old(self)@,
                Some(x) => old(self)@.len() > 0 && x == old(self)@[0] && final(self)@ == old(
                    self,
                )@.drop_first(),
            },
    {
        proof {
            lemma_drained_items(self.nodes.node);
            if self.nodes.node is Some {
                lemma_pluck(*self.nodes.node.unwrap());
            }
        }
        match self.nodes.next() {
            None => None,
            Some(node) => {
                self.len -= 1;
                assert(self@ =~= old(self)@.drop_first());
                Some(node.item)
            },
        }
    }

    /// Returns the number of items still to come, as the lower and the upper
    /// bound.
    pub fn size_hint(&self) -> (hint: (usize, Option<usize>))
        requires
            self.wf(),
        ensures
            hint.0 == self@.len(),
            hint.1 == Some(hint.0),
    {
        proof {
            lemma_drained_items(self.nodes.node);
        }
        (self.len, Some(self.len))
    }

    /// Yields an item from the back. Since the order is arbitrary, this is
    /// the item that `next` would yield.
    pub fn next_back(&mut self) -> (item: Option<T>)
        requires
            old(self).wf(),
        ensures
            final(self).wf(),
            match item {
                None => old(self)@.len() == 0 && final(self)@ == old(self)@,
                Some(x) => old(self)@.len() > 0 && x == old(self)@[0] && final(self)@ == old(
                    self,
                )@.drop_first(),
            },
    {
        self.next()
    }

    /// Returns the number of items still to come.
    pub fn len(&self) -> (len: usize)
        requires
            self.wf(),
        ensures
            len == self@.len(),
    {
        proof {
            lemma_drained_items(self.nodes.node);
        }
        self.len
    }
}

impl<T> Default for IntoIter<T> {
    fn default() -> (iter: Self)
        ensures
            iter.wf(),
            iter@ == Seq::<T>::empty(),
    {
        IntoIter { nodes: Nodes { node: None }, len: 0 }
    }
}

} // verus!
