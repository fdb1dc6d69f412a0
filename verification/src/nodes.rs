//! Taking a tree apart, one node at a time and without recursion.

use crate::counts::lemma_first_counts;
use crate::tree::{items, size, Link, Node};
use core::mem::swap;
use vstd::prelude::*;

verus! {

/// What the walk detaches next from the tree under `n`, and what it leaves:
/// the item of the last node on the left spine, and the tree in which every
/// node of that spine has been turned to the right of the one below it.
pub open spec fn pluck<T>(n: Node<T>) -> (T, Link<T>)
    decreases size(n.l),
{
    match n.l {
        None => (n.item, n.r),
        Some(l) => pluck(
            Node { l: l.l, r: Some(Box::new(Node { l: l.r, r: n.r, item: n.item })), item: l.item },
        ),
    }
}

/// The walk detaches one node and keeps all the others.
pub proof fn lemma_pluck<T>(n: Node<T>)
    ensures
        items(Some(Box::new(n))) == items(pluck(n).1).insert(pluck(n).0),
        size(Some(Box::new(n))) == size(pluck(n).1) + 1,
    decreases size(n.l),
{
    reveal_with_fuel(items, 3);
    reveal_with_fuel(size, 3);
    match n.l {
        None => {
            assert(items(Some(Box::new(n))) =~= items(pluck(n).1).insert(pluck(n).0));
        },
        Some(l) => {
            let below = Node { l: l.r, r: n.r, item: n.item };
            let turned = Node { l: l.l, r: Some(Box::new(below)), item: l.item };
            lemma_pluck(turned);
            assert(items(Some(Box::new(n))) =~= items(Some(Box::new(turned))));
        },
    }
}

/// The items of `t` in the order in which the walk detaches them.
pub open spec fn drained<T>(t: Link<T>) -> Seq<T>
    decreases size(t),
{
    match t {
        None => Seq::empty(),
        Some(n) => {
            proof {
                lemma_pluck(*n);
            }
            seq![pluck(*n).0] + drained(pluck(*n).1)
        },
    }
}

/// The walk detaches every item of the tree, as often as the tree holds it.
pub proof fn lemma_drained_items<T>(t: Link<T>)
    ensures
        drained(t).to_multiset() == items(t),
        drained(t).len() == size(t),
    decreases size(t),
{
    match t {
        None => {
            lemma_first_counts(arbitrary::<T>(), Seq::empty());
        },
        Some(n) => {
            lemma_pluck(*n);
            lemma_drained_items(pluck(*n).1);
            lemma_first_counts(pluck(*n).0, drained(pluck(*n).1));
        },
    }
}

/// Empties `slot` and returns the tree that was in it. Unlike `Option::take`,
/// this is known not to unwind, so a destructor may call it.
fn detach<T>(slot: &mut Link<T>) -> (t: Link<T>)
    ensures
        t == *old(slot),
        *final(slot) is None,
    opens_invariants none
    no_unwind
{
    let mut t = None;
    swap(slot, &mut t);
    t
}

/// The nodes of a tree that is being taken apart.
pub struct Nodes<T> {
    pub node: Link<T>,
}

impl<T> Nodes<T> {
    /// Detaches one node from the tree and returns it, or returns `None` if the
    /// tree is empty. The node comes back without children.
    pub fn next(&mut self) -> (ret: Option<Box<Node<T>>>)
        ensures
            match old(self).node {
                None => ret is None && final(self).node is None,
                Some(n) => ret == Some(Box::new(Node { l: None, r: None, item: pluck(*n).0 }))
                    && final(self).node == pluck(*n).1,
            },
        opens_invariants none
        no_unwind
    {
        match detach(&mut self.node) {
            None => None,
            Some(mut node) => {
                loop
                    invariant
                        old(self).node is Some,
                        pluck(*node) == pluck(*old(self).node.unwrap()),
                        self.node is None,
                    decreases size(node.l),
                {
                    match detach(&mut node.l) {
                        None => {
                            self.node = detach(&mut node.r);
                            return Some(node);
                        },
                        Some(mut l) => {
                            node.l = detach(&mut l.r);
                            l.r = Some(node);
                            node = l;
                        },
                    }
                }
            },
        }
    }
}

impl<T> Drop for Nodes<T> {
    fn drop(&mut self)
        opens_invariants none
        no_unwind
    {
        loop
            decreases size(self.node),
        {
            proof {
                if self.node is Some {
                    lemma_pluck(*self.node.unwrap());
                }
            }
            match self.next() {
                None => {
                    return ;
                },
                Some(_) => {},
            }
        }
    }
}

} // verus!
