//! Heap-ordered binary trees and their meld.
//!
//! A tree is an optional owned node. Nothing constrains its shape: the only
//! invariant is heap order, and the shape is whatever earlier melds left.

use crate::counts::lemma_first_counts;
use crate::order::{
    le, lemma_le_reflexive, lemma_le_total, lemma_le_transitive, lemma_operators_obey, lt,
    total_order,
};
use core::mem::swap;
use vstd::multiset::Multiset;
use vstd::prelude::*;
use vstd::seq_lib::lemma_multiset_commutative;

verus! {

/// A tree node: one item and two optional owned subtrees.
pub struct Node<T> {
    pub l: Option<Box<Node<T>>>,
    pub r: Option<Box<Node<T>>>,
    pub item: T,
}

/// A possibly empty tree.
pub type Link<T> = Option<Box<Node<T>>>;

/// The number of nodes of `t`.
pub open spec fn size<T>(t: Link<T>) -> nat
    decreases t,
{
    match t {
        None => 0,
        Some(n) => 1 + size(n.l) + size(n.r),
    }
}

/// The items of `t`, each as often as a node holds it.
pub open spec fn items<T>(t: Link<T>) -> Multiset<T>
    decreases t,
{
    match t {
        None => Multiset::empty(),
        Some(n) => items(n.l).add(items(n.r)).insert(n.item),
    }
}

/// The item at the root of `t`, if there is one.
pub open spec fn root<T>(t: Link<T>) -> Option<T> {
    match t {
        None => None,
        Some(n) => Some(n.item),
    }
}

/// `t` is empty, or its root item is below or equivalent to `x`.
pub open spec fn capped<T: Ord>(t: Link<T>, x: T) -> bool {
    match t {
        None => true,
        Some(n) => le(n.item, x),
    }
}

/// Heap order: the item of every node is above or equivalent to the items of
/// both its children.
pub open spec fn ordered<T: Ord>(t: Link<T>) -> bool
    decreases t,
{
    match t {
        None => true,
        Some(n) => capped(n.l, n.item) && capped(n.r, n.item) && ordered(n.l) && ordered(n.r),
    }
}

/// The meld of two trees. The root with the greater item stays on top (the
/// first one, if they are tied); its children change sides, and the other
/// tree is melded into the child that is now on the left.
pub open spec fn meld<T: Ord>(a: Link<T>, b: Link<T>) -> Link<T>
    decreases size(a) + size(b),
{
    match (a, b) {
        (None, _) => b,
        (_, None) => a,
        (Some(x), Some(y)) => if lt(x.item, y.item) {
            Some(Box::new(Node { l: meld(a, y.r), r: y.l, item: y.item }))
        } else {
            Some(Box::new(Node { l: meld(b, x.r), r: x.l, item: x.item }))
        },
    }
}

/// The items of `t` in the order in which a walk with a stack comes by them:
/// a node, then all of its right subtree, then all of its left subtree.
pub open spec fn walk<T>(t: Link<T>) -> Seq<T>
    decreases t,
{
    match t {
        None => Seq::empty(),
        Some(n) => seq![n.item] + walk(n.r) + walk(n.l),
    }
}

/// The walk comes by every item of the tree, as often as the tree holds it.
pub proof fn lemma_walk_items<T>(t: Link<T>)
    ensures
        walk(t).to_multiset() == items(t),
        walk(t).len() == size(t),
    decreases t,
{
    match t {
        None => {
            lemma_first_counts(arbitrary::<T>(), Seq::empty());
        },
        Some(n) => {
            lemma_walk_items(n.l);
            lemma_walk_items(n.r);
            lemma_multiset_commutative(walk(n.r), walk(n.l));
            lemma_first_counts(n.item, walk(n.r) + walk(n.l));
            assert(walk(t) =~= seq![n.item] + (walk(n.r) + walk(n.l)));
            assert(walk(t).to_multiset() =~= items(t));
        },
    }
}

/// A tree has as many nodes as items.
pub proof fn lemma_size_is_len<T>(t: Link<T>)
    ensures
        items(t).len() == size(t),
    decreases t,
{
    match t {
        None => {},
        Some(n) => {
            lemma_size_is_len(n.l);
            lemma_size_is_len(n.r);
        },
    }
}

/// A tree without nodes has no items, and the other way round.
pub proof fn lemma_empty_tree<T>(t: Link<T>)
    ensures
        t is None <==> items(t).len() == 0,
        t is None <==> items(t) == Multiset::<T>::empty(),
        t is None <==> size(t) == 0,
{
    lemma_size_is_len(t);
}

/// A node without children is a heap-ordered tree of one item.
pub proof fn lemma_leaf<T: Ord>(n: Node<T>)
    requires
        n.l is None,
        n.r is None,
    ensures
        ordered(Some(Box::new(n))),
        items(Some(Box::new(n))) == Multiset::empty().insert(n.item),
        size(Some(Box::new(n))) == 1,
{
    reveal_with_fuel(ordered, 2);
    reveal_with_fuel(items, 2);
    reveal_with_fuel(size, 2);
    assert(items(Some(Box::new(n))) =~= Multiset::empty().insert(n.item));
}

/// In a heap-ordered tree every item is below or equivalent to the root's.
pub proof fn lemma_root_is_greatest<T: Ord>(t: Link<T>, y: T)
    requires
        total_order::<T>(),
        ordered(t),
        items(t).count(y) > 0,
    ensures
        t is Some,
        le(y, t.unwrap().item),
    decreases t,
{
    match t {
        None => {},
        Some(n) => {
            if items(n.l).count(y) > 0 {
                lemma_root_is_greatest(n.l, y);
                lemma_le_transitive(y, n.l.unwrap().item, n.item);
            } else if items(n.r).count(y) > 0 {
                lemma_root_is_greatest(n.r, y);
                lemma_le_transitive(y, n.r.unwrap().item, n.item);
            } else {
                assert(y == n.item);
                lemma_le_reflexive(y);
            }
        },
    }
}

/// Melding keeps every item of both trees, and adds none.
pub proof fn lemma_meld_items<T: Ord>(a: Link<T>, b: Link<T>)
    ensures
        items(meld(a, b)) == items(a).add(items(b)),
        size(meld(a, b)) == size(a) + size(b),
    decreases size(a) + size(b),
{
    match (a, b) {
        (None, _) => {
            assert(items(meld(a, b)) =~= items(a).add(items(b)));
        },
        (_, None) => {
            assert(items(meld(a, b)) =~= items(a).add(items(b)));
        },
        (Some(x), Some(y)) => {
            if lt(x.item, y.item) {
                lemma_meld_items(a, y.r);
            } else {
                lemma_meld_items(b, x.r);
            }
            assert(items(meld(a, b)) =~= items(a).add(items(b)));
        },
    }
}

/// The root of a meld is the greater of the two roots, the first if they are
/// tied.
pub proof fn lemma_meld_root<T: Ord>(a: Link<T>, b: Link<T>)
    ensures
        root(meld(a, b)) == match (root(a), root(b)) {
            (None, _) => root(b),
            (_, None) => root(a),
            (Some(x), Some(y)) => if lt(x, y) {
                Some(y)
            } else {
                Some(x)
            },
        },
{
}

/// Melding two heap-ordered trees gives a heap-ordered tree.
pub proof fn lemma_meld_ordered<T: Ord>(a: Link<T>, b: Link<T>)
    requires
        total_order::<T>(),
        ordered(a),
        ordered(b),
    ensures
        ordered(meld(a, b)),
    decreases size(a) + size(b),
{
    match (a, b) {
        (None, _) => {},
        (_, None) => {},
        (Some(x), Some(y)) => {
            lemma_le_total(x.item, y.item);
            if lt(x.item, y.item) {
                lemma_meld_ordered(a, y.r);
                lemma_meld_root(a, y.r);
                if y.r is Some {
                    lemma_le_total(x.item, y.r.unwrap().item);
                }
            } else {
                lemma_meld_ordered(b, x.r);
                lemma_meld_root(b, x.r);
                if x.r is Some {
                    lemma_le_total(y.item, x.r.unwrap().item);
                }
            }
        },
    }
}

/// Melds `b` into `a`, without recursion: one step down the tree per round.
///
/// The tree that comes out holds the items of both, and is heap-ordered if
/// both were.
pub fn merge<T: Ord>(a: &mut Link<T>, b: Link<T>)
    requires
        total_order::<T>(),
    ensures
        *final(a) == meld(*old(a), b),
        items(*final(a)) == items(*old(a)).add(items(b)),
        size(*final(a)) == size(*old(a)) + size(b),
        ordered(*old(a)) && ordered(b) ==> ordered(*final(a)),
{
    proof {
        lemma_meld_items(*a, b);
        if ordered(*a) && ordered(b) {
            lemma_meld_ordered(*a, b);
        }
    }
    let mut cur = a;
    let mut rest = b;
    loop
        invariant
            total_order::<T>(),
            *final(cur) == meld(*cur, rest) ==> *final(a) == meld(*old(a), b),
            items(meld(*old(a), b)) == items(*old(a)).add(items(b)),
            size(meld(*old(a), b)) == size(*old(a)) + size(b),
            ordered(*old(a)) && ordered(b) ==> ordered(meld(*old(a), b)),
        decreases size(*cur) + size(rest),
    {
        match cur {
            None => {
                *cur = rest;
                return ;
            },
            Some(top) => match rest {
                None => {
                    return ;
                },
                Some(mut other) => {
                    proof {
                        lemma_operators_obey::<T>();
                    }
                    if top.item < other.item {
                        swap(top, &mut other);
                    }
                    let node = &mut **top;
                    swap(&mut node.l, &mut node.r);
                    rest = node.l.take();
                    node.l = Some(other);
                    cur = &mut node.l;
                },
            },
        }
    }
}

} // verus!
