//! The heap itself: a root and a count.

use crate::counts::lemma_first_counts;
use crate::iter::{pending, IntoIter, Iter};
use crate::model::{
    answers, clones_are_equal, clones_of, is_greatest, lemma_equal_clones,
    lemma_greatest_after_insert, lemma_greatest_of_one, lemma_one_more_clone,
    lemma_shown_is_determined, shows, ties_are_equal, Request,
};
use crate::nodes::{drained, lemma_drained_items, lemma_pluck, Nodes};
use crate::order::{le, lemma_le_total, lemma_le_transitive, lemma_operators_obey, total_order};
use crate::tree::{
    items, lemma_empty_tree, lemma_leaf, lemma_root_is_greatest, lemma_size_is_len, lemma_walk_items, meld, merge, ordered, root, size,
    walk, Node,
};
use core::mem::swap;
use vstd::multiset::Multiset;
use vstd::prelude::*;
use vstd::seq_lib::{to_multiset_build, to_multiset_len};

verus! {

/// A skew heap: a priority queue that hands out its greatest item first, and
/// that can take in a whole other heap as cheaply as one item.
pub struct SkewHeap<T: Ord> {
    pub(crate) nodes: Nodes<T>,
    pub(crate) len: usize,
}

impl<T: Ord> View for SkewHeap<T> {
    type V = Multiset<T>;

    /// The items of the heap, each as often as it was pushed and not yet
    /// popped.
    open(crate) spec fn view(&self) -> Multiset<T> {
        items(self.nodes.node)
    }
}

impl<T: Ord> SkewHeap<T> {
    /// The heap is well formed: no item is above the one in its parent node,
    /// and the count is the number of nodes.
    pub open(crate) spec fn wf(&self) -> bool {
        ordered(self.nodes.node) && self.len == size(self.nodes.node)
    }

    /// The item that `peek` shows and `pop` removes next: the one at the
    /// root.
    pub open(crate) spec fn top(&self) -> Option<T> {
        root(self.nodes.node)
    }

    /// The order in which `iter` yields the items.
    pub open(crate) spec fn iter_order(&self) -> Seq<T> {
        walk(self.nodes.node)
    }

    /// The order in which `into_iter` yields the items.
    pub open(crate) spec fn into_iter_order(&self) -> Seq<T> {
        drained(self.nodes.node)
    }

    /// Both traversals yield every item of the heap, as often as the heap
    /// holds it, and nothing else.
    pub proof fn lemma_traversals_yield_the_items(&self)
        ensures
            self.iter_order().to_multiset() == self@,
            self.into_iter_order().to_multiset() == self@,
            self.iter_order().len() == self@.len(),
            self.into_iter_order().len() == self@.len(),
    {
        lemma_walk_items(self.nodes.node);
        lemma_drained_items(self.nodes.node);
        lemma_size_is_len(self.nodes.node);
    }

    /// A heap without items shows no top and neither traversal yields
    /// anything; a heap with items shows a top and both traversals yield
    /// something.
    pub proof fn lemma_empty_heap(&self)
        ensures
            self@.len() == 0 <==> self.top() is None,
            self@.len() == 0 <==> self.iter_order().len() == 0,
            self@.len() == 0 <==> self.into_iter_order().len() == 0,
    {
        self.lemma_traversals_yield_the_items();
        lemma_empty_tree(self.nodes.node);
    }

    /// The top of a well-formed heap is a greatest item of it, and only an
    /// empty heap has none.
    pub proof fn lemma_top_is_greatest(&self)
        requires
            total_order::<T>(),
            self.wf(),
        ensures
            shows(self@, self.top()),
    {
        lemma_empty_tree(self.nodes.node);
        if let Some(n) = self.nodes.node {
            assert forall|y: T| self@.count(y) > 0 implies le(y, n.item) by {
                lemma_root_is_greatest(self.nodes.node, y);
            }
        }
    }

    /// Returns an empty heap.
    pub fn new() -> (heap: Self)
        ensures
            heap.wf(),
            heap@ == Multiset::<T>::empty(),
            heap.top() is None,
    {
        SkewHeap { nodes: Nodes { node: None }, len: 0 }
    }

    /// Returns `true` if the heap contains no items.
    pub fn is_empty(&self) -> (empty: bool)
        ensures
            empty <==> self@.len() == 0,
    {
        proof {
            lemma_empty_tree(self.nodes.node);
        }
        self.nodes.node.is_none()
    }

    /// Returns the number of items in the heap.
    pub fn len(&self) -> (len: usize)
        requires
            self.wf(),
        ensures
            len == self@.len(),
    {
        proof {
            lemma_size_is_len(self.nodes.node);
        }
        self.len
    }

    /// Returns an iterator that yields references to the heap's items in
    /// arbitrary order.
    pub fn iter(&self) -> (iter: Iter<'_, T>)
        requires
            self.wf(),
        ensures
            iter.wf(),
            iter@ == self.iter_order(),
            iter@.to_multiset() == self@,
    {
        proof {
            self.lemma_traversals_yield_the_items();
            lemma_walk_items(self.nodes.node);
        }
        let mut nodes: Vec<&Node<T>> = Vec::new();
        if let Some(node) = &self.nodes.node {
            nodes.push(&**node);
        }
        let iter = Iter { nodes, len: self.len };
        proof {
            reveal_with_fuel(pending, 2);
            assert(iter.nodes@.len() > 0 ==> iter.nodes@.drop_last() =~= Seq::empty());
            assert(iter@ =~= self.iter_order());
        }
        iter
    }

    /// Turns the heap into an iterator that yields its items in arbitrary
    /// order.
    pub fn into_iter(self) -> (iter: IntoIter<T>)
        requires
            self.wf(),
        ensures
            iter.wf(),
            iter@ == self.into_iter_order(),
            iter@.to_multiset() == self@,
    {
        proof {
            self.lemma_traversals_yield_the_items();
        }
        IntoIter { nodes: self.nodes, len: self.len }
    }

    /// Returns a reference to the heap's greatest item.
    ///
    /// Returns `None` if the heap is empty.
    pub fn peek(&self) -> (shown: Option<&T>)
        requires
            total_order::<T>(),
            self.wf(),
        ensures
            shows(self@, self.top()),
            match shown {
                None => self.top() is None,
                Some(x) => self.top() == Some(*x),
            },
    {
        proof {
            self.lemma_top_is_greatest();
        }
        match &self.nodes.node {
            None => None,
            Some(node) => Some(&node.item),
        }
    }

    /// Pushes the given item onto the heap.
    pub fn push(&mut self, item: T)
        requires
            total_order::<T>(),
            old(self).wf(),
            old(self)@.len() < usize::MAX,
        ensures
            final(self).wf(),
            final(self)@ == old(self)@.insert(item),
            answers(old(self)@, Request::Push(item), None, final(self)@),
    {
        self.push_node(Box::new(Node { l: None, r: None, item: item }));
    }

    /// Moves all items from the given heap into the heap, and leaves the given
    /// heap empty.
    pub fn append(&mut self, other: &mut Self)
        requires
            total_order::<T>(),
            old(self).wf(),
            old(other).wf(),
            old(self)@.len() + old(other)@.len() <= usize::MAX,
        ensures
            final(self).wf(),
            final(other).wf(),
            final(self)@ == old(self)@.add(old(other)@),
            final(other)@ == Multiset::<T>::empty(),
            final(other).top() is None,
    {
        proof {
            lemma_size_is_len(self.nodes.node);
            lemma_size_is_len(other.nodes.node);
        }
        let moved = other.len;
        other.len = 0;
        self.len += moved;
        merge(&mut self.nodes.node, other.nodes.node.take());
    }

    /// Removes all items from the heap.
    pub fn clear(&mut self)
        ensures
            final(self).wf(),
            final(self)@ == Multiset::<T>::empty(),
            final(self).top() is None,
    {
        *self = Self::new();
    }

    /// Removes the heap's greatest item and returns it.
    ///
    /// Returns `None` if the heap was empty.
    pub fn pop(&mut self) -> (popped: Option<T>)
        requires
            total_order::<T>(),
            old(self).wf(),
        ensures
            final(self).wf(),
            popped == old(self).top(),
            match popped {
                None => old(self)@.len() == 0 && final(self)@ == old(self)@,
                Some(x) => is_greatest(old(self)@, x) && final(self)@ == old(self)@.remove(x),
            },
            answers(old(self)@, Request::Pop, popped, final(self)@),
    {
        proof {
            old(self).lemma_top_is_greatest();
        }
        match self.pop_node() {
            None => None,
            Some(node) => Some(node.item),
        }
    }

    /// Pushes the given item onto the heap, then removes the heap's greatest
    /// item and returns it.
    ///
    /// If the heap is empty, or if its top is below or equivalent to the item,
    /// the item comes straight back and the heap is left as it was. Otherwise
    /// the item takes the place of the top, which is returned.
    pub fn push_pop(&mut self, item: T) -> (out: T)
        requires
            total_order::<T>(),
            old(self).wf(),
        ensures
            final(self).wf(),
            match old(self).top() {
                None => out == item && *final(self) == *old(self),
                Some(t) => if le(t, item) {
                    out == item && *final(self) == *old(self)
                } else {
                    out == t && final(self)@ == old(self)@.remove(t).insert(item)
                },
            },
            final(self)@.len() == old(self)@.len(),
            answers(old(self)@, Request::PushPop(item), Some(out), final(self)@),
    {
        let mut held = item;
        proof {
            old(self).lemma_top_is_greatest();
            lemma_operators_obey::<T>();
            if self.nodes.node is Some {
                lemma_le_total(item, self.nodes.node.unwrap().item);
            }
        }
        match &self.nodes.node {
            Some(root) if held >= root.item => {},
            _ => {
                if let Some(mut node) = self.pop_node() {
                    swap(&mut node.item, &mut held);
                    proof {
                        lemma_size_is_len(self.nodes.node);
                    }
                    self.push_node(node);
                }
            },
        }
        proof {
            match old(self).top() {
                None => {
                    assert(old(self)@ =~= Multiset::empty());
                    lemma_greatest_of_one(item);
                },
                Some(t) => {
                    lemma_greatest_after_insert(old(self)@, t, item);
                },
            }
            assert(self@ =~= old(self)@.insert(item).remove(held));
        }
        held
    }

    /// Removes the greatest item from the heap, then pushes the given item onto
    /// the heap.
    ///
    /// Returns the item that was removed, or `None` if the heap was empty
    /// before the push.
    pub fn replace(&mut self, item: T) -> (out: Option<T>)
        requires
            total_order::<T>(),
            old(self).wf(),
        ensures
            final(self).wf(),
            out == old(self).top(),
            final(self)@ == match old(self).top() {
                None => old(self)@.insert(item),
                Some(t) => old(self)@.remove(t).insert(item),
            },
            answers(old(self)@, Request::Replace(item), out, final(self)@),
    {
        let mut held = item;
        proof {
            old(self).lemma_top_is_greatest();
            lemma_operators_obey::<T>();
            lemma_size_is_len(self.nodes.node);
            if self.nodes.node is Some {
                lemma_le_total(item, self.nodes.node.unwrap().item);
            }
        }
        if let Some(root) = &mut self.nodes.node {
            if held >= root.item {
                proof {
                    if root.l is Some {
                        lemma_le_transitive(root.l.unwrap().item, root.item, item);
                    }
                    if root.r is Some {
                        lemma_le_transitive(root.r.unwrap().item, root.item, item);
                    }
                }
                swap(&mut root.item, &mut held);
                proof {
                    assert(self@ =~= old(self)@.remove(held).insert(item));
                }
                return Some(held);
            }
        }
        match self.pop_node() {
            None => {
                self.push(held);
                None
            },
            Some(mut node) => {
                swap(&mut node.item, &mut held);
                proof {
                    lemma_size_is_len(self.nodes.node);
                }
                self.push_node(node);
                Some(held)
            },
        }
    }

    /// Pushes each of the given items onto the heap, the first one first.
    pub fn extend(&mut self, items: Vec<T>)
        requires
            total_order::<T>(),
            old(self).wf(),
            old(self)@.len() + items.len() <= usize::MAX,
        ensures
            final(self).wf(),
            final(self)@ == old(self)@.add(items@.to_multiset()),
            answers(old(self)@, Request::Extend(items@), None, final(self)@),
    {
        proof {
            lemma_first_counts(arbitrary::<T>(), Seq::empty());
            assert(self@.add(Seq::<T>::empty().to_multiset()) =~= self@);
        }
        let ghost mut done: Seq<T> = Seq::empty();
        for item in it: items
            invariant
                total_order::<T>(),
                self.wf(),
                it.seq() == items@,
                done == items@.take(it.index() as int),
                self@ == old(self)@.add(done.to_multiset()),
                old(self)@.len() + items.len() <= usize::MAX,
        {
            proof {
                to_multiset_len(done);
                to_multiset_build(done, item);
                assert(items@.take(it.index() + 1) =~= done.push(item));
                assert(old(self)@.add(done.to_multiset()).insert(item) =~= old(self)@.add(
                    done.push(item).to_multiset(),
                ));
                done = done.push(item);
            }
            self.push(item);
        }
        proof {
            assert(items@.take(items@.len() as int) =~= items@);
        }
    }

    /// Returns a heap of the given items.
    pub fn from_iter(items: Vec<T>) -> (heap: Self)
        requires
            total_order::<T>(),
        ensures
            heap.wf(),
            heap@ == items@.to_multiset(),
    {
        let mut heap = Self::new();
        heap.extend(items);
        proof {
            assert(Multiset::<T>::empty().add(items@.to_multiset()) =~= items@.to_multiset());
        }
        heap
    }

    /// Returns a heap of its own that holds a clone of every item of this one.
    pub fn clone(&self) -> (copy: Self) where T: Clone
        requires
            total_order::<T>(),
            self.wf(),
        ensures
            copy.wf(),
            exists|copies: Seq<T>|
                clones_of(self.iter_order(), copies) && copy@ == copies.to_multiset(),
            clones_are_equal::<T>() ==> copy@ == self@,
            clones_are_equal::<T>() && ties_are_equal::<T>() ==> copy.top() == self.top(),
    {
        let mut copy = Self::new();
        let mut iter = self.iter();
        let ghost order = self.iter_order();
        let ghost mut copies: Seq<T> = Seq::empty();
        proof {
            self.lemma_traversals_yield_the_items();
            lemma_first_counts(arbitrary::<T>(), Seq::empty());
            assert(order.skip(0) =~= order);
        }
        loop
            invariant
                total_order::<T>(),
                copy.wf(),
                iter.wf(),
                order.len() <= usize::MAX,
                copies.len() <= order.len(),
                iter@ == order.skip(copies.len() as int),
                clones_of(order.take(copies.len() as int), copies),
                copy@ == copies.to_multiset(),
            ensures
                copies.len() == order.len(),
            decreases iter@.len(),
        {
            match iter.next() {
                None => {
                    break ;
                },
                Some(item) => {
                    let cloned_item = item.clone();
                    proof {
                        lemma_one_more_clone(order, copies, cloned_item);
                        copies = copies.push(cloned_item);
                    }
                    copy.push(cloned_item);
                },
            }
        }
        proof {
            assert(order.take(order.len() as int) =~= order);
            if clones_are_equal::<T>() {
                lemma_equal_clones(order, copies);
                if ties_are_equal::<T>() {
                    copy.lemma_top_is_greatest();
                    self.lemma_top_is_greatest();
                    lemma_shown_is_determined(self@, copy.top(), self.top());
                }
            }
        }
        copy
    }

    /// Makes the heap hold a clone of every item of `other` in place of what it
    /// held. The nodes it has are used again as far as they go.
    pub fn clone_from(&mut self, other: &Self) where T: Clone
        requires
            total_order::<T>(),
            old(self).wf(),
            other.wf(),
        ensures
            final(self).wf(),
            exists|copies: Seq<T>|
                clones_of(other.iter_order(), copies) && final(self)@ == copies.to_multiset(),
            clones_are_equal::<T>() ==> final(self)@ == other@,
            clones_are_equal::<T>() && ties_are_equal::<T>() ==> final(self).top() == other.top(),
    {
        let mut emptied = Self::new();
        swap(self, &mut emptied);
        let mut spare = emptied.nodes;
        let mut iter = other.iter();
        let ghost order = other.iter_order();
        let ghost mut copies: Seq<T> = Seq::empty();
        proof {
            other.lemma_traversals_yield_the_items();
            lemma_first_counts(arbitrary::<T>(), Seq::empty());
            assert(order.skip(0) =~= order);
        }
        loop
            invariant
                total_order::<T>(),
                self.wf(),
                iter.wf(),
                order.len() <= usize::MAX,
                copies.len() <= order.len(),
                iter@ == order.skip(copies.len() as int),
                clones_of(order.take(copies.len() as int), copies),
                self@ == copies.to_multiset(),
            decreases size(spare.node),
        {
            proof {
                if spare.node is Some {
                    lemma_pluck(*spare.node.unwrap());
                }
            }
            match spare.next() {
                None => {
                    break ;
                },
                Some(mut node) => match iter.next() {
                    None => {
                        break ;
                    },
                    Some(item) => {
                        node.item = item.clone();
                        proof {
                            lemma_one_more_clone(order, copies, node.item);
                            copies = copies.push(node.item);
                        }
                        self.push_node(node);
                    },
                },
            }
        }
        loop
            invariant
                total_order::<T>(),
                self.wf(),
                iter.wf(),
                order.len() <= usize::MAX,
                copies.len() <= order.len(),
                iter@ == order.skip(copies.len() as int),
                clones_of(order.take(copies.len() as int), copies),
                self@ == copies.to_multiset(),
            ensures
                copies.len() == order.len(),
            decreases iter@.len(),
        {
            match iter.next() {
                None => {
                    break ;
                },
                Some(item) => {
                    let cloned_item = item.clone();
                    proof {
                        lemma_one_more_clone(order, copies, cloned_item);
                        copies = copies.push(cloned_item);
                    }
                    self.push(cloned_item);
                },
            }
        }
        proof {
            assert(order.take(order.len() as int) =~= order);
            if clones_are_equal::<T>() {
                lemma_equal_clones(order, copies);
                if ties_are_equal::<T>() {
                    self.lemma_top_is_greatest();
                    other.lemma_top_is_greatest();
                    lemma_shown_is_determined(other@, self.top(), other.top());
                }
            }
        }
    }

    /// Melds a node without children into the heap.
    fn push_node(&mut self, node: Box<Node<T>>)
        requires
            total_order::<T>(),
            old(self).wf(),
            old(self)@.len() < usize::MAX,
            node.l is None,
            node.r is None,
        ensures
            final(self).wf(),
            final(self)@ == old(self)@.insert(node.item),
            final(self).nodes.node == meld(old(self).nodes.node, Some(node)),
    {
        proof {
            lemma_size_is_len(self.nodes.node);
            lemma_leaf(*node);
            assert(self@.add(items(Some(node))) =~= self@.insert(node.item));
        }
        self.len += 1;
        merge(&mut self.nodes.node, Some(node));
    }

    /// Detaches the root node, and melds its two subtrees into the new tree.
    /// The node comes back without children.
    fn pop_node(&mut self) -> (popped: Option<Box<Node<T>>>)
        requires
            total_order::<T>(),
            old(self).wf(),
        ensures
            final(self).wf(),
            match old(self).nodes.node {
                None => popped is None && *final(self) == *old(self),
                Some(n) => {
                    &&& popped == Some(Box::new(Node { l: None, r: None, item: n.item }))
                    &&& final(self).nodes.node == meld(n.l, n.r)
                    &&& final(self)@ == old(self)@.remove(n.item)
                    &&& final(self).len == old(self).len - 1
                },
            },
    {
        match self.nodes.node.take() {
            None => None,
            Some(mut node) => {
                proof {
                    assert(items(node.l).add(items(node.r)) =~= old(self)@.remove(node.item));
                }
                self.len -= 1;
                self.nodes.node = node.l.take();
                merge(&mut self.nodes.node, node.r.take());
                Some(node)
            },
        }
    }
}

impl<T: Ord> Default for SkewHeap<T> {
    /// Returns an empty heap.
    fn default() -> (heap: Self)
        ensures
            heap.wf(),
            heap@ == Multiset::<T>::empty(),
            heap.top() is None,
    {
        Self::new()
    }
}

} // verus!
