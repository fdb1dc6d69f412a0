//! What a max-heap is, said over the multiset of its items.
//!
//! The contracts of the heap speak of its view, a `Multiset`, and of an item
//! that is greatest in it. This module says what any max-heap may answer to
//! a request, and proves that the answers leave no choice but among tied
//! items. Nothing here knows of trees.

use crate::counts::lemma_first_counts;
use crate::order::{
    le, lemma_le_reflexive, lemma_le_total, lemma_le_transitive, tied, total_order,
};
use vstd::multiset::{lemma_multiset_empty_len, Multiset};
use vstd::prelude::*;
use vstd::seq_lib::{to_multiset_build, to_multiset_contains, to_multiset_len};

verus! {

/// `x` is in `m`, and every item of `m` is below or equivalent to `x`.
pub open spec fn is_greatest<T: Ord>(m: Multiset<T>, x: T) -> bool {
    m.count(x) > 0 && forall|y: T| m.count(y) > 0 ==> le(y, x)
}

/// In `T`'s order only equal items are tied, as with the integers.
pub open spec fn ties_are_equal<T: Ord>() -> bool {
    forall|a: T, b: T| tied(a, b) ==> a == b
}

/// Two greatest items of one multiset are tied; where only equal items are
/// tied, a multiset has one greatest item at most.
pub proof fn lemma_greatest_is_unique<T: Ord>(m: Multiset<T>, x: T, y: T)
    requires
        is_greatest(m, x),
        is_greatest(m, y),
    ensures
        tied(x, y),
        ties_are_equal::<T>() ==> x == y,
{
    assert(tied(x, y));
}

/// The only item of a one-item multiset is its greatest.
pub proof fn lemma_greatest_of_one<T: Ord>(x: T)
    requires
        total_order::<T>(),
    ensures
        is_greatest(Multiset::empty().insert(x), x),
{
    lemma_le_reflexive(x);
}

/// After `x` joins a multiset whose greatest item is `g`, the greatest item
/// is `x` if `g` is below or equivalent to `x`, and still `g` if not.
pub proof fn lemma_greatest_after_insert<T: Ord>(m: Multiset<T>, g: T, x: T)
    requires
        total_order::<T>(),
        is_greatest(m, g),
    ensures
        le(g, x) ==> is_greatest(m.insert(x), x),
        !le(g, x) ==> is_greatest(m.insert(x), g),
{
    lemma_le_total(x, g);
    lemma_le_total(g, x);
    lemma_le_reflexive(x);
    if le(g, x) {
        assert forall|y: T| m.insert(x).count(y) > 0 implies le(y, x) by {
            if m.count(y) > 0 {
                lemma_le_transitive(y, g, x);
            }
        }
    }
}

/// What a max-heap that holds `m` may show as its greatest item: a greatest
/// item of `m`, or nothing if `m` is empty.
pub open spec fn shows<T: Ord>(m: Multiset<T>, out: Option<T>) -> bool {
    match out {
        None => m.len() == 0,
        Some(x) => is_greatest(m, x),
    }
}

/// What is left of `m` when `out` has been taken from it.
pub open spec fn without<T>(m: Multiset<T>, out: Option<T>) -> Multiset<T> {
    match out {
        None => m,
        Some(x) => m.remove(x),
    }
}

/// A request that changes a max-heap.
pub enum Request<T> {
    /// Take in one item.
    Push(T),
    /// Give out the greatest item.
    Pop,
    /// Take in one item, then give out the greatest.
    PushPop(T),
    /// Give out the greatest item, then take in one.
    Replace(T),
    /// Take in some items.
    Extend(Seq<T>),
}

/// A max-heap that holds `before` may answer `request` with `out` and hold
/// `after` from then on.
pub open spec fn answers<T: Ord>(
    before: Multiset<T>,
    request: Request<T>,
    out: Option<T>,
    after: Multiset<T>,
) -> bool {
    match request {
        Request::Push(x) => out is None && after == before.insert(x),
        Request::Pop => shows(before, out) && after == without(before, out),
        Request::PushPop(x) => out is Some && shows(before.insert(x), out) && after == without(
            before.insert(x),
            out,
        ),
        Request::Replace(x) => shows(before, out) && after == without(before, out).insert(x),
        Request::Extend(s) => out is None && after == before.add(s.to_multiset()),
    }
}

/// A max-heap that holds `states[0]` may answer the requests, one after the
/// other, with `outs`, and hold `states[i + 1]` after the request `i`.
pub open spec fn runs<T: Ord>(
    requests: Seq<Request<T>>,
    outs: Seq<Option<T>>,
    states: Seq<Multiset<T>>,
) -> bool {
    &&& outs.len() == requests.len()
    &&& states.len() == requests.len() + 1
    &&& forall|i: int|
        0 <= i < requests.len() ==> answers(
            #[trigger] states[i],
            requests[i],
            outs[i],
            states[i + 1],
        )
}

/// What a max-heap shows is the same for all max-heaps of the same items, up
/// to ties.
pub proof fn lemma_shown_is_determined<T: Ord>(m: Multiset<T>, a: Option<T>, b: Option<T>)
    requires
        ties_are_equal::<T>(),
        shows(m, a),
        shows(m, b),
    ensures
        a == b,
{
    match (a, b) {
        (Some(x), Some(y)) => {
            lemma_greatest_is_unique(m, x, y);
        },
        _ => {},
    }
}

/// Where only equal items are tied, the answer to a request and the items
/// held after it are the same for all max-heaps of the same items.
pub proof fn lemma_answer_is_determined<T: Ord>(
    before: Multiset<T>,
    request: Request<T>,
    out1: Option<T>,
    after1: Multiset<T>,
    out2: Option<T>,
    after2: Multiset<T>,
)
    requires
        ties_are_equal::<T>(),
        answers(before, request, out1, after1),
        answers(before, request, out2, after2),
    ensures
        out1 == out2,
        after1 == after2,
{
    match request {
        Request::Push(x) => {},
        Request::Pop => {
            lemma_shown_is_determined(before, out1, out2);
        },
        Request::PushPop(x) => {
            lemma_shown_is_determined(before.insert(x), out1, out2);
        },
        Request::Replace(x) => {
            lemma_shown_is_determined(before, out1, out2);
        },
        Request::Extend(s) => {},
    }
}

/// Where only equal items are tied, two max-heaps that start with the same
/// items and get the same requests give the same answers and hold the same
/// items after every request: so they show the same greatest item, have the
/// same length, and drain alike.
pub proof fn lemma_runs_agree<T: Ord>(
    requests: Seq<Request<T>>,
    outs1: Seq<Option<T>>,
    states1: Seq<Multiset<T>>,
    outs2: Seq<Option<T>>,
    states2: Seq<Multiset<T>>,
)
    requires
        ties_are_equal::<T>(),
        runs(requests, outs1, states1),
        runs(requests, outs2, states2),
        states1[0] == states2[0],
    ensures
        outs1 == outs2,
        states1 == states2,
{
    lemma_runs_agree_so_far(requests, outs1, states1, outs2, states2, requests.len() as int);
    assert(outs1 =~= outs2);
    assert(states1 =~= states2);
}

/// The two runs agree on the first `n` requests.
proof fn lemma_runs_agree_so_far<T: Ord>(
    requests: Seq<Request<T>>,
    outs1: Seq<Option<T>>,
    states1: Seq<Multiset<T>>,
    outs2: Seq<Option<T>>,
    states2: Seq<Multiset<T>>,
    n: int,
)
    requires
        ties_are_equal::<T>(),
        runs(requests, outs1, states1),
        runs(requests, outs2, states2),
        states1[0] == states2[0],
        0 <= n <= requests.len(),
    ensures
        forall|i: int| 0 <= i < n ==> outs1[i] == outs2[i],
        forall|i: int| 0 <= i <= n ==> states1[i] == states2[i],
    decreases n,
{
    if n > 0 {
        lemma_runs_agree_so_far(requests, outs1, states1, outs2, states2, n - 1);
        assert(answers(states1[n - 1], requests[n - 1], outs1[n - 1], states1[n]));
        assert(answers(states2[n - 1], requests[n - 1], outs2[n - 1], states2[n]));
        lemma_answer_is_determined(
            states1[n - 1],
            requests[n - 1],
            outs1[n - 1],
            states1[n],
            outs2[n - 1],
            states2[n],
        );
    }
}

/// `s` is what may come out of a max-heap that holds `m` when `Pop` is
/// requested until nothing is left.
pub open spec fn drains<T: Ord>(m: Multiset<T>, s: Seq<T>) -> bool
    decreases s.len(),
{
    if s.len() == 0 {
        answers(m, Request::Pop, None, m)
    } else {
        answers(m, Request::Pop, Some(s[0]), m.remove(s[0])) && drains(
            m.remove(s[0]),
            s.drop_first(),
        )
    }
}

/// No item of `s` is above one that stands before it.
pub open spec fn descending<T: Ord>(s: Seq<T>) -> bool {
    forall|i: int, j: int| 0 <= i <= j < s.len() ==> le(s[j], s[i])
}

/// Emptying a multiset by its greatest items yields all its items, each as
/// often as the multiset held it, in descending order.
pub proof fn lemma_drain_is_sorted_items<T: Ord>(m: Multiset<T>, s: Seq<T>)
    requires
        total_order::<T>(),
        drains(m, s),
    ensures
        s.to_multiset() == m,
        s.len() == m.len(),
        descending(s),
    decreases s.len(),
{
    if s.len() == 0 {
        to_multiset_len(s);
        lemma_multiset_empty_len(m);
        lemma_multiset_empty_len(s.to_multiset());
    } else {
        let rest = s.drop_first();
        lemma_drain_is_sorted_items(m.remove(s[0]), rest);
        assert(s =~= seq![s[0]] + rest);
        lemma_first_counts(s[0], rest);
        assert(s.to_multiset() =~= m);
        to_multiset_len(s);
        assert forall|i: int, j: int| 0 <= i <= j < s.len() implies le(s[j], s[i]) by {
            if i == 0 {
                assert(m.count(s[j]) > 0) by {
                    to_multiset_contains(s, s[j]);
                }
            } else {
                assert(rest[i - 1] == s[i] && rest[j - 1] == s[j]);
            }
        }
    }
}

/// Where only equal items are tied, a multiset drains in one way only: two
/// heaps of the same items hand them out in the same order.
pub proof fn lemma_drain_is_determined<T: Ord>(m: Multiset<T>, s: Seq<T>, t: Seq<T>)
    requires
        total_order::<T>(),
        ties_are_equal::<T>(),
        drains(m, s),
        drains(m, t),
    ensures
        s == t,
    decreases s.len(),
{
    lemma_drain_is_sorted_items(m, s);
    lemma_drain_is_sorted_items(m, t);
    if s.len() > 0 {
        lemma_greatest_is_unique(m, s[0], t[0]);
        lemma_drain_is_determined(m.remove(s[0]), s.drop_first(), t.drop_first());
        assert(s =~= seq![s[0]] + s.drop_first());
        assert(t =~= seq![t[0]] + t.drop_first());
    }
    assert(s =~= t);
}

/// `copies` holds, place by place, a clone of what `sources` holds.
pub open spec fn clones_of<T: Clone>(sources: Seq<T>, copies: Seq<T>) -> bool {
    &&& copies.len() == sources.len()
    &&& forall|i: int| 0 <= i < sources.len() ==> cloned(sources[i], #[trigger] copies[i])
}

/// A clone of an item of type `T` is equal to the item, as with the integers.
pub open spec fn clones_are_equal<T: Clone>() -> bool {
    forall|a: T, b: T| #[trigger] cloned(a, b) ==> a == b
}

/// One more clone, of the next source, keeps the copies in step with the
/// sources.
pub proof fn lemma_one_more_clone<T: Clone>(sources: Seq<T>, copies: Seq<T>, copy: T)
    requires
        copies.len() < sources.len(),
        clones_of(sources.take(copies.len() as int), copies),
        cloned(sources[copies.len() as int], copy),
    ensures
        clones_of(sources.take(copies.len() as int + 1), copies.push(copy)),
        copies.push(copy).to_multiset() == copies.to_multiset().insert(copy),
        copies.to_multiset().len() == copies.len(),
        sources.skip(copies.len() as int).drop_first() == sources.skip(
            copies.len() as int + 1,
        ),
{
    let k = copies.len() as int;
    to_multiset_build(copies, copy);
    to_multiset_len(copies);
    assert(sources.skip(k).drop_first() =~= sources.skip(k + 1));
    assert forall|i: int| 0 <= i < k + 1 implies cloned(
        sources.take(k + 1)[i],
        #[trigger] copies.push(copy)[i],
    ) by {
        if i < k {
            assert(sources.take(k)[i] == sources[i]);
            assert(copies.push(copy)[i] == copies[i]);
        }
    }
}

/// Where clones are equal to their sources, so are sequences of them.
pub proof fn lemma_equal_clones<T: Clone>(sources: Seq<T>, copies: Seq<T>)
    requires
        clones_of(sources, copies),
        clones_are_equal::<T>(),
    ensures
        copies == sources,
{
    assert forall|i: int| 0 <= i < sources.len() implies copies[i] == sources[i] by {
        assert(cloned(sources[i], copies[i]));
    }
    assert(copies =~= sources);
}

} // verus!
