//! Spec-level building blocks: order-preserving filters, key matching, and
//! the abstract (nested-loop) semantics of an equi-join, against which every
//! physical join strategy is proved.

use vstd::prelude::*;
use crate::value::{project_away, Binding, DataValue};

verus! {

/// The elements of `s` satisfying `p`, in original order.
pub open spec fn filter_seq<T>(s: Seq<T>, p: spec_fn(T) -> bool) -> Seq<T>
    decreases s.len(),
{
    if s.len() == 0 {
        Seq::empty()
    } else {
        let rest = filter_seq(s.drop_last(), p);
        if p(s.last()) {
            rest.push(s.last())
        } else {
            rest
        }
    }
}

/// Filtering by `p` and then by `q` filters by their conjunction.
pub proof fn lemma_filter_seq_compose<T>(s: Seq<T>, p: spec_fn(T) -> bool, q: spec_fn(T) -> bool)
    ensures
        filter_seq(filter_seq(s, p), q)
            == filter_seq(s, |x: T| p(x) && q(x)),
    decreases s.len(),
{
    if s.len() == 0 {
    } else {
        lemma_filter_seq_compose(s.drop_last(), p, q);
        if p(s.last()) && !q(s.last()) {
            assert(filter_seq(s, p).last() == s.last());
            assert(filter_seq(s, p).drop_last() =~= filter_seq(s.drop_last(), p));
        } else if p(s.last()) && q(s.last()) {
            assert(filter_seq(s, p).drop_last() =~= filter_seq(s.drop_last(), p));
        }
        assert(filter_seq(filter_seq(s, p), q)
            =~= filter_seq(s, |x: T| p(x) && q(x)));
    }
}

/// Filters by predicates that agree on every element of `s` are equal.
pub proof fn lemma_filter_seq_equiv<T>(s: Seq<T>, p: spec_fn(T) -> bool, q: spec_fn(T) -> bool)
    requires
        forall|i: int| 0 <= i < s.len() ==> (p(#[trigger] s[i]) <==> q(s[i])),
    ensures
        filter_seq(s, p) == filter_seq(s, q),
    decreases s.len(),
{
    if s.len() == 0 {
    } else {
        assert(s.last() == s[s.len() - 1]);
        assert(forall|i: int| 0 <= i < s.drop_last().len()
            ==> #[trigger] s.drop_last()[i] == s[i]);
        lemma_filter_seq_equiv(s.drop_last(), p, q);
    }
}

/// A filter's result is a pointwise-smaller sequence: every element was in
/// the input and satisfies the predicate.
pub proof fn lemma_filter_seq_membership<T>(s: Seq<T>, p: spec_fn(T) -> bool)
    ensures
        forall|i: int| 0 <= i < filter_seq(s, p).len()
            ==> p(#[trigger] filter_seq(s, p)[i]) && s.contains(filter_seq(s, p)[i]),
    decreases s.len(),
{
    if s.len() == 0 {
    } else {
        lemma_filter_seq_membership(s.drop_last(), p);
        let rest = filter_seq(s.drop_last(), p);
        assert forall|x: T| s.drop_last().contains(x) implies s.contains(x) by {
            let j = choose|j: int| 0 <= j < s.drop_last().len() && s.drop_last()[j] == x;
            assert(s[j] == x);
        }
        assert(s.contains(s.last())) by {
            assert(s[s.len() - 1] == s.last());
        }
        assert forall|i: int| 0 <= i < filter_seq(s, p).len()
            implies p(#[trigger] filter_seq(s, p)[i]) && s.contains(filter_seq(s, p)[i]) by {
            if p(s.last()) && i == filter_seq(s, p).len() - 1 {
                assert(filter_seq(s, p)[i] == s.last());
            } else {
                assert(filter_seq(s, p)[i] == rest[i]);
            }
        }
    }
}

/// A filter holds exactly the input's elements that satisfy the predicate.
pub proof fn lemma_filter_seq_contains<T>(s: Seq<T>, p: spec_fn(T) -> bool)
    ensures
        forall|y: T| #[trigger] filter_seq(s, p).contains(y) <==> s.contains(y) && p(y),
    decreases s.len(),
{
    if s.len() == 0 {
        assert forall|y: T| #[trigger] filter_seq(s, p).contains(y) <==> s.contains(y) && p(y) by {
            assert(!filter_seq(s, p).contains(y));
            assert(!s.contains(y));
        }
    } else {
        lemma_filter_seq_contains(s.drop_last(), p);
        let rest = filter_seq(s.drop_last(), p);
        assert forall|y: T| #[trigger] filter_seq(s, p).contains(y) <==> s.contains(y) && p(y) by {
            crate::value::lemma_contains_push(rest, s.last());
            assert(s =~= s.drop_last().push(s.last()));
            crate::value::lemma_contains_push(s.drop_last(), s.last());
            if p(s.last()) {
                assert(filter_seq(s, p) == rest.push(s.last()));
            }
        }
    }
}

/// Membership in a concatenation is membership in either part.
pub proof fn lemma_contains_concat<T>(a: Seq<T>, b: Seq<T>)
    ensures
        forall|y: T| #[trigger] (a + b).contains(y) <==> a.contains(y) || b.contains(y),
{
    assert forall|y: T| #[trigger] (a + b).contains(y) <==> a.contains(y) || b.contains(y) by {
        if a.contains(y) {
            let j = choose|j: int| 0 <= j < a.len() && a[j] == y;
            assert((a + b)[j] == y);
        }
        if b.contains(y) {
            let j = choose|j: int| 0 <= j < b.len() && b[j] == y;
            assert((a + b)[a.len() + j] == y);
        }
        if (a + b).contains(y) {
            let j = choose|j: int| 0 <= j < (a + b).len() && (a + b)[j] == y;
            if j < a.len() {
                assert(a[j] == y);
            } else {
                assert(b[j - a.len()] == y);
            }
        }
    }
}

/// Filtering commutes with mapping: filtering the mapped sequence by `q`
/// equals mapping the sequence filtered by `p`, when `q` after the map
/// agrees with `p`.
pub proof fn lemma_filter_map_commute<T, U>(
    s: Seq<T>,
    f: spec_fn(T) -> U,
    p: spec_fn(T) -> bool,
    q: spec_fn(U) -> bool,
)
    requires
        forall|i: int| 0 <= i < s.len() ==> (p(#[trigger] s[i]) <==> q(f(s[i]))),
    ensures
        filter_seq(s.map_values(f), q) == filter_seq(s, p).map_values(f),
    decreases s.len(),
{
    if s.len() == 0 {
        assert(s.map_values(f) =~= Seq::<U>::empty());
        assert(filter_seq(s, p).map_values(f) =~= Seq::<U>::empty());
    } else {
        assert(forall|i: int| 0 <= i < s.drop_last().len()
            ==> #[trigger] s.drop_last()[i] == s[i]);
        lemma_filter_map_commute(s.drop_last(), f, p, q);
        assert(s.map_values(f).drop_last() =~= s.drop_last().map_values(f));
        assert(s.map_values(f).last() == f(s.last()));
        assert(s.last() == s[s.len() - 1]);
        if p(s.last()) {
            assert(filter_seq(s, p).map_values(f)
                =~= filter_seq(s.drop_last(), p).map_values(f).push(f(s.last())));
        }
    }
}

/// The probe tuple `l` and candidate tuple `r` agree on every paired join
/// position.
pub open spec fn key_match(
    l: Seq<DataValue>,
    r: Seq<DataValue>,
    li: Seq<int>,
    ri: Seq<int>,
) -> bool {
    forall|i: int| 0 <= i < li.len() ==> l[#[trigger] li[i]] == r[ri[i]]
}

/// The candidate tuples of `rs` matching the probe tuple `l` on the paired
/// join positions, in order.
pub open spec fn matches_for(
    l: Seq<DataValue>,
    rs: Seq<Seq<DataValue>>,
    li: Seq<int>,
    ri: Seq<int>,
) -> Seq<Seq<DataValue>> {
    filter_seq(rs, |r: Seq<DataValue>| key_match(l, r, li, ri))
}

/// What a join emits for one probe tuple: each matching candidate appended
/// to the probe, with the positions named by `elim` (under the concatenated
/// binding list `bindings`) projected out.
pub open spec fn join_outputs_for(
    l: Seq<DataValue>,
    rs: Seq<Seq<DataValue>>,
    li: Seq<int>,
    ri: Seq<int>,
    bindings: Seq<Binding>,
    elim: Seq<Binding>,
) -> Seq<Seq<DataValue>> {
    matches_for(l, rs, li, ri).map_values(|r: Seq<DataValue>| project_away(l + r, bindings, elim))
}

/// The abstract semantics of an inner equi-join: left-child-driven, with
/// every matching candidate of the right side emitted per probe tuple.
pub open spec fn join_sem(
    ls: Seq<Seq<DataValue>>,
    rs: Seq<Seq<DataValue>>,
    li: Seq<int>,
    ri: Seq<int>,
    bindings: Seq<Binding>,
    elim: Seq<Binding>,
) -> Seq<Seq<DataValue>>
    decreases ls.len(),
{
    if ls.len() == 0 {
        Seq::empty()
    } else {
        join_sem(ls.drop_last(), rs, li, ri, bindings, elim)
            + join_outputs_for(ls.last(), rs, li, ri, bindings, elim)
    }
}

/// The probe tuples of `ls` for which no candidate of `rs` matches, in
/// order: the semantics of a negated join.
pub open spec fn neg_join_sem(
    ls: Seq<Seq<DataValue>>,
    rs: Seq<Seq<DataValue>>,
    li: Seq<int>,
    ri: Seq<int>,
) -> Seq<Seq<DataValue>> {
    filter_seq(ls, |l: Seq<DataValue>| matches_for(l, rs, li, ri).len() == 0)
}

} // verus!
