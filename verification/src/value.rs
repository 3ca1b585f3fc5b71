//! Core data model: symbolic column names, scalar values, tuples, and the
//! column-projection helpers shared by every relation node.

use vstd::prelude::*;

verus! {

/// A symbolic column name, drawn from the query's variable namespace.
/// Bindings are compared by value; within a single relation the binding
/// list has unique entries.
#[derive(Clone, Copy, PartialEq, Eq, Structural, Debug)]
pub struct Binding(pub u64);

/// A scalar value.  The `EnId` tag is distinguished: entity ids participate
/// in reference-typed attribute joins.  Equality is structural.
#[derive(Clone, Copy, PartialEq, Eq, Structural, Debug)]
pub enum DataValue {
    Null,
    Bool(bool),
    Int(i64),
    EnId(u64),
}

/// An ordered sequence of values.  Positions correspond 1:1 to a binding
/// list known from context; tuples are never self-describing.
#[derive(Clone, PartialEq, Eq, Debug)]
pub struct Tuple(pub Vec<DataValue>);

impl View for Tuple {
    type V = Seq<DataValue>;

    open spec fn view(&self) -> Seq<DataValue> {
        self.0@
    }
}

/// An element-wise copy of a value vector.
pub fn copy_values(v: &Vec<DataValue>) -> (r: Vec<DataValue>)
    ensures
        r@ == v@,
{
    let mut out: Vec<DataValue> = Vec::new();
    let mut i: usize = 0;
    while i < v.len()
        invariant
            0 <= i <= v@.len(),
            out@ == v@.take(i as int),
        decreases v@.len() - i,
    {
        out.push(v[i]);
        proof {
            assert(out@ =~= v@.take(i + 1));
        }
        i = i + 1;
    }
    proof {
        assert(v@.take(v@.len() as int) =~= v@);
    }
    out
}

impl Tuple {
    /// A copy of this tuple with the same values.
    pub fn duplicate(&self) -> (r: Tuple)
        ensures
            r@ == self@,
    {
        Tuple(copy_values(&self.0))
    }
}

impl DataValue {
    /// The entity id a reference join reads from this value; any other tag
    /// is a type error.
    pub fn get_entity_id(&self) -> (res: Result<u64, QueryError>)
        ensures
            *self is EnId ==> res == Ok::<u64, QueryError>(self->EnId_0),
            !(*self is EnId) ==> res == Err::<u64, QueryError>(QueryError::EntityIdExpected),
    {
        match self {
            DataValue::EnId(e) => Ok(*e),
            _ => Err(QueryError::EntityIdExpected),
        }
    }
}

/// An element-wise copy of a binding list.
pub fn copy_bindings(v: &Vec<Binding>) -> (r: Vec<Binding>)
    ensures
        r@ == v@,
{
    let mut out: Vec<Binding> = Vec::new();
    let mut i: usize = 0;
    while i < v.len()
        invariant
            0 <= i <= v@.len(),
            out@ == v@.take(i as int),
        decreases v@.len() - i,
    {
        out.push(v[i]);
        proof {
            assert(out@ =~= v@.take(i + 1));
        }
        i = i + 1;
    }
    proof {
        assert(v@.take(v@.len() as int) =~= v@);
    }
    out
}

/// True iff `ids` holds `x`.
pub fn contains_id(ids: &Vec<u64>, x: u64) -> (r: bool)
    ensures
        r == ids@.contains(x),
{
    let mut i: usize = 0;
    while i < ids.len()
        invariant
            0 <= i <= ids@.len(),
            forall|j: int| 0 <= j < i ==> ids@[j] != x,
        decreases ids@.len() - i,
    {
        if ids[i] == x {
            assert(ids@[i as int] == x);
            return true;
        }
        i = i + 1;
    }
    false
}

/// The sequences of `usize` indices as mathematical integers.
pub open spec fn idx_views(s: Seq<usize>) -> Seq<int> {
    s.map_values(|u: usize| u as int)
}

/// Projection keeps one value per binding position not named by the
/// elimination set: its length is that of the surviving binding list.
pub proof fn lemma_project_len(t: Seq<DataValue>, b: Seq<Binding>, e: Seq<Binding>)
    requires
        t.len() <= b.len(),
    ensures
        project_away(t, b, e).len() == remove_bindings(b.take(t.len() as int), e).len(),
    decreases t.len(),
{
    if t.len() == 0 {
    } else {
        lemma_project_len(t.drop_last(), b, e);
        assert(b.take(t.len() as int).drop_last() =~= b.take(t.len() - 1));
        assert(b.take(t.len() as int).last() == b[t.len() - 1]);
    }
}

/// With an empty elimination set, projection is the identity.
pub proof fn lemma_project_empty(t: Seq<DataValue>, b: Seq<Binding>)
    ensures
        project_away(t, b, Seq::empty()) == t,
    decreases t.len(),
{
    if t.len() == 0 {
        assert(project_away(t, b, Seq::empty()) =~= t);
    } else {
        lemma_project_empty(t.drop_last(), b);
        assert(!Seq::<Binding>::empty().contains(b[t.len() - 1]));
        assert(project_away(t, b, Seq::empty()) =~= t.drop_last().push(t.last()));
        assert(t.drop_last().push(t.last()) =~= t);
    }
}

/// After a push, membership is membership before or equality with the
/// pushed element.
pub proof fn lemma_contains_push<T>(s: Seq<T>, x: T)
    ensures
        forall|y: T| #[trigger] s.push(x).contains(y) <==> s.contains(y) || y == x,
{
    assert forall|y: T| #[trigger] s.push(x).contains(y) <==> s.contains(y) || y == x by {
        if s.contains(y) {
            let j = choose|j: int| 0 <= j < s.len() && s[j] == y;
            assert(s.push(x)[j] == y);
        }
        if y == x {
            assert(s.push(x)[s.len() as int] == y);
        }
        if s.push(x).contains(y) {
            let j = choose|j: int| 0 <= j < s.push(x).len() && s.push(x)[j] == y;
            if j < s.len() {
                assert(s[j] == y);
            }
        }
    }
}

/// The views of a sequence of tuples.
pub open spec fn tuple_views(ts: Seq<Tuple>) -> Seq<Seq<DataValue>> {
    ts.map_values(|t: Tuple| t@)
}

/// Everything that can go wrong while planning or running a query.
/// Logic errors are structural violations detected at plan time and carry
/// the offending binding where one exists.
#[derive(Clone, Copy, PartialEq, Eq, Structural, Debug)]
pub enum QueryError {
    /// A join key names a binding absent from the left bindings.
    MissingLeftJoinKey { key: Binding },
    /// A join key names a binding absent from the right bindings.
    MissingRightJoinKey { key: Binding },
    /// The right-side join indices of a triple join are not one of the
    /// structurally possible shapes.
    InvalidTripleJoinKeys,
    /// A reorder node stands as the right child of a join.
    JoinOnReordered,
    /// A reorder's new order is not a permutation of its child's bindings.
    ReorderNotPermutation { key: Binding },
    /// An entity id was required but the value carries another tag.
    EntityIdExpected,
    /// A predicate was evaluated before its binding indices were resolved,
    /// or an index fell outside the tuple.
    UnresolvedPredicate,
    /// A tuple's length does not fit the binding list it flows through, or
    /// a positional index falls outside its tuple.
    ArityMismatch,
}

/// True iff `bs` holds `b`.
pub fn bindings_contain(bs: &Vec<Binding>, b: Binding) -> (r: bool)
    ensures
        r == bs@.contains(b),
{
    let mut i: usize = 0;
    while i < bs.len()
        invariant
            0 <= i <= bs@.len(),
            forall|j: int| 0 <= j < i ==> bs@[j] != b,
        decreases bs@.len() - i,
    {
        if bs[i] == b {
            assert(bs@[i as int] == b);
            return true;
        }
        i = i + 1;
    }
    false
}

/// The values of `t` whose positions (under the aligned binding list
/// `bindings`) are not named by `elim`, in original order.
pub open spec fn project_away(
    t: Seq<DataValue>,
    bindings: Seq<Binding>,
    elim: Seq<Binding>,
) -> Seq<DataValue>
    decreases t.len(),
{
    if t.len() == 0 {
        Seq::empty()
    } else {
        let rest = project_away(t.drop_last(), bindings, elim);
        if elim.contains(bindings[t.len() - 1]) {
            rest
        } else {
            rest.push(t.last())
        }
    }
}

/// Drops from `t` the positions whose binding is named by `elim`.
pub fn project_tuple(t: &Tuple, bindings: &Vec<Binding>, elim: &Vec<Binding>) -> (r: Tuple)
    requires
        t@.len() == bindings@.len(),
    ensures
        r@ == project_away(t@, bindings@, elim@),
{
    let mut out: Vec<DataValue> = Vec::new();
    let mut i: usize = 0;
    while i < t.0.len()
        invariant
            0 <= i <= t@.len(),
            t@.len() == bindings@.len(),
            out@ == project_away(t@.take(i as int), bindings@, elim@),
        decreases t@.len() - i,
    {
        proof {
            assert(t@.take(i + 1).drop_last() =~= t@.take(i as int));
            assert(t@.take(i + 1).last() == t@[i as int]);
        }
        if !bindings_contain(elim, bindings[i]) {
            out.push(t.0[i]);
        }
        i = i + 1;
    }
    proof {
        assert(t@.take(t@.len() as int) =~= t@);
    }
    Tuple(out)
}

/// The bindings of `bs` not named by `elim`, in original order.
pub open spec fn remove_bindings(bs: Seq<Binding>, elim: Seq<Binding>) -> Seq<Binding>
    decreases bs.len(),
{
    if bs.len() == 0 {
        Seq::empty()
    } else {
        let rest = remove_bindings(bs.drop_last(), elim);
        if elim.contains(bs.last()) {
            rest
        } else {
            rest.push(bs.last())
        }
    }
}

/// Drops from `bs` the bindings named by `elim`.
pub fn remove_bindings_exec(bs: &Vec<Binding>, elim: &Vec<Binding>) -> (r: Vec<Binding>)
    ensures
        r@ == remove_bindings(bs@, elim@),
{
    let mut out: Vec<Binding> = Vec::new();
    let mut i: usize = 0;
    while i < bs.len()
        invariant
            0 <= i <= bs@.len(),
            out@ == remove_bindings(bs@.take(i as int), elim@),
        decreases bs@.len() - i,
    {
        proof {
            assert(bs@.take(i + 1).drop_last() =~= bs@.take(i as int));
            assert(bs@.take(i + 1).last() == bs@[i as int]);
        }
        if !bindings_contain(elim, bs[i]) {
            out.push(bs[i]);
        }
        i = i + 1;
    }
    proof {
        assert(bs@.take(bs@.len() as int) =~= bs@);
    }
    out
}

/// The position of the first occurrence of `b` in `bs`, or `bs.len()` when
/// `b` does not occur.
pub open spec fn pos_of(bs: Seq<Binding>, b: Binding) -> int
    decreases bs.len(),
{
    if bs.len() == 0 {
        0
    } else if bs[0] == b {
        0
    } else {
        1 + pos_of(bs.subrange(1, bs.len() as int), b)
    }
}

/// `pos_of` finds the first occurrence: in range exactly when `b` occurs,
/// pointing at `b`, with nothing equal to `b` before it.
pub proof fn lemma_pos_of(bs: Seq<Binding>, b: Binding)
    ensures
        0 <= pos_of(bs, b) <= bs.len(),
        bs.contains(b) <==> pos_of(bs, b) < bs.len(),
        pos_of(bs, b) < bs.len() ==> bs[pos_of(bs, b)] == b,
        forall|j: int| 0 <= j < pos_of(bs, b) ==> bs[j] != b,
    decreases bs.len(),
{
    if bs.len() == 0 {
        assert(!bs.contains(b));
    } else if bs[0] == b {
        assert(bs.contains(b));
    } else {
        let tail = bs.subrange(1, bs.len() as int);
        lemma_pos_of(tail, b);
        assert(forall|j: int| 0 <= j < tail.len() ==> tail[j] == bs[j + 1]);
        assert forall|j: int| 0 <= j < pos_of(bs, b) implies bs[j] != b by {
            if j >= 1 {
                assert(tail[j - 1] != b);
            }
        }
        if tail.contains(b) {
            let j = choose|j: int| 0 <= j < tail.len() && tail[j] == b;
            assert(bs[j + 1] == b);
            assert(bs.contains(b));
        } else {
            if bs.contains(b) {
                let j = choose|j: int| 0 <= j < bs.len() && bs[j] == b;
                assert(j >= 1);
                assert(tail[j - 1] == b);
            }
        }
    }
}

/// Finds the first position of `b` in `bs`; `bs.len()` when absent.
pub fn find_binding(bs: &Vec<Binding>, b: Binding) -> (r: usize)
    ensures
        r as int == pos_of(bs@, b),
        r <= bs@.len(),
        bs@.contains(b) <==> (r as int) < bs@.len(),
        (r as int) < bs@.len() ==> bs@[r as int] == b,
{
    proof {
        lemma_pos_of(bs@, b);
    }
    let mut i: usize = 0;
    while i < bs.len()
        invariant
            0 <= i <= bs@.len(),
            forall|j: int| 0 <= j < i ==> bs@[j] != b,
        decreases bs@.len() - i,
    {
        if bs[i] == b {
            proof {
                lemma_pos_of_unique(bs@, b, i as int);
            }
            return i;
        }
        i = i + 1;
    }
    proof {
        if bs@.contains(b) {
            let j = choose|j: int| 0 <= j < bs@.len() && bs@[j] == b;
            assert(false);
        }
    }
    i
}

/// `pos_of` agrees with any witness of a first occurrence.
pub proof fn lemma_pos_of_unique(bs: Seq<Binding>, b: Binding, j: int)
    requires
        0 <= j < bs.len(),
        bs[j] == b,
        forall|k: int| 0 <= k < j ==> bs[k] != b,
    ensures
        pos_of(bs, b) == j,
    decreases bs.len(),
{
    if bs[0] == b {
        assert(j == 0);
    } else {
        let tail = bs.subrange(1, bs.len() as int);
        assert(forall|k: int| 0 <= k < tail.len() ==> tail[k] == bs[k + 1]);
        lemma_pos_of_unique(tail, b, j - 1);
    }
}

/// The positions in `bindings` whose binding is named by `eliminate`,
/// in ascending order.
pub open spec fn eliminate_indices_spec(
    bindings: Seq<Binding>,
    eliminate: Seq<Binding>,
) -> Seq<int>
    decreases bindings.len(),
{
    if bindings.len() == 0 {
        Seq::empty()
    } else {
        let rest = eliminate_indices_spec(bindings.drop_last(), eliminate);
        if eliminate.contains(bindings.last()) {
            rest.push(bindings.len() - 1)
        } else {
            rest
        }
    }
}

/// Translates a set of bindings to eliminate into the positions they hold
/// in `bindings`, ascending.
pub fn get_eliminate_indices(bindings: &Vec<Binding>, eliminate: &Vec<Binding>) -> (r: Vec<usize>)
    ensures
        r@.map_values(|u: usize| u as int) == eliminate_indices_spec(bindings@, eliminate@),
{
    let mut out: Vec<usize> = Vec::new();
    let mut i: usize = 0;
    while i < bindings.len()
        invariant
            0 <= i <= bindings@.len(),
            out@.map_values(|u: usize| u as int)
                == eliminate_indices_spec(bindings@.take(i as int), eliminate@),
        decreases bindings@.len() - i,
    {
        proof {
            assert(bindings@.take(i + 1).drop_last() =~= bindings@.take(i as int));
            assert(bindings@.take(i + 1).last() == bindings@[i as int]);
        }
        if bindings_contain(eliminate, bindings[i]) {
            out.push(i);
            proof {
                assert(out@.map_values(|u: usize| u as int)
                    =~= out@.drop_last().map_values(|u: usize| u as int).push(i as int));
            }
        }
        i = i + 1;
    }
    proof {
        assert(bindings@.take(bindings@.len() as int) =~= bindings@);
    }
    out
}

} // verus!
