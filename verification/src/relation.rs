//! The relation tree: inline fixed tables, triple scans, derived stores,
//! inner joins, reorderings and filters, together with the binding lists
//! they announce, the temp-variable elimination pass, and the abstract
//! semantics (`sem`) every physical execution strategy is proved against.

use vstd::prelude::*;
use crate::expr::{expr_bindings_spec, expr_filled, expr_indices_ok, pred_holds, Expr};
use crate::sem::{filter_seq, join_sem, key_match};
use crate::storage::{
    facts_for_attr, rows_for_epoch, SessionTx, TempStore, TempStoreId, TripleFact,
};
use crate::value::{
    bindings_contain, copy_bindings, lemma_contains_push, pos_of, project_away, remove_bindings,
    remove_bindings_exec, Binding, DataValue, QueryError, Tuple,
};

verus! {

/// Immutable metadata of a triple-kind column: its identifier, whether its
/// value type is a reference (values are entity ids), and whether it is
/// indexed by value.
#[derive(Clone, Copy, PartialEq, Eq, Structural, Debug)]
pub struct Attribute {
    pub id: u64,
    pub val_is_ref: bool,
    pub val_indexed: bool,
}

/// An inline literal table with declared column names.  The `Unit` form
/// (no bindings, one empty row) is the identity for cartesian join.
pub struct InlineFixedRelation {
    pub bindings: Vec<Binding>,
    pub data: Vec<Vec<DataValue>>,
    pub to_eliminate: Vec<Binding>,
}

/// A scan over (entity, attribute, value) facts at a fixed validity, with
/// an entity column and a value column.
pub struct TripleRelation {
    pub attr: Attribute,
    pub vld: u64,
    pub e_binding: Binding,
    pub v_binding: Binding,
}

/// A scan over a named temp store, supporting epoch-aware delta reads for
/// semi-naive evaluation.
pub struct StoredDerivedRelation {
    pub bindings: Vec<Binding>,
    pub storage: TempStore,
}

/// A projection that permutes the child's output columns.
pub struct ReorderRelation {
    pub relation: Box<Relation>,
    pub new_order: Vec<Binding>,
}

/// A predicate filter over a parent relation.
pub struct FilteredRelation {
    pub parent: Box<Relation>,
    pub pred: Expr,
    pub to_eliminate: Vec<Binding>,
}

/// The equi-join keys of an inner join, by name: equal-length lists whose
/// corresponding positions name columns to be equated.
pub struct Joiner {
    pub left_keys: Vec<Binding>,
    pub right_keys: Vec<Binding>,
}

/// An inner join; the physical strategy is chosen from the structural shape
/// of the right child.
pub struct InnerJoin {
    pub left: Relation,
    pub right: Relation,
    pub joiner: Joiner,
    pub to_eliminate: Vec<Binding>,
}

/// A relation node: a closed sum, so that a join can inspect its right
/// child's shape to pick a physical strategy.
pub enum Relation {
    Fixed(InlineFixedRelation),
    Triple(TripleRelation),
    Derived(StoredDerivedRelation),
    Join(Box<InnerJoin>),
    Reorder(ReorderRelation),
    Filter(FilteredRelation),
}

/// The tuple a triple fact contributes to a scan: entity id, then value.
pub open spec fn fact_tuple(f: TripleFact) -> Seq<DataValue> {
    seq![DataValue::EnId(f.entity), f.value]
}

/// The tuples of a sequence of facts, in order.
pub open spec fn triple_tuples(fs: Seq<TripleFact>) -> Seq<Seq<DataValue>> {
    fs.map_values(|f: TripleFact| fact_tuple(f))
}

/// The output bindings of `r` after its own elimination set is applied.
pub open spec fn bindings_after(r: Relation) -> Seq<Binding>
    decreases r,
{
    match r {
        Relation::Fixed(f) => remove_bindings(f.bindings@, f.to_eliminate@),
        Relation::Triple(t) => seq![t.e_binding, t.v_binding],
        Relation::Derived(d) => d.bindings@,
        Relation::Join(j) => remove_bindings(
            bindings_after(j.left) + bindings_after(j.right),
            j.to_eliminate@,
        ),
        Relation::Reorder(ro) => ro.new_order@,
        Relation::Filter(f) => remove_bindings(bindings_after(*f.parent), f.to_eliminate@),
    }
}

/// The output bindings of `r` before its own elimination set is applied.
pub open spec fn bindings_before(r: Relation) -> Seq<Binding> {
    match r {
        Relation::Fixed(f) => f.bindings@,
        Relation::Triple(t) => seq![t.e_binding, t.v_binding],
        Relation::Derived(d) => d.bindings@,
        Relation::Join(j) => bindings_after(j.left) + bindings_after(j.right),
        Relation::Reorder(ro) => ro.new_order@,
        Relation::Filter(f) => bindings_after(*f.parent),
    }
}

/// The node's own elimination set (empty for nodes that carry none).
pub open spec fn elim_seq(r: Relation) -> Seq<Binding> {
    match r {
        Relation::Fixed(f) => f.to_eliminate@,
        Relation::Triple(_) => Seq::empty(),
        Relation::Derived(_) => Seq::empty(),
        Relation::Join(j) => j.to_eliminate@,
        Relation::Reorder(_) => Seq::empty(),
        Relation::Filter(f) => f.to_eliminate@,
    }
}

/// The epoch a derived store is read at: `None` and stores outside the
/// delta set read the full store (epoch 0); a store in the delta set reads
/// the previous epoch's delta.
pub open spec fn scan_epoch_spec(ep: Option<u32>, delta: Seq<u64>, id: TempStoreId) -> u32 {
    match ep {
        Option::None => 0u32,
        Option::Some(e) => if e >= 1 && delta.contains(id) {
            (e - 1) as u32
        } else {
            0u32
        },
    }
}

/// What a derived relation yields: empty at epoch 0, otherwise the store's
/// contents at the chosen scan epoch.
pub open spec fn derived_sem(
    d: StoredDerivedRelation,
    ep: Option<u32>,
    delta: Seq<u64>,
) -> Seq<Seq<DataValue>> {
    if ep == Option::Some(0u32) {
        Seq::empty()
    } else {
        rows_for_epoch(d.storage.rows@, scan_epoch_spec(ep, delta, d.storage.id))
    }
}

/// The positions the named keys hold in a binding list.
pub open spec fn key_indices(keys: Seq<Binding>, bs: Seq<Binding>) -> Seq<int> {
    keys.map_values(|k: Binding| pos_of(bs, k))
}

/// What a reorder yields: each child tuple permuted into `new_order`.
pub open spec fn reorder_sem(
    ts: Seq<Seq<DataValue>>,
    child_after: Seq<Binding>,
    new_order: Seq<Binding>,
) -> Seq<Seq<DataValue>> {
    ts.map_values(
        |t: Seq<DataValue>| Seq::new(new_order.len(), |j: int| t[pos_of(child_after, new_order[j])]),
    )
}

/// The abstract semantics of a relation tree against the snapshot `ts`:
/// the exact sequence of tuples `iter` yields on a well-formed plan.
/// Joins are stated denotationally (left-driven nested loop); the physical
/// strategies are proved equal to this.
pub open spec fn sem(
    r: Relation,
    ts: Seq<TripleFact>,
    ep: Option<u32>,
    delta: Seq<u64>,
) -> Seq<Seq<DataValue>>
    decreases r,
{
    match r {
        Relation::Fixed(f) => f.data@.map_values(
            |row: Vec<DataValue>| project_away(row@, f.bindings@, f.to_eliminate@),
        ),
        Relation::Triple(t) => triple_tuples(facts_for_attr(ts, t.attr.id, t.vld)),
        Relation::Derived(d) => derived_sem(d, ep, delta),
        Relation::Join(j) => join_sem(
            sem(j.left, ts, ep, delta),
            sem(j.right, ts, ep, delta),
            key_indices(j.joiner.left_keys@, bindings_after(j.left)),
            key_indices(j.joiner.right_keys@, bindings_after(j.right)),
            bindings_after(j.left) + bindings_after(j.right),
            j.to_eliminate@,
        ),
        Relation::Reorder(ro) => reorder_sem(
            sem(*ro.relation, ts, ep, delta),
            bindings_after(*ro.relation),
            ro.new_order@,
        ),
        Relation::Filter(f) => filter_seq(
            sem(*f.parent, ts, ep, delta),
            |t: Seq<DataValue>| pred_holds(f.pred, t),
        ).map_values(
            |t: Seq<DataValue>| project_away(t, bindings_after(*f.parent), f.to_eliminate@),
        ),
    }
}

/// No binding occurs twice.
pub open spec fn no_dup(bs: Seq<Binding>) -> bool {
    forall|i: int, j: int| 0 <= i < j < bs.len() ==> bs[i] != bs[j]
}

/// Every key occurs in `bs`.
pub open spec fn all_contained(keys: Seq<Binding>, bs: Seq<Binding>) -> bool {
    forall|i: int| 0 <= i < keys.len() ==> bs.contains(#[trigger] keys[i])
}

/// The index sequence has pairwise distinct entries.
pub open spec fn idx_distinct(s: Seq<int>) -> bool {
    forall|i: int, j: int| 0 <= i < j < s.len() ==> s[i] != s[j]
}

/// The right-side join indices cover exactly `0..len`: the stored key order
/// can then be probed by prefix.
pub open spec fn ri_is_prefix(ri: Seq<int>) -> bool {
    idx_distinct(ri) && forall|i: int| 0 <= i < ri.len() ==> 0 <= #[trigger] ri[i] < ri.len()
}

/// The structurally possible right-index shapes of a triple join.
pub open spec fn triple_shape_ok(ri: Seq<int>) -> bool {
    ri.len() == 0 || (ri.len() == 1 && (ri[0] == 0 || ri[0] == 1)) || (ri.len() == 2 && ((ri[0]
        == 0 && ri[1] == 1) || (ri[0] == 1 && ri[1] == 0)))
}

/// Every probe tuple holds an entity id at position `idx`.
pub open spec fn probe_vals_enid(ls: Seq<Seq<DataValue>>, idx: int) -> bool {
    forall|i: int| 0 <= i < ls.len() ==> (#[trigger] ls[i])[idx] is EnId
}

/// The probe columns a triple join reads as entity ids do hold entity ids,
/// for the variant selected by the right-index shape.
pub open spec fn triple_probe_ok(
    attr: Attribute,
    ls: Seq<Seq<DataValue>>,
    li: Seq<int>,
    ri: Seq<int>,
) -> bool {
    if ri.len() == 2 {
        probe_vals_enid(
            ls,
            if ri[0] == 0 {
                li[0]
            } else {
                li[1]
            },
        )
    } else if ri.len() == 1 && ri[0] == 0 {
        probe_vals_enid(ls, li[0])
    } else if ri.len() == 1 && ri[0] == 1 && attr.val_is_ref {
        probe_vals_enid(ls, li[0])
    } else {
        true
    }
}

/// Conditions the right child of a join imposes on the plan and the probe
/// data, beyond both children being well-formed.
pub open spec fn join_right_ok(
    right: Relation,
    ls: Seq<Seq<DataValue>>,
    li: Seq<int>,
    ri: Seq<int>,
) -> bool {
    match right {
        Relation::Fixed(_) => true,
        Relation::Triple(t) => triple_shape_ok(ri) && triple_probe_ok(t.attr, ls, li, ri),
        Relation::Derived(_) => true,
        Relation::Join(_) => true,
        Relation::Filter(_) => true,
        Relation::Reorder(_) => false,
    }
}

/// Plan and data well-formedness: exactly the conditions under which
/// iteration is owed to succeed with the abstract semantics.
pub open spec fn rel_wf(r: Relation, ts: Seq<TripleFact>, ep: Option<u32>, delta: Seq<u64>) -> bool
    decreases r,
{
    match r {
        Relation::Fixed(f) => forall|i: int|
            0 <= i < f.data@.len() ==> (#[trigger] f.data@[i])@.len() == f.bindings@.len(),
        Relation::Triple(_) => true,
        Relation::Derived(d) => forall|i: int|
            0 <= i < d.storage.rows@.len() ==> (#[trigger] d.storage.rows@[i]).tuple@.len()
                == d.bindings@.len(),
        Relation::Join(j) => {
            let lb = bindings_after(j.left);
            let rb = bindings_after(j.right);
            &&& rel_wf(j.left, ts, ep, delta)
            &&& rel_wf(j.right, ts, ep, delta)
            &&& j.joiner.left_keys@.len() == j.joiner.right_keys@.len()
            &&& all_contained(j.joiner.left_keys@, lb)
            &&& all_contained(j.joiner.right_keys@, rb)
            &&& join_right_ok(
                j.right,
                sem(j.left, ts, ep, delta),
                key_indices(j.joiner.left_keys@, lb),
                key_indices(j.joiner.right_keys@, rb),
            )
        },
        Relation::Reorder(ro) => {
            &&& rel_wf(*ro.relation, ts, ep, delta)
            &&& all_contained(ro.new_order@, bindings_after(*ro.relation))
        },
        Relation::Filter(f) => {
            &&& rel_wf(*f.parent, ts, ep, delta)
            &&& expr_indices_ok(f.pred, bindings_after(*f.parent).len() as int)
        },
    }
}

/// The new elimination set extends the old with every own binding not in
/// `used` (membership-wise).
pub open spec fn elim_extended(
    old_elim: Seq<Binding>,
    new_elim: Seq<Binding>,
    own: Seq<Binding>,
    used: Seq<Binding>,
) -> bool {
    forall|b: Binding|
        new_elim.contains(b) <==> old_elim.contains(b) || (own.contains(b) && !used.contains(b))
}

/// Extends an elimination set with every own binding not in `used`.
pub fn extend_eliminate(elim: Vec<Binding>, own: &Vec<Binding>, used: &Vec<Binding>) -> (r: Vec<
    Binding,
>)
    ensures
        r@ == elim@ + filter_seq(own@, |b: Binding| !used@.contains(b)),
        elim_extended(elim@, r@, own@, used@),
{
    let ghost p = |b: Binding| !used@.contains(b);
    let mut out = elim;
    let ghost orig = out@;
    proof {
        assert(out@ =~= orig + filter_seq(own@.take(0), p));
    }
    let mut i: usize = 0;
    while i < own.len()
        invariant
            0 <= i <= own@.len(),
            p == (|b: Binding| !used@.contains(b)),
            out@ == orig + filter_seq(own@.take(i as int), p),
        decreases own@.len() - i,
    {
        proof {
            assert(own@.take(i + 1).drop_last() =~= own@.take(i as int));
            assert(own@.take(i + 1).last() == own@[i as int]);
        }
        if !bindings_contain(used, own[i]) {
            let ghost prev = out@;
            out.push(own[i]);
            proof {
                assert(out@ =~= orig + filter_seq(own@.take(i as int), p).push(own@[i as int]));
            }
        }
        i = i + 1;
    }
    proof {
        assert(own@.take(own@.len() as int) =~= own@);
        crate::sem::lemma_filter_seq_contains(own@, p);
        crate::sem::lemma_contains_concat(orig, filter_seq(own@, p));
    }
    out
}

/// Relates a tree to its image under the elimination pass with a given
/// `used` set: same skeleton, each elimination set extended by that node's
/// rule, children recursed into with the augmented `used`.
pub open spec fn eliminates_to(a: Relation, b: Relation, used: Seq<Binding>) -> bool
    decreases a,
{
    match (a, b) {
        (Relation::Fixed(f), Relation::Fixed(g)) => {
            &&& g.bindings@ == f.bindings@
            &&& g.data@ == f.data@
            &&& elim_extended(f.to_eliminate@, g.to_eliminate@, f.bindings@, used)
        },
        (Relation::Triple(t), Relation::Triple(u)) => u == t,
        (Relation::Derived(d), Relation::Derived(e)) => e == d,
        (Relation::Join(x), Relation::Join(y)) => {
            &&& y.joiner.left_keys@ == x.joiner.left_keys@
            &&& y.joiner.right_keys@ == x.joiner.right_keys@
            &&& elim_extended(
                x.to_eliminate@,
                y.to_eliminate@,
                bindings_after(x.left) + bindings_after(x.right),
                used,
            )
            &&& eliminates_to(x.left, y.left, used + x.joiner.left_keys@)
            &&& eliminates_to(x.right, y.right, used + x.joiner.right_keys@)
        },
        (Relation::Reorder(r1), Relation::Reorder(r2)) => {
            &&& r2.new_order@ == r1.new_order@
            &&& eliminates_to(*r1.relation, *r2.relation, used)
        },
        (Relation::Filter(f1), Relation::Filter(f2)) => {
            &&& f2.pred == f1.pred
            &&& elim_extended(
                f1.to_eliminate@,
                f2.to_eliminate@,
                bindings_before(*f1.parent),
                used,
            )
            &&& eliminates_to(*f1.parent, *f2.parent, used + expr_bindings_spec(f1.pred))
        },
        _ => false,
    }
}

/// Relates a tree to its image under the predicate index-fill pass: same
/// tree, with each filter's predicate resolved against its parent's
/// post-elimination bindings.
pub open spec fn filled_to(a: Relation, b: Relation) -> bool
    decreases a,
{
    match (a, b) {
        (Relation::Fixed(f), Relation::Fixed(g)) => g == f,
        (Relation::Triple(t), Relation::Triple(u)) => u == t,
        (Relation::Derived(d), Relation::Derived(e)) => e == d,
        (Relation::Join(x), Relation::Join(y)) => {
            &&& filled_to(x.left, y.left)
            &&& filled_to(x.right, y.right)
            &&& y.joiner.left_keys@ == x.joiner.left_keys@
            &&& y.joiner.right_keys@ == x.joiner.right_keys@
            &&& y.to_eliminate@ == x.to_eliminate@
        },
        (Relation::Reorder(r1), Relation::Reorder(r2)) => {
            &&& filled_to(*r1.relation, *r2.relation)
            &&& r2.new_order@ == r1.new_order@
        },
        (Relation::Filter(f1), Relation::Filter(f2)) => {
            &&& filled_to(*f1.parent, *f2.parent)
            &&& f2.to_eliminate@ == f1.to_eliminate@
            &&& f2.pred == expr_filled(f1.pred, bindings_after(*f2.parent))
        },
        _ => false,
    }
}

impl InlineFixedRelation {
    /// The identity for cartesian join: no bindings, one empty row.
    pub fn unit() -> (r: InlineFixedRelation)
        ensures
            r.bindings@.len() == 0,
            r.data@.len() == 1,
            r.data@[0]@.len() == 0,
            r.to_eliminate@.len() == 0,
    {
        let mut data: Vec<Vec<DataValue>> = Vec::new();
        data.push(Vec::new());
        InlineFixedRelation { bindings: Vec::new(), data, to_eliminate: Vec::new() }
    }

    /// Marks every own binding not in `used` for elimination.
    pub fn do_eliminate_temp_vars(self, used: &Vec<Binding>) -> (r: InlineFixedRelation)
        ensures
            r.bindings@ == self.bindings@,
            r.data@ == self.data@,
            elim_extended(self.to_eliminate@, r.to_eliminate@, self.bindings@, used@),
    {
        let InlineFixedRelation { bindings, data, to_eliminate } = self;
        let to_eliminate = extend_eliminate(to_eliminate, &bindings, used);
        InlineFixedRelation { bindings, data, to_eliminate }
    }
}

impl Relation {
    /// The unit relation.
    pub fn unit() -> (r: Relation)
        ensures
            r matches Relation::Fixed(f) && f.bindings@.len() == 0 && f.data@.len() == 1
                && f.data@[0]@.len() == 0 && f.to_eliminate@.len() == 0,
    {
        Relation::Fixed(InlineFixedRelation::unit())
    }

    /// True iff this is a fixed relation with no bindings and exactly one
    /// (empty) row.
    pub fn is_unit(&self) -> (r: bool)
        ensures
            r == (self matches Relation::Fixed(f) && f.bindings@.len() == 0 && f.data@.len()
                == 1),
    {
        if let Relation::Fixed(f) = self {
            f.bindings.len() == 0 && f.data.len() == 1
        } else {
            false
        }
    }

    /// An inline table.
    pub fn fixed(bindings: Vec<Binding>, data: Vec<Vec<DataValue>>) -> (r: Relation)
        ensures
            r matches Relation::Fixed(f) && f.bindings@ == bindings@ && f.data@ == data@
                && f.to_eliminate@.len() == 0,
    {
        Relation::Fixed(InlineFixedRelation { bindings, data, to_eliminate: Vec::new() })
    }

    /// An inline table of exactly one row.
    pub fn singlet(bindings: Vec<Binding>, data: Vec<DataValue>) -> (r: Relation)
        ensures
            r matches Relation::Fixed(f) && f.bindings@ == bindings@ && f.data@.len() == 1
                && f.data@[0]@ == data@ && f.to_eliminate@.len() == 0,
    {
        let mut rows: Vec<Vec<DataValue>> = Vec::new();
        rows.push(data);
        Relation::Fixed(InlineFixedRelation { bindings, data: rows, to_eliminate: Vec::new() })
    }

    /// A derived (temp-store) relation.
    pub fn derived(bindings: Vec<Binding>, storage: TempStore) -> (r: Relation)
        ensures
            r matches Relation::Derived(d) && d.bindings@ == bindings@ && d.storage.id
                == storage.id && d.storage.rows@ == storage.rows@,
    {
        Relation::Derived(StoredDerivedRelation { bindings, storage })
    }

    /// A triple scan over `attr` at validity `vld`, with an entity column
    /// and a value column.
    pub fn triple(attr: Attribute, vld: u64, e_binding: Binding, v_binding: Binding) -> (r:
        Relation)
        ensures
            r matches Relation::Triple(t) && t.attr == attr && t.vld == vld && t.e_binding
                == e_binding && t.v_binding == v_binding,
    {
        Relation::Triple(TripleRelation { attr, vld, e_binding, v_binding })
    }

    /// A reordering of this relation's columns.
    pub fn reorder(self, new_order: Vec<Binding>) -> (r: Relation)
        ensures
            r matches Relation::Reorder(ro) && *ro.relation == self && ro.new_order@
                == new_order@,
    {
        Relation::Reorder(ReorderRelation { relation: Box::new(self), new_order })
    }

    /// A predicate filter over this relation.
    pub fn filter(self, filter: Expr) -> (r: Relation)
        ensures
            r matches Relation::Filter(f) && *f.parent == self && f.pred == filter
                && f.to_eliminate@.len() == 0,
    {
        Relation::Filter(FilteredRelation {
            parent: Box::new(self),
            pred: filter,
            to_eliminate: Vec::new(),
        })
    }

    /// An inner join on named keys.
    pub fn join(self, right: Relation, left_keys: Vec<Binding>, right_keys: Vec<Binding>) -> (r:
        Relation)
        ensures
            r matches Relation::Join(j) && j.left == self && j.right == right
                && j.joiner.left_keys@ == left_keys@ && j.joiner.right_keys@ == right_keys@
                && j.to_eliminate@.len() == 0,
    {
        Relation::Join(
            Box::new(
                InnerJoin {
                    left: self,
                    right,
                    joiner: Joiner { left_keys, right_keys },
                    to_eliminate: Vec::new(),
                },
            ),
        )
    }

    /// A join with no keys: the cartesian product.
    pub fn cartesian_join(self, right: Relation) -> (r: Relation)
        ensures
            r matches Relation::Join(j) && j.left == self && j.right == right
                && j.joiner.left_keys@.len() == 0 && j.joiner.right_keys@.len() == 0
                && j.to_eliminate@.len() == 0,
    {
        self.join(right, Vec::new(), Vec::new())
    }

    /// The output bindings before this node's own elimination set applies.
    pub fn bindings_before_eliminate(&self) -> (r: Vec<Binding>)
        ensures
            r@ == bindings_before(*self),
        decreases *self,
    {
        match self {
            Relation::Fixed(f) => copy_bindings(&f.bindings),
            Relation::Triple(t) => {
                let mut v: Vec<Binding> = Vec::new();
                v.push(t.e_binding);
                v.push(t.v_binding);
                proof {
                    assert(v@ =~= seq![t.e_binding, t.v_binding]);
                }
                v
            },
            Relation::Derived(d) => copy_bindings(&d.bindings),
            Relation::Join(j) => j.bindings(),
            Relation::Reorder(ro) => copy_bindings(&ro.new_order),
            Relation::Filter(f) => f.parent.bindings_after_eliminate(),
        }
    }

    /// The output bindings after this node's own elimination set applies.
    pub fn bindings_after_eliminate(&self) -> (r: Vec<Binding>)
        ensures
            r@ == bindings_after(*self),
        decreases *self,
    {
        match self {
            Relation::Fixed(f) => remove_bindings_exec(&f.bindings, &f.to_eliminate),
            Relation::Triple(t) => {
                let mut v: Vec<Binding> = Vec::new();
                v.push(t.e_binding);
                v.push(t.v_binding);
                proof {
                    assert(v@ =~= seq![t.e_binding, t.v_binding]);
                }
                v
            },
            Relation::Derived(d) => copy_bindings(&d.bindings),
            Relation::Join(j) => {
                let before = j.bindings();
                remove_bindings_exec(&before, &j.to_eliminate)
            },
            Relation::Reorder(ro) => copy_bindings(&ro.new_order),
            Relation::Filter(f) => {
                let before = f.parent.bindings_after_eliminate();
                remove_bindings_exec(&before, &f.to_eliminate)
            },
        }
    }

    /// The node's own elimination set, for the node kinds that carry one.
    pub fn eliminate_set(&self) -> (r: Option<&Vec<Binding>>)
        ensures
            match r {
                Option::Some(v) => v@ == elim_seq(*self),
                Option::None => elim_seq(*self).len() == 0,
            },
    {
        match self {
            Relation::Fixed(f) => Some(&f.to_eliminate),
            Relation::Triple(_) => None,
            Relation::Derived(_) => None,
            Relation::Join(j) => Some(&j.to_eliminate),
            Relation::Reorder(_) => None,
            Relation::Filter(f) => Some(&f.to_eliminate),
        }
    }

    /// The elimination pass: top-down, each node marks its own bindings not
    /// in `used`, then recurses with `used` augmented by what the node
    /// itself consumes (join keys, predicate bindings).
    pub fn eliminate_temp_vars(self, used: &Vec<Binding>) -> (r: Relation)
        ensures
            eliminates_to(self, r, used@),
        decreases self,
    {
        match self {
            Relation::Fixed(f) => Relation::Fixed(f.do_eliminate_temp_vars(used)),
            Relation::Triple(t) => Relation::Triple(t),
            Relation::Derived(d) => Relation::Derived(d),
            Relation::Join(j) => Relation::Join(Box::new(j.do_eliminate_temp_vars(used))),
            Relation::Reorder(ro) => {
                let ReorderRelation { relation, new_order } = ro;
                let child = (*relation).eliminate_temp_vars(used);
                Relation::Reorder(ReorderRelation { relation: Box::new(child), new_order })
            },
            Relation::Filter(f) => Relation::Filter(f.do_eliminate_temp_vars(used)),
        }
    }

    /// The predicate index-fill pass: post-order; at each filter, resolves
    /// the predicate's bindings against the parent's post-elimination
    /// bindings.
    pub fn fill_predicate_binding_indices(self) -> (r: Relation)
        ensures
            filled_to(self, r),
        decreases self,
    {
        match self {
            Relation::Fixed(f) => Relation::Fixed(f),
            Relation::Triple(t) => Relation::Triple(t),
            Relation::Derived(d) => Relation::Derived(d),
            Relation::Join(j) => {
                let InnerJoin { left, right, joiner, to_eliminate } = *j;
                let left = left.fill_predicate_binding_indices();
                let right = right.fill_predicate_binding_indices();
                Relation::Join(Box::new(InnerJoin { left, right, joiner, to_eliminate }))
            },
            Relation::Reorder(ro) => {
                let ReorderRelation { relation, new_order } = ro;
                let child = (*relation).fill_predicate_binding_indices();
                Relation::Reorder(ReorderRelation { relation: Box::new(child), new_order })
            },
            Relation::Filter(f) => Relation::Filter(f.fill_binding_indices()),
        }
    }
}

impl InnerJoin {
    /// The join's output bindings: left's post-elimination bindings
    /// followed by right's.
    pub fn bindings(&self) -> (r: Vec<Binding>)
        ensures
            r@ == bindings_after(self.left) + bindings_after(self.right),
        decreases *self,
    {
        let mut out = self.left.bindings_after_eliminate();
        let mut rb = self.right.bindings_after_eliminate();
        let ghost lseq = out@;
        let ghost rseq = rb@;
        let mut i: usize = 0;
        while i < rb.len()
            invariant
                0 <= i <= rseq.len(),
                rb@ == rseq,
                out@ == lseq + rseq.take(i as int),
            decreases rseq.len() - i,
        {
            out.push(rb[i]);
            proof {
                assert(out@ =~= lseq + rseq.take(i + 1));
            }
            i = i + 1;
        }
        proof {
            assert(lseq + rseq.take(rseq.len() as int) =~= lseq + rseq);
        }
        out
    }

    /// Marks the join's output bindings not in `used`, then recurses into
    /// each child with `used` augmented by that side's join keys: join keys
    /// are never eliminated below the join.
    pub fn do_eliminate_temp_vars(self, used: &Vec<Binding>) -> (r: InnerJoin)
        ensures
            eliminates_to(
                Relation::Join(Box::new(self)),
                Relation::Join(Box::new(r)),
                used@,
            ),
        decreases self,
    {
        let InnerJoin { left, right, joiner, to_eliminate } = self;
        let mut own = left.bindings_after_eliminate();
        let rb = right.bindings_after_eliminate();
        let ghost lseq = own@;
        let ghost rseq = rb@;
        let mut i: usize = 0;
        while i < rb.len()
            invariant
                0 <= i <= rseq.len(),
                rb@ == rseq,
                own@ == lseq + rseq.take(i as int),
            decreases rseq.len() - i,
        {
            own.push(rb[i]);
            proof {
                assert(own@ =~= lseq + rseq.take(i + 1));
            }
            i = i + 1;
        }
        proof {
            assert(lseq + rseq.take(rseq.len() as int) =~= lseq + rseq);
        }
        let to_eliminate = extend_eliminate(to_eliminate, &own, used);

        let mut left_used = copy_bindings(used);
        let mut k: usize = 0;
        while k < joiner.left_keys.len()
            invariant
                0 <= k <= joiner.left_keys@.len(),
                left_used@ == used@ + joiner.left_keys@.take(k as int),
            decreases joiner.left_keys@.len() - k,
        {
            left_used.push(joiner.left_keys[k]);
            proof {
                assert(left_used@ =~= used@ + joiner.left_keys@.take(k + 1));
            }
            k = k + 1;
        }
        proof {
            assert(used@ + joiner.left_keys@.take(joiner.left_keys@.len() as int) =~= used@
                + joiner.left_keys@);
        }
        let left = left.eliminate_temp_vars(&left_used);

        let mut right_used = copy_bindings(used);
        let mut k2: usize = 0;
        while k2 < joiner.right_keys.len()
            invariant
                0 <= k2 <= joiner.right_keys@.len(),
                right_used@ == used@ + joiner.right_keys@.take(k2 as int),
            decreases joiner.right_keys@.len() - k2,
        {
            right_used.push(joiner.right_keys[k2]);
            proof {
                assert(right_used@ =~= used@ + joiner.right_keys@.take(k2 + 1));
            }
            k2 = k2 + 1;
        }
        proof {
            assert(used@ + joiner.right_keys@.take(joiner.right_keys@.len() as int) =~= used@
                + joiner.right_keys@);
        }
        let right = right.eliminate_temp_vars(&right_used);

        InnerJoin { left, right, joiner, to_eliminate }
    }
}

impl FilteredRelation {
    /// Marks the parent's bindings not in `used`, then recurses with the
    /// predicate's own bindings added to `used`.
    pub fn do_eliminate_temp_vars(self, used: &Vec<Binding>) -> (r: FilteredRelation)
        ensures
            eliminates_to(
                Relation::Filter(self),
                Relation::Filter(r),
                used@,
            ),
        decreases self,
    {
        let FilteredRelation { parent, pred, to_eliminate } = self;
        let own = parent.bindings_before_eliminate();
        let to_eliminate = extend_eliminate(to_eliminate, &own, used);
        let pb = pred.bindings();
        let mut nxt = copy_bindings(used);
        let ghost pseq = pb@;
        let mut k: usize = 0;
        while k < pb.len()
            invariant
                0 <= k <= pseq.len(),
                pb@ == pseq,
                nxt@ == used@ + pseq.take(k as int),
            decreases pseq.len() - k,
        {
            nxt.push(pb[k]);
            proof {
                assert(nxt@ =~= used@ + pseq.take(k + 1));
            }
            k = k + 1;
        }
        proof {
            assert(used@ + pseq.take(pseq.len() as int) =~= used@ + pseq);
        }
        let parent = Box::new((*parent).eliminate_temp_vars(&nxt));
        FilteredRelation { parent, pred, to_eliminate }
    }

    /// Resolves the predicate's bindings against the parent's
    /// post-elimination bindings, post-order.
    pub fn fill_binding_indices(self) -> (r: FilteredRelation)
        ensures
            filled_to(Relation::Filter(self), Relation::Filter(r)),
        decreases self,
    {
        let FilteredRelation { parent, pred, to_eliminate } = self;
        let parent = Box::new((*parent).fill_predicate_binding_indices());
        let pb = parent.bindings_after_eliminate();
        let pred = pred.fill_binding_indices(&pb);
        FilteredRelation { parent, pred, to_eliminate }
    }
}

} // verus!
