//! In-memory model of the storage layer the core runs against: a
//! transactional snapshot of (entity, attribute, value, validity) facts with
//! its indexed scans, and the ordered temp store used for derived relations
//! and join scratch space.  Every scan is an order-preserving filter of the
//! underlying rows, stated exactly.

use vstd::prelude::*;
use crate::sem::filter_seq;
use crate::value::{DataValue, Tuple};

verus! {

/// One (entity, attribute, value) fact, asserted at a validity timestamp.
#[derive(Clone, Copy, PartialEq, Eq, Structural, Debug)]
pub struct TripleFact {
    pub entity: u64,
    pub attr: u64,
    pub value: DataValue,
    pub vld: u64,
}

/// A fact is visible to a scan at read timestamp `vld` iff it was asserted
/// no later than `vld`.
pub open spec fn visible(f: TripleFact, vld: u64) -> bool {
    f.vld <= vld
}

/// The visible facts of `ts` carrying attribute `attr`, in stored order.
pub open spec fn facts_for_attr(ts: Seq<TripleFact>, attr: u64, vld: u64) -> Seq<TripleFact> {
    filter_seq(ts, |f: TripleFact| f.attr == attr && visible(f, vld))
}

/// There is a visible fact `(e, attr, v)` in `ts`.
pub open spec fn eav_present(
    ts: Seq<TripleFact>,
    e: u64,
    attr: u64,
    v: DataValue,
    vld: u64,
) -> bool {
    exists|i: int|
        0 <= i < ts.len() && ts[i].entity == e && ts[i].attr == attr && ts[i].value == v
            && visible(ts[i], vld)
}

/// A snapshot stores each (entity, attribute, value) fact at most once.
pub open spec fn tx_wf(ts: Seq<TripleFact>) -> bool {
    forall|i: int, j: int|
        0 <= i < j < ts.len() ==> !(ts[i].entity == ts[j].entity && ts[i].attr == ts[j].attr
            && ts[i].value == ts[j].value)
}

/// A read-only transactional snapshot of the triple store.
pub struct SessionTx {
    pub triples: Vec<TripleFact>,
}

impl SessionTx {
    /// An empty snapshot.
    pub fn new() -> (r: SessionTx)
        ensures
            r.triples@ == Seq::<TripleFact>::empty(),
    {
        SessionTx { triples: Vec::new() }
    }

    /// Adds a fact to the snapshot (test and setup convenience; the core
    /// itself never mutates the transaction).
    pub fn put_triple(&mut self, entity: u64, attr: u64, value: DataValue, vld: u64)
        ensures
            final(self).triples@ == old(self).triples@.push(
                TripleFact { entity, attr, value, vld },
            ),
    {
        self.triples.push(TripleFact { entity, attr, value, vld });
    }

    /// All visible triples for an attribute as of `vld`, in stored order.
    pub fn triple_a_before_scan(&self, attr: u64, vld: u64) -> (r: Vec<TripleFact>)
        ensures
            r@ == facts_for_attr(self.triples@, attr, vld),
    {
        let ts = &self.triples;
        let p = Ghost(|f: TripleFact| f.attr == attr && visible(f, vld));
        let mut out: Vec<TripleFact> = Vec::new();
        let mut i: usize = 0;
        while i < ts.len()
            invariant
                0 <= i <= ts@.len(),
                p == Ghost(|f: TripleFact| f.attr == attr && visible(f, vld)),
                out@ == filter_seq(ts@.take(i as int), p@),
            decreases ts@.len() - i,
        {
            proof {
                assert(ts@.take(i + 1).drop_last() =~= ts@.take(i as int));
                assert(ts@.take(i + 1).last() == ts@[i as int]);
            }
            let f = ts[i];
            if f.attr == attr && f.vld <= vld {
                out.push(f);
            }
            i = i + 1;
        }
        proof {
            assert(ts@.take(ts@.len() as int) =~= ts@);
        }
        out
    }

    /// The visible triples for an entity and attribute, in stored order.
    pub fn triple_ea_before_scan(&self, entity: u64, attr: u64, vld: u64) -> (r: Vec<TripleFact>)
        ensures
            r@ == filter_seq(
                self.triples@,
                |f: TripleFact| f.entity == entity && f.attr == attr && visible(f, vld),
            ),
    {
        let ts = &self.triples;
        let p = Ghost(|f: TripleFact| f.entity == entity && f.attr == attr && visible(f, vld));
        let mut out: Vec<TripleFact> = Vec::new();
        let mut i: usize = 0;
        while i < ts.len()
            invariant
                0 <= i <= ts@.len(),
                p == Ghost(
                    |f: TripleFact| f.entity == entity && f.attr == attr && visible(f, vld),
                ),
                out@ == filter_seq(ts@.take(i as int), p@),
            decreases ts@.len() - i,
        {
            proof {
                assert(ts@.take(i + 1).drop_last() =~= ts@.take(i as int));
                assert(ts@.take(i + 1).last() == ts@[i as int]);
            }
            let f = ts[i];
            if f.entity == entity && f.attr == attr && f.vld <= vld {
                out.push(f);
            }
            i = i + 1;
        }
        proof {
            assert(ts@.take(ts@.len() as int) =~= ts@);
        }
        out
    }

    /// The visible triples for an attribute carrying exactly `value`, in
    /// stored order (the by-value index scan).
    pub fn triple_av_before_scan(&self, attr: u64, value: DataValue, vld: u64) -> (r: Vec<
        TripleFact,
    >)
        ensures
            r@ == filter_seq(
                self.triples@,
                |f: TripleFact| f.attr == attr && f.value == value && visible(f, vld),
            ),
    {
        let ts = &self.triples;
        let p = Ghost(|f: TripleFact| f.attr == attr && f.value == value && visible(f, vld));
        let mut out: Vec<TripleFact> = Vec::new();
        let mut i: usize = 0;
        while i < ts.len()
            invariant
                0 <= i <= ts@.len(),
                p == Ghost(
                    |f: TripleFact| f.attr == attr && f.value == value && visible(f, vld),
                ),
                out@ == filter_seq(ts@.take(i as int), p@),
            decreases ts@.len() - i,
        {
            proof {
                assert(ts@.take(i + 1).drop_last() =~= ts@.take(i as int));
                assert(ts@.take(i + 1).last() == ts@[i as int]);
            }
            let f = ts[i];
            if f.attr == attr && f.value == value && f.vld <= vld {
                out.push(f);
            }
            i = i + 1;
        }
        proof {
            assert(ts@.take(ts@.len() as int) =~= ts@);
        }
        out
    }

    /// The visible triples for an attribute whose value is the entity id
    /// `v_eid`, in stored order (the reverse-reference scan).
    pub fn triple_vref_a_before_scan(&self, v_eid: u64, attr: u64, vld: u64) -> (r: Vec<
        TripleFact,
    >)
        ensures
            r@ == filter_seq(
                self.triples@,
                |f: TripleFact| f.attr == attr && f.value == DataValue::EnId(v_eid)
                    && visible(f, vld),
            ),
    {
        self.triple_av_before_scan(attr, DataValue::EnId(v_eid), vld)
    }

    /// Point existence check for a visible `(e, attr, v)` fact.
    pub fn eav_exists(&self, e: u64, attr: u64, v: DataValue, vld: u64) -> (r: bool)
        ensures
            r == eav_present(self.triples@, e, attr, v, vld),
    {
        let mut i: usize = 0;
        while i < self.triples.len()
            invariant
                0 <= i <= self.triples@.len(),
                forall|j: int|
                    0 <= j < i ==> !(self.triples@[j].entity == e && self.triples@[j].attr == attr
                        && self.triples@[j].value == v && visible(self.triples@[j], vld)),
            decreases self.triples@.len() - i,
        {
            let f = self.triples[i];
            if f.entity == e && f.attr == attr && f.value == v && f.vld <= vld {
                proof {
                    let wi = i as int;
                    assert(0 <= wi < self.triples@.len() && self.triples@[wi].entity == e
                        && self.triples@[wi].attr == attr && self.triples@[wi].value == v
                        && visible(self.triples@[wi], vld));
                    assert(eav_present(self.triples@, e, attr, v, vld));
                }
                return true;
            }
            i = i + 1;
        }
        false
    }

    /// A fresh transaction-scoped scratch store.  Scratch stores are never
    /// named by a `use_delta` set, so their ids play no role.
    pub fn new_throwaway(&self) -> (r: TempStore)
        ensures
            r.rows@ == Seq::<TempRow>::empty(),
    {
        TempStore { id: 0, rows: Vec::new() }
    }
}

/// Identifies a temp store; callers use it to build `use_delta` sets.
pub type TempStoreId = u64;

/// One stored tuple together with the epoch it was produced at.
#[derive(Clone, PartialEq, Eq, Debug)]
pub struct TempRow {
    pub epoch: u32,
    pub tuple: Tuple,
}

/// `p` is an initial segment of `t`.
pub open spec fn tuple_prefix(p: Seq<DataValue>, t: Seq<DataValue>) -> bool {
    p.len() <= t.len() && forall|i: int| 0 <= i < p.len() ==> t[i] == p[i]
}

/// The tuples stored under epoch `ep`, in stored order.
pub open spec fn rows_for_epoch(rows: Seq<TempRow>, ep: u32) -> Seq<Seq<DataValue>> {
    filter_seq(rows, |r: TempRow| r.epoch == ep).map_values(|r: TempRow| r.tuple@)
}

/// The tuples stored under epoch `ep` that start with `prefix`, in stored
/// order.
pub open spec fn rows_with_prefix_for_epoch(
    rows: Seq<TempRow>,
    prefix: Seq<DataValue>,
    ep: u32,
) -> Seq<Seq<DataValue>> {
    filter_seq(rows, |r: TempRow| r.epoch == ep && tuple_prefix(prefix, r.tuple@)).map_values(
        |r: TempRow| r.tuple@,
    )
}

/// An ordered scratch/materialization store: epoch-tagged tuples supporting
/// key-prefix scans.
pub struct TempStore {
    pub id: TempStoreId,
    pub rows: Vec<TempRow>,
}

impl TempStore {
    /// An empty store with the given id.
    pub fn new(id: TempStoreId) -> (r: TempStore)
        ensures
            r.id == id,
            r.rows@ == Seq::<TempRow>::empty(),
    {
        TempStore { id, rows: Vec::new() }
    }

    /// Appends `tuple` under `epoch`.
    pub fn put(&mut self, tuple: Tuple, epoch: u32)
        ensures
            final(self).id == old(self).id,
            final(self).rows@ == old(self).rows@.push(TempRow { epoch, tuple }),
    {
        self.rows.push(TempRow { epoch, tuple });
    }

    /// Every tuple stored under `ep`, in stored order.
    pub fn scan_all_for_epoch(&self, ep: u32) -> (r: Vec<Tuple>)
        ensures
            crate::value::tuple_views(r@) == rows_for_epoch(self.rows@, ep),
    {
        let rows = &self.rows;
        let p = Ghost(|r: TempRow| r.epoch == ep);
        let mut out: Vec<Tuple> = Vec::new();
        let mut i: usize = 0;
        while i < rows.len()
            invariant
                0 <= i <= rows@.len(),
                p == Ghost(|r: TempRow| r.epoch == ep),
                crate::value::tuple_views(out@) == filter_seq(rows@.take(i as int), p@)
                    .map_values(|r: TempRow| r.tuple@),
            decreases rows@.len() - i,
        {
            proof {
                assert(rows@.take(i + 1).drop_last() =~= rows@.take(i as int));
                assert(rows@.take(i + 1).last() == rows@[i as int]);
            }
            if rows[i].epoch == ep {
                let ghost prev = out@;
                let t = rows[i].tuple.duplicate();
                out.push(t);
                proof {
                    assert(crate::value::tuple_views(out@) =~= crate::value::tuple_views(
                        prev,
                    ).push(rows@[i as int].tuple@));
                    assert(filter_seq(rows@.take(i + 1), p@).map_values(|r: TempRow| r.tuple@)
                        =~= filter_seq(rows@.take(i as int), p@).map_values(
                        |r: TempRow| r.tuple@,
                    ).push(rows@[i as int].tuple@));
                }
            }
            i = i + 1;
        }
        proof {
            assert(rows@.take(rows@.len() as int) =~= rows@);
        }
        out
    }

    /// The tuples stored under `ep` that start with `prefix`, in stored
    /// order.
    pub fn scan_prefix_for_epoch(&self, prefix: &Tuple, ep: u32) -> (r: Vec<Tuple>)
        ensures
            crate::value::tuple_views(r@) == rows_with_prefix_for_epoch(
                self.rows@,
                prefix@,
                ep,
            ),
    {
        let rows = &self.rows;
        let p = Ghost(|r: TempRow| r.epoch == ep && tuple_prefix(prefix@, r.tuple@));
        let mut out: Vec<Tuple> = Vec::new();
        let mut i: usize = 0;
        while i < rows.len()
            invariant
                0 <= i <= rows@.len(),
                p == Ghost(|r: TempRow| r.epoch == ep && tuple_prefix(prefix@, r.tuple@)),
                crate::value::tuple_views(out@) == filter_seq(rows@.take(i as int), p@)
                    .map_values(|r: TempRow| r.tuple@),
            decreases rows@.len() - i,
        {
            proof {
                assert(rows@.take(i + 1).drop_last() =~= rows@.take(i as int));
                assert(rows@.take(i + 1).last() == rows@[i as int]);
            }
            if rows[i].epoch == ep && tuple_starts_with(&rows[i].tuple, prefix) {
                let ghost prev = out@;
                let t = rows[i].tuple.duplicate();
                out.push(t);
                proof {
                    assert(crate::value::tuple_views(out@) =~= crate::value::tuple_views(
                        prev,
                    ).push(rows@[i as int].tuple@));
                    assert(filter_seq(rows@.take(i + 1), p@).map_values(|r: TempRow| r.tuple@)
                        =~= filter_seq(rows@.take(i as int), p@).map_values(
                        |r: TempRow| r.tuple@,
                    ).push(rows@[i as int].tuple@));
                }
            }
            i = i + 1;
        }
        proof {
            assert(rows@.take(rows@.len() as int) =~= rows@);
        }
        out
    }

    /// Prefix scan over the full store (epoch 0 holds the full contents;
    /// scratch stores and negated lookups read it).
    pub fn scan_prefix(&self, prefix: &Tuple) -> (r: Vec<Tuple>)
        ensures
            crate::value::tuple_views(r@) == rows_with_prefix_for_epoch(self.rows@, prefix@, 0),
    {
        self.scan_prefix_for_epoch(prefix, 0)
    }
}

/// True iff `t` starts with `prefix`.
pub fn tuple_starts_with(t: &Tuple, prefix: &Tuple) -> (r: bool)
    ensures
        r == tuple_prefix(prefix@, t@),
{
    if prefix.0.len() > t.0.len() {
        return false;
    }
    let mut i: usize = 0;
    while i < prefix.0.len()
        invariant
            0 <= i <= prefix@.len(),
            prefix@.len() <= t@.len(),
            forall|j: int| 0 <= j < i ==> t@[j] == prefix@[j],
        decreases prefix@.len() - i,
    {
        if t.0[i] != prefix.0[i] {
            return false;
        }
        i = i + 1;
    }
    true
}

} // verus!
