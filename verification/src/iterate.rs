//! Physical execution: every strategy a join dispatches to, and tuple
//! enumeration for each relation node, each proved to produce exactly the
//! abstract semantics on a well-formed plan.

use vstd::prelude::*;
use crate::relation::{
    bindings_after, derived_sem, fact_tuple, key_indices, probe_vals_enid, rel_wf, reorder_sem,
    ri_is_prefix, scan_epoch_spec, sem, triple_probe_ok, triple_shape_ok, triple_tuples,
    FilteredRelation, InlineFixedRelation, InnerJoin, Joiner, Relation, ReorderRelation,
    StoredDerivedRelation, TripleRelation,
};
use crate::sem::{
    filter_seq, join_outputs_for, join_sem, key_match, lemma_filter_map_commute,
    lemma_filter_seq_compose, lemma_filter_seq_contains, lemma_filter_seq_equiv,
    lemma_filter_seq_membership, matches_for, neg_join_sem,
};
use crate::storage::{
    eav_present, facts_for_attr, tuple_prefix, tx_wf, visible, SessionTx, TempRow, TripleFact,
};
use crate::value::{
    copy_values, idx_views, project_away, project_tuple, tuple_views, Binding, DataValue,
    QueryError, Tuple,
};

verus! {

/// Every probe tuple has exactly `nl` values.
pub open spec fn probe_uniform(ls: Seq<Seq<DataValue>>, nl: int) -> bool {
    forall|i: int| 0 <= i < ls.len() ==> (#[trigger] ls[i]).len() == nl
}

/// Unfolds one step of the abstract join over the probe prefix.
pub proof fn lemma_join_sem_step(
    ls: Seq<Seq<DataValue>>,
    i: int,
    rs: Seq<Seq<DataValue>>,
    li: Seq<int>,
    ri: Seq<int>,
    b: Seq<Binding>,
    e: Seq<Binding>,
)
    requires
        0 <= i < ls.len(),
    ensures
        join_sem(ls.take(i + 1), rs, li, ri, b, e) == join_sem(ls.take(i), rs, li, ri, b, e)
            + join_outputs_for(ls[i], rs, li, ri, b, e),
{
    assert(ls.take(i + 1).drop_last() =~= ls.take(i));
    assert(ls.take(i + 1).last() == ls[i]);
}

/// A filter is non-empty exactly when some element satisfies the predicate.
pub proof fn lemma_filter_seq_nonempty<T>(s: Seq<T>, p: spec_fn(T) -> bool)
    ensures
        filter_seq(s, p).len() > 0 <==> exists|i: int| 0 <= i < s.len() && p(#[trigger] s[i]),
    decreases s.len(),
{
    if s.len() == 0 {
    } else {
        lemma_filter_seq_nonempty(s.drop_last(), p);
        assert(forall|i: int| 0 <= i < s.drop_last().len() ==> #[trigger] s.drop_last()[i]
            == s[i]);
        if p(s.last()) {
            assert(p(s[s.len() - 1]));
        } else {
            if filter_seq(s, p).len() > 0 {
                let i = choose|i: int| 0 <= i < s.drop_last().len() && p(s.drop_last()[i]);
                assert(p(s[i]));
            }
            if exists|i: int| 0 <= i < s.len() && p(#[trigger] s[i]) {
                let i = choose|i: int| 0 <= i < s.len() && p(s[i]);
                assert(i < s.len() - 1);
                assert(p(s.drop_last()[i]));
            }
        }
    }
}

/// Appends the tuple each fact contributes to the probe tuple `l`, projects
/// out the eliminated positions, and pushes the results onto `out`.
fn emit_facts(
    l: &Tuple,
    facts: &Vec<TripleFact>,
    bindings: &Vec<Binding>,
    eliminate: &Vec<Binding>,
    out: &mut Vec<Tuple>,
)
    requires
        l@.len() + 2 == bindings@.len(),
    ensures
        tuple_views(final(out)@) == tuple_views(old(out)@) + facts@.map_values(
            |f: TripleFact| project_away(l@ + fact_tuple(f), bindings@, eliminate@),
        ),
{
    let ghost emit = |f: TripleFact| project_away(l@ + fact_tuple(f), bindings@, eliminate@);
    let ghost base = tuple_views(out@);
    proof {
        assert(tuple_views(out@) =~= base + facts@.take(0).map_values(emit));
    }
    let mut j: usize = 0;
    while j < facts.len()
        invariant
            0 <= j <= facts@.len(),
            l@.len() + 2 == bindings@.len(),
            emit == (|f: TripleFact| project_away(l@ + fact_tuple(f), bindings@, eliminate@)),
            tuple_views(out@) == base + facts@.take(j as int).map_values(emit),
        decreases facts@.len() - j,
    {
        let f = facts[j];
        let mut row = copy_values(&l.0);
        row.push(DataValue::EnId(f.entity));
        row.push(f.value);
        let row_t = Tuple(row);
        proof {
            assert(row_t@ =~= l@ + fact_tuple(facts@[j as int]));
        }
        let projected = project_tuple(&row_t, bindings, eliminate);
        let ghost prev = out@;
        out.push(projected);
        proof {
            assert(tuple_views(out@) =~= tuple_views(prev).push(emit(facts@[j as int])));
            assert(facts@.take(j + 1).map_values(emit) =~= facts@.take(j as int).map_values(
                emit,
            ).push(emit(facts@[j as int])));
            assert(tuple_views(out@) =~= base + facts@.take(j + 1).map_values(emit));
        }
        j = j + 1;
    }
    proof {
        assert(facts@.take(facts@.len() as int) =~= facts@);
    }
}

impl TripleRelation {
    /// The full attribute scan crossed with the probe: the join variant for
    /// no join keys.
    pub fn cartesian_join(
        &self,
        left_iter: Vec<Tuple>,
        tx: &SessionTx,
        bindings: &Vec<Binding>,
        eliminate: &Vec<Binding>,
    ) -> (res: Result<Vec<Tuple>, QueryError>)
        ensures
            ({
                let pv = tuple_views(left_iter@);
                let rs = triple_tuples(facts_for_attr(tx.triples@, self.attr.id, self.vld));
                probe_uniform(pv, bindings@.len() - 2) ==> (res matches Ok(v) && tuple_views(v@)
                    == join_sem(pv, rs, Seq::empty(), Seq::empty(), bindings@, eliminate@))
            }),
    {
        let ghost pv = tuple_views(left_iter@);
        let ghost rs = triple_tuples(facts_for_attr(tx.triples@, self.attr.id, self.vld));
        let ghost liv = Seq::<int>::empty();
        let ghost riv = Seq::<int>::empty();
        let facts = tx.triple_a_before_scan(self.attr.id, self.vld);
        let mut out: Vec<Tuple> = Vec::new();
        proof {
            assert(tuple_views(out@) =~= join_sem(pv.take(0), rs, liv, riv, bindings@, eliminate@));
        }
        let mut i: usize = 0;
        while i < left_iter.len()
            invariant
                0 <= i <= left_iter@.len(),
                pv == tuple_views(left_iter@),
                rs == triple_tuples(facts_for_attr(tx.triples@, self.attr.id, self.vld)),
                liv == Seq::<int>::empty(),
                riv == Seq::<int>::empty(),
                facts@ == facts_for_attr(tx.triples@, self.attr.id, self.vld),
                tuple_views(out@) == join_sem(pv.take(i as int), rs, liv, riv, bindings@,
                    eliminate@),
            decreases left_iter@.len() - i,
        {
            let t = &left_iter[i];
            proof {
                assert(pv[i as int] == t@);
            }
            if bindings.len() < 2 || t.0.len() != bindings.len() - 2 {
                return Err(QueryError::ArityMismatch);
            }
            emit_facts(t, &facts, bindings, eliminate, &mut out);
            proof {
                let l = pv[i as int];
                assert(l == t@);
                lemma_join_sem_step(pv, i as int, rs, liv, riv, bindings@, eliminate@);
                let q = |r: Seq<DataValue>| key_match(l, r, liv, riv);
                lemma_filter_seq_equiv(rs, q, |r: Seq<DataValue>| true);
                lemma_filter_true(rs);
                assert(matches_for(l, rs, liv, riv) == rs);
                assert(facts@.map_values(
                    |f: TripleFact| project_away(t@ + fact_tuple(f), bindings@, eliminate@),
                ).len() == facts@.len());
                assert(rs.map_values(
                    |r: Seq<DataValue>| project_away(l + r, bindings@, eliminate@),
                ) =~= facts@.map_values(
                    |f: TripleFact| project_away(t@ + fact_tuple(f), bindings@, eliminate@),
                ));
                assert(join_outputs_for(l, rs, liv, riv, bindings@, eliminate@) == facts@
                    .map_values(
                    |f: TripleFact| project_away(t@ + fact_tuple(f), bindings@, eliminate@),
                ));
            }
            i = i + 1;
        }
        proof {
            assert(pv.take(pv.len() as int) =~= pv);
        }
        Ok(out)
    }
}

impl TripleRelation {
    /// Scan triples by entity: the join variant for a key on the entity
    /// column.
    pub fn e_join(
        &self,
        left_iter: Vec<Tuple>,
        left_e_idx: usize,
        tx: &SessionTx,
        bindings: &Vec<Binding>,
        eliminate: &Vec<Binding>,
    ) -> (res: Result<Vec<Tuple>, QueryError>)
        ensures
            ({
                let pv = tuple_views(left_iter@);
                let rs = triple_tuples(facts_for_attr(tx.triples@, self.attr.id, self.vld));
                (probe_uniform(pv, bindings@.len() - 2) && left_e_idx < bindings@.len() - 2
                    && probe_vals_enid(pv, left_e_idx as int)) ==> (res matches Ok(v)
                    && tuple_views(v@) == join_sem(
                    pv,
                    rs,
                    seq![left_e_idx as int],
                    seq![0int],
                    bindings@,
                    eliminate@,
                ))
            }),
    {
        let ghost pv = tuple_views(left_iter@);
        let ghost rs = triple_tuples(facts_for_attr(tx.triples@, self.attr.id, self.vld));
        let ghost liv = seq![left_e_idx as int];
        let ghost riv = seq![0int];
        let mut out: Vec<Tuple> = Vec::new();
        proof {
            assert(tuple_views(out@) =~= join_sem(pv.take(0), rs, liv, riv, bindings@, eliminate@));
        }
        let mut i: usize = 0;
        while i < left_iter.len()
            invariant
                0 <= i <= left_iter@.len(),
                pv == tuple_views(left_iter@),
                rs == triple_tuples(facts_for_attr(tx.triples@, self.attr.id, self.vld)),
                liv == seq![left_e_idx as int],
                riv == seq![0int],
                tuple_views(out@) == join_sem(pv.take(i as int), rs, liv, riv, bindings@,
                    eliminate@),
            decreases left_iter@.len() - i,
        {
            let t = &left_iter[i];
            proof {
                assert(pv[i as int] == t@);
            }
            if bindings.len() < 2 || t.0.len() != bindings.len() - 2 {
                return Err(QueryError::ArityMismatch);
            }
            if left_e_idx >= t.0.len() {
                return Err(QueryError::ArityMismatch);
            }
            let eid = match t.0[left_e_idx].get_entity_id() {
                Ok(e) => e,
                Err(er) => {
                    return Err(er);
                },
            };
            let facts = tx.triple_ea_before_scan(eid, self.attr.id, self.vld);
            emit_facts(t, &facts, bindings, eliminate, &mut out);
            proof {
                let l = pv[i as int];
                assert(l[left_e_idx as int] == DataValue::EnId(eid));
                lemma_join_sem_step(pv, i as int, rs, liv, riv, bindings@, eliminate@);
                let fs = tx.triples@;
                let a = self.attr.id;
                let vd = self.vld;
                let pattr = |f: TripleFact| f.attr == a && visible(f, vd);
                let pe = |f: TripleFact| f.entity == eid;
                let ft = |f: TripleFact| fact_tuple(f);
                let q = |r: Seq<DataValue>| key_match(l, r, liv, riv);
                let aseq = filter_seq(fs, pattr);
                assert(rs == aseq.map_values(ft));
                assert forall|k: int| 0 <= k < aseq.len() implies (pe(#[trigger] aseq[k]) <==> q(
                    ft(aseq[k]),
                )) by {
                    let f = aseq[k];
                    assert(ft(f)[0] == DataValue::EnId(f.entity));
                    if pe(f) {
                        assert forall|x: int| 0 <= x < liv.len() implies l[#[trigger] liv[x]]
                            == ft(f)[riv[x]] by {
                            assert(x == 0);
                        }
                    }
                    if q(ft(f)) {
                        assert(l[liv[0]] == ft(f)[riv[0]]);
                    }
                }
                lemma_filter_map_commute(aseq, ft, pe, q);
                lemma_filter_seq_compose(fs, pattr, pe);
                lemma_filter_seq_equiv(
                    fs,
                    |f: TripleFact| pattr(f) && pe(f),
                    |f: TripleFact| f.entity == eid && f.attr == a && visible(f, vd),
                );
                assert(facts@ == filter_seq(aseq, pe));
                assert(matches_for(l, rs, liv, riv) == facts@.map_values(ft));
                assert(join_outputs_for(l, rs, liv, riv, bindings@, eliminate@) =~= facts@
                    .map_values(
                    |f: TripleFact| project_away(t@ + fact_tuple(f), bindings@, eliminate@),
                ));
            }
            i = i + 1;
        }
        proof {
            assert(pv.take(pv.len() as int) =~= pv);
        }
        Ok(out)
    }

    /// Reverse-reference scan: the join variant for a key on a
    /// reference-typed value column.
    pub fn v_ref_join(
        &self,
        left_iter: Vec<Tuple>,
        left_v_idx: usize,
        tx: &SessionTx,
        bindings: &Vec<Binding>,
        eliminate: &Vec<Binding>,
    ) -> (res: Result<Vec<Tuple>, QueryError>)
        ensures
            ({
                let pv = tuple_views(left_iter@);
                let rs = triple_tuples(facts_for_attr(tx.triples@, self.attr.id, self.vld));
                (probe_uniform(pv, bindings@.len() - 2) && left_v_idx < bindings@.len() - 2
                    && probe_vals_enid(pv, left_v_idx as int)) ==> (res matches Ok(v)
                    && tuple_views(v@) == join_sem(
                    pv,
                    rs,
                    seq![left_v_idx as int],
                    seq![1int],
                    bindings@,
                    eliminate@,
                ))
            }),
    {
        let ghost pv = tuple_views(left_iter@);
        let ghost rs = triple_tuples(facts_for_attr(tx.triples@, self.attr.id, self.vld));
        let ghost liv = seq![left_v_idx as int];
        let ghost riv = seq![1int];
        let mut out: Vec<Tuple> = Vec::new();
        proof {
            assert(tuple_views(out@) =~= join_sem(pv.take(0), rs, liv, riv, bindings@, eliminate@));
        }
        let mut i: usize = 0;
        while i < left_iter.len()
            invariant
                0 <= i <= left_iter@.len(),
                pv == tuple_views(left_iter@),
                rs == triple_tuples(facts_for_attr(tx.triples@, self.attr.id, self.vld)),
                liv == seq![left_v_idx as int],
                riv == seq![1int],
                tuple_views(out@) == join_sem(pv.take(i as int), rs, liv, riv, bindings@,
                    eliminate@),
            decreases left_iter@.len() - i,
        {
            let t = &left_iter[i];
            proof {
                assert(pv[i as int] == t@);
            }
            if bindings.len() < 2 || t.0.len() != bindings.len() - 2 {
                return Err(QueryError::ArityMismatch);
            }
            if left_v_idx >= t.0.len() {
                return Err(QueryError::ArityMismatch);
            }
            let v_eid = match t.0[left_v_idx].get_entity_id() {
                Ok(e) => e,
                Err(er) => {
                    return Err(er);
                },
            };
            let facts = tx.triple_vref_a_before_scan(v_eid, self.attr.id, self.vld);
            emit_facts(t, &facts, bindings, eliminate, &mut out);
            proof {
                let l = pv[i as int];
                assert(l[left_v_idx as int] == DataValue::EnId(v_eid));
                lemma_join_sem_step(pv, i as int, rs, liv, riv, bindings@, eliminate@);
                let fs = tx.triples@;
                let a = self.attr.id;
                let vd = self.vld;
                let pattr = |f: TripleFact| f.attr == a && visible(f, vd);
                let pval = |f: TripleFact| f.value == DataValue::EnId(v_eid);
                let ft = |f: TripleFact| fact_tuple(f);
                let q = |r: Seq<DataValue>| key_match(l, r, liv, riv);
                let aseq = filter_seq(fs, pattr);
                assert(rs == aseq.map_values(ft));
                assert forall|k: int| 0 <= k < aseq.len() implies (pval(#[trigger] aseq[k]) <==> q(
                    ft(aseq[k]),
                )) by {
                    let f = aseq[k];
                    assert(ft(f)[1] == f.value);
                    if pval(f) {
                        assert forall|x: int| 0 <= x < liv.len() implies l[#[trigger] liv[x]]
                            == ft(f)[riv[x]] by {
                            assert(x == 0);
                        }
                    }
                    if q(ft(f)) {
                        assert(l[liv[0]] == ft(f)[riv[0]]);
                    }
                }
                lemma_filter_map_commute(aseq, ft, pval, q);
                lemma_filter_seq_compose(fs, pattr, pval);
                lemma_filter_seq_equiv(
                    fs,
                    |f: TripleFact| pattr(f) && pval(f),
                    |f: TripleFact| f.attr == a && f.value == DataValue::EnId(v_eid) && visible(
                        f,
                        vd,
                    ),
                );
                assert(facts@ == filter_seq(aseq, pval));
                assert(matches_for(l, rs, liv, riv) == facts@.map_values(ft));
                assert(join_outputs_for(l, rs, liv, riv, bindings@, eliminate@) =~= facts@
                    .map_values(
                    |f: TripleFact| project_away(t@ + fact_tuple(f), bindings@, eliminate@),
                ));
            }
            i = i + 1;
        }
        proof {
            assert(pv.take(pv.len() as int) =~= pv);
        }
        Ok(out)
    }

    /// Scan by indexed value: the join variant for a key on an indexed
    /// value column.
    pub fn v_index_join(
        &self,
        left_iter: Vec<Tuple>,
        left_v_idx: usize,
        tx: &SessionTx,
        bindings: &Vec<Binding>,
        eliminate: &Vec<Binding>,
    ) -> (res: Result<Vec<Tuple>, QueryError>)
        ensures
            ({
                let pv = tuple_views(left_iter@);
                let rs = triple_tuples(facts_for_attr(tx.triples@, self.attr.id, self.vld));
                (probe_uniform(pv, bindings@.len() - 2) && left_v_idx < bindings@.len() - 2)
                    ==> (res matches Ok(v) && tuple_views(v@) == join_sem(
                    pv,
                    rs,
                    seq![left_v_idx as int],
                    seq![1int],
                    bindings@,
                    eliminate@,
                ))
            }),
    {
        let ghost pv = tuple_views(left_iter@);
        let ghost rs = triple_tuples(facts_for_attr(tx.triples@, self.attr.id, self.vld));
        let ghost liv = seq![left_v_idx as int];
        let ghost riv = seq![1int];
        let mut out: Vec<Tuple> = Vec::new();
        proof {
            assert(tuple_views(out@) =~= join_sem(pv.take(0), rs, liv, riv, bindings@, eliminate@));
        }
        let mut i: usize = 0;
        while i < left_iter.len()
            invariant
                0 <= i <= left_iter@.len(),
                pv == tuple_views(left_iter@),
                rs == triple_tuples(facts_for_attr(tx.triples@, self.attr.id, self.vld)),
                liv == seq![left_v_idx as int],
                riv == seq![1int],
                tuple_views(out@) == join_sem(pv.take(i as int), rs, liv, riv, bindings@,
                    eliminate@),
            decreases left_iter@.len() - i,
        {
            let t = &left_iter[i];
            proof {
                assert(pv[i as int] == t@);
            }
            if bindings.len() < 2 || t.0.len() != bindings.len() - 2 {
                return Err(QueryError::ArityMismatch);
            }
            if left_v_idx >= t.0.len() {
                return Err(QueryError::ArityMismatch);
            }
            let val = t.0[left_v_idx];
            let facts = tx.triple_av_before_scan(self.attr.id, val, self.vld);
            emit_facts(t, &facts, bindings, eliminate, &mut out);
            proof {
                let l = pv[i as int];
                assert(l[left_v_idx as int] == val);
                lemma_join_sem_step(pv, i as int, rs, liv, riv, bindings@, eliminate@);
                let fs = tx.triples@;
                let a = self.attr.id;
                let vd = self.vld;
                let pattr = |f: TripleFact| f.attr == a && visible(f, vd);
                let pval = |f: TripleFact| f.value == val;
                let ft = |f: TripleFact| fact_tuple(f);
                let q = |r: Seq<DataValue>| key_match(l, r, liv, riv);
                let aseq = filter_seq(fs, pattr);
                assert(rs == aseq.map_values(ft));
                assert forall|k: int| 0 <= k < aseq.len() implies (pval(#[trigger] aseq[k]) <==> q(
                    ft(aseq[k]),
                )) by {
                    let f = aseq[k];
                    assert(ft(f)[1] == f.value);
                    if pval(f) {
                        assert forall|x: int| 0 <= x < liv.len() implies l[#[trigger] liv[x]]
                            == ft(f)[riv[x]] by {
                            assert(x == 0);
                        }
                    }
                    if q(ft(f)) {
                        assert(l[liv[0]] == ft(f)[riv[0]]);
                    }
                }
                lemma_filter_map_commute(aseq, ft, pval, q);
                lemma_filter_seq_compose(fs, pattr, pval);
                lemma_filter_seq_equiv(
                    fs,
                    |f: TripleFact| pattr(f) && pval(f),
                    |f: TripleFact| f.attr == a && f.value == val && visible(f, vd),
                );
                assert(facts@ == filter_seq(aseq, pval));
                assert(matches_for(l, rs, liv, riv) == facts@.map_values(ft));
                assert(join_outputs_for(l, rs, liv, riv, bindings@, eliminate@) =~= facts@
                    .map_values(
                    |f: TripleFact| project_away(t@ + fact_tuple(f), bindings@, eliminate@),
                ));
            }
            i = i + 1;
        }
        proof {
            assert(pv.take(pv.len() as int) =~= pv);
        }
        Ok(out)
    }
}

/// Under snapshot well-formedness, at most one fact carries a given
/// (entity, attribute, value).
proof fn lemma_eav_single(fs: Seq<TripleFact>, p: spec_fn(TripleFact) -> bool, e: u64, a: u64, v: DataValue)
    requires
        tx_wf(fs),
        forall|i: int|
            0 <= i < fs.len() ==> (p(#[trigger] fs[i]) ==> fs[i].entity == e && fs[i].attr == a
                && fs[i].value == v),
    ensures
        filter_seq(fs, p).len() <= 1,
    decreases fs.len(),
{
    if fs.len() == 0 {
    } else {
        assert(forall|i: int| 0 <= i < fs.drop_last().len() ==> #[trigger] fs.drop_last()[i]
            == fs[i]);
        lemma_eav_single(fs.drop_last(), p, e, a, v);
        if p(fs.last()) && filter_seq(fs.drop_last(), p).len() > 0 {
            lemma_filter_seq_nonempty(fs.drop_last(), p);
            let i = choose|i: int| 0 <= i < fs.drop_last().len() && p(fs.drop_last()[i]);
            assert(p(fs[i]));
            assert(p(fs[fs.len() - 1]));
            assert(fs[i].entity == fs[fs.len() - 1].entity && fs[i].attr == fs[fs.len() - 1].attr
                && fs[i].value == fs[fs.len() - 1].value);
            assert(false);
        }
    }
}

impl TripleRelation {
    /// Existence check: the join variant for keys on both columns; a
    /// semijoin-shaped filter.
    pub fn ev_join(
        &self,
        left_iter: Vec<Tuple>,
        left_e_idx: usize,
        left_v_idx: usize,
        tx: &SessionTx,
        bindings: &Vec<Binding>,
        eliminate: &Vec<Binding>,
    ) -> (res: Result<Vec<Tuple>, QueryError>)
        ensures
            ({
                let pv = tuple_views(left_iter@);
                let rs = triple_tuples(facts_for_attr(tx.triples@, self.attr.id, self.vld));
                (tx_wf(tx.triples@) && probe_uniform(pv, bindings@.len() - 2) && left_e_idx
                    < bindings@.len() - 2 && left_v_idx < bindings@.len() - 2 && probe_vals_enid(
                    pv,
                    left_e_idx as int,
                )) ==> (res matches Ok(v) && tuple_views(v@) == join_sem(
                    pv,
                    rs,
                    seq![left_e_idx as int, left_v_idx as int],
                    seq![0int, 1int],
                    bindings@,
                    eliminate@,
                ))
            }),
    {
        let ghost pv = tuple_views(left_iter@);
        let ghost rs = triple_tuples(facts_for_attr(tx.triples@, self.attr.id, self.vld));
        let ghost liv = seq![left_e_idx as int, left_v_idx as int];
        let ghost riv = seq![0int, 1int];
        let mut out: Vec<Tuple> = Vec::new();
        proof {
            assert(tuple_views(out@) =~= join_sem(pv.take(0), rs, liv, riv, bindings@, eliminate@));
        }
        let mut i: usize = 0;
        while i < left_iter.len()
            invariant
                0 <= i <= left_iter@.len(),
                pv == tuple_views(left_iter@),
                rs == triple_tuples(facts_for_attr(tx.triples@, self.attr.id, self.vld)),
                liv == seq![left_e_idx as int, left_v_idx as int],
                riv == seq![0int, 1int],
                tx_wf(tx.triples@) ==> tuple_views(out@) == join_sem(pv.take(i as int), rs, liv,
                    riv, bindings@, eliminate@),
            decreases left_iter@.len() - i,
        {
            let t = &left_iter[i];
            proof {
                assert(pv[i as int] == t@);
            }
            if bindings.len() < 2 || t.0.len() != bindings.len() - 2 {
                return Err(QueryError::ArityMismatch);
            }
            if left_e_idx >= t.0.len() || left_v_idx >= t.0.len() {
                return Err(QueryError::ArityMismatch);
            }
            let eid = match t.0[left_e_idx].get_entity_id() {
                Ok(e) => e,
                Err(er) => {
                    return Err(er);
                },
            };
            let val = t.0[left_v_idx];
            let found = tx.eav_exists(eid, self.attr.id, val, self.vld);
            if found {
                let mut row = copy_values(&t.0);
                row.push(DataValue::EnId(eid));
                row.push(val);
                let row_t = Tuple(row);
                proof {
                    assert(row_t@ =~= t@ + seq![DataValue::EnId(eid), val]);
                }
                let projected = project_tuple(&row_t, bindings, eliminate);
                let ghost prev = out@;
                out.push(projected);
                proof {
                    assert(tuple_views(out@) =~= tuple_views(prev).push(projected@));
                    assert(projected@ == project_away(
                        t@ + seq![DataValue::EnId(eid), val],
                        bindings@,
                        eliminate@,
                    ));
                }
            }
            proof {
                if tx_wf(tx.triples@) {
                    let l = pv[i as int];
                    assert(l[left_e_idx as int] == DataValue::EnId(eid));
                    assert(l[left_v_idx as int] == val);
                    lemma_join_sem_step(pv, i as int, rs, liv, riv, bindings@, eliminate@);
                    let fs = tx.triples@;
                    let a = self.attr.id;
                    let vd = self.vld;
                    let pattr = |f: TripleFact| f.attr == a && visible(f, vd);
                    let pev = |f: TripleFact| f.entity == eid && f.value == val;
                    let ft = |f: TripleFact| fact_tuple(f);
                    let q = |r: Seq<DataValue>| key_match(l, r, liv, riv);
                    let aseq = filter_seq(fs, pattr);
                    assert(rs == aseq.map_values(ft));
                    assert forall|k: int| 0 <= k < aseq.len() implies (pev(#[trigger] aseq[k])
                        <==> q(ft(aseq[k]))) by {
                        let f = aseq[k];
                        assert(ft(f)[0] == DataValue::EnId(f.entity));
                        assert(ft(f)[1] == f.value);
                        if pev(f) {
                            assert forall|x: int| 0 <= x < liv.len() implies l[#[trigger] liv[x]]
                                == ft(f)[riv[x]] by {
                                if x == 0 {
                                } else {
                                    assert(x == 1);
                                }
                            }
                        }
                        if q(ft(f)) {
                            assert(l[liv[0]] == ft(f)[riv[0]]);
                            assert(l[liv[1]] == ft(f)[riv[1]]);
                        }
                    }
                    lemma_filter_map_commute(aseq, ft, pev, q);
                    lemma_filter_seq_compose(fs, pattr, pev);
                    let pfull = |f: TripleFact| f.entity == eid && f.attr == a && f.value == val
                        && visible(f, vd);
                    lemma_filter_seq_equiv(fs, |f: TripleFact| pattr(f) && pev(f), pfull);
                    let flt = filter_seq(fs, pfull);
                    assert(matches_for(l, rs, liv, riv) == flt.map_values(ft));
                    assert forall|k: int|
                        0 <= k < fs.len() ==> (pfull(#[trigger] fs[k]) ==> fs[k].entity == eid
                            && fs[k].attr == a && fs[k].value == val) by {}
                    lemma_eav_single(fs, pfull, eid, a, val);
                    lemma_filter_seq_nonempty(fs, pfull);
                    crate::sem::lemma_filter_seq_membership(fs, pfull);
                    if found {
                        assert(eav_present(fs, eid, a, val, vd));
                        let w = choose|w: int|
                            0 <= w < fs.len() && fs[w].entity == eid && fs[w].attr == a && fs[w]
                                .value == val && visible(fs[w], vd);
                        assert(pfull(fs[w]));
                        assert(flt.len() == 1);
                        assert(ft(flt[0]) =~= seq![DataValue::EnId(eid), val]);
                        assert(flt.map_values(ft) =~= seq![seq![DataValue::EnId(eid), val]]);
                        assert(join_outputs_for(l, rs, liv, riv, bindings@, eliminate@)
                            =~= seq![project_away(t@ + seq![DataValue::EnId(eid), val], bindings@, eliminate@)]);
                        assert(tuple_views(out@) =~= join_sem(pv.take(i + 1), rs, liv, riv,
                            bindings@, eliminate@));
                    } else {
                        assert(flt.len() == 0) by {
                            if flt.len() > 0 {
                                let w = choose|w: int| 0 <= w < fs.len() && pfull(fs[w]);
                                assert(eav_present(fs, eid, a, val, vd));
                            }
                        }
                        assert(matches_for(l, rs, liv, riv) =~= Seq::<Seq<DataValue>>::empty());
                        assert(join_outputs_for(l, rs, liv, riv, bindings@, eliminate@)
                            =~= Seq::<Seq<DataValue>>::empty());
                        assert(tuple_views(out@) =~= join_sem(pv.take(i + 1), rs, liv, riv,
                            bindings@, eliminate@));
                    }
                }
            }
            i = i + 1;
        }
        proof {
            assert(pv.take(pv.len() as int) =~= pv);
        }
        Ok(out)
    }
}

/// Prefix-scanning a store whose rows were all written at epoch 0 with the
/// given views yields exactly the views matching the prefix.
proof fn lemma_scan_on_built_rows(rows: Seq<TempRow>, rv: Seq<Seq<DataValue>>, prefix: Seq<DataValue>)
    requires
        rows.len() == rv.len(),
        forall|i: int|
            0 <= i < rows.len() ==> (#[trigger] rows[i]).epoch == 0 && rows[i].tuple@ == rv[i],
    ensures
        filter_seq(rows, |r: TempRow| r.epoch == 0 && tuple_prefix(prefix, r.tuple@)).map_values(
            |r: TempRow| r.tuple@,
        ) == filter_seq(rv, |t: Seq<DataValue>| tuple_prefix(prefix, t)),
    decreases rows.len(),
{
    let pr = |r: TempRow| r.epoch == 0 && tuple_prefix(prefix, r.tuple@);
    let pt = |t: Seq<DataValue>| tuple_prefix(prefix, t);
    let vw = |r: TempRow| r.tuple@;
    if rows.len() == 0 {
        assert(rv =~= Seq::<Seq<DataValue>>::empty());
        assert(filter_seq(rows, pr).map_values(vw) =~= filter_seq(rv, pt));
    } else {
        assert(forall|i: int| 0 <= i < rows.drop_last().len() ==> #[trigger] rows.drop_last()[i]
            == rows[i]);
        assert(forall|i: int| 0 <= i < rv.drop_last().len() ==> #[trigger] rv.drop_last()[i]
            == rv[i]);
        lemma_scan_on_built_rows(rows.drop_last(), rv.drop_last(), prefix);
        assert(rows.last() == rows[rows.len() - 1]);
        assert(rv.last() == rv[rv.len() - 1]);
        assert(rows.last().tuple@ == rv.last());
        if pr(rows.last()) {
            assert(filter_seq(rows, pr).map_values(vw) =~= filter_seq(
                rows.drop_last(),
                pr,
            ).map_values(vw).push(rows.last().tuple@));
        }
        assert(filter_seq(rows, pr).map_values(vw) =~= filter_seq(rv, pt));
    }
}

impl TripleRelation {
    /// Non-indexed value join: materialize a (value, entity) map of the
    /// attribute's triples into a scratch store, then probe it by prefix.
    pub fn v_no_index_join(
        &self,
        left_iter: Vec<Tuple>,
        left_v_idx: usize,
        tx: &SessionTx,
        bindings: &Vec<Binding>,
        eliminate: &Vec<Binding>,
    ) -> (res: Result<Vec<Tuple>, QueryError>)
        ensures
            ({
                let pv = tuple_views(left_iter@);
                let rs = triple_tuples(facts_for_attr(tx.triples@, self.attr.id, self.vld));
                (probe_uniform(pv, bindings@.len() - 2) && left_v_idx < bindings@.len() - 2)
                    ==> (res matches Ok(v) && tuple_views(v@) == join_sem(
                    pv,
                    rs,
                    seq![left_v_idx as int],
                    seq![1int],
                    bindings@,
                    eliminate@,
                ))
            }),
    {
        let ghost pv = tuple_views(left_iter@);
        let ghost rs = triple_tuples(facts_for_attr(tx.triples@, self.attr.id, self.vld));
        let ghost liv = seq![left_v_idx as int];
        let ghost riv = seq![1int];
        let facts = tx.triple_a_before_scan(self.attr.id, self.vld);
        let ghost rev = |f: TripleFact| seq![f.value, DataValue::EnId(f.entity)];
        let ghost rv = facts@.map_values(rev);
        let mut throwaway = tx.new_throwaway();
        let mut k: usize = 0;
        while k < facts.len()
            invariant
                0 <= k <= facts@.len(),
                rv == facts@.map_values(rev),
                rev == (|f: TripleFact| seq![f.value, DataValue::EnId(f.entity)]),
                throwaway.rows@.len() == k,
                forall|x: int|
                    0 <= x < k ==> (#[trigger] throwaway.rows@[x]).epoch == 0
                        && throwaway.rows@[x].tuple@ == rv[x],
            decreases facts@.len() - k,
        {
            let f = facts[k];
            let mut row: Vec<DataValue> = Vec::new();
            row.push(f.value);
            row.push(DataValue::EnId(f.entity));
            let rt = Tuple(row);
            proof {
                assert(rt@ =~= rev(facts@[k as int]));
            }
            throwaway.put(rt, 0);
            k = k + 1;
        }
        let mut out: Vec<Tuple> = Vec::new();
        proof {
            assert(tuple_views(out@) =~= join_sem(pv.take(0), rs, liv, riv, bindings@, eliminate@));
        }
        let mut i: usize = 0;
        while i < left_iter.len()
            invariant
                0 <= i <= left_iter@.len(),
                pv == tuple_views(left_iter@),
                rs == triple_tuples(facts_for_attr(tx.triples@, self.attr.id, self.vld)),
                liv == seq![left_v_idx as int],
                riv == seq![1int],
                rev == (|f: TripleFact| seq![f.value, DataValue::EnId(f.entity)]),
                rv == facts@.map_values(rev),
                facts@ == facts_for_attr(tx.triples@, self.attr.id, self.vld),
                throwaway.rows@.len() == rv.len(),
                forall|x: int|
                    0 <= x < throwaway.rows@.len() ==> (#[trigger] throwaway.rows@[x]).epoch == 0
                        && throwaway.rows@[x].tuple@ == rv[x],
                tuple_views(out@) == join_sem(pv.take(i as int), rs, liv, riv, bindings@,
                    eliminate@),
            decreases left_iter@.len() - i,
        {
            let t = &left_iter[i];
            proof {
                assert(pv[i as int] == t@);
            }
            if bindings.len() < 2 || t.0.len() != bindings.len() - 2 {
                return Err(QueryError::ArityMismatch);
            }
            if left_v_idx >= t.0.len() {
                return Err(QueryError::ArityMismatch);
            }
            let val = t.0[left_v_idx];
            let mut pfx: Vec<DataValue> = Vec::new();
            pfx.push(val);
            let prefix = Tuple(pfx);
            proof {
                assert(prefix@ =~= seq![val]);
            }
            let found = throwaway.scan_prefix(&prefix);
            let ghost l = pv[i as int];
            let ghost emit = |r: Seq<DataValue>| project_away(l + r, bindings@, eliminate@);
            let ghost ft = |f: TripleFact| fact_tuple(f);
            proof {
                assert(l[left_v_idx as int] == val);
                lemma_join_sem_step(pv, i as int, rs, liv, riv, bindings@, eliminate@);
                let fs = tx.triples@;
                let a = self.attr.id;
                let vd = self.vld;
                let pattr = |f: TripleFact| f.attr == a && visible(f, vd);
                let pval = |f: TripleFact| f.value == val;
                let q = |r: Seq<DataValue>| key_match(l, r, liv, riv);
                let aseq = filter_seq(fs, pattr);
                assert(aseq == facts@);
                assert(rs == aseq.map_values(ft));
                // the prefix scan finds exactly the rows whose value matches
                lemma_scan_on_built_rows(throwaway.rows@, rv, prefix@);
                let pt = |tp: Seq<DataValue>| tuple_prefix(prefix@, tp);
                assert forall|x: int| 0 <= x < facts@.len() implies (pval(#[trigger] facts@[x])
                    <==> pt(rev(facts@[x]))) by {
                    let f = facts@[x];
                    assert(rev(f)[0] == f.value);
                    if pval(f) {
                        assert forall|y: int|
                            0 <= y < prefix@.len() implies rev(f)[y] == prefix@[y] by {
                            assert(y == 0);
                        }
                    }
                    if pt(rev(f)) {
                        assert(rev(f)[0] == prefix@[0]);
                    }
                }
                lemma_filter_map_commute(facts@, rev, pval, pt);
                assert(crate::value::tuple_views(found@) == filter_seq(facts@, pval).map_values(
                    rev,
                ));
                // the matches of the abstract join are the same facts
                assert forall|x: int| 0 <= x < aseq.len() implies (pval(#[trigger] aseq[x]) <==> q(
                    ft(aseq[x]),
                )) by {
                    let f = aseq[x];
                    assert(ft(f)[1] == f.value);
                    if pval(f) {
                        assert forall|y: int| 0 <= y < liv.len() implies l[#[trigger] liv[y]] == ft(
                            f,
                        )[riv[y]] by {
                            assert(y == 0);
                        }
                    }
                    if q(ft(f)) {
                        assert(l[liv[0]] == ft(f)[riv[0]]);
                    }
                }
                lemma_filter_map_commute(aseq, ft, pval, q);
                assert(matches_for(l, rs, liv, riv) == filter_seq(facts@, pval).map_values(ft));
            }
            // emit one output per found row, restoring (entity, value) order
            let ghost matched = filter_seq(
                facts@,
                |f: TripleFact| f.value == val,
            );
            let mut j: usize = 0;
            while j < found.len()
                invariant
                    0 <= j <= found@.len(),
                    l == pv[i as int],
                    l == left_iter@[i as int]@,
                    0 <= i < left_iter@.len(),
                    bindings@.len() >= 2,
                    l.len() == bindings@.len() - 2,
                    emit == (|r: Seq<DataValue>| project_away(l + r, bindings@, eliminate@)),
                    ft == (|f: TripleFact| fact_tuple(f)),
                    rev == (|f: TripleFact| seq![f.value, DataValue::EnId(f.entity)]),
                    matched == filter_seq(facts@, |f: TripleFact| f.value == val),
                    crate::value::tuple_views(found@) == matched.map_values(rev),
                    tuple_views(out@) == join_sem(pv.take(i as int), rs, liv, riv, bindings@,
                        eliminate@) + matched.take(j as int).map_values(ft).map_values(emit),
                decreases found@.len() - j,
            {
                let row = &found[j];
                proof {
                    assert(crate::value::tuple_views(found@).len() == found@.len());
                    assert(matched.map_values(rev).len() == matched.len());
                    assert(found@.len() == matched.len());
                    assert(row@ == crate::value::tuple_views(found@)[j as int]);
                    assert(matched.map_values(rev)[j as int] == rev(matched[j as int]));
                    assert(row@ == rev(matched[j as int]));
                    assert(row@.len() == 2);
                }
                let mut nr = copy_values(&left_iter[i].0);
                nr.push(row.0[1]);
                nr.push(row.0[0]);
                let nt = Tuple(nr);
                proof {
                    assert(nt@ =~= l + ft(matched[j as int]));
                }
                let projected = project_tuple(&nt, bindings, eliminate);
                let ghost prev = out@;
                out.push(projected);
                proof {
                    assert(tuple_views(out@) =~= tuple_views(prev).push(
                        emit(ft(matched[j as int])),
                    ));
                    assert(matched.take(j + 1).map_values(ft).map_values(emit) =~= matched.take(
                        j as int,
                    ).map_values(ft).map_values(emit).push(emit(ft(matched[j as int]))));
                }
                j = j + 1;
            }
            proof {
                assert(matched.take(matched.len() as int) =~= matched);
                assert(join_outputs_for(l, rs, liv, riv, bindings@, eliminate@) =~= matched
                    .map_values(ft).map_values(emit));
                assert(tuple_views(out@) =~= join_sem(pv.take(i + 1), rs, liv, riv, bindings@,
                    eliminate@));
            }
            i = i + 1;
        }
        proof {
            assert(pv.take(pv.len() as int) =~= pv);
        }
        Ok(out)
    }
}

/// Two key-index pairings that admit the same matches everywhere give the
/// same join.
pub proof fn lemma_join_sem_keys_equiv(
    ls: Seq<Seq<DataValue>>,
    rs: Seq<Seq<DataValue>>,
    li1: Seq<int>,
    ri1: Seq<int>,
    li2: Seq<int>,
    ri2: Seq<int>,
    b: Seq<Binding>,
    e: Seq<Binding>,
)
    requires
        forall|l: Seq<DataValue>| #[trigger] matches_for(l, rs, li1, ri1) == matches_for(
            l,
            rs,
            li2,
            ri2,
        ),
    ensures
        join_sem(ls, rs, li1, ri1, b, e) == join_sem(ls, rs, li2, ri2, b, e),
    decreases ls.len(),
{
    if ls.len() == 0 {
    } else {
        lemma_join_sem_keys_equiv(ls.drop_last(), rs, li1, ri1, li2, ri2, b, e);
        assert(matches_for(ls.last(), rs, li1, ri1) == matches_for(ls.last(), rs, li2, ri2));
    }
}

impl TripleRelation {
    /// Chooses a physical variant from the right-side join indices: no keys
    /// is a cartesian cross, both columns an existence check, the entity
    /// column an entity scan, a value column a reverse-reference scan, an
    /// index scan, or a scratch materialization, by the attribute's
    /// metadata.
    pub fn join(
        &self,
        left_iter: Vec<Tuple>,
        left_ji: &Vec<usize>,
        right_ji: &Vec<usize>,
        tx: &SessionTx,
        bindings: &Vec<Binding>,
        eliminate: &Vec<Binding>,
    ) -> (res: Result<Vec<Tuple>, QueryError>)
        ensures
            ({
                let pv = tuple_views(left_iter@);
                let rs = triple_tuples(facts_for_attr(tx.triples@, self.attr.id, self.vld));
                let liv = idx_views(left_ji@);
                let riv = idx_views(right_ji@);
                (tx_wf(tx.triples@) && left_ji@.len() == right_ji@.len() && triple_shape_ok(riv)
                    && triple_probe_ok(self.attr, pv, liv, riv) && probe_uniform(
                    pv,
                    bindings@.len() - 2,
                ) && (forall|k: int|
                    0 <= k < liv.len() ==> 0 <= #[trigger] liv[k] < bindings@.len() - 2)) ==> (
                res matches Ok(v) && tuple_views(v@) == join_sem(
                    pv,
                    rs,
                    liv,
                    riv,
                    bindings@,
                    eliminate@,
                ))
            }),
    {
        let ghost pv = tuple_views(left_iter@);
        let ghost rs = triple_tuples(facts_for_attr(tx.triples@, self.attr.id, self.vld));
        let ghost liv = idx_views(left_ji@);
        let ghost riv = idx_views(right_ji@);
        if right_ji.len() == 0 {
            proof {
                if left_ji@.len() == 0 {
                    assert(liv =~= Seq::<int>::empty());
                    assert(riv =~= Seq::<int>::empty());
                }
            }
            self.cartesian_join(left_iter, tx, bindings, eliminate)
        } else if right_ji.len() == 2 {
            if left_ji.len() != 2 {
                return Err(QueryError::InvalidTripleJoinKeys);
            }
            let r0 = right_ji[0];
            let r1 = right_ji[1];
            let l0 = left_ji[0];
            let l1 = left_ji[1];
            if r0 == 0 && r1 == 1 {
                proof {
                    assert(liv[0] == l0 as int && liv[1] == l1 as int);
                    assert(riv[0] == 0int && riv[1] == 1int);
                    assert(liv =~= seq![l0 as int, l1 as int]);
                    assert(riv =~= seq![0int, 1int]);
                }
                self.ev_join(left_iter, l0, l1, tx, bindings, eliminate)
            } else if r0 == 1 && r1 == 0 {
                proof {
                    assert(liv[0] == l0 as int && liv[1] == l1 as int);
                    assert(riv[0] == 1int && riv[1] == 0int);
                }
                let res = self.ev_join(left_iter, l1, l0, tx, bindings, eliminate);
                proof {
                    assert(liv =~= seq![l0 as int, l1 as int]);
                    assert(riv =~= seq![1int, 0int]);
                    if tx_wf(tx.triples@) && probe_uniform(pv, bindings@.len() - 2) && l1
                        < bindings@.len() - 2 && l0 < bindings@.len() - 2 && probe_vals_enid(
                        pv,
                        l1 as int,
                    ) {
                        let liv2 = seq![l1 as int, l0 as int];
                        let riv2 = seq![0int, 1int];
                        assert forall|l: Seq<DataValue>| #[trigger] matches_for(l, rs, liv2, riv2)
                            == matches_for(l, rs, liv, riv) by {
                            let q1 = |r: Seq<DataValue>| key_match(l, r, liv2, riv2);
                            let q2 = |r: Seq<DataValue>| key_match(l, r, liv, riv);
                            assert forall|x: int| 0 <= x < rs.len() implies (q1(#[trigger] rs[x])
                                <==> q2(rs[x])) by {
                                let r = rs[x];
                                if q1(r) {
                                    assert(l[liv2[0]] == r[riv2[0]]);
                                    assert(l[liv2[1]] == r[riv2[1]]);
                                    assert forall|y: int|
                                        0 <= y < liv.len() implies l[#[trigger] liv[y]]
                                            == r[riv[y]] by {
                                        if y == 0 {
                                        } else {
                                            assert(y == 1);
                                        }
                                    }
                                }
                                if q2(r) {
                                    assert(l[liv[0]] == r[riv[0]]);
                                    assert(l[liv[1]] == r[riv[1]]);
                                    assert forall|y: int|
                                        0 <= y < liv2.len() implies l[#[trigger] liv2[y]] == r[
                                        riv2[y]] by {
                                        if y == 0 {
                                        } else {
                                            assert(y == 1);
                                        }
                                    }
                                }
                            }
                            lemma_filter_seq_equiv(rs, q1, q2);
                        }
                        lemma_join_sem_keys_equiv(pv, rs, liv2, riv2, liv, riv, bindings@,
                            eliminate@);
                    }
                }
                res
            } else {
                Err(QueryError::InvalidTripleJoinKeys)
            }
        } else if right_ji.len() == 1 {
            if left_ji.len() != 1 {
                return Err(QueryError::InvalidTripleJoinKeys);
            }
            let l0 = left_ji[0];
            proof {
                assert(liv[0] == l0 as int);
                assert(liv =~= seq![l0 as int]);
            }
            if right_ji[0] == 0 {
                proof {
                    assert(riv =~= seq![0int]);
                }
                self.e_join(left_iter, l0, tx, bindings, eliminate)
            } else if right_ji[0] == 1 {
                proof {
                    assert(riv =~= seq![1int]);
                }
                if self.attr.val_is_ref {
                    self.v_ref_join(left_iter, l0, tx, bindings, eliminate)
                } else if self.attr.val_indexed {
                    self.v_index_join(left_iter, l0, tx, bindings, eliminate)
                } else {
                    self.v_no_index_join(left_iter, l0, tx, bindings, eliminate)
                }
            } else {
                Err(QueryError::InvalidTripleJoinKeys)
            }
        } else {
            Err(QueryError::InvalidTripleJoinKeys)
        }
    }
}

/// Compares the paired key columns of a probe and a candidate tuple.
pub fn keys_equal(l: &Tuple, r: &Tuple, left_ji: &Vec<usize>, right_ji: &Vec<usize>) -> (res:
    Result<bool, QueryError>)
    requires
        left_ji@.len() == right_ji@.len(),
    ensures
        res matches Ok(m) ==> m == key_match(l@, r@, idx_views(left_ji@), idx_views(right_ji@)),
        ((forall|k: int| 0 <= k < left_ji@.len() ==> (#[trigger] left_ji@[k]) < l@.len()) && (
        forall|k: int| 0 <= k < right_ji@.len() ==> (#[trigger] right_ji@[k]) < r@.len())) ==> res
            is Ok,
{
    let ghost liv = idx_views(left_ji@);
    let ghost riv = idx_views(right_ji@);
    let mut k: usize = 0;
    while k < left_ji.len()
        invariant
            0 <= k <= left_ji@.len(),
            left_ji@.len() == right_ji@.len(),
            liv == idx_views(left_ji@),
            riv == idx_views(right_ji@),
            forall|x: int| 0 <= x < k ==> l@[#[trigger] liv[x]] == r@[riv[x]],
            forall|x: int| 0 <= x < k ==> 0 <= #[trigger] liv[x] < l@.len() && 0 <= #[trigger] riv[
                x] < r@.len(),
        decreases left_ji@.len() - k,
    {
        if left_ji[k] >= l.0.len() || right_ji[k] >= r.0.len() {
            return Err(QueryError::ArityMismatch);
        }
        if l.0[left_ji[k]] != r.0[right_ji[k]] {
            proof {
                assert(liv[k as int] == left_ji@[k as int] as int);
                assert(riv[k as int] == right_ji@[k as int] as int);
                assert(l@[liv[k as int]] != r@[riv[k as int]]);
                assert(!key_match(l@, r@, liv, riv));
            }
            return Ok(false);
        }
        proof {
            assert(liv[k as int] == left_ji@[k as int] as int);
            assert(riv[k as int] == right_ji@[k as int] as int);
        }
        k = k + 1;
    }
    Ok(true)
}

impl InlineFixedRelation {
    /// The join variant for an inline table as build side: match each probe
    /// tuple against the table's (projected) rows.
    pub fn join(
        &self,
        left_iter: Vec<Tuple>,
        left_ji: &Vec<usize>,
        right_ji: &Vec<usize>,
        bindings: &Vec<Binding>,
        eliminate: &Vec<Binding>,
    ) -> (res: Result<Vec<Tuple>, QueryError>)
        requires
            left_ji@.len() == right_ji@.len(),
        ensures
            ({
                let pv = tuple_views(left_iter@);
                let rs = self.data@.map_values(
                    |row: Vec<DataValue>| project_away(row@, self.bindings@, self.to_eliminate@),
                );
                let liv = idx_views(left_ji@);
                let riv = idx_views(right_ji@);
                let nr = crate::value::remove_bindings(self.bindings@, self.to_eliminate@).len();
                ((forall|x: int|
                    0 <= x < self.data@.len() ==> (#[trigger] self.data@[x])@.len()
                        == self.bindings@.len()) && probe_uniform(pv, bindings@.len() - nr) && (
                forall|k: int| 0 <= k < liv.len() ==> 0 <= #[trigger] liv[k] < bindings@.len() - nr)
                    && (forall|k: int| 0 <= k < riv.len() ==> 0 <= #[trigger] riv[k] < nr)) ==> (
                res matches Ok(v) && tuple_views(v@) == join_sem(
                    pv,
                    rs,
                    liv,
                    riv,
                    bindings@,
                    eliminate@,
                ))
            }),
    {
        let ghost pv = tuple_views(left_iter@);
        let ghost rs = self.data@.map_values(
            |row: Vec<DataValue>| project_away(row@, self.bindings@, self.to_eliminate@),
        );
        let ghost liv = idx_views(left_ji@);
        let ghost riv = idx_views(right_ji@);
        let nr = {
            let after = crate::value::remove_bindings_exec(&self.bindings, &self.to_eliminate);
            after.len()
        };
        // project the table's rows once
        let mut rows_p: Vec<Tuple> = Vec::new();
        let mut x: usize = 0;
        while x < self.data.len()
            invariant
                0 <= x <= self.data@.len(),
                rs == self.data@.map_values(
                    |row: Vec<DataValue>| project_away(row@, self.bindings@, self.to_eliminate@),
                ),
                nr as int == crate::value::remove_bindings(
                    self.bindings@,
                    self.to_eliminate@,
                ).len(),
                crate::value::tuple_views(rows_p@) == rs.take(x as int),
                forall|y: int| 0 <= y < x ==> (#[trigger] rows_p@[y])@.len() == nr as int,
            decreases self.data@.len() - x,
        {
            if self.data[x].len() != self.bindings.len() {
                return Err(QueryError::ArityMismatch);
            }
            let row_t = Tuple(copy_values(&self.data[x]));
            let projected = project_tuple(&row_t, &self.bindings, &self.to_eliminate);
            proof {
                crate::value::lemma_project_len(row_t@, self.bindings@, self.to_eliminate@);
                assert(self.bindings@.take(row_t@.len() as int) =~= self.bindings@);
            }
            let ghost prev_rows = rows_p@;
            rows_p.push(projected);
            proof {
                assert(rs[x as int] == project_away(
                    self.data@[x as int]@,
                    self.bindings@,
                    self.to_eliminate@,
                ));
                assert(projected@ == rs[x as int]);
                assert(crate::value::tuple_views(rows_p@) =~= crate::value::tuple_views(
                    prev_rows,
                ).push(projected@));
                assert(rs.take(x + 1) =~= rs.take(x as int).push(rs[x as int]));
                assert(crate::value::tuple_views(rows_p@) =~= rs.take(x + 1));
            }
            x = x + 1;
        }
        proof {
            assert(rs.take(rs.len() as int) =~= rs);
        }
        let mut out: Vec<Tuple> = Vec::new();
        proof {
            assert(tuple_views(out@) =~= join_sem(pv.take(0), rs, liv, riv, bindings@, eliminate@));
        }
        let mut i: usize = 0;
        while i < left_iter.len()
            invariant
                0 <= i <= left_iter@.len(),
                pv == tuple_views(left_iter@),
                rs == self.data@.map_values(
                    |row: Vec<DataValue>| project_away(row@, self.bindings@, self.to_eliminate@),
                ),
                liv == idx_views(left_ji@),
                riv == idx_views(right_ji@),
                left_ji@.len() == right_ji@.len(),
                crate::value::tuple_views(rows_p@) == rs,
                nr as int == crate::value::remove_bindings(
                    self.bindings@,
                    self.to_eliminate@,
                ).len(),
                forall|y: int| 0 <= y < rows_p@.len() ==> (#[trigger] rows_p@[y])@.len()
                    == nr as int,
                tuple_views(out@) == join_sem(pv.take(i as int), rs, liv, riv, bindings@,
                    eliminate@),
            decreases left_iter@.len() - i,
        {
            let t = &left_iter[i];
            proof {
                assert(pv[i as int] == t@);
            }
            if bindings.len() < nr || t.0.len() != bindings.len() - nr {
                return Err(QueryError::ArityMismatch);
            }
            let ghost l = pv[i as int];
            let ghost q = |r: Seq<DataValue>| key_match(l, r, liv, riv);
            let ghost emit = |r: Seq<DataValue>| project_away(l + r, bindings@, eliminate@);
            let mut j: usize = 0;
            while j < rows_p.len()
                invariant
                    0 <= j <= rows_p@.len(),
                    0 <= i < left_iter@.len(),
                    pv == tuple_views(left_iter@),
                    l == pv[i as int],
                    l == left_iter@[i as int]@,
                    left_ji@.len() == right_ji@.len(),
                    liv == idx_views(left_ji@),
                    riv == idx_views(right_ji@),
                    crate::value::tuple_views(rows_p@) == rs,
                    q == (|r: Seq<DataValue>| key_match(l, r, liv, riv)),
                    emit == (|r: Seq<DataValue>| project_away(l + r, bindings@, eliminate@)),
                    l.len() + nr as int == bindings@.len(),
                    forall|y: int| 0 <= y < rows_p@.len() ==> (#[trigger] rows_p@[y])@.len()
                        == nr as int,
                    tuple_views(out@) == join_sem(pv.take(i as int), rs, liv, riv, bindings@,
                        eliminate@) + filter_seq(rs.take(j as int), q).map_values(emit),
                decreases rows_p@.len() - j,
            {
                proof {
                    assert(rs.take(j + 1).drop_last() =~= rs.take(j as int));
                    assert(rs.take(j + 1).last() == rs[j as int]);
                    assert(rs[j as int] == rows_p@[j as int]@);
                }
                let row = &rows_p[j];
                proof {
                    assert(rows_p@[j as int]@.len() == nr as int);
                }
                let matched = match keys_equal(&left_iter[i], row, left_ji, right_ji) {
                    Ok(m) => m,
                    Err(er) => {
                        proof {
                            let livc = idx_views(left_ji@);
                            let rivc = idx_views(right_ji@);
                            if (forall|k2: int|
                                0 <= k2 < livc.len() ==> 0 <= #[trigger] livc[k2] < bindings@.len()
                                    - nr as int) && (forall|k2: int|
                                0 <= k2 < rivc.len() ==> 0 <= #[trigger] rivc[k2] < nr as int) {
                                assert forall|k2: int|
                                    0 <= k2 < left_ji@.len() implies (#[trigger] left_ji@[k2])
                                        < left_iter@[i as int]@.len() by {
                                    assert(livc[k2] == left_ji@[k2] as int);
                                }
                                assert forall|k2: int|
                                    0 <= k2 < right_ji@.len() implies (#[trigger] right_ji@[k2])
                                        < rows_p@[j as int]@.len() by {
                                    assert(rivc[k2] == right_ji@[k2] as int);
                                }
                                assert(false);
                            }
                        }
                        return Err(er);
                    },
                };
                if matched {
                    let mut combined = copy_values(&left_iter[i].0);
                    let mut z: usize = 0;
                    while z < row.0.len()
                        invariant
                            0 <= z <= row@.len(),
                            combined@ == l + row@.take(z as int),
                            l == left_iter@[i as int]@,
                            0 <= i < left_iter@.len(),
                        decreases row@.len() - z,
                    {
                        combined.push(row.0[z]);
                        proof {
                            assert(combined@ =~= l + row@.take(z + 1));
                        }
                        z = z + 1;
                    }
                    proof {
                        assert(l + row@.take(row@.len() as int) =~= l + row@);
                    }
                    let combined_t = Tuple(combined);
                    let projected = project_tuple(&combined_t, bindings, eliminate);
                    let ghost prev = out@;
                    out.push(projected);
                    proof {
                        assert(projected@ == emit(rs[j as int]));
                        assert(tuple_views(out@) =~= tuple_views(prev).push(emit(rs[j as int])));
                        assert(q(rs[j as int]));
                        assert(filter_seq(rs.take(j + 1), q) == filter_seq(
                            rs.take(j as int),
                            q,
                        ).push(rs[j as int]));
                        assert(filter_seq(rs.take(j + 1), q).map_values(emit) =~= filter_seq(
                            rs.take(j as int),
                            q,
                        ).map_values(emit).push(emit(rs[j as int])));
                    }
                } else {
                    proof {
                        assert(filter_seq(rs.take(j + 1), q).map_values(emit) =~= filter_seq(
                            rs.take(j as int),
                            q,
                        ).map_values(emit));
                    }
                }
                j = j + 1;
            }
            proof {
                assert(rs.take(rs.len() as int) =~= rs);
                lemma_join_sem_step(pv, i as int, rs, liv, riv, bindings@, eliminate@);
                assert(join_outputs_for(l, rs, liv, riv, bindings@, eliminate@) == matches_for(
                    l,
                    rs,
                    liv,
                    riv,
                ).map_values(emit));
            }
            i = i + 1;
        }
        proof {
            assert(pv.take(pv.len() as int) =~= pv);
        }
        Ok(out)
    }
}

impl Joiner {
    /// Translates the named join keys into positional indices on each side;
    /// fails naming the first key absent from its side's bindings.
    pub fn join_indices(&self, left_bindings: &Vec<Binding>, right_bindings: &Vec<Binding>) -> (
        res: Result<(Vec<usize>, Vec<usize>), QueryError>)
        ensures
            (self.left_keys@.len() == self.right_keys@.len() && crate::relation::all_contained(
                self.left_keys@,
                left_bindings@,
            ) && crate::relation::all_contained(self.right_keys@, right_bindings@)) ==> (
            res matches Ok(p) && idx_views(p.0@) == key_indices(self.left_keys@, left_bindings@)
                && idx_views(p.1@) == key_indices(self.right_keys@, right_bindings@) && p.0@.len()
                == self.left_keys@.len() && p.1@.len() == self.right_keys@.len()),
    {
        let mut ret_l: Vec<usize> = Vec::new();
        let mut ret_r: Vec<usize> = Vec::new();
        let mut k: usize = 0;
        let n = if self.left_keys.len() < self.right_keys.len() {
            self.left_keys.len()
        } else {
            self.right_keys.len()
        };
        while k < n
            invariant
                0 <= k <= n,
                n <= self.left_keys@.len(),
                n <= self.right_keys@.len(),
                idx_views(ret_l@) == key_indices(self.left_keys@.take(k as int), left_bindings@),
                idx_views(ret_r@) == key_indices(self.right_keys@.take(k as int), right_bindings@),
                ret_l@.len() == k,
                ret_r@.len() == k,
            decreases n - k,
        {
            let lk = self.left_keys[k];
            let rk = self.right_keys[k];
            let lp = crate::value::find_binding(left_bindings, lk);
            if lp >= left_bindings.len() {
                return Err(QueryError::MissingLeftJoinKey { key: lk });
            }
            let rp = crate::value::find_binding(right_bindings, rk);
            if rp >= right_bindings.len() {
                return Err(QueryError::MissingRightJoinKey { key: rk });
            }
            let ghost prev_l = ret_l@;
            let ghost prev_r = ret_r@;
            ret_l.push(lp);
            ret_r.push(rp);
            proof {
                assert(lp as int == crate::value::pos_of(left_bindings@, self.left_keys@[
                    k as int]));
                assert(rp as int == crate::value::pos_of(right_bindings@, self.right_keys@[
                    k as int]));
                assert(idx_views(ret_l@) =~= idx_views(prev_l).push(lp as int));
                assert(idx_views(ret_r@) =~= idx_views(prev_r).push(rp as int));
                assert(key_indices(self.left_keys@.take(k + 1), left_bindings@) =~= key_indices(
                    self.left_keys@.take(k as int),
                    left_bindings@,
                ).push(crate::value::pos_of(left_bindings@, self.left_keys@[k as int])));
                assert(key_indices(self.right_keys@.take(k + 1), right_bindings@) =~= key_indices(
                    self.right_keys@.take(k as int),
                    right_bindings@,
                ).push(crate::value::pos_of(right_bindings@, self.right_keys@[k as int])));
            }
            k = k + 1;
        }
        proof {
            if self.left_keys@.len() == self.right_keys@.len() {
                assert(self.left_keys@.take(n as int) =~= self.left_keys@);
                assert(self.right_keys@.take(n as int) =~= self.right_keys@);
            }
        }
        Ok((ret_l, ret_r))
    }
}

impl StoredDerivedRelation {
    /// Epoch-aware enumeration: empty at epoch 0; a store named by
    /// `use_delta` reads the previous epoch's delta, any other read sees the
    /// full store.
    pub fn iter(&self, epoch: Option<u32>, use_delta: &Vec<u64>) -> (r: Vec<Tuple>)
        ensures
            tuple_views(r@) == derived_sem(*self, epoch, use_delta@),
    {
        let scan_ep: u32 = match epoch {
            None => 0,
            Some(ep) => {
                if ep == 0 {
                    return Vec::new();
                }
                if crate::value::contains_id(use_delta, self.storage.id) {
                    ep - 1
                } else {
                    0
                }
            },
        };
        self.storage.scan_all_for_epoch(scan_ep)
    }

    /// True iff the right-side join indices cover exactly a key prefix of
    /// the stored tuples, so the probe can key directly into the store.
    pub fn join_is_prefix(&self, right_join_indices: &Vec<usize>) -> (r: bool)
        ensures
            r == ri_is_prefix(idx_views(right_join_indices@)),
    {
        let ghost riv = idx_views(right_join_indices@);
        let n = right_join_indices.len();
        let mut i: usize = 0;
        while i < n
            invariant
                0 <= i <= n,
                n == right_join_indices@.len(),
                riv == idx_views(right_join_indices@),
                forall|x: int| 0 <= x < i ==> 0 <= #[trigger] riv[x] < n,
                forall|x: int, y: int| 0 <= x < y < i ==> riv[x] != riv[y],
            decreases n - i,
        {
            if right_join_indices[i] >= n {
                proof {
                    assert(riv[i as int] == right_join_indices@[i as int] as int);
                }
                return false;
            }
            let mut y: usize = 0;
            while y < i
                invariant
                    0 <= y <= i < n,
                    n == right_join_indices@.len(),
                    riv == idx_views(right_join_indices@),
                    forall|x: int| 0 <= x < y ==> riv[x] != riv[i as int],
                decreases i - y,
            {
                if right_join_indices[y] == right_join_indices[i] {
                    proof {
                        assert(riv[y as int] == riv[i as int]);
                    }
                    return false;
                }
                proof {
                    assert(riv[y as int] == right_join_indices@[y as int] as int);
                    assert(riv[i as int] == right_join_indices@[i as int] as int);
                }
                y = y + 1;
            }
            proof {
                assert(riv[i as int] == right_join_indices@[i as int] as int);
            }
            i = i + 1;
        }
        true
    }
}

/// A join against an empty build side yields nothing.
pub proof fn lemma_join_sem_empty_right(
    ls: Seq<Seq<DataValue>>,
    li: Seq<int>,
    ri: Seq<int>,
    b: Seq<Binding>,
    e: Seq<Binding>,
)
    ensures
        join_sem(ls, Seq::empty(), li, ri, b, e) == Seq::<Seq<DataValue>>::empty(),
    decreases ls.len(),
{
    if ls.len() == 0 {
    } else {
        lemma_join_sem_empty_right(ls.drop_last(), li, ri, b, e);
        assert(matches_for(ls.last(), Seq::empty(), li, ri) =~= Seq::<Seq<DataValue>>::empty());
        assert(join_outputs_for(ls.last(), Seq::empty(), li, ri, b, e)
            =~= Seq::<Seq<DataValue>>::empty());
        assert(join_sem(ls, Seq::empty(), li, ri, b, e) =~= Seq::<Seq<DataValue>>::empty());
    }
}

/// Key-prefix indices cover every position below their length: with `k`
/// distinct values in `[0, k)`, each position occurs.
pub proof fn lemma_idx_prefix_cover(ri: Seq<int>, j: int)
    requires
        ri_is_prefix(ri),
        0 <= j < ri.len(),
    ensures
        exists|i: int| 0 <= i < ri.len() && ri[i] == j,
{
    if !(exists|i: int| 0 <= i < ri.len() && ri[i] == j) {
        let k = ri.len() as int;
        assert(ri.no_duplicates()) by {
            assert forall|x: int, y: int|
                0 <= x < ri.len() && 0 <= y < ri.len() && x != y implies ri[x] != ri[y] by {
                if x < y {
                } else {
                    assert(y < x);
                }
            }
        }
        ri.unique_seq_to_set();
        vstd::set_lib::lemma_int_range(0, k);
        let small = vstd::set_lib::set_int_range(0, k).remove(j);
        assert forall|x: int| ri.to_set().contains(x) implies small.contains(x) by {
            assert(ri.contains(x));
            let w = choose|w: int| 0 <= w < ri.len() && ri[w] == x;
            assert(0 <= x < k);
            assert(x != j);
        }
        assert(ri.to_set().subset_of(small));
        vstd::set_lib::lemma_len_subset(ri.to_set(), small);
        assert(small.len() == k - 1);
        assert(false);
    }
}

impl StoredDerivedRelation {
    /// Build-side strategy when the right join indices form a key prefix:
    /// probe the temp store directly with a prefix of reordered probe
    /// columns, at the epoch the derived read selects.
    pub fn prefix_join(
        &self,
        left_iter: Vec<Tuple>,
        left_ji: &Vec<usize>,
        right_ji: &Vec<usize>,
        bindings: &Vec<Binding>,
        eliminate: &Vec<Binding>,
        epoch: Option<u32>,
        use_delta: &Vec<u64>,
    ) -> (res: Result<Vec<Tuple>, QueryError>)
        ensures
            ({
                let pv = tuple_views(left_iter@);
                let rs = derived_sem(*self, epoch, use_delta@);
                let liv = idx_views(left_ji@);
                let riv = idx_views(right_ji@);
                let nb = self.bindings@.len() as int;
                (left_ji@.len() == right_ji@.len() && ri_is_prefix(riv) && riv.len() <= nb
                    && probe_uniform(pv, bindings@.len() - nb) && (forall|k: int|
                    0 <= k < liv.len() ==> 0 <= #[trigger] liv[k] < bindings@.len() - nb) && (
                forall|x: int|
                    0 <= x < self.storage.rows@.len() ==> (#[trigger] self.storage.rows@[x]).tuple@
                        .len() == nb)) ==> (res matches Ok(v) && tuple_views(v@) == join_sem(
                    pv,
                    rs,
                    liv,
                    riv,
                    bindings@,
                    eliminate@,
                ))
            }),
    {
        let ghost pv = tuple_views(left_iter@);
        let ghost rs = derived_sem(*self, epoch, use_delta@);
        let ghost liv = idx_views(left_ji@);
        let ghost riv = idx_views(right_ji@);
        let ghost nb = self.bindings@.len() as int;
        let ghost cond = left_ji@.len() == right_ji@.len() && ri_is_prefix(riv) && riv.len() <= nb
            && probe_uniform(pv, bindings@.len() - nb) && (forall|k: int|
            0 <= k < liv.len() ==> 0 <= #[trigger] liv[k] < bindings@.len() - nb) && (forall|x: int|
            0 <= x < self.storage.rows@.len() ==> (#[trigger] self.storage.rows@[x]).tuple@.len()
                == nb);
        let scan_ep: u32 = match epoch {
            None => 0,
            Some(ep) => {
                if ep == 0 {
                    proof {
                        lemma_join_sem_empty_right(pv, liv, riv, bindings@, eliminate@);
                    }
                    return Ok(Vec::new());
                }
                if crate::value::contains_id(use_delta, self.storage.id) {
                    ep - 1
                } else {
                    0
                }
            },
        };
        proof {
            assert(rs == crate::storage::rows_for_epoch(self.storage.rows@, scan_ep));
        }
        // order the probe-side key columns to match the stored key order
        let kn = right_ji.len();
        let mut ltp: Vec<usize> = Vec::new();
        let ghost mut sigma: Seq<int> = Seq::empty();
        let mut j: usize = 0;
        while j < kn
            invariant
                0 <= j <= kn,
                kn == right_ji@.len(),
                liv == idx_views(left_ji@),
                riv == idx_views(right_ji@),
                ltp@.len() == j,
                sigma.len() == j,
                pv == tuple_views(left_iter@),
                nb == self.bindings@.len() as int,
                cond == (left_ji@.len() == right_ji@.len() && ri_is_prefix(riv) && riv.len() <= nb
                    && probe_uniform(pv, bindings@.len() - nb) && (forall|k: int|
                    0 <= k < liv.len() ==> 0 <= #[trigger] liv[k] < bindings@.len() - nb) && (
                forall|x: int|
                    0 <= x < self.storage.rows@.len() ==> (#[trigger] self.storage.rows@[x]).tuple@
                        .len() == nb)),
                cond ==> left_ji@.len() == right_ji@.len(),
                forall|y: int|
                    0 <= y < j ==> 0 <= #[trigger] sigma[y] < kn && riv[sigma[y]] == y,
                cond ==> forall|y: int|
                    0 <= y < j ==> (#[trigger] ltp@[y]) as int == liv[sigma[y]],
            decreases kn - j,
        {
            let mut i: usize = 0;
            let mut found: bool = false;
            let mut found_i: usize = 0;
            while i < kn
                invariant
                    0 <= i <= kn,
                    kn == right_ji@.len(),
                    riv == idx_views(right_ji@),
                    !found ==> forall|x: int| 0 <= x < i ==> #[trigger] riv[x] != j as int,
                    found ==> 0 <= found_i < kn && riv[found_i as int] == j as int,
                decreases kn - i,
            {
                proof {
                    assert(riv[i as int] == right_ji@[i as int] as int);
                }
                if right_ji[i] == j {
                    found = true;
                    found_i = i;
                }
                i = i + 1;
            }
            if !found {
                proof {
                    if cond {
                        assert(riv.len() == kn as int);
                        lemma_idx_prefix_cover(riv, j as int);
                        let w = choose|w: int| 0 <= w < riv.len() && riv[w] == j as int;
                        assert(false);
                    }
                }
                return Err(QueryError::ArityMismatch);
            }
            if found_i >= left_ji.len() {
                proof {
                    if cond {
                        assert(false);
                    }
                }
                return Err(QueryError::ArityMismatch);
            }
            ltp.push(left_ji[found_i]);
            proof {
                sigma = sigma.push(found_i as int);
                if cond {
                    assert(liv[found_i as int] == left_ji@[found_i as int] as int);
                }
            }
            j = j + 1;
        }
        let mut out: Vec<Tuple> = Vec::new();
        proof {
            if cond {
                assert(tuple_views(out@) =~= join_sem(pv.take(0), rs, liv, riv, bindings@,
                    eliminate@));
            }
        }
        let mut i: usize = 0;
        while i < left_iter.len()
            invariant
                0 <= i <= left_iter@.len(),
                pv == tuple_views(left_iter@),
                rs == crate::storage::rows_for_epoch(self.storage.rows@, scan_ep),
                rs == derived_sem(*self, epoch, use_delta@),
                liv == idx_views(left_ji@),
                riv == idx_views(right_ji@),
                nb == self.bindings@.len() as int,
                kn == right_ji@.len(),
                ltp@.len() == kn,
                sigma.len() == kn,
                forall|y: int|
                    0 <= y < kn ==> 0 <= #[trigger] sigma[y] < kn && riv[sigma[y]] == y,
                cond ==> forall|y: int|
                    0 <= y < kn ==> (#[trigger] ltp@[y]) as int == liv[sigma[y]],
                cond == (left_ji@.len() == right_ji@.len() && ri_is_prefix(riv) && riv.len() <= nb
                    && probe_uniform(pv, bindings@.len() - nb) && (forall|k: int|
                    0 <= k < liv.len() ==> 0 <= #[trigger] liv[k] < bindings@.len() - nb) && (
                forall|x: int|
                    0 <= x < self.storage.rows@.len() ==> (#[trigger] self.storage.rows@[x]).tuple@
                        .len() == nb)),
                cond ==> tuple_views(out@) == join_sem(pv.take(i as int), rs, liv, riv, bindings@,
                    eliminate@),
            decreases left_iter@.len() - i,
        {
            let t = &left_iter[i];
            proof {
                assert(pv[i as int] == t@);
            }
            if bindings.len() < self.bindings.len() || t.0.len() != bindings.len()
                - self.bindings.len() {
                return Err(QueryError::ArityMismatch);
            }
            let ghost l = pv[i as int];
            proof {
                if cond {
                    assert forall|y2: int|
                        0 <= y2 < kn implies ((#[trigger] ltp@[y2]) as int) < l.len() by {
                        assert(ltp@[y2] as int == liv[sigma[y2]]);
                        assert(0 <= liv[sigma[y2]] < bindings@.len() - nb);
                    }
                }
            }
            // the prefix of probe values in stored key order
            let mut pfx: Vec<DataValue> = Vec::new();
            let mut y: usize = 0;
            while y < kn
                invariant
                    0 <= y <= kn,
                    kn == ltp@.len(),
                    l == left_iter@[i as int]@,
                    0 <= i < left_iter@.len(),
                    pfx@.len() == y,
                    pv == tuple_views(left_iter@),
                    liv == idx_views(left_ji@),
                    riv == idx_views(right_ji@),
                    nb == self.bindings@.len() as int,
                    cond == (left_ji@.len() == right_ji@.len() && ri_is_prefix(riv) && riv.len()
                        <= nb && probe_uniform(pv, bindings@.len() - nb) && (forall|k: int|
                        0 <= k < liv.len() ==> 0 <= #[trigger] liv[k] < bindings@.len() - nb) && (
                    forall|x: int|
                        0 <= x < self.storage.rows@.len() ==> (
                        #[trigger] self.storage.rows@[x]).tuple@.len() == nb)),
                    cond ==> forall|y2: int|
                        0 <= y2 < kn ==> ((#[trigger] ltp@[y2]) as int) < l.len(),
                    forall|z: int|
                        0 <= z < y ==> #[trigger] pfx@[z] == l[ltp@[z] as int],
                decreases kn - y,
            {
                if ltp[y] >= left_iter[i].0.len() {
                    proof {
                        if cond {
                            assert(((ltp@[y as int]) as int) < l.len());
                            assert(false);
                        }
                    }
                    return Err(QueryError::ArityMismatch);
                }
                let pval = left_iter[i].0[ltp[y]];
                let ghost prev_pfx = pfx@;
                pfx.push(pval);
                proof {
                    assert(pval == left_iter@[i as int]@[ltp@[y as int] as int]);
                    assert forall|z: int|
                        0 <= z <= y implies #[trigger] pfx@[z] == l[ltp@[z] as int] by {
                        if z < y as int {
                            assert(prev_pfx[z] == l[ltp@[z] as int]);
                            assert(pfx@[z] == prev_pfx[z]);
                        } else {
                            assert(pfx@[z] == pval);
                        }
                    }
                }
                y = y + 1;
            }
            let prefix_t = Tuple(pfx);
            let found = self.storage.scan_prefix_for_epoch(&prefix_t, scan_ep);
            let ghost q = |r: Seq<DataValue>| key_match(l, r, liv, riv);
            let ghost emit = |r: Seq<DataValue>| project_away(l + r, bindings@, eliminate@);
            proof {
                if cond {
                    let rows = self.storage.rows@;
                    let pep = |r: TempRow| r.epoch == scan_ep;
                    let ppref = |r: TempRow| tuple_prefix(prefix_t@, r.tuple@);
                    let vw = |r: TempRow| r.tuple@;
                    let pt = |tp: Seq<DataValue>| tuple_prefix(prefix_t@, tp);
                    lemma_filter_seq_compose(rows, pep, ppref);
                    lemma_filter_seq_equiv(
                        rows,
                        |r: TempRow| pep(r) && ppref(r),
                        |r: TempRow| r.epoch == scan_ep && tuple_prefix(prefix_t@, r.tuple@),
                    );
                    assert forall|x: int|
                        0 <= x < filter_seq(rows, pep).len() implies (ppref(
                        #[trigger] filter_seq(rows, pep)[x]) <==> pt(vw(filter_seq(rows, pep)[x])))
                        by {}
                    lemma_filter_map_commute(filter_seq(rows, pep), vw, ppref, pt);
                    assert(crate::value::tuple_views(found@) == filter_seq(rs, pt));
                    // prefix match coincides with full key match
                    crate::sem::lemma_filter_seq_membership(rows, pep);
                    assert forall|x: int| 0 <= x < rs.len() implies ((#[trigger] rs[x]).len() == nb)
                        by {
                        assert(rs[x] == vw(filter_seq(rows, pep)[x]));
                        assert(rows.contains(filter_seq(rows, pep)[x]));
                        let w = choose|w: int|
                            0 <= w < rows.len() && rows[w] == filter_seq(rows, pep)[x];
                    }
                    assert forall|x: int| 0 <= x < rs.len() implies (pt(#[trigger] rs[x]) <==> q(
                        rs[x])) by {
                        let r = rs[x];
                        assert(r.len() == nb);
                        assert(prefix_t@.len() == kn);
                        if pt(r) {
                            assert forall|z: int|
                                0 <= z < liv.len() implies l[#[trigger] liv[z]] == r[riv[z]] by {
                                // sigma[riv[z]] == z by distinctness
                                let rz = riv[z];
                                assert(0 <= rz < kn);
                                assert(riv[sigma[rz]] == rz);
                                assert(sigma[rz] == z) by {
                                    if sigma[rz] != z {
                                        if sigma[rz] < z {
                                            assert(riv[sigma[rz]] != riv[z]);
                                        } else {
                                            assert(riv[z] != riv[sigma[rz]]);
                                        }
                                    }
                                }
                                assert(r[rz] == prefix_t@[rz]);
                                assert(pfx@[rz] == l[ltp@[rz] as int]);
                                assert(ltp@[rz] as int == liv[sigma[rz]]);
                            }
                        }
                        if q(r) {
                            assert forall|z: int|
                                0 <= z < prefix_t@.len() implies r[z] == prefix_t@[z] by {
                                assert(riv[sigma[z]] == z);
                                assert(l[liv[sigma[z]]] == r[riv[sigma[z]]]);
                                assert(pfx@[z] == l[ltp@[z] as int]);
                                assert(ltp@[z] as int == liv[sigma[z]]);
                            }
                        }
                    }
                    lemma_filter_seq_equiv(rs, pt, q);
                    assert(crate::value::tuple_views(found@) == matches_for(l, rs, liv, riv));
                }
            }
            let ghost mf = matches_for(l, rs, liv, riv);
            proof {
                if cond {
                    crate::sem::lemma_filter_seq_membership(rs, q);
                }
            }
            let mut w: usize = 0;
            while w < found.len()
                invariant
                    0 <= w <= found@.len(),
                    0 <= i < left_iter@.len(),
                    l == pv[i as int],
                    l == left_iter@[i as int]@,
                    pv == tuple_views(left_iter@),
                    liv == idx_views(left_ji@),
                    riv == idx_views(right_ji@),
                    nb == self.bindings@.len() as int,
                    cond == (left_ji@.len() == right_ji@.len() && ri_is_prefix(riv) && riv.len()
                        <= nb && probe_uniform(pv, bindings@.len() - nb) && (forall|k: int|
                        0 <= k < liv.len() ==> 0 <= #[trigger] liv[k] < bindings@.len() - nb) && (
                    forall|x: int|
                        0 <= x < self.storage.rows@.len() ==> (
                        #[trigger] self.storage.rows@[x]).tuple@.len() == nb)),
                    mf == matches_for(l, rs, liv, riv),
                    q == (|r: Seq<DataValue>| key_match(l, r, liv, riv)),
                    emit == (|r: Seq<DataValue>| project_away(l + r, bindings@, eliminate@)),
                    bindings@.len() >= self.bindings@.len(),
                    l.len() == bindings@.len() - self.bindings@.len(),
                    cond ==> forall|x: int| 0 <= x < rs.len() ==> (#[trigger] rs[x]).len() == nb,
                    cond ==> forall|x: int|
                        0 <= x < mf.len() ==> q(#[trigger] mf[x]) && rs.contains(mf[x]),
                    cond ==> crate::value::tuple_views(found@) == mf,
                    cond ==> tuple_views(out@) == join_sem(pv.take(i as int), rs, liv, riv,
                        bindings@, eliminate@) + mf.take(w as int).map_values(emit),
                decreases found@.len() - w,
            {
                let row = &found[w];
                if row.0.len() != self.bindings.len() {
                    proof {
                        if cond {
                            assert(row@ == crate::value::tuple_views(found@)[w as int]);
                            assert(row@ == mf[w as int]);
                            assert(rs.contains(mf[w as int]));
                            let ww = choose|ww: int| 0 <= ww < rs.len() && rs[ww] == mf[w as int];
                            assert(false);
                        }
                    }
                    return Err(QueryError::ArityMismatch);
                }
                let mut combined = copy_values(&left_iter[i].0);
                let mut z: usize = 0;
                while z < row.0.len()
                    invariant
                        0 <= z <= row@.len(),
                        combined@ == l + row@.take(z as int),
                        l == left_iter@[i as int]@,
                        0 <= i < left_iter@.len(),
                    decreases row@.len() - z,
                {
                    combined.push(row.0[z]);
                    proof {
                        assert(combined@ =~= l + row@.take(z + 1));
                    }
                    z = z + 1;
                }
                proof {
                    assert(l + row@.take(row@.len() as int) =~= l + row@);
                }
                let combined_t = Tuple(combined);
                let projected = project_tuple(&combined_t, bindings, eliminate);
                let ghost prev = out@;
                out.push(projected);
                proof {
                    if cond {
                        assert(row@ == crate::value::tuple_views(found@)[w as int]);
                        assert(row@ == mf[w as int]);
                        assert(projected@ == emit(mf[w as int]));
                        assert(tuple_views(out@) =~= tuple_views(prev).push(emit(mf[w as int])));
                        assert(mf.take(w + 1).map_values(emit) =~= mf.take(w as int).map_values(
                            emit,
                        ).push(emit(mf[w as int])));
                    }
                }
                w = w + 1;
            }
            proof {
                if cond {
                    assert(mf.take(mf.len() as int) =~= mf);
                    lemma_join_sem_step(pv, i as int, rs, liv, riv, bindings@, eliminate@);
                    assert(join_outputs_for(l, rs, liv, riv, bindings@, eliminate@) == mf
                        .map_values(emit));
                }
            }
            i = i + 1;
        }
        proof {
            assert(pv.take(pv.len() as int) =~= pv);
        }
        Ok(out)
    }
}

/// Pairwise-distinct indices bounded by `n` number at most `n`.
pub proof fn lemma_distinct_bounded(s: Seq<int>, n: int)
    requires
        n >= 0,
        crate::relation::idx_distinct(s),
        forall|i: int| 0 <= i < s.len() ==> 0 <= #[trigger] s[i] < n,
    ensures
        s.len() <= n,
{
    assert(s.no_duplicates()) by {
        assert forall|x: int, y: int|
            0 <= x < s.len() && 0 <= y < s.len() && x != y implies s[x] != s[y] by {
            if x < y {
            } else {
                assert(y < x);
            }
        }
    }
    s.unique_seq_to_set();
    vstd::set_lib::lemma_int_range(0, n);
    assert forall|x: int| s.to_set().contains(x) implies vstd::set_lib::set_int_range(
        0,
        n,
    ).contains(x) by {
        assert(s.contains(x));
        let w = choose|w: int| 0 <= w < s.len() && s[w] == x;
    }
    assert(s.to_set().subset_of(vstd::set_lib::set_int_range(0, n)));
    vstd::set_lib::lemma_len_subset(s.to_set(), vstd::set_lib::set_int_range(0, n));
}

/// Every tuple the abstract join emits has one value per surviving output
/// binding.
pub proof fn lemma_join_sem_arity(
    ls: Seq<Seq<DataValue>>,
    rs: Seq<Seq<DataValue>>,
    li: Seq<int>,
    ri: Seq<int>,
    b: Seq<Binding>,
    e: Seq<Binding>,
    nl: int,
    nr: int,
)
    requires
        probe_uniform(ls, nl),
        probe_uniform(rs, nr),
        b.len() == nl + nr,
        nl >= 0,
        nr >= 0,
    ensures
        probe_uniform(
            join_sem(ls, rs, li, ri, b, e),
            crate::value::remove_bindings(b, e).len() as int,
        ),
    decreases ls.len(),
{
    let out = join_sem(ls, rs, li, ri, b, e);
    let target = crate::value::remove_bindings(b, e).len() as int;
    if ls.len() == 0 {
    } else {
        assert(probe_uniform(ls.drop_last(), nl)) by {
            assert(forall|i: int| 0 <= i < ls.drop_last().len() ==> #[trigger] ls.drop_last()[i]
                == ls[i]);
        }
        lemma_join_sem_arity(ls.drop_last(), rs, li, ri, b, e, nl, nr);
        let l = ls.last();
        assert(l.len() == nl) by {
            assert(ls[ls.len() - 1] == l);
        }
        let mf = matches_for(l, rs, li, ri);
        crate::sem::lemma_filter_seq_membership(
            rs,
            |r: Seq<DataValue>| crate::sem::key_match(l, r, li, ri),
        );
        let outs = join_outputs_for(l, rs, li, ri, b, e);
        assert forall|k: int| 0 <= k < outs.len() implies (#[trigger] outs[k]).len() == target by {
            assert(outs[k] == project_away(l + mf[k], b, e));
            assert(rs.contains(mf[k]));
            let w = choose|w: int| 0 <= w < rs.len() && rs[w] == mf[k];
            assert((l + mf[k]).len() == b.len());
            crate::value::lemma_project_len(l + mf[k], b, e);
            assert(b.take((l + mf[k]).len() as int) =~= b);
        }
        let rec = join_sem(ls.drop_last(), rs, li, ri, b, e);
        assert forall|k: int| 0 <= k < out.len() implies (#[trigger] out[k]).len() == target by {
            if k < rec.len() {
                assert(out[k] == rec[k]);
            } else {
                assert(out[k] == outs[k - rec.len()]);
            }
        }
    }
}

/// On a well-formed plan, every emitted tuple has one value per
/// post-elimination binding of its node.
pub proof fn lemma_sem_arity(r: Relation, ts: Seq<TripleFact>, ep: Option<u32>, delta: Seq<u64>)
    requires
        rel_wf(r, ts, ep, delta),
    ensures
        probe_uniform(sem(r, ts, ep, delta), bindings_after(r).len() as int),
    decreases r,
{
    let out = sem(r, ts, ep, delta);
    let target = bindings_after(r).len() as int;
    match r {
        Relation::Fixed(f) => {
            assert forall|k: int| 0 <= k < out.len() implies (#[trigger] out[k]).len() == target
                by {
                assert(out[k] == project_away(f.data@[k]@, f.bindings@, f.to_eliminate@));
                crate::value::lemma_project_len(f.data@[k]@, f.bindings@, f.to_eliminate@);
                assert(f.bindings@.take(f.data@[k]@.len() as int) =~= f.bindings@);
            }
        },
        Relation::Triple(t) => {
            assert forall|k: int| 0 <= k < out.len() implies (#[trigger] out[k]).len() == target
                by {
                assert(out[k] == fact_tuple(facts_for_attr(ts, t.attr.id, t.vld)[k]));
            }
        },
        Relation::Derived(d) => {
            let ep2 = scan_epoch_spec(ep, delta, d.storage.id);
            let pep = |row: TempRow| row.epoch == ep2;
            crate::sem::lemma_filter_seq_membership(d.storage.rows@, pep);
            assert forall|k: int| 0 <= k < out.len() implies (#[trigger] out[k]).len() == target
                by {
                assert(out[k] == filter_seq(d.storage.rows@, pep)[k].tuple@);
                assert(d.storage.rows@.contains(filter_seq(d.storage.rows@, pep)[k]));
                let w = choose|w: int|
                    0 <= w < d.storage.rows@.len() && d.storage.rows@[w] == filter_seq(
                        d.storage.rows@,
                        pep,
                    )[k];
            }
        },
        Relation::Join(j) => {
            lemma_sem_arity(j.left, ts, ep, delta);
            lemma_sem_arity(j.right, ts, ep, delta);
            let lb = bindings_after(j.left);
            let rb = bindings_after(j.right);
            lemma_join_sem_arity(
                sem(j.left, ts, ep, delta),
                sem(j.right, ts, ep, delta),
                key_indices(j.joiner.left_keys@, lb),
                key_indices(j.joiner.right_keys@, rb),
                lb + rb,
                j.to_eliminate@,
                lb.len() as int,
                rb.len() as int,
            );
        },
        Relation::Reorder(ro) => {
            assert forall|k: int| 0 <= k < out.len() implies (#[trigger] out[k]).len() == target
                by {
                assert(out[k] == Seq::new(
                    ro.new_order@.len(),
                    |j2: int|
                        sem(*ro.relation, ts, ep, delta)[k][crate::value::pos_of(
                            bindings_after(*ro.relation),
                            ro.new_order@[j2],
                        )],
                ));
            }
        },
        Relation::Filter(f) => {
            lemma_sem_arity(*f.parent, ts, ep, delta);
            let psem = sem(*f.parent, ts, ep, delta);
            let pb = bindings_after(*f.parent);
            let pc = |t: Seq<DataValue>| crate::expr::pred_holds(f.pred, t);
            crate::sem::lemma_filter_seq_membership(psem, pc);
            assert forall|k: int| 0 <= k < out.len() implies (#[trigger] out[k]).len() == target
                by {
                assert(out[k] == project_away(filter_seq(psem, pc)[k], pb, f.to_eliminate@));
                assert(psem.contains(filter_seq(psem, pc)[k]));
                let w = choose|w: int| 0 <= w < psem.len() && psem[w] == filter_seq(psem, pc)[k];
                crate::value::lemma_project_len(filter_seq(psem, pc)[k], pb, f.to_eliminate@);
                assert(pb.take(filter_seq(psem, pc)[k].len() as int) =~= pb);
            }
        },
    }
}

/// Some position of `s` holds the value `x`.
pub open spec fn covers(s: Seq<usize>, x: int) -> bool {
    exists|qq: int| 0 <= qq < s.len() && ((#[trigger] s[qq]) as int) == x
}

/// The conditions under which a materialized join is owed its exact result:
/// a well-formed snapshot, well-formed children, and resolvable keys.
pub open spec fn mat_join_ok(
    j: InnerJoin,
    ts: Seq<TripleFact>,
    ep: Option<u32>,
    delta: Seq<u64>,
) -> bool {
    &&& crate::storage::tx_wf(ts)
    &&& rel_wf(j.left, ts, ep, delta)
    &&& rel_wf(j.right, ts, ep, delta)
    &&& j.joiner.left_keys@.len() == j.joiner.right_keys@.len()
    &&& crate::relation::all_contained(j.joiner.left_keys@, bindings_after(j.left))
    &&& crate::relation::all_contained(j.joiner.right_keys@, bindings_after(j.right))
}

impl InnerJoin {
    /// The generic build-side strategy: drain the right child into a
    /// scratch store keyed by the join columns (remaining columns follow in
    /// original order), then prefix-probe it and restore the original
    /// column order on emit.
    pub fn materialized_join(
        &self,
        tx: &SessionTx,
        epoch: Option<u32>,
        use_delta: &Vec<u64>,
    ) -> (res: Result<Vec<Tuple>, QueryError>)
        ensures
            ({
                let ts = tx.triples@;
                let lsem = sem(self.left, ts, epoch, use_delta@);
                let rsem = sem(self.right, ts, epoch, use_delta@);
                let lb = bindings_after(self.left);
                let rb = bindings_after(self.right);
                let liv = key_indices(self.joiner.left_keys@, lb);
                let riv = key_indices(self.joiner.right_keys@, rb);
                mat_join_ok(*self, ts, epoch, use_delta@) ==> (
                res matches Ok(v) && tuple_views(v@) == join_sem(
                    lsem,
                    rsem,
                    liv,
                    riv,
                    lb + rb,
                    self.to_eliminate@,
                ))
            }),
        decreases self, 0int,
    {
        let ghost ts = tx.triples@;
        let ghost lsem = sem(self.left, ts, epoch, use_delta@);
        let ghost rsem = sem(self.right, ts, epoch, use_delta@);
        let ghost lbs = bindings_after(self.left);
        let ghost rbs = bindings_after(self.right);
        let ghost liv = key_indices(self.joiner.left_keys@, lbs);
        let ghost riv = key_indices(self.joiner.right_keys@, rbs);
        let ghost cond = mat_join_ok(*self, ts, epoch, use_delta@);
        proof {
            if cond {
                lemma_sem_arity(self.left, ts, epoch, use_delta@);
                lemma_sem_arity(self.right, ts, epoch, use_delta@);
                lemma_key_indices_bounds(self.joiner.left_keys@, lbs);
                lemma_key_indices_bounds(self.joiner.right_keys@, rbs);
            }
        }
        let left_b = self.left.bindings_after_eliminate();
        let right_b = self.right.bindings_after_eliminate();
        let mut bindings = crate::value::copy_bindings(&left_b);
        let mut bi: usize = 0;
        while bi < right_b.len()
            invariant
                0 <= bi <= right_b@.len(),
                left_b@ == lbs,
                right_b@ == rbs,
                bindings@ == lbs + rbs.take(bi as int),
            decreases right_b@.len() - bi,
        {
            bindings.push(right_b[bi]);
            proof {
                assert(bindings@ =~= lbs + rbs.take(bi + 1));
            }
            bi = bi + 1;
        }
        proof {
            assert(lbs + rbs.take(rbs.len() as int) =~= lbs + rbs);
        }
        let (left_ji, right_ji) = match self.joiner.join_indices(&left_b, &right_b) {
            Ok(p) => p,
            Err(er) => {
                return Err(er);
            },
        };
        let klen = right_ji.len();
        let nr = right_b.len();
        // stored column order: join columns first, remaining columns after
        let mut store_idx: Vec<usize> = Vec::new();
        let mut si: usize = 0;
        while si < klen
            invariant
                0 <= si <= klen,
                klen == right_ji@.len(),
                store_idx@ == right_ji@.take(si as int),
            decreases klen - si,
        {
            store_idx.push(right_ji[si]);
            proof {
                assert(store_idx@ =~= right_ji@.take(si + 1));
            }
            si = si + 1;
        }
        proof {
            assert(right_ji@.take(right_ji@.len() as int) =~= right_ji@);
        }
        let mut p: usize = 0;
        while p < nr
            invariant
                0 <= p <= nr,
                klen == right_ji@.len(),
                forall|x: int| 0 <= x < klen ==> store_idx@[x] == right_ji@[x],
                store_idx@.len() >= klen,
                forall|x: int| 0 <= x < p ==> covers(store_idx@, x),
                forall|x: int|
                    klen <= x < store_idx@.len() ==> 0 <= #[trigger] store_idx@[x] < nr,
                cond == mat_join_ok(*self, ts, epoch, use_delta@),
                riv == key_indices(self.joiner.right_keys@, rbs),
                right_b@ == rbs,
                nr == right_b@.len(),
                cond ==> riv == idx_views(right_ji@),
                cond ==> forall|x: int|
                    0 <= x < riv.len() ==> 0 <= #[trigger] riv[x] < rbs.len(),
                cond ==> riv.len() == klen,
            decreases nr - p,
        {
            let mut inr: bool = false;
            let mut w: usize = 0;
            while w < store_idx.len()
                invariant
                    0 <= w <= store_idx@.len(),
                    inr ==> covers(store_idx@, p as int),
                decreases store_idx@.len() - w,
            {
                if store_idx[w] == p {
                    proof {
                        assert((store_idx@[w as int] as int) == p as int);
                    }
                    inr = true;
                }
                w = w + 1;
            }
            if !inr {
                let ghost prev_si = store_idx@;
                store_idx.push(p);
                proof {
                    assert(store_idx@[store_idx@.len() - 1] == p as int);
                    assert forall|x: int| 0 <= x < p + 1 implies covers(store_idx@, x) by {
                        if x < p {
                            assert(covers(prev_si, x));
                            let qq = choose|qq: int|
                                0 <= qq < prev_si.len() && (prev_si[qq] as int) == x;
                            assert((store_idx@[qq] as int) == x);
                        } else {
                            assert((store_idx@[store_idx@.len() - 1] as int) == x);
                        }
                    }
                }
            } else {
                proof {
                    assert(covers(store_idx@, p as int));
                    assert forall|x: int| 0 <= x < p + 1 implies covers(store_idx@, x) by {}
                }
            }
            p = p + 1;
        }
        // inverse map: where each original column was stored
        let mut restore_idx: Vec<usize> = Vec::new();
        let mut p2: usize = 0;
        while p2 < nr
            invariant
                0 <= p2 <= nr,
                restore_idx@.len() == p2,
                forall|x: int| 0 <= x < nr ==> covers(store_idx@, x),
                klen == right_ji@.len(),
                forall|x: int| 0 <= x < klen ==> store_idx@[x] == right_ji@[x],
                store_idx@.len() >= klen,
                forall|x: int|
                    klen <= x < store_idx@.len() ==> 0 <= #[trigger] store_idx@[x] < nr,
                forall|x: int|
                    0 <= x < p2 ==> (restore_idx@[x] as int) < store_idx@.len() && store_idx@[
                        #[trigger] restore_idx@[x] as int] == x,
            decreases nr - p2,
        {
            let mut found: bool = false;
            let mut found_q: usize = 0;
            let mut w: usize = 0;
            while w < store_idx.len()
                invariant
                    0 <= w <= store_idx@.len(),
                    !found ==> forall|x: int| 0 <= x < w ==> #[trigger] store_idx@[x] != p2 as int,
                    found ==> 0 <= found_q < store_idx@.len() && store_idx@[found_q as int]
                        == p2 as int,
                decreases store_idx@.len() - w,
            {
                if store_idx[w] == p2 {
                    found = true;
                    found_q = w;
                }
                w = w + 1;
            }
            if !found {
                proof {
                    assert(covers(store_idx@, p2 as int));
                    let qq = choose|qq: int|
                        0 <= qq < store_idx@.len() && (store_idx@[qq] as int) == p2 as int;
                    assert(false);
                }
                return Err(QueryError::ArityMismatch);
            }
            restore_idx.push(found_q);
            p2 = p2 + 1;
        }
        proof {
            if cond {
                assert forall|x: int|
                    0 <= x < store_idx@.len() implies 0 <= #[trigger] store_idx@[x] < nr by {
                    if x < klen as int {
                        assert(store_idx@[x] == right_ji@[x]);
                        assert(riv[x] == right_ji@[x] as int);
                    }
                }
            }
        }
        // drain the right child into the scratch store, reordered
        let right_rows = match self.right.iter(tx, epoch, use_delta) {
            Ok(v) => v,
            Err(er) => {
                return Err(er);
            },
        };
        let ghost rv = tuple_views(right_rows@).map_values(
            |r: Seq<DataValue>| Seq::new(store_idx@.len() as nat, |qq: int| r[store_idx@[qq] as int]),
        );
        let mut throwaway = tx.new_throwaway();
        let mut k: usize = 0;
        while k < right_rows.len()
            invariant
                0 <= k <= right_rows@.len(),
                ts == tx.triples@,
                cond == mat_join_ok(*self, ts, epoch, use_delta@),
                rsem == sem(self.right, ts, epoch, use_delta@),
                rbs == bindings_after(self.right),
                rv == tuple_views(right_rows@).map_values(
                    |r: Seq<DataValue>| Seq::new(
                        store_idx@.len() as nat,
                        |qq: int| r[store_idx@[qq] as int],
                    ),
                ),
                cond ==> tuple_views(right_rows@) == rsem,
                cond ==> probe_uniform(rsem, rbs.len() as int),
                cond ==> rsem.len() == right_rows@.len(),
                nr == right_b@.len(),
                right_b@ == rbs,
                cond ==> forall|x: int|
                    0 <= x < store_idx@.len() ==> 0 <= #[trigger] store_idx@[x] < nr,
                throwaway.rows@.len() == k,
                forall|x: int|
                    0 <= x < k ==> (#[trigger] throwaway.rows@[x]).epoch == 0
                        && throwaway.rows@[x].tuple@ == rv[x],
            decreases right_rows@.len() - k,
        {
            let ghost rrow = right_rows@[k as int]@;
            let mut stored: Vec<DataValue> = Vec::new();
            let mut q: usize = 0;
            while q < store_idx.len()
                invariant
                    0 <= q <= store_idx@.len(),
                    0 <= k < right_rows@.len(),
                    stored@.len() == q,
                    ts == tx.triples@,
                    cond == mat_join_ok(*self, ts, epoch, use_delta@),
                    rsem == sem(self.right, ts, epoch, use_delta@),
                    right_b@ == rbs,
                    nr == right_b@.len(),
                    cond ==> tuple_views(right_rows@) == rsem,
                    cond ==> rsem.len() == right_rows@.len(),
                    cond ==> probe_uniform(rsem, rbs.len() as int),
                    cond ==> forall|x: int|
                        0 <= x < store_idx@.len() ==> 0 <= #[trigger] store_idx@[x] < nr,
                    rrow == right_rows@[k as int]@,
                    forall|x: int|
                        0 <= x < q ==> #[trigger] stored@[x] == rrow[store_idx@[x] as int],
                decreases store_idx@.len() - q,
            {
                if store_idx[q] >= right_rows[k].0.len() {
                    proof {
                        if cond {
                            assert(tuple_views(right_rows@)[k as int] == right_rows@[k as int]@);
                            assert(rsem[k as int] == right_rows@[k as int]@);
                            assert(rsem[k as int].len() == rbs.len());
                            assert(0 <= store_idx@[q as int] < nr);
                            assert(false);
                        }
                    }
                    return Err(QueryError::ArityMismatch);
                }
                let sval = right_rows[k].0[store_idx[q]];
                proof {
                    assert((store_idx@[q as int] as int) < rrow.len());
                    assert(sval == rrow[store_idx@[q as int] as int]);
                }
                let ghost prev_stored = stored@;
                stored.push(sval);
                proof {
                    assert forall|x: int|
                        0 <= x <= q implies #[trigger] stored@[x] == rrow[store_idx@[x] as int]
                        by {
                        if x < q as int {
                            assert(prev_stored[x] == rrow[store_idx@[x] as int]);
                            assert(stored@[x] == prev_stored[x]);
                        } else {
                            assert(stored@[x] == sval);
                        }
                    }
                }
                q = q + 1;
            }
            let st = Tuple(stored);
            proof {
                assert(tuple_views(right_rows@)[k as int] == right_rows@[k as int]@);
                assert(st@ =~= Seq::new(
                    store_idx@.len() as nat,
                    |qq: int| right_rows@[k as int]@[store_idx@[qq] as int],
                ));
                assert(rv[k as int] == st@);
            }
            throwaway.put(st, 0);
            k = k + 1;
        }
        // probe
        let left_rows = match self.left.iter(tx, epoch, use_delta) {
            Ok(v) => v,
            Err(er) => {
                return Err(er);
            },
        };
        let ghost pv = tuple_views(left_rows@);
        let ghost sigma = |r: Seq<DataValue>| Seq::new(
            store_idx@.len() as nat,
            |qq: int| r[store_idx@[qq] as int],
        );
        let mut out: Vec<Tuple> = Vec::new();
        proof {
            if cond {
                assert(tuple_views(out@) =~= join_sem(pv.take(0), rsem, liv, riv, lbs + rbs,
                    self.to_eliminate@));
            }
        }
        let mut i: usize = 0;
        while i < left_rows.len()
            invariant
                0 <= i <= left_rows@.len(),
                pv == tuple_views(left_rows@),
                ts == tx.triples@,
                lsem == sem(self.left, ts, epoch, use_delta@),
                rsem == sem(self.right, ts, epoch, use_delta@),
                lbs == bindings_after(self.left),
                rbs == bindings_after(self.right),
                liv == key_indices(self.joiner.left_keys@, lbs),
                riv == key_indices(self.joiner.right_keys@, rbs),
                cond == mat_join_ok(*self, ts, epoch, use_delta@),
                bindings@ == lbs + rbs,
                left_b@ == lbs,
                right_b@ == rbs,
                nr == right_b@.len(),
                klen == right_ji@.len(),
                cond ==> pv == lsem && tuple_views(right_rows@) == rsem,
                cond ==> probe_uniform(lsem, lbs.len() as int) && probe_uniform(
                    rsem,
                    rbs.len() as int,
                ),
                cond ==> liv == idx_views(left_ji@) && riv == idx_views(right_ji@)
                    && left_ji@.len() == self.joiner.left_keys@.len() && right_ji@.len()
                    == self.joiner.right_keys@.len(),
                cond ==> (forall|x: int|
                    0 <= x < liv.len() ==> 0 <= #[trigger] liv[x] < lbs.len()) && (forall|x: int|
                    0 <= x < riv.len() ==> 0 <= #[trigger] riv[x] < rbs.len()),
                cond ==> self.joiner.left_keys@.len() == self.joiner.right_keys@.len(),
                forall|x: int| 0 <= x < klen ==> store_idx@[x] == right_ji@[x],
                store_idx@.len() >= klen,
                cond ==> forall|x: int|
                    0 <= x < store_idx@.len() ==> 0 <= #[trigger] store_idx@[x] < nr,
                restore_idx@.len() == nr,
                forall|x: int|
                    0 <= x < nr ==> (restore_idx@[x] as int) < store_idx@.len() && store_idx@[
                        #[trigger] restore_idx@[x] as int] == x,
                throwaway.rows@.len() == rv.len(),
                rv == tuple_views(right_rows@).map_values(
                    |r: Seq<DataValue>| Seq::new(
                        store_idx@.len() as nat,
                        |qq: int| r[store_idx@[qq] as int],
                    ),
                ),
                sigma == (|r: Seq<DataValue>| Seq::new(
                    store_idx@.len() as nat,
                    |qq: int| r[store_idx@[qq] as int],
                )),
                forall|x: int|
                    0 <= x < throwaway.rows@.len() ==> (#[trigger] throwaway.rows@[x]).epoch == 0
                        && throwaway.rows@[x].tuple@ == rv[x],
                cond ==> tuple_views(out@) == join_sem(pv.take(i as int), rsem, liv, riv,
                    lbs + rbs, self.to_eliminate@),
            decreases left_rows@.len() - i,
        {
            let t = &left_rows[i];
            proof {
                assert(pv[i as int] == t@);
            }
            if bindings.len() < nr || t.0.len() != bindings.len() - nr {
                return Err(QueryError::ArityMismatch);
            }
            let ghost l = pv[i as int];
            let mut pfx: Vec<DataValue> = Vec::new();
            let mut y: usize = 0;
            while y < left_ji.len()
                invariant
                    0 <= y <= left_ji@.len(),
                    0 <= i < left_rows@.len(),
                    l == left_rows@[i as int]@,
                    pfx@.len() == y,
                    ts == tx.triples@,
                    cond == mat_join_ok(*self, ts, epoch, use_delta@),
                    liv == key_indices(self.joiner.left_keys@, lbs),
                    cond ==> liv == idx_views(left_ji@),
                    cond ==> (forall|x: int|
                        0 <= x < liv.len() ==> 0 <= #[trigger] liv[x] < lbs.len()),
                    cond ==> l.len() == lbs.len(),
                    forall|z: int|
                        0 <= z < y ==> #[trigger] pfx@[z] == l[left_ji@[z] as int],
                decreases left_ji@.len() - y,
            {
                if left_ji[y] >= left_rows[i].0.len() {
                    proof {
                        if cond {
                            assert(liv[y as int] == left_ji@[y as int] as int);
                            assert(false);
                        }
                    }
                    return Err(QueryError::ArityMismatch);
                }
                let pval = left_rows[i].0[left_ji[y]];
                let ghost prev_pfx = pfx@;
                pfx.push(pval);
                proof {
                    assert forall|z: int|
                        0 <= z <= y implies #[trigger] pfx@[z] == l[left_ji@[z] as int] by {
                        if z < y as int {
                            assert(prev_pfx[z] == l[left_ji@[z] as int]);
                            assert(pfx@[z] == prev_pfx[z]);
                        } else {
                            assert(pfx@[z] == pval);
                        }
                    }
                }
                y = y + 1;
            }
            let prefix_t = Tuple(pfx);
            let found = throwaway.scan_prefix(&prefix_t);
            let ghost q = |r: Seq<DataValue>| key_match(l, r, liv, riv);
            let ghost emit = |r: Seq<DataValue>| project_away(l + r, lbs + rbs, self.to_eliminate@);
            proof {
                if cond {
                    lemma_scan_on_built_rows(throwaway.rows@, rv, prefix_t@);
                    let pt = |tp: Seq<DataValue>| tuple_prefix(prefix_t@, tp);
                    assert(crate::value::tuple_views(found@) == filter_seq(rv, pt));
                    assert forall|x: int|
                        0 <= x < rsem.len() implies (q(#[trigger] rsem[x]) <==> pt(sigma(rsem[x])))
                        by {
                        let r = rsem[x];
                        assert(r.len() == rbs.len());
                        assert(prefix_t@.len() == klen);
                        assert(sigma(r).len() == store_idx@.len());
                        if q(r) {
                            assert forall|z: int|
                                0 <= z < prefix_t@.len() implies sigma(r)[z] == prefix_t@[z] by {
                                assert(store_idx@[z] == right_ji@[z]);
                                assert(riv[z] == right_ji@[z] as int);
                                assert(l[liv[z]] == r[riv[z]]);
                                assert(pfx@[z] == l[left_ji@[z] as int]);
                                assert(liv[z] == left_ji@[z] as int);
                            }
                        }
                        if pt(sigma(r)) {
                            assert forall|z: int|
                                0 <= z < liv.len() implies l[#[trigger] liv[z]] == r[riv[z]] by {
                                assert(sigma(r)[z] == prefix_t@[z]);
                                assert(store_idx@[z] == right_ji@[z]);
                                assert(riv[z] == right_ji@[z] as int);
                                assert(pfx@[z] == l[left_ji@[z] as int]);
                                assert(liv[z] == left_ji@[z] as int);
                            }
                        }
                    }
                    assert(rv == rsem.map_values(sigma));
                    lemma_filter_map_commute(rsem, sigma, q, pt);
                    assert(crate::value::tuple_views(found@) == matches_for(l, rsem, liv, riv)
                        .map_values(sigma));
                    crate::sem::lemma_filter_seq_membership(rsem, q);
                }
            }
            let ghost mf = matches_for(l, rsem, liv, riv);
            let mut w: usize = 0;
            while w < found.len()
                invariant
                    0 <= w <= found@.len(),
                    0 <= i < left_rows@.len(),
                    pv == tuple_views(left_rows@),
                    l == pv[i as int],
                    l == left_rows@[i as int]@,
                    ts == tx.triples@,
                    cond == mat_join_ok(*self, ts, epoch, use_delta@),
                    mf == matches_for(l, rsem, liv, riv),
                    q == (|r: Seq<DataValue>| key_match(l, r, liv, riv)),
                    emit == (|r: Seq<DataValue>| project_away(
                        l + r,
                        lbs + rbs,
                        self.to_eliminate@,
                    )),
                    sigma == (|r: Seq<DataValue>| Seq::new(
                        store_idx@.len() as nat,
                        |qq: int| r[store_idx@[qq] as int],
                    )),
                    nr == rbs.len(),
                    l.len() + nr == (lbs + rbs).len(),
                    bindings@ == lbs + rbs,
                    restore_idx@.len() == nr,
                    forall|x: int|
                        0 <= x < nr ==> (restore_idx@[x] as int) < store_idx@.len() && store_idx@[
                            #[trigger] restore_idx@[x] as int] == x,
                    cond ==> forall|x: int|
                        0 <= x < mf.len() ==> q(#[trigger] mf[x]) && rsem.contains(mf[x]),
                    cond ==> probe_uniform(rsem, rbs.len() as int),
                    cond ==> crate::value::tuple_views(found@) == mf.map_values(sigma),
                    cond ==> tuple_views(out@) == join_sem(pv.take(i as int), rsem, liv, riv,
                        lbs + rbs, self.to_eliminate@) + mf.take(w as int).map_values(emit),
                decreases found@.len() - w,
            {
                let row = &found[w];
                if row.0.len() != store_idx.len() {
                    proof {
                        if cond {
                            assert(row@ == crate::value::tuple_views(found@)[w as int]);
                            assert(row@ == sigma(mf[w as int]));
                            assert(false);
                        }
                    }
                    return Err(QueryError::ArityMismatch);
                }
                let mut combined = copy_values(&left_rows[i].0);
                let mut z: usize = 0;
                while z < restore_idx.len()
                    invariant
                        0 <= z <= restore_idx@.len(),
                        combined@.len() == l.len() + z,
                        l == left_rows@[i as int]@,
                        0 <= i < left_rows@.len(),
                        ts == tx.triples@,
                        cond == mat_join_ok(*self, ts, epoch, use_delta@),
                        row@.len() == store_idx@.len(),
                        forall|x: int|
                            0 <= x < restore_idx@.len() ==> (restore_idx@[x] as int)
                                < store_idx@.len(),
                        forall|x: int| 0 <= x < l.len() ==> #[trigger] combined@[x] == l[x],
                        forall|x: int|
                            0 <= x < z ==> #[trigger] combined@[l.len() + x] == row@[restore_idx@[
                                x] as int],
                    decreases restore_idx@.len() - z,
                {
                    let cval = row.0[restore_idx[z]];
                    let ghost prev_c = combined@;
                    combined.push(cval);
                    proof {
                        assert forall|x: int|
                            0 <= x <= z implies #[trigger] combined@[l.len() + x] == row@[
                            restore_idx@[x] as int] by {
                            if x < z as int {
                                assert(prev_c[l.len() + x] == row@[restore_idx@[x] as int]);
                                assert(combined@[l.len() + x] == prev_c[l.len() + x]);
                            } else {
                                assert(combined@[l.len() + x] == cval);
                            }
                        }
                    }
                    z = z + 1;
                }
                let combined_t = Tuple(combined);
                proof {
                    if cond {
                        assert(row@ == crate::value::tuple_views(found@)[w as int]);
                        assert(row@ == sigma(mf[w as int]));
                        assert(rsem.contains(mf[w as int]));
                        assert(mf[w as int].len() == rbs.len()) by {
                            let ww = choose|ww: int|
                                0 <= ww < rsem.len() && rsem[ww] == mf[w as int];
                        }
                        assert(combined_t@ =~= l + mf[w as int]) by {
                            assert forall|x: int|
                                0 <= x < nr implies combined_t@[l.len() + x] == mf[w as int][x]
                                by {
                                assert(combined@[l.len() + x] == row@[restore_idx@[x] as int]);
                                assert(row@[restore_idx@[x] as int] == sigma(mf[w as int])[
                                    restore_idx@[x] as int]);
                                assert(sigma(mf[w as int])[restore_idx@[x] as int] == mf[w as int][
                                    store_idx@[restore_idx@[x] as int] as int]);
                                assert(store_idx@[restore_idx@[x] as int] == x);
                            }
                        }
                    }
                }
                if combined_t.0.len() != bindings.len() {
                    proof {
                        if cond {
                            assert(false);
                        }
                    }
                    return Err(QueryError::ArityMismatch);
                }
                let projected = project_tuple(&combined_t, &bindings, &self.to_eliminate);
                let ghost prev = out@;
                out.push(projected);
                proof {
                    if cond {
                        assert(projected@ == emit(mf[w as int]));
                        assert(tuple_views(out@) =~= tuple_views(prev).push(emit(mf[w as int])));
                        assert(mf.take(w + 1).map_values(emit) =~= mf.take(w as int).map_values(
                            emit,
                        ).push(emit(mf[w as int])));
                    }
                }
                w = w + 1;
            }
            proof {
                if cond {
                    assert(mf.take(mf.len() as int) =~= mf);
                    lemma_join_sem_step(pv, i as int, rsem, liv, riv, lbs + rbs,
                        self.to_eliminate@);
                    assert(join_outputs_for(l, rsem, liv, riv, lbs + rbs, self.to_eliminate@) == mf
                        .map_values(emit));
                }
            }
            i = i + 1;
        }
        proof {
            if cond {
                assert(pv.take(pv.len() as int) =~= pv);
            }
        }
        Ok(out)
    }
}

/// The positions of contained keys are in range.
pub proof fn lemma_key_indices_bounds(keys: Seq<Binding>, bs: Seq<Binding>)
    requires
        crate::relation::all_contained(keys, bs),
    ensures
        forall|k: int|
            0 <= k < keys.len() ==> 0 <= #[trigger] key_indices(keys, bs)[k] < bs.len(),
        key_indices(keys, bs).len() == keys.len(),
{
    assert forall|k: int|
        0 <= k < keys.len() implies 0 <= #[trigger] key_indices(keys, bs)[k] < bs.len() by {
        crate::value::lemma_pos_of(bs, keys[k]);
        assert(key_indices(keys, bs)[k] == crate::value::pos_of(bs, keys[k]));
    }
}

impl InnerJoin {
    /// Picks the physical join strategy from the structural shape of the
    /// right child, and runs it.
    pub fn iter(&self, tx: &SessionTx, epoch: Option<u32>, use_delta: &Vec<u64>) -> (res: Result<
        Vec<Tuple>,
        QueryError,
    >)
        ensures
            (tx_wf(tx.triples@) && rel_wf(
                Relation::Join(Box::new(*self)),
                tx.triples@,
                epoch,
                use_delta@,
            )) ==> (res matches Ok(v) && tuple_views(v@) == sem(
                Relation::Join(Box::new(*self)),
                tx.triples@,
                epoch,
                use_delta@,
            )),
        decreases self, 1int,
    {
        let ghost ts = tx.triples@;
        let ghost node = Relation::Join(Box::new(*self));
        let ghost cond = tx_wf(ts) && rel_wf(node, ts, epoch, use_delta@);
        let ghost lsem = sem(self.left, ts, epoch, use_delta@);
        let ghost rsem = sem(self.right, ts, epoch, use_delta@);
        let ghost lbs = bindings_after(self.left);
        let ghost rbs = bindings_after(self.right);
        let ghost liv = key_indices(self.joiner.left_keys@, lbs);
        let ghost riv = key_indices(self.joiner.right_keys@, rbs);
        proof {
            if cond {
                lemma_sem_arity(self.left, ts, epoch, use_delta@);
                lemma_sem_arity(self.right, ts, epoch, use_delta@);
                lemma_key_indices_bounds(self.joiner.left_keys@, lbs);
                lemma_key_indices_bounds(self.joiner.right_keys@, rbs);
            }
        }
        if let Relation::Reorder(_) = &self.right {
            return Err(QueryError::JoinOnReordered);
        }
        let left_b = self.left.bindings_after_eliminate();
        let right_b = self.right.bindings_after_eliminate();
        let (left_ji, right_ji) = match self.joiner.join_indices(&left_b, &right_b) {
            Ok(p) => p,
            Err(er) => {
                return Err(er);
            },
        };
        let mut bindings = crate::value::copy_bindings(&left_b);
        let mut bi: usize = 0;
        while bi < right_b.len()
            invariant
                0 <= bi <= right_b@.len(),
                left_b@ == lbs,
                right_b@ == rbs,
                bindings@ == lbs + rbs.take(bi as int),
            decreases right_b@.len() - bi,
        {
            bindings.push(right_b[bi]);
            proof {
                assert(bindings@ =~= lbs + rbs.take(bi + 1));
            }
            bi = bi + 1;
        }
        proof {
            assert(lbs + rbs.take(rbs.len() as int) =~= lbs + rbs);
        }
        if left_ji.len() != right_ji.len() {
            return Err(QueryError::ArityMismatch);
        }
        match &self.right {
            Relation::Fixed(f) => {
                let left_rows = match self.left.iter(tx, epoch, use_delta) {
                    Ok(v) => v,
                    Err(er) => {
                        return Err(er);
                    },
                };
                let res = f.join(left_rows, &left_ji, &right_ji, &bindings, &self.to_eliminate);
                proof {
                    if cond {
                        assert(crate::value::remove_bindings(f.bindings@, f.to_eliminate@)
                            == rbs);
                        assert(self.right is Fixed);
                        assert(rel_wf(self.right, ts, epoch, use_delta@));
                        assert(tuple_views(left_rows@) == lsem);
                        assert(probe_uniform(tuple_views(left_rows@), bindings@.len()
                            - crate::value::remove_bindings(f.bindings@, f.to_eliminate@).len()));
                        assert(idx_views(left_ji@) == liv);
                        assert(idx_views(right_ji@) == riv);
                        assert(forall|x: int|
                            0 <= x < f.data@.len() ==> (#[trigger] f.data@[x])@.len()
                                == f.bindings@.len());
                        assert(sem(self.right, ts, epoch, use_delta@) == f.data@.map_values(
                            |row: Vec<DataValue>| project_away(
                                row@,
                                f.bindings@,
                                f.to_eliminate@,
                            ),
                        ));
                        assert(sem(node, ts, epoch, use_delta@) == join_sem(lsem, sem(self.right,
                            ts, epoch, use_delta@), liv, riv, lbs + rbs, self.to_eliminate@));
                        assert(res matches Ok(v) && tuple_views(v@) == sem(node, ts, epoch,
                            use_delta@));
                    }
                }
                res
            },
            Relation::Triple(r) => {
                let left_rows = match self.left.iter(tx, epoch, use_delta) {
                    Ok(v) => v,
                    Err(er) => {
                        return Err(er);
                    },
                };
                let res = r.join(left_rows, &left_ji, &right_ji, tx, &bindings,
                    &self.to_eliminate);
                proof {
                    if cond {
                        assert(rbs.len() == 2) by {
                            assert(rbs =~= seq![r.e_binding, r.v_binding]);
                        }
                        assert(self.right is Triple);
                        assert(tuple_views(left_rows@) == lsem);
                        assert(idx_views(left_ji@) == liv);
                        assert(idx_views(right_ji@) == riv);
                        assert(crate::relation::join_right_ok(self.right, lsem, liv, riv));
                        assert(triple_shape_ok(riv));
                        assert(triple_probe_ok(r.attr, lsem, liv, riv));
                        assert(probe_uniform(tuple_views(left_rows@), bindings@.len() - 2));
                        assert(forall|k: int|
                            0 <= k < liv.len() ==> 0 <= #[trigger] liv[k] < bindings@.len() - 2);
                        assert(sem(self.right, ts, epoch, use_delta@) == triple_tuples(
                            facts_for_attr(ts, r.attr.id, r.vld),
                        ));
                        assert(sem(node, ts, epoch, use_delta@) == join_sem(lsem, sem(self.right,
                            ts, epoch, use_delta@), liv, riv, lbs + rbs, self.to_eliminate@));
                        assert(res is Ok);
                        let v = res->Ok_0;
                        assert(tuple_views(v@) == join_sem(tuple_views(left_rows@),
                            triple_tuples(facts_for_attr(tx.triples@, r.attr.id, r.vld)),
                            idx_views(left_ji@), idx_views(right_ji@), bindings@,
                            self.to_eliminate@));
                        assert(tuple_views(v@) == sem(node, ts, epoch, use_delta@));
                        assert(res matches Ok(v2) && tuple_views(v2@) == sem(node, ts, epoch,
                            use_delta@));
                    }
                }
                res
            },
            Relation::Derived(r) => {
                if r.join_is_prefix(&right_ji) {
                    let left_rows = match self.left.iter(tx, epoch, use_delta) {
                        Ok(v) => v,
                        Err(er) => {
                            return Err(er);
                        },
                    };
                    let res = r.prefix_join(left_rows, &left_ji, &right_ji, &bindings,
                        &self.to_eliminate, epoch, use_delta);
                    proof {
                        if cond {
                            assert(rbs == r.bindings@);
                            assert(idx_views(left_ji@) == liv);
                            assert(idx_views(right_ji@) == riv);
                            assert(forall|x: int|
                                0 <= x < riv.len() ==> 0 <= #[trigger] riv[x] < r.bindings@.len());
                            lemma_distinct_bounded(idx_views(right_ji@), r.bindings@.len() as int);
                            assert(idx_views(right_ji@).len() <= r.bindings@.len());
                            assert(tuple_views(left_rows@) == lsem);
                            assert(probe_uniform(tuple_views(left_rows@), bindings@.len()
                                - r.bindings@.len()));
                            assert(forall|k: int|
                                0 <= k < liv.len() ==> 0 <= #[trigger] liv[k] < bindings@.len()
                                    - r.bindings@.len());
                            assert(rel_wf(self.right, ts, epoch, use_delta@));
                            assert(forall|x: int|
                                0 <= x < r.storage.rows@.len() ==> (
                                #[trigger] r.storage.rows@[x]).tuple@.len()
                                    == r.bindings@.len());
                            assert(sem(self.right, ts, epoch, use_delta@) == derived_sem(*r,
                                epoch, use_delta@));
                            assert(sem(node, ts, epoch, use_delta@) == join_sem(lsem,
                                sem(self.right, ts, epoch, use_delta@), liv, riv, lbs + rbs,
                                self.to_eliminate@));
                            assert(res matches Ok(v) && tuple_views(v@) == sem(node, ts, epoch,
                                use_delta@));
                        }
                    }
                    res
                } else {
                    let res = self.materialized_join(tx, epoch, use_delta);
                    proof {
                        if cond {
                            assert(res matches Ok(v) && tuple_views(v@) == sem(node, ts, epoch,
                                use_delta@));
                        }
                    }
                    res
                }
            },
            Relation::Join(_) => {
                let res = self.materialized_join(tx, epoch, use_delta);
                proof {
                    if cond {
                        assert(res matches Ok(v) && tuple_views(v@) == sem(node, ts, epoch,
                            use_delta@));
                    }
                }
                res
            },
            Relation::Filter(_) => {
                let res = self.materialized_join(tx, epoch, use_delta);
                proof {
                    if cond {
                        assert(res matches Ok(v) && tuple_views(v@) == sem(node, ts, epoch,
                            use_delta@));
                    }
                }
                res
            },
            Relation::Reorder(_) => Err(QueryError::JoinOnReordered),
        }
    }
}

impl FilteredRelation {
    /// Enumerates the parent and keeps the tuples the predicate accepts,
    /// with this node's eliminated columns projected out.
    pub fn iter(&self, tx: &SessionTx, epoch: Option<u32>, use_delta: &Vec<u64>) -> (res: Result<
        Vec<Tuple>,
        QueryError,
    >)
        ensures
            (tx_wf(tx.triples@) && rel_wf(
                Relation::Filter(*self),
                tx.triples@,
                epoch,
                use_delta@,
            )) ==> (res matches Ok(v) && tuple_views(v@) == sem(
                Relation::Filter(*self),
                tx.triples@,
                epoch,
                use_delta@,
            )),
        decreases self, 1int,
    {
        let ghost ts = tx.triples@;
        let ghost cond = tx_wf(ts) && rel_wf(Relation::Filter(*self), ts, epoch, use_delta@);
        let ghost psem = sem(*self.parent, ts, epoch, use_delta@);
        let ghost pbs = bindings_after(*self.parent);
        let ghost pc = |t: Seq<DataValue>| crate::expr::pred_holds(self.pred, t);
        let ghost pj = |t: Seq<DataValue>| project_away(t, pbs, self.to_eliminate@);
        proof {
            if cond {
                lemma_sem_arity(*self.parent, ts, epoch, use_delta@);
            }
        }
        let pb = self.parent.bindings_after_eliminate();
        let rows = match self.parent.iter(tx, epoch, use_delta) {
            Ok(v) => v,
            Err(er) => {
                return Err(er);
            },
        };
        let ghost pv = tuple_views(rows@);
        let mut out: Vec<Tuple> = Vec::new();
        proof {
            if cond {
                assert(tuple_views(out@) =~= filter_seq(pv.take(0), pc).map_values(pj));
            }
        }
        let mut i: usize = 0;
        while i < rows.len()
            invariant
                0 <= i <= rows@.len(),
                pv == tuple_views(rows@),
                pbs == bindings_after(*self.parent),
                pb@ == pbs,
                pc == (|t: Seq<DataValue>| crate::expr::pred_holds(self.pred, t)),
                pj == (|t: Seq<DataValue>| project_away(t, pbs, self.to_eliminate@)),
                cond ==> pv == sem(*self.parent, tx.triples@, epoch, use_delta@),
                cond == (tx_wf(tx.triples@) && rel_wf(
                    Relation::Filter(*self),
                    tx.triples@,
                    epoch,
                    use_delta@,
                )),
                cond ==> probe_uniform(pv, pbs.len() as int),
                cond ==> tuple_views(out@) == filter_seq(pv.take(i as int), pc).map_values(pj),
            decreases rows@.len() - i,
        {
            let t = &rows[i];
            proof {
                assert(pv[i as int] == t@);
                assert(pv.take(i + 1).drop_last() =~= pv.take(i as int));
                assert(pv.take(i + 1).last() == pv[i as int]);
            }
            if t.0.len() != pb.len() {
                return Err(QueryError::ArityMismatch);
            }
            let keep = match self.pred.eval_pred(t) {
                Ok(b) => b,
                Err(er) => {
                    proof {
                        if cond {
                            assert(crate::expr::expr_indices_ok(self.pred, pbs.len() as int));
                            assert(false);
                        }
                    }
                    return Err(er);
                },
            };
            if keep {
                let projected = project_tuple(t, &pb, &self.to_eliminate);
                let ghost prev = out@;
                out.push(projected);
                proof {
                    if cond {
                        assert(projected@ == pj(pv[i as int]));
                        assert(tuple_views(out@) =~= tuple_views(prev).push(pj(pv[i as int])));
                        assert(pc(pv[i as int]));
                        assert(filter_seq(pv.take(i + 1), pc).map_values(pj) =~= filter_seq(
                            pv.take(i as int),
                            pc,
                        ).map_values(pj).push(pj(pv[i as int])));
                    }
                }
            } else {
                proof {
                    if cond {
                        assert(!pc(pv[i as int]));
                        assert(filter_seq(pv.take(i + 1), pc).map_values(pj) =~= filter_seq(
                            pv.take(i as int),
                            pc,
                        ).map_values(pj));
                    }
                }
            }
            i = i + 1;
        }
        proof {
            if cond {
                assert(pv.take(pv.len() as int) =~= pv);
            }
        }
        Ok(out)
    }
}

impl ReorderRelation {
    /// Enumerates the child and permutes each tuple into `new_order`.
    pub fn iter(&self, tx: &SessionTx, epoch: Option<u32>, use_delta: &Vec<u64>) -> (res: Result<
        Vec<Tuple>,
        QueryError,
    >)
        ensures
            (tx_wf(tx.triples@) && rel_wf(
                Relation::Reorder(*self),
                tx.triples@,
                epoch,
                use_delta@,
            )) ==> (res matches Ok(v) && tuple_views(v@) == sem(
                Relation::Reorder(*self),
                tx.triples@,
                epoch,
                use_delta@,
            )),
        decreases self, 1int,
    {
        let ghost ts = tx.triples@;
        let ghost cond = tx_wf(ts) && rel_wf(Relation::Reorder(*self), ts, epoch, use_delta@);
        let ghost csem = sem(*self.relation, ts, epoch, use_delta@);
        let ghost cbs = bindings_after(*self.relation);
        proof {
            if cond {
                lemma_sem_arity(*self.relation, ts, epoch, use_delta@);
            }
        }
        let child_b = self.relation.bindings_after_eliminate();
        let mut ridx: Vec<usize> = Vec::new();
        let mut j: usize = 0;
        while j < self.new_order.len()
            invariant
                0 <= j <= self.new_order@.len(),
                child_b@ == cbs,
                cbs == bindings_after(*self.relation),
                cond == (tx_wf(tx.triples@) && rel_wf(
                    Relation::Reorder(*self),
                    tx.triples@,
                    epoch,
                    use_delta@,
                )),
                ridx@.len() == j,
                forall|x: int|
                    0 <= x < j ==> #[trigger] ridx@[x] as int == crate::value::pos_of(
                        cbs,
                        self.new_order@[x],
                    ) && (ridx@[x] as int) < cbs.len(),
            decreases self.new_order@.len() - j,
        {
            let p = crate::value::find_binding(&child_b, self.new_order[j]);
            if p >= child_b.len() {
                proof {
                    if cond {
                        assert(cbs.contains(self.new_order@[j as int]));
                        crate::value::lemma_pos_of(cbs, self.new_order@[j as int]);
                        assert(false);
                    }
                }
                return Err(QueryError::ReorderNotPermutation { key: self.new_order[j] });
            }
            ridx.push(p);
            j = j + 1;
        }
        let rows = match self.relation.iter(tx, epoch, use_delta) {
            Ok(v) => v,
            Err(er) => {
                return Err(er);
            },
        };
        let ghost pv = tuple_views(rows@);
        let ghost mapf = |t: Seq<DataValue>| Seq::new(
            self.new_order@.len(),
            |z: int| t[crate::value::pos_of(cbs, self.new_order@[z])],
        );
        let mut out: Vec<Tuple> = Vec::new();
        proof {
            if cond {
                assert(tuple_views(out@) =~= pv.take(0).map_values(mapf));
            }
        }
        let mut i: usize = 0;
        while i < rows.len()
            invariant
                0 <= i <= rows@.len(),
                pv == tuple_views(rows@),
                cbs == bindings_after(*self.relation),
                ridx@.len() == self.new_order@.len(),
                forall|x: int|
                    0 <= x < ridx@.len() ==> #[trigger] ridx@[x] as int == crate::value::pos_of(
                        cbs,
                        self.new_order@[x],
                    ) && (ridx@[x] as int) < cbs.len(),
                mapf == (|t: Seq<DataValue>| Seq::new(
                    self.new_order@.len(),
                    |z: int| t[crate::value::pos_of(cbs, self.new_order@[z])],
                )),
                cond ==> pv == sem(*self.relation, tx.triples@, epoch, use_delta@),
                cond == (tx_wf(tx.triples@) && rel_wf(
                    Relation::Reorder(*self),
                    tx.triples@,
                    epoch,
                    use_delta@,
                )),
                cond ==> probe_uniform(pv, cbs.len() as int),
                cond ==> tuple_views(out@) == pv.take(i as int).map_values(mapf),
            decreases rows@.len() - i,
        {
            let t = &rows[i];
            proof {
                assert(pv[i as int] == t@);
            }
            proof {
                if cond {
                    assert(pv[i as int].len() == cbs.len());
                }
            }
            let mut nr: Vec<DataValue> = Vec::new();
            let mut z: usize = 0;
            while z < ridx.len()
                invariant
                    0 <= z <= ridx@.len(),
                    0 <= i < rows@.len(),
                    nr@.len() == z,
                    ridx@.len() == self.new_order@.len(),
                    cond == (tx_wf(tx.triples@) && rel_wf(
                        Relation::Reorder(*self),
                        tx.triples@,
                        epoch,
                        use_delta@,
                    )),
                    cond ==> rows@[i as int]@.len() == cbs.len(),
                    forall|x: int|
                        0 <= x < ridx@.len() ==> #[trigger] ridx@[x] as int
                            == crate::value::pos_of(cbs, self.new_order@[x]) && (ridx@[
                            x] as int) < cbs.len(),
                    forall|x: int|
                        0 <= x < z ==> #[trigger] nr@[x] == rows@[i as int]@[ridx@[x] as int],
                decreases ridx@.len() - z,
            {
                if ridx[z] >= rows[i].0.len() {
                    proof {
                        if cond {
                            assert(rows@[i as int]@.len() == cbs.len());
                            assert(false);
                        }
                    }
                    return Err(QueryError::ArityMismatch);
                }
                let nv = rows[i].0[ridx[z]];
                let ghost prev_nr = nr@;
                nr.push(nv);
                proof {
                    assert forall|x: int|
                        0 <= x <= z implies #[trigger] nr@[x] == rows@[i as int]@[ridx@[x] as int]
                        by {
                        if x < z as int {
                            assert(prev_nr[x] == rows@[i as int]@[ridx@[x] as int]);
                            assert(nr@[x] == prev_nr[x]);
                        } else {
                            assert(nr@[x] == nv);
                        }
                    }
                }
                z = z + 1;
            }
            let nt = Tuple(nr);
            let ghost prev = out@;
            out.push(nt);
            proof {
                if cond {
                    assert(nt@ =~= mapf(pv[i as int]));
                    assert(tuple_views(out@) =~= tuple_views(prev).push(mapf(pv[i as int])));
                    assert(pv.take(i + 1).map_values(mapf) =~= pv.take(i as int).map_values(
                        mapf,
                    ).push(mapf(pv[i as int])));
                }
            }
            i = i + 1;
        }
        proof {
            if cond {
                assert(pv.take(pv.len() as int) =~= pv);
                assert(pv.map_values(mapf) == reorder_sem(csem, cbs, self.new_order@));
            }
        }
        Ok(out)
    }
}

impl Relation {
    /// Enumerates this relation's tuples against the transaction snapshot,
    /// under the given epoch and delta set.  On a well-formed plan over a
    /// well-formed snapshot, yields exactly the abstract semantics.
    pub fn iter(&self, tx: &SessionTx, epoch: Option<u32>, use_delta: &Vec<u64>) -> (res: Result<
        Vec<Tuple>,
        QueryError,
    >)
        ensures
            (tx_wf(tx.triples@) && rel_wf(*self, tx.triples@, epoch, use_delta@)) ==> (
            res matches Ok(v) && tuple_views(v@) == sem(*self, tx.triples@, epoch, use_delta@)),
        decreases self, 2int,
    {
        let ghost ts = tx.triples@;
        let ghost cond = tx_wf(ts) && rel_wf(*self, ts, epoch, use_delta@);
        match self {
            Relation::Fixed(f) => {
                let ghost target = sem(*self, ts, epoch, use_delta@);
                let mut out: Vec<Tuple> = Vec::new();
                proof {
                    assert(tuple_views(out@) =~= f.data@.take(0).map_values(
                        |row: Vec<DataValue>| project_away(row@, f.bindings@, f.to_eliminate@),
                    ));
                }
                let mut i: usize = 0;
                while i < f.data.len()
                    invariant
                        0 <= i <= f.data@.len(),
                        rel_wf(*self, tx.triples@, epoch, use_delta@) ==> forall|x: int|
                            0 <= x < f.data@.len() ==> (#[trigger] f.data@[x])@.len()
                                == f.bindings@.len(),
                        tuple_views(out@) == f.data@.take(i as int).map_values(
                            |row: Vec<DataValue>| project_away(
                                row@,
                                f.bindings@,
                                f.to_eliminate@,
                            ),
                        ),
                    decreases f.data@.len() - i,
                {
                    if f.data[i].len() != f.bindings.len() {
                        proof {
                            if rel_wf(*self, tx.triples@, epoch, use_delta@) {
                                assert(f.data@[i as int]@.len() == f.bindings@.len());
                                assert(false);
                            }
                        }
                        return Err(QueryError::ArityMismatch);
                    }
                    let row_t = Tuple(copy_values(&f.data[i]));
                    let projected = project_tuple(&row_t, &f.bindings, &f.to_eliminate);
                    let ghost prev = out@;
                    out.push(projected);
                    proof {
                        let pr = |row: Vec<DataValue>| project_away(
                            row@,
                            f.bindings@,
                            f.to_eliminate@,
                        );
                        assert(projected@ == pr(f.data@[i as int]));
                        assert(tuple_views(out@) =~= tuple_views(prev).push(pr(f.data@[
                            i as int])));
                        assert(f.data@.take(i + 1).map_values(pr) =~= f.data@.take(
                            i as int,
                        ).map_values(pr).push(pr(f.data@[i as int])));
                    }
                    i = i + 1;
                }
                proof {
                    assert(f.data@.take(f.data@.len() as int) =~= f.data@);
                }
                Ok(out)
            },
            Relation::Triple(t) => {
                let facts = tx.triple_a_before_scan(t.attr.id, t.vld);
                let mut out: Vec<Tuple> = Vec::new();
                proof {
                    assert(tuple_views(out@) =~= triple_tuples(facts@.take(0)));
                }
                let mut i: usize = 0;
                while i < facts.len()
                    invariant
                        0 <= i <= facts@.len(),
                        tuple_views(out@) == triple_tuples(facts@.take(i as int)),
                    decreases facts@.len() - i,
                {
                    let f = facts[i];
                    let mut row: Vec<DataValue> = Vec::new();
                    row.push(DataValue::EnId(f.entity));
                    row.push(f.value);
                    let rt = Tuple(row);
                    let ghost prev = out@;
                    out.push(rt);
                    proof {
                        assert(rt@ =~= fact_tuple(facts@[i as int]));
                        assert(tuple_views(out@) =~= tuple_views(prev).push(fact_tuple(facts@[
                            i as int])));
                        assert(triple_tuples(facts@.take(i + 1)) =~= triple_tuples(facts@.take(
                            i as int,
                        )).push(fact_tuple(facts@[i as int])));
                    }
                    i = i + 1;
                }
                proof {
                    assert(facts@.take(facts@.len() as int) =~= facts@);
                }
                Ok(out)
            },
            Relation::Derived(d) => Ok(d.iter(epoch, use_delta)),
            Relation::Join(j) => {
                let res = j.iter(tx, epoch, use_delta);
                proof {
                    if cond {
                        assert(Relation::Join(Box::new(**j)) == *self);
                    }
                }
                res
            },
            Relation::Reorder(r) => {
                let res = r.iter(tx, epoch, use_delta);
                proof {
                    if cond {
                        assert(Relation::Reorder(*r) == *self);
                    }
                }
                res
            },
            Relation::Filter(fr) => {
                let res = fr.iter(tx, epoch, use_delta);
                proof {
                    if cond {
                        assert(Relation::Filter(*fr) == *self);
                    }
                }
                res
            },
        }
    }
}

/// Every probe tuple has a value at position `idx`.
pub open spec fn probe_col_ok(ls: Seq<Seq<DataValue>>, idx: int) -> bool {
    forall|i: int| 0 <= i < ls.len() ==> 0 <= idx < (#[trigger] ls[i]).len()
}

impl TripleRelation {
    /// Negated existence check: keep the probe tuple iff the (entity,
    /// attribute, value) fact is absent.
    pub fn neg_ev_join(
        &self,
        left_iter: Vec<Tuple>,
        left_e_idx: usize,
        left_v_idx: usize,
        tx: &SessionTx,
    ) -> (res: Result<Vec<Tuple>, QueryError>)
        ensures
            ({
                let pv = tuple_views(left_iter@);
                let rs = triple_tuples(facts_for_attr(tx.triples@, self.attr.id, self.vld));
                (probe_col_ok(pv, left_e_idx as int) && probe_col_ok(pv, left_v_idx as int)
                    && probe_vals_enid(pv, left_e_idx as int)) ==> (res matches Ok(v)
                    && tuple_views(v@) == neg_join_sem(
                    pv,
                    rs,
                    seq![left_e_idx as int, left_v_idx as int],
                    seq![0int, 1int],
                ))
            }),
    {
        let ghost pv = tuple_views(left_iter@);
        let ghost rs = triple_tuples(facts_for_attr(tx.triples@, self.attr.id, self.vld));
        let ghost liv = seq![left_e_idx as int, left_v_idx as int];
        let ghost riv = seq![0int, 1int];
        let ghost nm = |l2: Seq<DataValue>| matches_for(l2, rs, liv, riv).len() == 0;
        let mut out: Vec<Tuple> = Vec::new();
        proof {
            assert(tuple_views(out@) =~= filter_seq(pv.take(0), nm));
        }
        let mut i: usize = 0;
        while i < left_iter.len()
            invariant
                0 <= i <= left_iter@.len(),
                pv == tuple_views(left_iter@),
                rs == triple_tuples(facts_for_attr(tx.triples@, self.attr.id, self.vld)),
                liv == seq![left_e_idx as int, left_v_idx as int],
                riv == seq![0int, 1int],
                nm == (|l2: Seq<DataValue>| matches_for(l2, rs, liv, riv).len() == 0),
                tuple_views(out@) == filter_seq(pv.take(i as int), nm),
            decreases left_iter@.len() - i,
        {
            let t = &left_iter[i];
            proof {
                assert(pv[i as int] == t@);
                assert(pv.take(i + 1).drop_last() =~= pv.take(i as int));
                assert(pv.take(i + 1).last() == pv[i as int]);
            }
            if left_e_idx >= t.0.len() || left_v_idx >= t.0.len() {
                return Err(QueryError::ArityMismatch);
            }
            let eid = match t.0[left_e_idx].get_entity_id() {
                Ok(e) => e,
                Err(er) => {
                    return Err(er);
                },
            };
            let val = t.0[left_v_idx];
            let found = tx.eav_exists(eid, self.attr.id, val, self.vld);
            proof {
                let l = pv[i as int];
                assert(l[left_e_idx as int] == DataValue::EnId(eid));
                assert(l[left_v_idx as int] == val);
                let fs = tx.triples@;
                let a = self.attr.id;
                let vd = self.vld;
                let pattr = |f: TripleFact| f.attr == a && visible(f, vd);
                let pev = |f: TripleFact| f.entity == eid && f.value == val;
                let ft = |f: TripleFact| fact_tuple(f);
                let q = |r: Seq<DataValue>| key_match(l, r, liv, riv);
                let aseq = filter_seq(fs, pattr);
                assert(rs == aseq.map_values(ft));
                assert forall|k: int| 0 <= k < aseq.len() implies (pev(#[trigger] aseq[k]) <==> q(
                    ft(aseq[k]),
                )) by {
                    let f = aseq[k];
                    assert(ft(f)[0] == DataValue::EnId(f.entity));
                    assert(ft(f)[1] == f.value);
                    if pev(f) {
                        assert forall|x: int| 0 <= x < liv.len() implies l[#[trigger] liv[x]]
                            == ft(f)[riv[x]] by {
                            if x == 0 {
                            } else {
                                assert(x == 1);
                            }
                        }
                    }
                    if q(ft(f)) {
                        assert(l[liv[0]] == ft(f)[riv[0]]);
                        assert(l[liv[1]] == ft(f)[riv[1]]);
                    }
                }
                lemma_filter_map_commute(aseq, ft, pev, q);
                lemma_filter_seq_compose(fs, pattr, pev);
                let pfull = |f: TripleFact| f.entity == eid && f.attr == a && f.value == val
                    && visible(f, vd);
                lemma_filter_seq_equiv(fs, |f: TripleFact| pattr(f) && pev(f), pfull);
                assert(matches_for(l, rs, liv, riv) == filter_seq(fs, pfull).map_values(ft));
                lemma_filter_seq_nonempty(fs, pfull);
                if found {
                    assert(eav_present(fs, eid, a, val, vd));
                    let w = choose|w: int|
                        0 <= w < fs.len() && fs[w].entity == eid && fs[w].attr == a && fs[w].value
                            == val && visible(fs[w], vd);
                    assert(pfull(fs[w]));
                    assert(!nm(l));
                } else {
                    if filter_seq(fs, pfull).len() > 0 {
                        let w = choose|w: int| 0 <= w < fs.len() && pfull(fs[w]);
                        assert(eav_present(fs, eid, a, val, vd));
                    }
                    assert(nm(l));
                }
            }
            if !found {
                let kept = t.duplicate();
                let ghost prev = out@;
                out.push(kept);
                proof {
                    assert(tuple_views(out@) =~= tuple_views(prev).push(pv[i as int]));
                    assert(filter_seq(pv.take(i + 1), nm) == filter_seq(pv.take(i as int),
                        nm).push(pv[i as int]));
                }
            } else {
                proof {
                    assert(filter_seq(pv.take(i + 1), nm) == filter_seq(pv.take(i as int), nm));
                }
            }
            i = i + 1;
        }
        proof {
            assert(pv.take(pv.len() as int) =~= pv);
        }
        Ok(out)
    }

    /// Negated entity join: keep the probe tuple iff the entity has no
    /// triple of this attribute.
    pub fn neg_e_join(&self, left_iter: Vec<Tuple>, left_e_idx: usize, tx: &SessionTx) -> (res:
        Result<Vec<Tuple>, QueryError>)
        ensures
            ({
                let pv = tuple_views(left_iter@);
                let rs = triple_tuples(facts_for_attr(tx.triples@, self.attr.id, self.vld));
                (probe_col_ok(pv, left_e_idx as int) && probe_vals_enid(pv, left_e_idx as int))
                    ==> (res matches Ok(v) && tuple_views(v@) == neg_join_sem(
                    pv,
                    rs,
                    seq![left_e_idx as int],
                    seq![0int],
                ))
            }),
    {
        let ghost pv = tuple_views(left_iter@);
        let ghost rs = triple_tuples(facts_for_attr(tx.triples@, self.attr.id, self.vld));
        let ghost liv = seq![left_e_idx as int];
        let ghost riv = seq![0int];
        let ghost nm = |l2: Seq<DataValue>| matches_for(l2, rs, liv, riv).len() == 0;
        let mut out: Vec<Tuple> = Vec::new();
        proof {
            assert(tuple_views(out@) =~= filter_seq(pv.take(0), nm));
        }
        let mut i: usize = 0;
        while i < left_iter.len()
            invariant
                0 <= i <= left_iter@.len(),
                pv == tuple_views(left_iter@),
                rs == triple_tuples(facts_for_attr(tx.triples@, self.attr.id, self.vld)),
                liv == seq![left_e_idx as int],
                riv == seq![0int],
                nm == (|l2: Seq<DataValue>| matches_for(l2, rs, liv, riv).len() == 0),
                tuple_views(out@) == filter_seq(pv.take(i as int), nm),
            decreases left_iter@.len() - i,
        {
            let t = &left_iter[i];
            proof {
                assert(pv[i as int] == t@);
                assert(pv.take(i + 1).drop_last() =~= pv.take(i as int));
                assert(pv.take(i + 1).last() == pv[i as int]);
            }
            if left_e_idx >= t.0.len() {
                return Err(QueryError::ArityMismatch);
            }
            let eid = match t.0[left_e_idx].get_entity_id() {
                Ok(e) => e,
                Err(er) => {
                    return Err(er);
                },
            };
            let facts = tx.triple_ea_before_scan(eid, self.attr.id, self.vld);
            proof {
                let l = pv[i as int];
                assert(l[left_e_idx as int] == DataValue::EnId(eid));
                let fs = tx.triples@;
                let a = self.attr.id;
                let vd = self.vld;
                let pattr = |f: TripleFact| f.attr == a && visible(f, vd);
                let pe = |f: TripleFact| f.entity == eid;
                let ft = |f: TripleFact| fact_tuple(f);
                let q = |r: Seq<DataValue>| key_match(l, r, liv, riv);
                let aseq = filter_seq(fs, pattr);
                assert(rs == aseq.map_values(ft));
                assert forall|k: int| 0 <= k < aseq.len() implies (pe(#[trigger] aseq[k]) <==> q(
                    ft(aseq[k]),
                )) by {
                    let f = aseq[k];
                    assert(ft(f)[0] == DataValue::EnId(f.entity));
                    if pe(f) {
                        assert forall|x: int| 0 <= x < liv.len() implies l[#[trigger] liv[x]]
                            == ft(f)[riv[x]] by {
                            assert(x == 0);
                        }
                    }
                    if q(ft(f)) {
                        assert(l[liv[0]] == ft(f)[riv[0]]);
                    }
                }
                lemma_filter_map_commute(aseq, ft, pe, q);
                lemma_filter_seq_compose(fs, pattr, pe);
                lemma_filter_seq_equiv(
                    fs,
                    |f: TripleFact| pattr(f) && pe(f),
                    |f: TripleFact| f.entity == eid && f.attr == a && visible(f, vd),
                );
                assert(matches_for(l, rs, liv, riv) == facts@.map_values(ft));
                assert(nm(l) <==> facts@.len() == 0);
            }
            if facts.len() == 0 {
                let kept = t.duplicate();
                let ghost prev = out@;
                out.push(kept);
                proof {
                    assert(tuple_views(out@) =~= tuple_views(prev).push(pv[i as int]));
                    assert(filter_seq(pv.take(i + 1), nm) == filter_seq(pv.take(i as int),
                        nm).push(pv[i as int]));
                }
            } else {
                proof {
                    assert(filter_seq(pv.take(i + 1), nm) == filter_seq(pv.take(i as int), nm));
                }
            }
            i = i + 1;
        }
        proof {
            assert(pv.take(pv.len() as int) =~= pv);
        }
        Ok(out)
    }

    /// Negated reverse-reference join: keep the probe tuple iff nothing
    /// refers to its entity id through this attribute.
    pub fn neg_v_ref_join(&self, left_iter: Vec<Tuple>, left_v_idx: usize, tx: &SessionTx) -> (res:
        Result<Vec<Tuple>, QueryError>)
        ensures
            ({
                let pv = tuple_views(left_iter@);
                let rs = triple_tuples(facts_for_attr(tx.triples@, self.attr.id, self.vld));
                (probe_col_ok(pv, left_v_idx as int) && probe_vals_enid(pv, left_v_idx as int))
                    ==> (res matches Ok(v) && tuple_views(v@) == neg_join_sem(
                    pv,
                    rs,
                    seq![left_v_idx as int],
                    seq![1int],
                ))
            }),
    {
        let ghost pv = tuple_views(left_iter@);
        let ghost rs = triple_tuples(facts_for_attr(tx.triples@, self.attr.id, self.vld));
        let ghost liv = seq![left_v_idx as int];
        let ghost riv = seq![1int];
        let ghost nm = |l2: Seq<DataValue>| matches_for(l2, rs, liv, riv).len() == 0;
        let mut out: Vec<Tuple> = Vec::new();
        proof {
            assert(tuple_views(out@) =~= filter_seq(pv.take(0), nm));
        }
        let mut i: usize = 0;
        while i < left_iter.len()
            invariant
                0 <= i <= left_iter@.len(),
                pv == tuple_views(left_iter@),
                rs == triple_tuples(facts_for_attr(tx.triples@, self.attr.id, self.vld)),
                liv == seq![left_v_idx as int],
                riv == seq![1int],
                nm == (|l2: Seq<DataValue>| matches_for(l2, rs, liv, riv).len() == 0),
                tuple_views(out@) == filter_seq(pv.take(i as int), nm),
            decreases left_iter@.len() - i,
        {
            let t = &left_iter[i];
            proof {
                assert(pv[i as int] == t@);
                assert(pv.take(i + 1).drop_last() =~= pv.take(i as int));
                assert(pv.take(i + 1).last() == pv[i as int]);
            }
            if left_v_idx >= t.0.len() {
                return Err(QueryError::ArityMismatch);
            }
            let v_eid = match t.0[left_v_idx].get_entity_id() {
                Ok(e) => e,
                Err(er) => {
                    return Err(er);
                },
            };
            let facts = tx.triple_vref_a_before_scan(v_eid, self.attr.id, self.vld);
            proof {
                let l = pv[i as int];
                assert(l[left_v_idx as int] == DataValue::EnId(v_eid));
                let fs = tx.triples@;
                let a = self.attr.id;
                let vd = self.vld;
                let pattr = |f: TripleFact| f.attr == a && visible(f, vd);
                let pval = |f: TripleFact| f.value == DataValue::EnId(v_eid);
                let ft = |f: TripleFact| fact_tuple(f);
                let q = |r: Seq<DataValue>| key_match(l, r, liv, riv);
                let aseq = filter_seq(fs, pattr);
                assert(rs == aseq.map_values(ft));
                assert forall|k: int| 0 <= k < aseq.len() implies (pval(#[trigger] aseq[k]) <==> q(
                    ft(aseq[k]),
                )) by {
                    let f = aseq[k];
                    assert(ft(f)[1] == f.value);
                    if pval(f) {
                        assert forall|x: int| 0 <= x < liv.len() implies l[#[trigger] liv[x]]
                            == ft(f)[riv[x]] by {
                            assert(x == 0);
                        }
                    }
                    if q(ft(f)) {
                        assert(l[liv[0]] == ft(f)[riv[0]]);
                    }
                }
                lemma_filter_map_commute(aseq, ft, pval, q);
                lemma_filter_seq_compose(fs, pattr, pval);
                lemma_filter_seq_equiv(
                    fs,
                    |f: TripleFact| pattr(f) && pval(f),
                    |f: TripleFact| f.attr == a && f.value == DataValue::EnId(v_eid) && visible(
                        f,
                        vd,
                    ),
                );
                assert(matches_for(l, rs, liv, riv) == facts@.map_values(ft));
                assert(nm(l) <==> facts@.len() == 0);
            }
            if facts.len() == 0 {
                let kept = t.duplicate();
                let ghost prev = out@;
                out.push(kept);
                proof {
                    assert(tuple_views(out@) =~= tuple_views(prev).push(pv[i as int]));
                    assert(filter_seq(pv.take(i + 1), nm) == filter_seq(pv.take(i as int),
                        nm).push(pv[i as int]));
                }
            } else {
                proof {
                    assert(filter_seq(pv.take(i + 1), nm) == filter_seq(pv.take(i as int), nm));
                }
            }
            i = i + 1;
        }
        proof {
            assert(pv.take(pv.len() as int) =~= pv);
        }
        Ok(out)
    }

    /// Negated indexed-value join: keep the probe tuple iff no triple
    /// carries its value.
    pub fn neg_v_index_join(&self, left_iter: Vec<Tuple>, left_v_idx: usize, tx: &SessionTx) -> (
        res: Result<Vec<Tuple>, QueryError>)
        ensures
            ({
                let pv = tuple_views(left_iter@);
                let rs = triple_tuples(facts_for_attr(tx.triples@, self.attr.id, self.vld));
                probe_col_ok(pv, left_v_idx as int) ==> (res matches Ok(v) && tuple_views(v@)
                    == neg_join_sem(pv, rs, seq![left_v_idx as int], seq![1int]))
            }),
    {
        let ghost pv = tuple_views(left_iter@);
        let ghost rs = triple_tuples(facts_for_attr(tx.triples@, self.attr.id, self.vld));
        let ghost liv = seq![left_v_idx as int];
        let ghost riv = seq![1int];
        let ghost nm = |l2: Seq<DataValue>| matches_for(l2, rs, liv, riv).len() == 0;
        let mut out: Vec<Tuple> = Vec::new();
        proof {
            assert(tuple_views(out@) =~= filter_seq(pv.take(0), nm));
        }
        let mut i: usize = 0;
        while i < left_iter.len()
            invariant
                0 <= i <= left_iter@.len(),
                pv == tuple_views(left_iter@),
                rs == triple_tuples(facts_for_attr(tx.triples@, self.attr.id, self.vld)),
                liv == seq![left_v_idx as int],
                riv == seq![1int],
                nm == (|l2: Seq<DataValue>| matches_for(l2, rs, liv, riv).len() == 0),
                tuple_views(out@) == filter_seq(pv.take(i as int), nm),
            decreases left_iter@.len() - i,
        {
            let t = &left_iter[i];
            proof {
                assert(pv[i as int] == t@);
                assert(pv.take(i + 1).drop_last() =~= pv.take(i as int));
                assert(pv.take(i + 1).last() == pv[i as int]);
            }
            if left_v_idx >= t.0.len() {
                return Err(QueryError::ArityMismatch);
            }
            let val = t.0[left_v_idx];
            let facts = tx.triple_av_before_scan(self.attr.id, val, self.vld);
            proof {
                let l = pv[i as int];
                assert(l[left_v_idx as int] == val);
                let fs = tx.triples@;
                let a = self.attr.id;
                let vd = self.vld;
                let pattr = |f: TripleFact| f.attr == a && visible(f, vd);
                let pval = |f: TripleFact| f.value == val;
                let ft = |f: TripleFact| fact_tuple(f);
                let q = |r: Seq<DataValue>| key_match(l, r, liv, riv);
                let aseq = filter_seq(fs, pattr);
                assert(rs == aseq.map_values(ft));
                assert forall|k: int| 0 <= k < aseq.len() implies (pval(#[trigger] aseq[k]) <==> q(
                    ft(aseq[k]),
                )) by {
                    let f = aseq[k];
                    assert(ft(f)[1] == f.value);
                    if pval(f) {
                        assert forall|x: int| 0 <= x < liv.len() implies l[#[trigger] liv[x]]
                            == ft(f)[riv[x]] by {
                            assert(x == 0);
                        }
                    }
                    if q(ft(f)) {
                        assert(l[liv[0]] == ft(f)[riv[0]]);
                    }
                }
                lemma_filter_map_commute(aseq, ft, pval, q);
                lemma_filter_seq_compose(fs, pattr, pval);
                lemma_filter_seq_equiv(
                    fs,
                    |f: TripleFact| pattr(f) && pval(f),
                    |f: TripleFact| f.attr == a && f.value == val && visible(f, vd),
                );
                assert(matches_for(l, rs, liv, riv) == facts@.map_values(ft));
                assert(nm(l) <==> facts@.len() == 0);
            }
            if facts.len() == 0 {
                let kept = t.duplicate();
                let ghost prev = out@;
                out.push(kept);
                proof {
                    assert(tuple_views(out@) =~= tuple_views(prev).push(pv[i as int]));
                    assert(filter_seq(pv.take(i + 1), nm) == filter_seq(pv.take(i as int),
                        nm).push(pv[i as int]));
                }
            } else {
                proof {
                    assert(filter_seq(pv.take(i + 1), nm) == filter_seq(pv.take(i as int), nm));
                }
            }
            i = i + 1;
        }
        proof {
            assert(pv.take(pv.len() as int) =~= pv);
        }
        Ok(out)
    }

    /// Negated non-indexed value join: scan the attribute's triples and
    /// drop the probe tuple on the first value match.
    pub fn neg_v_no_index_join(
        &self,
        left_iter: Vec<Tuple>,
        left_v_idx: usize,
        tx: &SessionTx,
    ) -> (res: Result<Vec<Tuple>, QueryError>)
        ensures
            ({
                let pv = tuple_views(left_iter@);
                let rs = triple_tuples(facts_for_attr(tx.triples@, self.attr.id, self.vld));
                probe_col_ok(pv, left_v_idx as int) ==> (res matches Ok(v) && tuple_views(v@)
                    == neg_join_sem(pv, rs, seq![left_v_idx as int], seq![1int]))
            }),
    {
        let ghost pv = tuple_views(left_iter@);
        let ghost rs = triple_tuples(facts_for_attr(tx.triples@, self.attr.id, self.vld));
        let ghost liv = seq![left_v_idx as int];
        let ghost riv = seq![1int];
        let ghost nm = |l2: Seq<DataValue>| matches_for(l2, rs, liv, riv).len() == 0;
        let all_facts = tx.triple_a_before_scan(self.attr.id, self.vld);
        let mut out: Vec<Tuple> = Vec::new();
        proof {
            assert(tuple_views(out@) =~= filter_seq(pv.take(0), nm));
        }
        let mut i: usize = 0;
        while i < left_iter.len()
            invariant
                0 <= i <= left_iter@.len(),
                pv == tuple_views(left_iter@),
                rs == triple_tuples(facts_for_attr(tx.triples@, self.attr.id, self.vld)),
                all_facts@ == facts_for_attr(tx.triples@, self.attr.id, self.vld),
                liv == seq![left_v_idx as int],
                riv == seq![1int],
                nm == (|l2: Seq<DataValue>| matches_for(l2, rs, liv, riv).len() == 0),
                tuple_views(out@) == filter_seq(pv.take(i as int), nm),
            decreases left_iter@.len() - i,
        {
            let t = &left_iter[i];
            proof {
                assert(pv[i as int] == t@);
                assert(pv.take(i + 1).drop_last() =~= pv.take(i as int));
                assert(pv.take(i + 1).last() == pv[i as int]);
            }
            if left_v_idx >= t.0.len() {
                return Err(QueryError::ArityMismatch);
            }
            let val = t.0[left_v_idx];
            let mut found: bool = false;
            let mut j: usize = 0;
            while j < all_facts.len()
                invariant
                    0 <= j <= all_facts@.len(),
                    !found ==> forall|x: int|
                        0 <= x < j ==> (#[trigger] all_facts@[x]).value != val,
                    found ==> exists|x: int|
                        0 <= x < all_facts@.len() && (#[trigger] all_facts@[x]).value == val,
                decreases all_facts@.len() - j,
            {
                if all_facts[j].value == val {
                    proof {
                        assert(all_facts@[j as int].value == val);
                    }
                    found = true;
                }
                j = j + 1;
            }
            proof {
                let l = pv[i as int];
                assert(l[left_v_idx as int] == val);
                let ft = |f: TripleFact| fact_tuple(f);
                let q = |r: Seq<DataValue>| key_match(l, r, liv, riv);
                let pval = |f: TripleFact| f.value == val;
                let aseq = all_facts@;
                assert(rs == aseq.map_values(ft));
                assert forall|k: int| 0 <= k < aseq.len() implies (pval(#[trigger] aseq[k]) <==> q(
                    ft(aseq[k]),
                )) by {
                    let f = aseq[k];
                    assert(ft(f)[1] == f.value);
                    if pval(f) {
                        assert forall|x: int| 0 <= x < liv.len() implies l[#[trigger] liv[x]]
                            == ft(f)[riv[x]] by {
                            assert(x == 0);
                        }
                    }
                    if q(ft(f)) {
                        assert(l[liv[0]] == ft(f)[riv[0]]);
                    }
                }
                lemma_filter_map_commute(aseq, ft, pval, q);
                lemma_filter_seq_nonempty(aseq, pval);
                assert(matches_for(l, rs, liv, riv) == filter_seq(aseq, pval).map_values(ft));
                assert(nm(l) <==> !found);
            }
            if !found {
                let kept = t.duplicate();
                let ghost prev = out@;
                out.push(kept);
                proof {
                    assert(tuple_views(out@) =~= tuple_views(prev).push(pv[i as int]));
                    assert(filter_seq(pv.take(i + 1), nm) == filter_seq(pv.take(i as int),
                        nm).push(pv[i as int]));
                }
            } else {
                proof {
                    assert(filter_seq(pv.take(i + 1), nm) == filter_seq(pv.take(i as int), nm));
                }
            }
            i = i + 1;
        }
        proof {
            assert(pv.take(pv.len() as int) =~= pv);
        }
        Ok(out)
    }

    /// Negated join dispatch, mirroring the positive dispatch: keep each
    /// probe tuple iff no matching triple exists.
    pub fn neg_join(
        &self,
        left_iter: Vec<Tuple>,
        left_ji: &Vec<usize>,
        right_ji: &Vec<usize>,
        tx: &SessionTx,
    ) -> (res: Result<Vec<Tuple>, QueryError>)
        ensures
            ({
                let pv = tuple_views(left_iter@);
                let rs = triple_tuples(facts_for_attr(tx.triples@, self.attr.id, self.vld));
                let liv = idx_views(left_ji@);
                let riv = idx_views(right_ji@);
                (left_ji@.len() == right_ji@.len() && riv.len() >= 1 && triple_shape_ok(riv)
                    && triple_probe_ok(self.attr, pv, liv, riv) && (forall|k: int|
                    0 <= k < liv.len() ==> probe_col_ok(pv, #[trigger] liv[k]))) ==> (
                res matches Ok(v) && tuple_views(v@) == neg_join_sem(pv, rs, liv, riv))
            }),
    {
        let ghost pv = tuple_views(left_iter@);
        let ghost rs = triple_tuples(facts_for_attr(tx.triples@, self.attr.id, self.vld));
        let ghost liv = idx_views(left_ji@);
        let ghost riv = idx_views(right_ji@);
        if right_ji.len() == 2 {
            if left_ji.len() != 2 {
                return Err(QueryError::InvalidTripleJoinKeys);
            }
            let r0 = right_ji[0];
            let r1 = right_ji[1];
            let l0 = left_ji[0];
            let l1 = left_ji[1];
            proof {
                assert(liv[0] == l0 as int && liv[1] == l1 as int);
                assert(riv[0] == r0 as int && riv[1] == r1 as int);
            }
            if r0 == 0 && r1 == 1 {
                let res = self.neg_ev_join(left_iter, l0, l1, tx);
                proof {
                    assert(liv =~= seq![l0 as int, l1 as int]);
                    assert(riv =~= seq![0int, 1int]);
                }
                res
            } else if r0 == 1 && r1 == 0 {
                let res = self.neg_ev_join(left_iter, l1, l0, tx);
                proof {
                    assert(liv =~= seq![l0 as int, l1 as int]);
                    assert(riv =~= seq![1int, 0int]);
                    let liv2 = seq![l1 as int, l0 as int];
                    let riv2 = seq![0int, 1int];
                    assert forall|l: Seq<DataValue>|
                        #[trigger] matches_for(l, rs, liv2, riv2) == matches_for(l, rs, liv, riv)
                        by {
                        let q1 = |r: Seq<DataValue>| key_match(l, r, liv2, riv2);
                        let q2 = |r: Seq<DataValue>| key_match(l, r, liv, riv);
                        assert forall|x: int| 0 <= x < rs.len() implies (q1(#[trigger] rs[x]) <==>
                            q2(rs[x])) by {
                            let r = rs[x];
                            if q1(r) {
                                assert(l[liv2[0]] == r[riv2[0]]);
                                assert(l[liv2[1]] == r[riv2[1]]);
                                assert forall|y: int|
                                    0 <= y < liv.len() implies l[#[trigger] liv[y]] == r[riv[y]]
                                    by {
                                    if y == 0 {
                                    } else {
                                        assert(y == 1);
                                    }
                                }
                            }
                            if q2(r) {
                                assert(l[liv[0]] == r[riv[0]]);
                                assert(l[liv[1]] == r[riv[1]]);
                                assert forall|y: int|
                                    0 <= y < liv2.len() implies l[#[trigger] liv2[y]] == r[riv2[
                                    y]] by {
                                    if y == 0 {
                                    } else {
                                        assert(y == 1);
                                    }
                                }
                            }
                        }
                        lemma_filter_seq_equiv(rs, q1, q2);
                    }
                    assert forall|x: int|
                        0 <= x < pv.len() implies ((matches_for(#[trigger] pv[x], rs, liv2,
                        riv2).len() == 0) <==> (matches_for(pv[x], rs, liv, riv).len() == 0)) by {
                        assert(matches_for(pv[x], rs, liv2, riv2) == matches_for(pv[x], rs, liv,
                            riv));
                    }
                    lemma_filter_seq_equiv(
                        pv,
                        |l2: Seq<DataValue>| matches_for(l2, rs, liv2, riv2).len() == 0,
                        |l2: Seq<DataValue>| matches_for(l2, rs, liv, riv).len() == 0,
                    );
                }
                res
            } else {
                Err(QueryError::InvalidTripleJoinKeys)
            }
        } else if right_ji.len() == 1 {
            if left_ji.len() != 1 {
                return Err(QueryError::InvalidTripleJoinKeys);
            }
            let l0 = left_ji[0];
            proof {
                assert(liv[0] == l0 as int);
                assert(liv =~= seq![l0 as int]);
            }
            if right_ji[0] == 0 {
                proof {
                    assert(riv =~= seq![0int]);
                }
                self.neg_e_join(left_iter, l0, tx)
            } else if right_ji[0] == 1 {
                proof {
                    assert(riv =~= seq![1int]);
                }
                if self.attr.val_is_ref {
                    self.neg_v_ref_join(left_iter, l0, tx)
                } else if self.attr.val_indexed {
                    self.neg_v_index_join(left_iter, l0, tx)
                } else {
                    self.neg_v_no_index_join(left_iter, l0, tx)
                }
            } else {
                Err(QueryError::InvalidTripleJoinKeys)
            }
        } else {
            Err(QueryError::InvalidTripleJoinKeys)
        }
    }
}

impl StoredDerivedRelation {
    /// Negated join against the full store: probe by the longest identity
    /// key prefix, then verify full key equality; keep the probe tuple iff
    /// nothing matches.
    pub fn neg_join(
        &self,
        left_iter: Vec<Tuple>,
        left_ji: &Vec<usize>,
        right_ji: &Vec<usize>,
    ) -> (res: Result<Vec<Tuple>, QueryError>)
        ensures
            ({
                let pv = tuple_views(left_iter@);
                let rs = crate::storage::rows_for_epoch(self.storage.rows@, 0);
                let liv = idx_views(left_ji@);
                let riv = idx_views(right_ji@);
                (left_ji@.len() == right_ji@.len() && (forall|k: int|
                    0 <= k < liv.len() ==> probe_col_ok(pv, #[trigger] liv[k])) && (forall|k: int|
                    0 <= k < riv.len() ==> 0 <= #[trigger] riv[k] < self.bindings@.len()) && (
                forall|x: int|
                    0 <= x < self.storage.rows@.len() ==> (#[trigger] self.storage.rows@[x]).tuple@
                        .len() == self.bindings@.len())) ==> (res matches Ok(v) && tuple_views(v@)
                    == neg_join_sem(pv, rs, liv, riv))
            }),
    {
        let ghost pv = tuple_views(left_iter@);
        let ghost rs = crate::storage::rows_for_epoch(self.storage.rows@, 0);
        let ghost liv = idx_views(left_ji@);
        let ghost riv = idx_views(right_ji@);
        let ghost nb = self.bindings@.len() as int;
        let ghost cond = left_ji@.len() == right_ji@.len() && (forall|k: int|
            0 <= k < liv.len() ==> probe_col_ok(pv, #[trigger] liv[k])) && (forall|k: int|
            0 <= k < riv.len() ==> 0 <= #[trigger] riv[k] < nb) && (forall|x: int|
            0 <= x < self.storage.rows@.len() ==> (#[trigger] self.storage.rows@[x]).tuple@.len()
                == nb);
        let ghost nm = |l2: Seq<DataValue>| matches_for(l2, rs, liv, riv).len() == 0;
        // the longest identity prefix of the right key indices
        let kn = right_ji.len();
        let mut plen: usize = 0;
        while plen < kn && right_ji[plen] == plen
            invariant
                0 <= plen <= kn,
                kn == right_ji@.len(),
                riv == idx_views(right_ji@),
                forall|x: int| 0 <= x < plen ==> #[trigger] riv[x] == x,
            decreases kn - plen,
        {
            proof {
                assert(riv[plen as int] == right_ji@[plen as int] as int);
            }
            plen = plen + 1;
        }
        if left_ji.len() != right_ji.len() {
            return Err(QueryError::ArityMismatch);
        }
        if plen > left_ji.len() {
            proof {
                if cond {
                    assert(false);
                }
            }
            return Err(QueryError::ArityMismatch);
        }
        let mut out: Vec<Tuple> = Vec::new();
        proof {
            assert(tuple_views(out@) =~= filter_seq(pv.take(0), nm));
        }
        let mut i: usize = 0;
        while i < left_iter.len()
            invariant
                0 <= i <= left_iter@.len(),
                pv == tuple_views(left_iter@),
                rs == crate::storage::rows_for_epoch(self.storage.rows@, 0),
                liv == idx_views(left_ji@),
                riv == idx_views(right_ji@),
                nb == self.bindings@.len() as int,
                kn == right_ji@.len(),
                left_ji@.len() == right_ji@.len(),
                0 <= plen <= kn,
                plen <= left_ji@.len(),
                forall|x: int| 0 <= x < plen ==> #[trigger] riv[x] == x,
                cond == (left_ji@.len() == right_ji@.len() && (forall|k: int|
                    0 <= k < liv.len() ==> probe_col_ok(pv, #[trigger] liv[k])) && (forall|k: int|
                    0 <= k < riv.len() ==> 0 <= #[trigger] riv[k] < nb) && (forall|x: int|
                    0 <= x < self.storage.rows@.len() ==> (
                    #[trigger] self.storage.rows@[x]).tuple@.len() == nb)),
                nm == (|l2: Seq<DataValue>| matches_for(l2, rs, liv, riv).len() == 0),
                cond ==> tuple_views(out@) == filter_seq(pv.take(i as int), nm),
            decreases left_iter@.len() - i,
        {
            let t = &left_iter[i];
            proof {
                assert(pv[i as int] == t@);
                assert(pv.take(i + 1).drop_last() =~= pv.take(i as int));
                assert(pv.take(i + 1).last() == pv[i as int]);
            }
            let ghost l = pv[i as int];
            // the key-prefix probe
            let mut pfx: Vec<DataValue> = Vec::new();
            let mut y: usize = 0;
            while y < plen
                invariant
                    0 <= y <= plen,
                    plen <= left_ji@.len(),
                    plen <= kn,
                    0 <= i < left_iter@.len(),
                    l == left_iter@[i as int]@,
                    liv == idx_views(left_ji@),
                    riv == idx_views(right_ji@),
                    nb == self.bindings@.len() as int,
                    pfx@.len() == y,
                    cond == (left_ji@.len() == right_ji@.len() && (forall|k: int|
                        0 <= k < liv.len() ==> probe_col_ok(pv, #[trigger] liv[k])) && (forall|
                        k: int|
                        0 <= k < riv.len() ==> 0 <= #[trigger] riv[k] < nb) && (forall|x: int|
                        0 <= x < self.storage.rows@.len() ==> (
                        #[trigger] self.storage.rows@[x]).tuple@.len() == nb)),
                    pv == tuple_views(left_iter@),
                    l == pv[i as int],
                    forall|z: int| 0 <= z < y ==> #[trigger] pfx@[z] == l[left_ji@[z] as int],
                decreases plen - y,
            {
                if left_ji[y] >= left_iter[i].0.len() {
                    proof {
                        if cond {
                            assert(liv[y as int] == left_ji@[y as int] as int);
                            assert(probe_col_ok(pv, liv[y as int]));
                            assert(false);
                        }
                    }
                    return Err(QueryError::ArityMismatch);
                }
                let pval = left_iter[i].0[left_ji[y]];
                let ghost prev_pfx = pfx@;
                pfx.push(pval);
                proof {
                    assert forall|z: int|
                        0 <= z <= y implies #[trigger] pfx@[z] == l[left_ji@[z] as int] by {
                        if z < y as int {
                            assert(prev_pfx[z] == l[left_ji@[z] as int]);
                            assert(pfx@[z] == prev_pfx[z]);
                        } else {
                            assert(pfx@[z] == pval);
                        }
                    }
                }
                y = y + 1;
            }
            let prefix_t = Tuple(pfx);
            let found = self.storage.scan_prefix(&prefix_t);
            proof {
                if cond {
                    let rows = self.storage.rows@;
                    let pep = |r: TempRow| r.epoch == 0u32;
                    let ppref = |r: TempRow| tuple_prefix(prefix_t@, r.tuple@);
                    let vw = |r: TempRow| r.tuple@;
                    let pt = |tp: Seq<DataValue>| tuple_prefix(prefix_t@, tp);
                    lemma_filter_seq_compose(rows, pep, ppref);
                    lemma_filter_seq_equiv(
                        rows,
                        |r: TempRow| pep(r) && ppref(r),
                        |r: TempRow| r.epoch == 0 && tuple_prefix(prefix_t@, r.tuple@),
                    );
                    assert forall|x: int|
                        0 <= x < filter_seq(rows, pep).len() implies (ppref(
                        #[trigger] filter_seq(rows, pep)[x]) <==> pt(vw(filter_seq(rows, pep)[x])))
                        by {}
                    lemma_filter_map_commute(filter_seq(rows, pep), vw, ppref, pt);
                    assert(crate::value::tuple_views(found@) == filter_seq(rs, pt));
                    crate::sem::lemma_filter_seq_membership(rows, pep);
                    assert forall|x: int| 0 <= x < rs.len() implies ((#[trigger] rs[x]).len()
                        == nb) by {
                        assert(rs[x] == vw(filter_seq(rows, pep)[x]));
                        assert(rows.contains(filter_seq(rows, pep)[x]));
                        let w = choose|w: int|
                            0 <= w < rows.len() && rows[w] == filter_seq(rows, pep)[x];
                    }
                }
            }
            // full key check on each prefix hit
            let mut dropme: bool = false;
            let mut w: usize = 0;
            while w < found.len()
                invariant
                    0 <= w <= found@.len(),
                    0 <= i < left_iter@.len(),
                    pv == tuple_views(left_iter@),
                    l == pv[i as int],
                    l == left_iter@[i as int]@,
                    liv == idx_views(left_ji@),
                    riv == idx_views(right_ji@),
                    left_ji@.len() >= plen,
                    left_ji@.len() == right_ji@.len(),
                    0 <= plen <= kn,
                    kn == right_ji@.len(),
                    nb == self.bindings@.len() as int,
                    rs == crate::storage::rows_for_epoch(self.storage.rows@, 0),
                    nm == (|l2: Seq<DataValue>| matches_for(l2, rs, liv, riv).len() == 0),
                    forall|x: int| 0 <= x < plen ==> #[trigger] riv[x] == x,
                    forall|z: int| 0 <= z < plen ==> #[trigger] pfx@[z] == l[left_ji@[z] as int],
                    prefix_t@ == pfx@,
                    pfx@.len() == plen,
                    cond == (left_ji@.len() == right_ji@.len() && (forall|k: int|
                        0 <= k < liv.len() ==> probe_col_ok(pv, #[trigger] liv[k])) && (forall|
                        k: int|
                        0 <= k < riv.len() ==> 0 <= #[trigger] riv[k] < nb) && (forall|x: int|
                        0 <= x < self.storage.rows@.len() ==> (
                        #[trigger] self.storage.rows@[x]).tuple@.len() == nb)),
                    cond ==> forall|x: int| 0 <= x < rs.len() ==> (#[trigger] rs[x]).len() == nb,
                    cond ==> crate::value::tuple_views(found@) == filter_seq(
                        rs,
                        |tp: Seq<DataValue>| tuple_prefix(prefix_t@, tp),
                    ),
                    !dropme ==> forall|x: int|
                        0 <= x < w ==> !key_match(l, crate::value::tuple_views(found@)[x], liv,
                            riv),
                    dropme ==> exists|x: int|
                        0 <= x < found@.len() && key_match(
                            l,
                            #[trigger] crate::value::tuple_views(found@)[x],
                            liv,
                            riv,
                        ),
                decreases found@.len() - w,
            {
                let row = &found[w];
                let m = match keys_equal(&left_iter[i], row, left_ji, right_ji) {
                    Ok(m) => m,
                    Err(er) => {
                        proof {
                            if cond {
                                let livc = idx_views(left_ji@);
                                let rivc = idx_views(right_ji@);
                                assert(row@ == crate::value::tuple_views(found@)[w as int]);
                                crate::sem::lemma_filter_seq_membership(
                                    rs,
                                    |tp: Seq<DataValue>| tuple_prefix(prefix_t@, tp),
                                );
                                assert(rs.contains(row@)) by {
                                    assert(row@ == filter_seq(
                                        rs,
                                        |tp: Seq<DataValue>| tuple_prefix(prefix_t@, tp),
                                    )[w as int]);
                                }
                                let ww = choose|ww: int| 0 <= ww < rs.len() && rs[ww] == row@;
                                assert(row@.len() == nb);
                                assert forall|k2: int|
                                    0 <= k2 < left_ji@.len() implies (#[trigger] left_ji@[k2])
                                        < left_iter@[i as int]@.len() by {
                                    assert(livc[k2] == left_ji@[k2] as int);
                                    assert(probe_col_ok(pv, livc[k2]));
                                }
                                assert forall|k2: int|
                                    0 <= k2 < right_ji@.len() implies (#[trigger] right_ji@[k2])
                                        < row@.len() by {
                                    assert(rivc[k2] == right_ji@[k2] as int);
                                }
                                assert(false);
                            }
                        }
                        return Err(QueryError::ArityMismatch);
                    },
                };
                proof {
                    assert(row@ == crate::value::tuple_views(found@)[w as int]);
                }
                if m {
                    dropme = true;
                }
                w = w + 1;
            }
            proof {
                if cond {
                    let pt = |tp: Seq<DataValue>| tuple_prefix(prefix_t@, tp);
                    let q = |r: Seq<DataValue>| key_match(l, r, liv, riv);
                    lemma_filter_seq_contains(rs, pt);
                    lemma_filter_seq_nonempty(rs, q);
                    lemma_filter_seq_nonempty(filter_seq(rs, pt), q);
                    // a full key match is always a prefix match
                    assert(plen as int <= nb) by {
                        if plen > 0 {
                            assert(riv[plen - 1] == plen - 1);
                        }
                    }
                    assert forall|x: int|
                        0 <= x < rs.len() && q(#[trigger] rs[x]) implies filter_seq(
                        rs,
                        pt,
                    ).contains(rs[x]) by {
                        let r = rs[x];
                        assert(prefix_t@.len() == plen as int);
                        assert(r.len() == nb);
                        assert(prefix_t@.len() <= r.len());
                        assert forall|z: int|
                            0 <= z < prefix_t@.len() implies r[z] == prefix_t@[z] by {
                            assert(riv[z] == z);
                            assert(l[liv[z]] == r[riv[z]]);
                            assert(pfx@[z] == l[left_ji@[z] as int]);
                            assert(liv[z] == left_ji@[z] as int);
                        }
                        assert(pt(r));
                    }
                    if dropme {
                        let x = choose|x: int|
                            0 <= x < found@.len() && key_match(
                                l,
                                #[trigger] crate::value::tuple_views(found@)[x],
                                liv,
                                riv,
                            );
                        assert(crate::value::tuple_views(found@)[x] == filter_seq(rs, pt)[x]);
                        crate::sem::lemma_filter_seq_membership(rs, pt);
                        assert(rs.contains(filter_seq(rs, pt)[x]));
                        let ww = choose|ww: int|
                            0 <= ww < rs.len() && rs[ww] == filter_seq(rs, pt)[x];
                        assert(q(rs[ww]));
                        assert(!nm(l));
                    } else {
                        if !nm(l) {
                            let x = choose|x: int| 0 <= x < rs.len() && q(#[trigger] rs[x]);
                            assert(filter_seq(rs, pt).contains(rs[x]));
                            let ww = choose|ww: int|
                                0 <= ww < filter_seq(rs, pt).len() && filter_seq(rs, pt)[ww]
                                    == rs[x];
                            assert(key_match(l, crate::value::tuple_views(found@)[ww], liv, riv));
                            assert(false);
                        }
                        assert(nm(l));
                    }
                    if !dropme {
                        assert(filter_seq(pv.take(i + 1), nm) == filter_seq(pv.take(i as int),
                            nm).push(pv[i as int]));
                    } else {
                        assert(filter_seq(pv.take(i + 1), nm) == filter_seq(pv.take(i as int),
                            nm));
                    }
                }
            }
            if !dropme {
                let kept = t.duplicate();
                let ghost prev = out@;
                out.push(kept);
                proof {
                    if cond {
                        assert(tuple_views(out@) =~= tuple_views(prev).push(pv[i as int]));
                    }
                }
            }
            i = i + 1;
        }
        proof {
            assert(pv.take(pv.len() as int) =~= pv);
        }
        Ok(out)
    }
}

/// Filtering by the always-true predicate is the identity.
pub proof fn lemma_filter_true<T>(s: Seq<T>)
    ensures
        filter_seq(s, |x: T| true) == s,
    decreases s.len(),
{
    if s.len() == 0 {
        assert(filter_seq(s, |x: T| true) =~= s);
    } else {
        lemma_filter_true(s.drop_last());
        assert(filter_seq(s, |x: T| true) =~= s.drop_last().push(s.last()));
        assert(s.drop_last().push(s.last()) =~= s);
    }
}

} // verus!
