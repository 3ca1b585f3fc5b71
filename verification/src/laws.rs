//! The engine's stated laws, proved against the abstract semantics that the
//! executable iterators are verified to produce.

use vstd::prelude::*;
use crate::expr::pred_holds;
use crate::relation::{
    bindings_after, bindings_before, derived_sem, key_indices, reorder_sem, sem,
    FilteredRelation, InnerJoin, Relation, ReorderRelation, StoredDerivedRelation,
};
use crate::sem::{
    filter_seq, join_outputs_for, join_sem, key_match, lemma_filter_seq_equiv,
    lemma_filter_seq_membership, matches_for,
};
use crate::storage::TripleFact;
use crate::value::{
    lemma_project_empty, pos_of, project_away, remove_bindings, Binding, DataValue,
};
use crate::iterate::{lemma_filter_true, probe_uniform};
use vstd::seq_lib::group_to_multiset_ensures;

verus! {

/// `a` can be obtained from `b` by deleting elements, keeping order.
pub open spec fn subseq_of(a: Seq<Binding>, b: Seq<Binding>) -> bool
    decreases b.len(), a.len(),
{
    if a.len() == 0 {
        true
    } else if b.len() == 0 {
        false
    } else if a.last() == b.last() {
        subseq_of(a.drop_last(), b.drop_last())
    } else {
        subseq_of(a, b.drop_last())
    }
}

/// A subsequence of a prefix is a subsequence of the whole.
pub proof fn lemma_subseq_extend(a: Seq<Binding>, b: Seq<Binding>, x: Binding)
    requires
        subseq_of(a, b),
    ensures
        subseq_of(a, b.push(x)),
    decreases b.len(), 1int,
{
    if a.len() == 0 {
    } else {
        assert(b.push(x).last() == x);
        assert(b.push(x).drop_last() =~= b);
        if a.last() == x {
            lemma_subseq_drop(a, b);
        }
    }
}

/// Dropping the last element of a subsequence keeps it a subsequence.
pub proof fn lemma_subseq_drop(a: Seq<Binding>, b: Seq<Binding>)
    requires
        subseq_of(a, b),
        a.len() > 0,
    ensures
        subseq_of(a.drop_last(), b),
    decreases b.len(), 0int,
{
    if a.last() == b.last() {
        lemma_subseq_extend(a.drop_last(), b.drop_last(), b.last());
        assert(b.drop_last().push(b.last()) =~= b);
    } else {
        lemma_subseq_drop(a, b.drop_last());
        lemma_subseq_extend(a.drop_last(), b.drop_last(), b.last());
        assert(b.drop_last().push(b.last()) =~= b);
    }
}

/// Every sequence is a subsequence of itself.
pub proof fn lemma_subseq_refl(b: Seq<Binding>)
    ensures
        subseq_of(b, b),
    decreases b.len(),
{
    if b.len() == 0 {
    } else {
        lemma_subseq_refl(b.drop_last());
    }
}

/// Removing a set of bindings yields a subsequence.
pub proof fn lemma_remove_subseq(bs: Seq<Binding>, e: Seq<Binding>)
    ensures
        subseq_of(remove_bindings(bs, e), bs),
    decreases bs.len(),
{
    if bs.len() == 0 {
    } else {
        lemma_remove_subseq(bs.drop_last(), e);
        if e.contains(bs.last()) {
            lemma_subseq_extend(remove_bindings(bs.drop_last(), e), bs.drop_last(), bs.last());
            assert(bs.drop_last().push(bs.last()) =~= bs);
        } else {
            let kept = remove_bindings(bs.drop_last(), e).push(bs.last());
            assert(remove_bindings(bs, e) == kept);
            assert(kept.last() == bs.last());
            assert(kept.drop_last() =~= remove_bindings(bs.drop_last(), e));
            assert(subseq_of(kept, bs));
        }
    }
}

/// The post-elimination bindings of every node are a subsequence of its
/// pre-elimination bindings, in original order.
pub proof fn lemma_bindings_after_subsequence(r: Relation)
    ensures
        subseq_of(bindings_after(r), bindings_before(r)),
{
    match r {
        Relation::Fixed(f) => {
            lemma_remove_subseq(f.bindings@, f.to_eliminate@);
        },
        Relation::Triple(_) => {
            lemma_subseq_refl(bindings_before(r));
        },
        Relation::Derived(_) => {
            lemma_subseq_refl(bindings_before(r));
        },
        Relation::Join(j) => {
            lemma_remove_subseq(
                bindings_after(j.left) + bindings_after(j.right),
                j.to_eliminate@,
            );
        },
        Relation::Reorder(_) => {
            lemma_subseq_refl(bindings_before(r));
        },
        Relation::Filter(f) => {
            lemma_remove_subseq(bindings_after(*f.parent), f.to_eliminate@);
        },
    }
}

/// Before elimination, every tuple a join emits agrees on its paired key
/// columns: position `li[k]` on the left equals position `nl + ri[k]` on
/// the appended right side.
pub proof fn lemma_join_key_equality(
    ls: Seq<Seq<DataValue>>,
    rs: Seq<Seq<DataValue>>,
    li: Seq<int>,
    ri: Seq<int>,
    b: Seq<Binding>,
    nl: int,
    nr: int,
    k: int,
    oidx: int,
)
    requires
        probe_uniform(ls, nl),
        probe_uniform(rs, nr),
        li.len() == ri.len(),
        forall|x: int| 0 <= x < li.len() ==> 0 <= #[trigger] li[x] < nl,
        forall|x: int| 0 <= x < ri.len() ==> 0 <= #[trigger] ri[x] < nr,
        0 <= k < li.len(),
        0 <= oidx < join_sem(ls, rs, li, ri, b, Seq::empty()).len(),
    ensures
        join_sem(ls, rs, li, ri, b, Seq::empty())[oidx][li[k]] == join_sem(
            ls,
            rs,
            li,
            ri,
            b,
            Seq::empty(),
        )[oidx][nl + ri[k]],
    decreases ls.len(),
{
    let out = join_sem(ls, rs, li, ri, b, Seq::empty());
    if ls.len() == 0 {
    } else {
        let rec = join_sem(ls.drop_last(), rs, li, ri, b, Seq::empty());
        if oidx < rec.len() {
            assert(probe_uniform(ls.drop_last(), nl)) by {
                assert(forall|x: int| 0 <= x < ls.drop_last().len() ==> #[trigger] ls.drop_last()[
                    x] == ls[x]);
            }
            lemma_join_key_equality(ls.drop_last(), rs, li, ri, b, nl, nr, k, oidx);
            assert(out[oidx] == rec[oidx]);
        } else {
            let l = ls.last();
            assert(l.len() == nl) by {
                assert(ls[ls.len() - 1] == l);
            }
            let outs = join_outputs_for(l, rs, li, ri, b, Seq::empty());
            let mf = matches_for(l, rs, li, ri);
            let j = oidx - rec.len();
            assert(out[oidx] == outs[j]);
            assert(outs[j] == project_away(l + mf[j], b, Seq::empty()));
            lemma_project_empty(l + mf[j], b);
            lemma_filter_seq_membership(rs, |r2: Seq<DataValue>| key_match(l, r2, li, ri));
            assert(key_match(l, mf[j], li, ri) && rs.contains(mf[j]));
            let w = choose|w: int| 0 <= w < rs.len() && rs[w] == mf[j];
            assert(mf[j].len() == nr);
            assert((l + mf[j])[li[k]] == l[li[k]]);
            assert((l + mf[j])[nl + ri[k]] == mf[j][ri[k]]);
            assert(l[li[k]] == mf[j][ri[k]]);
        }
    }
}

/// A reorder emits exactly its child's tuples, each permuted into the new
/// column order: position `j` of output `i` is the child's value at the
/// position its binding list gives `new_order[j]`.
pub proof fn lemma_reorder_projects(ro: ReorderRelation, ts: Seq<TripleFact>, ep: Option<u32>, delta: Seq<u64>)
    ensures
        sem(Relation::Reorder(ro), ts, ep, delta).len() == sem(*ro.relation, ts, ep, delta).len(),
        forall|i: int, j: int|
            0 <= i < sem(*ro.relation, ts, ep, delta).len() && 0 <= j < ro.new_order@.len()
                ==> #[trigger] sem(Relation::Reorder(ro), ts, ep, delta)[i][j] == sem(
                *ro.relation,
                ts,
                ep,
                delta,
            )[i][pos_of(bindings_after(*ro.relation), ro.new_order@[j])],
{
    let csem = sem(*ro.relation, ts, ep, delta);
    let out = sem(Relation::Reorder(ro), ts, ep, delta);
    assert(out == reorder_sem(csem, bindings_after(*ro.relation), ro.new_order@));
    assert forall|i: int, j: int|
        0 <= i < csem.len() && 0 <= j < ro.new_order@.len() implies #[trigger] out[i][j] == csem[
        i][pos_of(bindings_after(*ro.relation), ro.new_order@[j])] by {
        assert(out[i] == Seq::new(
            ro.new_order@.len(),
            |z: int| csem[i][pos_of(bindings_after(*ro.relation), ro.new_order@[z])],
        ));
    }
}

/// A filter with an empty elimination set emits exactly the parent tuples
/// its predicate accepts, in order.
pub proof fn lemma_filter_exact(fr: FilteredRelation, ts: Seq<TripleFact>, ep: Option<u32>, delta: Seq<u64>)
    requires
        fr.to_eliminate@.len() == 0,
    ensures
        sem(Relation::Filter(fr), ts, ep, delta) == filter_seq(
            sem(*fr.parent, ts, ep, delta),
            |t: Seq<DataValue>| pred_holds(fr.pred, t),
        ),
{
    let psem = sem(*fr.parent, ts, ep, delta);
    let pc = |t: Seq<DataValue>| pred_holds(fr.pred, t);
    let flt = filter_seq(psem, pc);
    assert(fr.to_eliminate@ =~= Seq::<Binding>::empty());
    let pj = |t: Seq<DataValue>| project_away(t, bindings_after(*fr.parent), fr.to_eliminate@);
    let mapped = flt.map_values(pj);
    assert forall|i: int| 0 <= i < flt.len() implies #[trigger] mapped[i] == flt[i] by {
        lemma_project_empty(flt[i], bindings_after(*fr.parent));
    }
    assert(sem(Relation::Filter(fr), ts, ep, delta) == mapped);
    assert(mapped =~= flt);
}

/// A derived relation whose store is outside the delta set reads the full
/// store at every positive epoch, exactly as it does with no epoch.
pub proof fn lemma_derived_delta_irrelevant(d: StoredDerivedRelation, k: u32, delta: Seq<u64>)
    requires
        !delta.contains(d.storage.id),
        k > 0,
    ensures
        derived_sem(d, Some(k), delta) == derived_sem(d, None, delta),
{
}

/// At epoch zero, a derived relation is empty whatever the delta set says.
pub proof fn lemma_derived_epoch_zero_empty(d: StoredDerivedRelation, delta: Seq<u64>)
    ensures
        derived_sem(d, Some(0u32), delta) == Seq::<Seq<DataValue>>::empty(),
{
}

/// A keyless, elimination-free join whose left side is the unit relation
/// yields exactly its right side's tuples.
pub proof fn lemma_unit_left_join(j: InnerJoin, ts: Seq<TripleFact>, ep: Option<u32>, delta: Seq<u64>)
    requires
        j.left matches Relation::Fixed(f) && f.bindings@.len() == 0 && f.data@.len() == 1
            && f.data@[0]@.len() == 0,
        j.joiner.left_keys@.len() == 0,
        j.joiner.right_keys@.len() == 0,
        j.to_eliminate@.len() == 0,
    ensures
        sem(Relation::Join(Box::new(j)), ts, ep, delta) == sem(j.right, ts, ep, delta),
{
    let lsem = sem(j.left, ts, ep, delta);
    let rsem = sem(j.right, ts, ep, delta);
    let f = j.left->Fixed_0;
    let unit_row: Seq<DataValue> = project_away(f.data@[0]@, f.bindings@, f.to_eliminate@);
    assert(f.data@[0]@ =~= Seq::<DataValue>::empty());
    assert(unit_row =~= Seq::<DataValue>::empty());
    assert(lsem =~= seq![unit_row]) by {
        assert(lsem.len() == 1);
        assert(lsem[0] == unit_row);
    }
    let liv = key_indices(j.joiner.left_keys@, bindings_after(j.left));
    let riv = key_indices(j.joiner.right_keys@, bindings_after(j.right));
    assert(liv =~= Seq::<int>::empty());
    assert(riv =~= Seq::<int>::empty());
    let b = bindings_after(j.left) + bindings_after(j.right);
    let e = j.to_eliminate@;
    assert(e =~= Seq::<Binding>::empty());
    let out = sem(Relation::Join(Box::new(j)), ts, ep, delta);
    assert(out == join_sem(lsem, rsem, liv, riv, b, e));
    assert(lsem.drop_last() =~= Seq::<Seq<DataValue>>::empty());
    assert(lsem.last() == unit_row);
    assert(join_sem(lsem, rsem, liv, riv, b, e) == join_sem(lsem.drop_last(), rsem, liv, riv, b,
        e) + join_outputs_for(lsem.last(), rsem, liv, riv, b, e));
    assert(join_sem(Seq::<Seq<DataValue>>::empty(), rsem, liv, riv, b, e)
        == Seq::<Seq<DataValue>>::empty());
    assert(out =~= join_outputs_for(unit_row, rsem, liv, riv, b, e));
    let q = |r2: Seq<DataValue>| key_match(unit_row, r2, liv, riv);
    lemma_filter_seq_equiv(rsem, q, |r2: Seq<DataValue>| true);
    lemma_filter_true(rsem);
    assert(matches_for(unit_row, rsem, liv, riv) == rsem);
    assert forall|i: int| 0 <= i < rsem.len() implies #[trigger] out[i] == rsem[i] by {
        assert(out[i] == project_away(unit_row + rsem[i], b, e));
        assert(unit_row + rsem[i] =~= rsem[i]);
        lemma_project_empty(rsem[i], b);
    }
    assert(out =~= rsem);
}

/// Every binding any node of the tree announces before elimination.
pub open spec fn tree_bindings(r: Relation) -> Seq<Binding>
    decreases r,
{
    match r {
        Relation::Fixed(f) => f.bindings@,
        Relation::Triple(t) => seq![t.e_binding, t.v_binding],
        Relation::Derived(d) => d.bindings@,
        Relation::Join(j) => tree_bindings(j.left) + tree_bindings(j.right),
        Relation::Reorder(ro) => ro.new_order@ + tree_bindings(*ro.relation),
        Relation::Filter(f) => tree_bindings(*f.parent),
    }
}

/// Projection only reads the elimination set through membership.
pub proof fn lemma_project_congruence(
    t: Seq<DataValue>,
    b: Seq<Binding>,
    e1: Seq<Binding>,
    e2: Seq<Binding>,
)
    requires
        forall|x: Binding| e1.contains(x) <==> e2.contains(x),
    ensures
        project_away(t, b, e1) == project_away(t, b, e2),
    decreases t.len(),
{
    if t.len() == 0 {
    } else {
        lemma_project_congruence(t.drop_last(), b, e1, e2);
    }
}

/// Binding removal only reads the elimination set through membership.
pub proof fn lemma_remove_congruence(bs: Seq<Binding>, e1: Seq<Binding>, e2: Seq<Binding>)
    requires
        forall|x: Binding| e1.contains(x) <==> e2.contains(x),
    ensures
        remove_bindings(bs, e1) == remove_bindings(bs, e2),
    decreases bs.len(),
{
    if bs.len() == 0 {
    } else {
        lemma_remove_congruence(bs.drop_last(), e1, e2);
    }
}

/// The abstract join only reads its elimination set through membership.
pub proof fn lemma_join_sem_elim_congruence(
    ls: Seq<Seq<DataValue>>,
    rs: Seq<Seq<DataValue>>,
    li: Seq<int>,
    ri: Seq<int>,
    b: Seq<Binding>,
    e1: Seq<Binding>,
    e2: Seq<Binding>,
)
    requires
        forall|x: Binding| e1.contains(x) <==> e2.contains(x),
    ensures
        join_sem(ls, rs, li, ri, b, e1) == join_sem(ls, rs, li, ri, b, e2),
    decreases ls.len(),
{
    if ls.len() == 0 {
    } else {
        lemma_join_sem_elim_congruence(ls.drop_last(), rs, li, ri, b, e1, e2);
        let l = ls.last();
        let mf = matches_for(l, rs, li, ri);
        let m1 = mf.map_values(|r2: Seq<DataValue>| project_away(l + r2, b, e1));
        let m2 = mf.map_values(|r2: Seq<DataValue>| project_away(l + r2, b, e2));
        assert forall|i: int| 0 <= i < mf.len() implies #[trigger] m1[i] == m2[i] by {
            lemma_project_congruence(l + mf[i], b, e1, e2);
        }
        assert(m1 =~= m2);
        assert(join_outputs_for(l, rs, li, ri, b, e1) == join_outputs_for(l, rs, li, ri, b, e2));
    }
}

/// The elimination pass is exactly specified by `eliminates_to`; this is
/// its preservation law in the case where `used` still names every binding
/// of the tree: nothing is newly eliminated anywhere, so the pass changes
/// neither a node's post-elimination bindings nor one tuple of its output.
pub proof fn lemma_eliminate_all_used_preserves(
    a: Relation,
    c: Relation,
    used: Seq<Binding>,
    ts: Seq<TripleFact>,
    ep: Option<u32>,
    delta: Seq<u64>,
)
    requires
        crate::relation::eliminates_to(a, c, used),
        forall|k: int| 0 <= k < tree_bindings(a).len() ==> used.contains(#[trigger] tree_bindings(a)[k]),
    ensures
        bindings_after(c) == bindings_after(a),
        sem(c, ts, ep, delta) == sem(a, ts, ep, delta),
    decreases a,
{
    match a {
        Relation::Fixed(f) => {
            let g = c->Fixed_0;
            assert forall|x: Binding| g.to_eliminate@.contains(x) <==> f.to_eliminate@.contains(
                x,
            ) by {
                if f.bindings@.contains(x) && !used.contains(x) {
                    let w = choose|w: int| 0 <= w < f.bindings@.len() && f.bindings@[w] == x;
                    assert(used.contains(tree_bindings(a)[w]));
                }
            }
            lemma_remove_congruence(f.bindings@, g.to_eliminate@, f.to_eliminate@);
            assert forall|i: int|
                0 <= i < f.data@.len() implies #[trigger] sem(c, ts, ep, delta)[i] == sem(
                a,
                ts,
                ep,
                delta,
            )[i] by {
                lemma_project_congruence(f.data@[i]@, f.bindings@, g.to_eliminate@,
                    f.to_eliminate@);
            }
            assert(sem(c, ts, ep, delta) =~= sem(a, ts, ep, delta));
        },
        Relation::Triple(_) => {
        },
        Relation::Derived(_) => {
        },
        Relation::Join(x) => {
            let y = c->Join_0;
            let used_l = used + x.joiner.left_keys@;
            let used_r = used + x.joiner.right_keys@;
            crate::sem::lemma_contains_concat(tree_bindings(x.left), tree_bindings(x.right));
            crate::sem::lemma_contains_concat(used, x.joiner.left_keys@);
            crate::sem::lemma_contains_concat(used, x.joiner.right_keys@);
            assert forall|k: int|
                0 <= k < tree_bindings(x.left).len() implies used_l.contains(
                #[trigger] tree_bindings(x.left)[k]) by {
                assert(tree_bindings(a)[k] == tree_bindings(x.left)[k]);
            }
            assert forall|k: int|
                0 <= k < tree_bindings(x.right).len() implies used_r.contains(
                #[trigger] tree_bindings(x.right)[k]) by {
                assert(tree_bindings(a)[tree_bindings(x.left).len() + k] == tree_bindings(
                    x.right,
                )[k]);
            }
            lemma_eliminate_all_used_preserves(x.left, y.left, used_l, ts, ep, delta);
            lemma_eliminate_all_used_preserves(x.right, y.right, used_r, ts, ep, delta);
            let before = bindings_after(x.left) + bindings_after(x.right);
            assert forall|x2: Binding| y.to_eliminate@.contains(x2) <==> x.to_eliminate@.contains(
                x2,
            ) by {
                if before.contains(x2) && !used.contains(x2) {
                    crate::sem::lemma_contains_concat(
                        bindings_after(x.left),
                        bindings_after(x.right),
                    );
                    lemma_bindings_after_subsequence(x.left);
                    lemma_bindings_after_subsequence(x.right);
                    if bindings_after(x.left).contains(x2) {
                        lemma_subseq_contains(bindings_after(x.left), bindings_before(x.left));
                        assert(bindings_before(x.left).contains(x2));
                        lemma_before_in_tree(x.left, x2);
                        let w = choose|w: int|
                            0 <= w < tree_bindings(x.left).len() && tree_bindings(x.left)[w] == x2;
                        assert(tree_bindings(a)[w] == x2);
                        assert(used.contains(x2));
                    } else {
                        assert(bindings_after(x.right).contains(x2));
                        lemma_subseq_contains(bindings_after(x.right), bindings_before(x.right));
                        lemma_before_in_tree(x.right, x2);
                        let w = choose|w: int|
                            0 <= w < tree_bindings(x.right).len() && tree_bindings(x.right)[w]
                                == x2;
                        assert(tree_bindings(a)[tree_bindings(x.left).len() + w] == x2);
                        assert(used.contains(x2));
                    }
                }
            }
            lemma_remove_congruence(before, y.to_eliminate@, x.to_eliminate@);
            lemma_join_sem_elim_congruence(
                sem(x.left, ts, ep, delta),
                sem(x.right, ts, ep, delta),
                key_indices(x.joiner.left_keys@, bindings_after(x.left)),
                key_indices(x.joiner.right_keys@, bindings_after(x.right)),
                before,
                y.to_eliminate@,
                x.to_eliminate@,
            );
        },
        Relation::Reorder(r1) => {
            let r2 = c->Reorder_0;
            crate::sem::lemma_contains_concat(r1.new_order@, tree_bindings(*r1.relation));
            assert forall|k: int|
                0 <= k < tree_bindings(*r1.relation).len() implies used.contains(
                #[trigger] tree_bindings(*r1.relation)[k]) by {
                assert(tree_bindings(a)[r1.new_order@.len() + k] == tree_bindings(*r1.relation)[
                    k]);
            }
            lemma_eliminate_all_used_preserves(*r1.relation, *r2.relation, used, ts, ep, delta);
        },
        Relation::Filter(f1) => {
            let f2 = c->Filter_0;
            let used_p = used + crate::expr::expr_bindings_spec(f1.pred);
            crate::sem::lemma_contains_concat(used, crate::expr::expr_bindings_spec(f1.pred));
            assert forall|k: int|
                0 <= k < tree_bindings(*f1.parent).len() implies used_p.contains(
                #[trigger] tree_bindings(*f1.parent)[k]) by {
                assert(tree_bindings(a)[k] == tree_bindings(*f1.parent)[k]);
            }
            lemma_eliminate_all_used_preserves(*f1.parent, *f2.parent, used_p, ts, ep, delta);
            assert forall|x2: Binding| f2.to_eliminate@.contains(x2) <==> f1.to_eliminate@
                .contains(x2) by {
                if bindings_before(*f1.parent).contains(x2) && !used.contains(x2) {
                    lemma_before_in_tree(*f1.parent, x2);
                    let w = choose|w: int|
                        0 <= w < tree_bindings(*f1.parent).len() && tree_bindings(*f1.parent)[w]
                            == x2;
                    assert(tree_bindings(a)[w] == x2);
                    assert(used.contains(x2));
                }
            }
            lemma_remove_congruence(
                bindings_after(*f1.parent),
                f2.to_eliminate@,
                f1.to_eliminate@,
            );
            let psem = sem(*f1.parent, ts, ep, delta);
            let pc = |t: Seq<DataValue>| pred_holds(f1.pred, t);
            let flt = filter_seq(psem, pc);
            let m1 = flt.map_values(
                |t: Seq<DataValue>| project_away(t, bindings_after(*f1.parent), f2.to_eliminate@),
            );
            let m2 = flt.map_values(
                |t: Seq<DataValue>| project_away(t, bindings_after(*f1.parent), f1.to_eliminate@),
            );
            assert forall|i: int| 0 <= i < flt.len() implies #[trigger] m1[i] == m2[i] by {
                lemma_project_congruence(flt[i], bindings_after(*f1.parent), f2.to_eliminate@,
                    f1.to_eliminate@);
            }
            assert(m1 =~= m2);
            assert(sem(c, ts, ep, delta) =~= sem(a, ts, ep, delta));
        },
    }
}

/// A subsequence's elements all occur in the larger sequence.
pub proof fn lemma_subseq_contains(a: Seq<Binding>, b: Seq<Binding>)
    requires
        subseq_of(a, b),
    ensures
        forall|x: Binding| a.contains(x) ==> b.contains(x),
    decreases b.len(),
{
    if a.len() == 0 {
    } else if b.len() == 0 {
    } else {
        assert forall|x: Binding| a.contains(x) implies b.contains(x) by {
            lemma_subseq_contains_one(a, b, x);
        }
    }
}

/// One element of a subsequence occurs in the larger sequence.
pub proof fn lemma_subseq_contains_one(a: Seq<Binding>, b: Seq<Binding>, x: Binding)
    requires
        subseq_of(a, b),
        a.contains(x),
    ensures
        b.contains(x),
    decreases b.len(),
{
    if a.last() == b.last() {
        if x == a.last() {
            assert(b[b.len() - 1] == x);
        } else {
            let w = choose|w: int| 0 <= w < a.len() && a[w] == x;
            assert(a.drop_last()[w] == x);
            lemma_subseq_contains_one(a.drop_last(), b.drop_last(), x);
            let w2 = choose|w2: int| 0 <= w2 < b.drop_last().len() && b.drop_last()[w2] == x;
            assert(b[w2] == x);
        }
    } else {
        lemma_subseq_contains_one(a, b.drop_last(), x);
        let w2 = choose|w2: int| 0 <= w2 < b.drop_last().len() && b.drop_last()[w2] == x;
        assert(b[w2] == x);
    }
}

/// A node's pre-elimination bindings occur among its tree's bindings.
pub proof fn lemma_before_in_tree(r: Relation, x: Binding)
    requires
        bindings_before(r).contains(x),
    ensures
        tree_bindings(r).contains(x),
    decreases r,
{
    match r {
        Relation::Fixed(_) => {
        },
        Relation::Triple(_) => {
        },
        Relation::Derived(_) => {
        },
        Relation::Join(j) => {
            crate::sem::lemma_contains_concat(bindings_after(j.left), bindings_after(j.right));
            crate::sem::lemma_contains_concat(tree_bindings(j.left), tree_bindings(j.right));
            lemma_bindings_after_subsequence(j.left);
            lemma_bindings_after_subsequence(j.right);
            if bindings_after(j.left).contains(x) {
                lemma_subseq_contains_one(bindings_after(j.left), bindings_before(j.left), x);
                lemma_before_in_tree(j.left, x);
            } else {
                lemma_subseq_contains_one(bindings_after(j.right), bindings_before(j.right), x);
                lemma_before_in_tree(j.right, x);
            }
        },
        Relation::Reorder(ro) => {
            crate::sem::lemma_contains_concat(ro.new_order@, tree_bindings(*ro.relation));
        },
        Relation::Filter(f) => {
            lemma_bindings_after_subsequence(*f.parent);
            lemma_subseq_contains_one(bindings_after(*f.parent), bindings_before(*f.parent), x);
            lemma_before_in_tree(*f.parent, x);
        },
    }
}

/// A negated join and the positive join partition the probe stream: as
/// multisets, the probe tuples a negated join keeps and the probe tuples
/// with at least one match together are exactly the probe input; no probe
/// tuple is both kept and dropped.
pub proof fn lemma_neg_join_partition(
    ls: Seq<Seq<DataValue>>,
    rs: Seq<Seq<DataValue>>,
    li: Seq<int>,
    ri: Seq<int>,
)
    ensures
        crate::sem::neg_join_sem(ls, rs, li, ri).to_multiset().add(
            filter_seq(
                ls,
                |l: Seq<DataValue>| matches_for(l, rs, li, ri).len() > 0,
            ).to_multiset(),
        ) == ls.to_multiset(),
    decreases ls.len(),
{
    broadcast use group_to_multiset_ensures;

    let nm = |l: Seq<DataValue>| matches_for(l, rs, li, ri).len() == 0;
    let pm = |l: Seq<DataValue>| matches_for(l, rs, li, ri).len() > 0;
    if ls.len() == 0 {
        assert(crate::sem::neg_join_sem(ls, rs, li, ri).to_multiset().add(
            filter_seq(ls, pm).to_multiset(),
        ) =~= ls.to_multiset());
    } else {
        lemma_neg_join_partition(ls.drop_last(), rs, li, ri);
        let x = ls.last();
        assert(ls =~= ls.drop_last().push(x));
        let negd = filter_seq(ls.drop_last(), nm);
        let posd = filter_seq(ls.drop_last(), pm);
        if nm(x) {
            assert(filter_seq(ls, nm) == negd.push(x));
            assert(filter_seq(ls, pm) == posd);
            assert(negd.push(x).to_multiset() =~= negd.to_multiset().insert(x));
            assert(negd.to_multiset().insert(x).add(posd.to_multiset()) =~= negd.to_multiset()
                .add(posd.to_multiset()).insert(x));
            assert(ls.to_multiset() =~= ls.drop_last().to_multiset().insert(x));
        } else {
            assert(filter_seq(ls, nm) == negd);
            assert(filter_seq(ls, pm) == posd.push(x));
            assert(posd.push(x).to_multiset() =~= posd.to_multiset().insert(x));
            assert(negd.to_multiset().add(posd.to_multiset().insert(x)) =~= negd.to_multiset()
                .add(posd.to_multiset()).insert(x));
            assert(ls.to_multiset() =~= ls.drop_last().to_multiset().insert(x));
        }
    }
}

} // verus!
