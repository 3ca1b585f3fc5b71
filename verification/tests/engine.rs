//! End-to-end scenarios for the relational execution core: each physical
//! join variant, epoch-aware derived reads, elimination, and the error
//! paths.

use relcore::expr::Expr;
use relcore::relation::{Attribute, Relation};
use relcore::storage::{SessionTx, TempStore};
use relcore::value::{Binding, DataValue, QueryError, Tuple};

fn name_attr() -> Attribute {
    // string-valued, indexed
    Attribute { id: 1, val_is_ref: false, val_indexed: true }
}

fn parent_attr() -> Attribute {
    // reference-valued
    Attribute { id: 2, val_is_ref: true, val_indexed: false }
}

fn tag_attr() -> Attribute {
    // neither a reference nor indexed
    Attribute { id: 3, val_is_ref: false, val_indexed: false }
}

fn b(x: u64) -> Binding {
    Binding(x)
}

fn en(x: u64) -> DataValue {
    DataValue::EnId(x)
}

fn iv(x: i64) -> DataValue {
    DataValue::Int(x)
}

fn rows(res: Result<Vec<Tuple>, QueryError>) -> Vec<Vec<DataValue>> {
    res.unwrap().into_iter().map(|t| t.0).collect()
}

/// Index-value join: one probe value matches one fact.
#[test]
fn index_value_join() {
    let mut tx = SessionTx::new();
    tx.put_triple(1, 1, iv(100), 0); // (1, :name, "Alice" as 100)
    tx.put_triple(2, 1, iv(200), 0); // (2, :name, "Bob" as 200)
    let left = Relation::singlet(vec![b(10)], vec![iv(100)]);
    let right = Relation::triple(name_attr(), 5, b(11), b(10));
    let plan = left.join(right, vec![b(10)], vec![b(10)]);
    let out = rows(plan.iter(&tx, None, &vec![]));
    assert_eq!(out, vec![vec![iv(100), en(1), iv(100)]]);
}

/// Reverse-reference join: two parents point at entity 7.
#[test]
fn reverse_ref_join() {
    let mut tx = SessionTx::new();
    tx.put_triple(3, 2, en(7), 0);
    tx.put_triple(4, 2, en(7), 0);
    tx.put_triple(5, 2, en(9), 0);
    let left = Relation::singlet(vec![b(20)], vec![en(7)]);
    let right = Relation::triple(parent_attr(), 5, b(21), b(20));
    let plan = left.join(right, vec![b(20)], vec![b(20)]);
    let out = rows(plan.iter(&tx, None, &vec![]));
    assert_eq!(
        out,
        vec![vec![en(7), en(3), en(7)], vec![en(7), en(4), en(7)]]
    );
}

/// Negated existence: probe entities without a fact survive.
#[test]
fn negated_existence() {
    let mut tx = SessionTx::new();
    tx.put_triple(1, 1, iv(100), 0);
    tx.put_triple(2, 1, iv(200), 0);
    let probe = vec![
        Tuple(vec![en(1)]),
        Tuple(vec![en(2)]),
        Tuple(vec![en(3)]),
    ];
    let t = match Relation::triple(name_attr(), 5, b(30), b(31)) {
        Relation::Triple(t) => t,
        _ => unreachable!(),
    };
    let out = rows(t.neg_join(probe, &vec![0], &vec![0], &tx));
    assert_eq!(out, vec![vec![en(3)]]);
}

/// Semi-naive derived reads: a store in the delta set reads the previous
/// epoch's delta; epoch zero is empty; a store outside the delta set reads
/// the full store.
#[test]
fn derived_epochs() {
    let mut store = TempStore::new(42);
    store.put(Tuple(vec![iv(1)]), 0);
    store.put(Tuple(vec![iv(2)]), 1);
    store.put(Tuple(vec![iv(3)]), 2);
    let d = Relation::derived(vec![b(40)], store);
    let delta = vec![42u64];
    let at = |plan: &Relation, ep: Option<u32>, ud: &Vec<u64>| -> Vec<Vec<DataValue>> {
        rows(plan.iter(&SessionTx::new(), ep, ud))
    };
    assert_eq!(at(&d, Some(3), &delta), vec![vec![iv(3)]]);
    assert_eq!(at(&d, Some(2), &delta), vec![vec![iv(2)]]);
    assert_eq!(at(&d, Some(0), &delta), Vec::<Vec<DataValue>>::new());
    // outside the delta set, any positive epoch reads the full store
    assert_eq!(at(&d, Some(3), &vec![]), vec![vec![iv(1)]]);
    assert_eq!(at(&d, None, &delta), vec![vec![iv(1)]]);
}

/// Materialized join on non-prefix keys: the key column is stored first,
/// but outputs restore the original column order.
#[test]
fn materialized_non_prefix_keys() {
    let mut store = TempStore::new(7);
    store.put(Tuple(vec![iv(10), iv(20)]), 0); // [?a, ?b]
    store.put(Tuple(vec![iv(11), iv(21)]), 0);
    let right = Relation::derived(vec![b(50), b(51)], store);
    let left = Relation::singlet(vec![b(52)], vec![iv(21)]);
    // join on ?b only: not a key prefix of the stored order
    let plan = left.join(right, vec![b(52)], vec![b(51)]);
    let out = rows(plan.iter(&SessionTx::new(), None, &vec![]));
    assert_eq!(out, vec![vec![iv(21), iv(11), iv(21)]]);
}

/// Prefix join on a derived store: the join key is the stored key prefix.
#[test]
fn derived_prefix_join() {
    let mut store = TempStore::new(8);
    store.put(Tuple(vec![iv(1), iv(100)]), 0);
    store.put(Tuple(vec![iv(2), iv(200)]), 0);
    store.put(Tuple(vec![iv(1), iv(101)]), 0);
    let right = Relation::derived(vec![b(60), b(61)], store);
    let left = Relation::singlet(vec![b(62)], vec![iv(1)]);
    let plan = left.join(right, vec![b(62)], vec![b(60)]);
    let out = rows(plan.iter(&SessionTx::new(), None, &vec![]));
    assert_eq!(
        out,
        vec![
            vec![iv(1), iv(1), iv(100)],
            vec![iv(1), iv(1), iv(101)],
        ]
    );
}

/// Elimination correctness: a filter over a join that only needs one
/// column; after the elimination pass, tuples carry that column alone.
#[test]
fn elimination_keeps_used_column() {
    let mut tx = SessionTx::new();
    tx.put_triple(1, 1, iv(100), 0);
    tx.put_triple(2, 1, iv(200), 0);
    // join a two-column fixed table with the triple scan on the value
    let left = Relation::fixed(
        vec![b(70), b(71)],
        vec![vec![iv(100), iv(1)], vec![iv(200), iv(2)]],
    );
    let right = Relation::triple(name_attr(), 5, b(72), b(70));
    let joined = left.join(right, vec![b(70)], vec![b(70)]);
    let filtered = joined.filter(Expr::VarEqConst { var: b(71), idx: None, val: iv(1) });
    let plan = filtered.eliminate_temp_vars(&vec![b(72)]);
    let plan = plan.fill_predicate_binding_indices();
    assert_eq!(plan.bindings_after_eliminate(), vec![b(72)]);
    let out = rows(plan.iter(&tx, None, &vec![]));
    assert_eq!(out, vec![vec![en(1)]]);
}

/// The unit relation is the identity for cartesian join.
#[test]
fn unit_left_join_is_right() {
    let mut tx = SessionTx::new();
    tx.put_triple(1, 1, iv(100), 0);
    tx.put_triple(2, 1, iv(200), 0);
    let plan = Relation::unit().cartesian_join(Relation::triple(name_attr(), 5, b(80), b(81)));
    let out = rows(plan.iter(&tx, None, &vec![]));
    assert_eq!(out, vec![vec![en(1), iv(100)], vec![en(2), iv(200)]]);
}

/// Existence join: both columns bound acts as a semijoin filter.
#[test]
fn ev_join_filters() {
    let mut tx = SessionTx::new();
    tx.put_triple(1, 1, iv(100), 0);
    let left = Relation::fixed(
        vec![b(90), b(91)],
        vec![vec![en(1), iv(100)], vec![en(1), iv(999)]],
    );
    let right = Relation::triple(name_attr(), 5, b(90), b(91));
    let plan = left.join(right, vec![b(90), b(91)], vec![b(90), b(91)]);
    let out = rows(plan.iter(&tx, None, &vec![]));
    assert_eq!(out, vec![vec![en(1), iv(100), en(1), iv(100)]]);
}

/// Entity join: scan the probe entity's triples.
#[test]
fn e_join_expands() {
    let mut tx = SessionTx::new();
    tx.put_triple(1, 3, iv(7), 0);
    tx.put_triple(1, 3, iv(8), 0);
    tx.put_triple(2, 3, iv(9), 0);
    let left = Relation::singlet(vec![b(100)], vec![en(1)]);
    let right = Relation::triple(tag_attr(), 5, b(100), b(101));
    let plan = left.join(right, vec![b(100)], vec![b(100)]);
    let out = rows(plan.iter(&tx, None, &vec![]));
    assert_eq!(
        out,
        vec![vec![en(1), en(1), iv(7)], vec![en(1), en(1), iv(8)]]
    );
}

/// Non-indexed value join: the engine materializes a (value, entity)
/// scratch map and probes it.
#[test]
fn v_no_index_join_matches() {
    let mut tx = SessionTx::new();
    tx.put_triple(1, 3, iv(7), 0);
    tx.put_triple(2, 3, iv(7), 0);
    tx.put_triple(3, 3, iv(8), 0);
    let left = Relation::singlet(vec![b(110)], vec![iv(7)]);
    let right = Relation::triple(tag_attr(), 5, b(111), b(110));
    let plan = left.join(right, vec![b(110)], vec![b(110)]);
    let out = rows(plan.iter(&tx, None, &vec![]));
    assert_eq!(
        out,
        vec![vec![iv(7), en(1), iv(7)], vec![iv(7), en(2), iv(7)]]
    );
}

/// Validity: facts asserted after the scan's read timestamp are invisible.
#[test]
fn validity_filters_scan() {
    let mut tx = SessionTx::new();
    tx.put_triple(1, 1, iv(100), 0);
    tx.put_triple(2, 1, iv(200), 9);
    let plan = Relation::triple(name_attr(), 5, b(120), b(121));
    let out = rows(plan.iter(&tx, None, &vec![]));
    assert_eq!(out, vec![vec![en(1), iv(100)]]);
}

/// A reorder permutes columns.
#[test]
fn reorder_permutes() {
    let left = Relation::fixed(vec![b(130), b(131)], vec![vec![iv(1), iv(2)]]);
    let plan = left.reorder(vec![b(131), b(130)]);
    let out = rows(plan.iter(&SessionTx::new(), None, &vec![]));
    assert_eq!(out, vec![vec![iv(2), iv(1)]]);
}

/// A filter keeps exactly the tuples its predicate accepts.
#[test]
fn filter_keeps_matches() {
    let left = Relation::fixed(
        vec![b(140), b(141)],
        vec![vec![iv(1), iv(1)], vec![iv(1), iv(2)], vec![iv(3), iv(3)]],
    );
    let plan = left.filter(Expr::VarEqVar {
        lvar: b(140),
        rvar: b(141),
        lidx: None,
        ridx: None,
    });
    let plan = plan.fill_predicate_binding_indices();
    let out = rows(plan.iter(&SessionTx::new(), None, &vec![]));
    assert_eq!(out, vec![vec![iv(1), iv(1)], vec![iv(3), iv(3)]]);
}

/// An unknown join key is a logic error naming the binding.
#[test]
fn missing_join_key_errors() {
    let left = Relation::singlet(vec![b(150)], vec![iv(1)]);
    let right = Relation::fixed(vec![b(151)], vec![vec![iv(1)]]);
    let plan = left.join(right, vec![b(152)], vec![b(151)]);
    let res = plan.iter(&SessionTx::new(), None, &vec![]);
    assert_eq!(res, Err(QueryError::MissingLeftJoinKey { key: b(152) }));
}

/// An unknown right-side join key is a logic error naming the binding.
#[test]
fn missing_right_join_key_errors() {
    let left = Relation::singlet(vec![b(155)], vec![iv(1)]);
    let right = Relation::fixed(vec![b(156)], vec![vec![iv(1)]]);
    let plan = left.join(right, vec![b(155)], vec![b(157)]);
    let res = plan.iter(&SessionTx::new(), None, &vec![]);
    assert_eq!(res, Err(QueryError::MissingRightJoinKey { key: b(157) }));
}

/// Negated value joins keep exactly the probe tuples with no matching
/// triple, on the reverse-reference, indexed and non-indexed paths alike.
#[test]
fn negated_value_joins() {
    let mut tx = SessionTx::new();
    tx.put_triple(3, 2, en(7), 0); // ref-valued
    tx.put_triple(4, 1, iv(100), 0); // indexed
    tx.put_triple(5, 3, iv(50), 0); // neither

    let probe_ref = vec![Tuple(vec![en(7)]), Tuple(vec![en(8)])];
    let t_ref = match Relation::triple(parent_attr(), 5, b(160), b(161)) {
        Relation::Triple(t) => t,
        _ => unreachable!(),
    };
    assert_eq!(rows(t_ref.neg_join(probe_ref, &vec![0], &vec![1], &tx)), vec![vec![en(8)]]);

    let probe_idx = vec![Tuple(vec![iv(100)]), Tuple(vec![iv(101)])];
    let t_idx = match Relation::triple(name_attr(), 5, b(162), b(163)) {
        Relation::Triple(t) => t,
        _ => unreachable!(),
    };
    assert_eq!(rows(t_idx.neg_join(probe_idx, &vec![0], &vec![1], &tx)), vec![vec![iv(101)]]);

    let probe_plain = vec![Tuple(vec![iv(50)]), Tuple(vec![iv(51)])];
    let t_plain = match Relation::triple(tag_attr(), 5, b(164), b(165)) {
        Relation::Triple(t) => t,
        _ => unreachable!(),
    };
    assert_eq!(rows(t_plain.neg_join(probe_plain, &vec![0], &vec![1], &tx)), vec![vec![iv(51)]]);

    // negated entity join
    let probe_e = vec![Tuple(vec![en(5)]), Tuple(vec![en(6)])];
    let t_e = match Relation::triple(tag_attr(), 5, b(166), b(167)) {
        Relation::Triple(t) => t,
        _ => unreachable!(),
    };
    assert_eq!(rows(t_e.neg_join(probe_e, &vec![0], &vec![0], &tx)), vec![vec![en(6)]]);
}

/// A reorder as the right child of a join is a logic error.
#[test]
fn join_on_reordered_errors() {
    let left = Relation::singlet(vec![b(160)], vec![iv(1)]);
    let inner = Relation::singlet(vec![b(161)], vec![iv(1)]);
    let right = inner.reorder(vec![b(161)]);
    let plan = left.join(right, vec![], vec![]);
    let res = plan.iter(&SessionTx::new(), None, &vec![]);
    assert_eq!(res, Err(QueryError::JoinOnReordered));
}

/// Reading an entity id from a non-entity value is a type error.
#[test]
fn entity_id_expected_errors() {
    let mut tx = SessionTx::new();
    tx.put_triple(1, 3, iv(7), 0);
    let left = Relation::singlet(vec![b(170)], vec![iv(5)]);
    let right = Relation::triple(tag_attr(), 5, b(170), b(171));
    // key on the entity column, but the probe value is not an entity id
    let plan = left.join(right, vec![b(170)], vec![b(170)]);
    let res = plan.iter(&tx, None, &vec![]);
    assert_eq!(res, Err(QueryError::EntityIdExpected));
}

/// Evaluating a predicate before its indices are resolved is an error.
#[test]
fn unresolved_predicate_errors() {
    let left = Relation::singlet(vec![b(180)], vec![iv(1)]);
    let plan = left.filter(Expr::VarEqConst { var: b(180), idx: None, val: iv(1) });
    // no fill pass
    let res = plan.iter(&SessionTx::new(), None, &vec![]);
    assert_eq!(res, Err(QueryError::UnresolvedPredicate));
}

/// A reorder naming an absent binding is a logic error naming the key.
#[test]
fn reorder_not_permutation_errors() {
    let left = Relation::singlet(vec![b(190)], vec![iv(1)]);
    let plan = left.reorder(vec![b(191)]);
    let res = plan.iter(&SessionTx::new(), None, &vec![]);
    assert_eq!(res, Err(QueryError::ReorderNotPermutation { key: b(191) }));
}

/// A fixed row whose arity disagrees with its binding list is rejected.
#[test]
fn arity_mismatch_errors() {
    let plan = Relation::fixed(vec![b(200), b(201)], vec![vec![iv(1)]]);
    let res = plan.iter(&SessionTx::new(), None, &vec![]);
    assert_eq!(res, Err(QueryError::ArityMismatch));
}

/// An impossible right-index shape in a negated triple join is a logic
/// error.
#[test]
fn invalid_triple_join_keys_errors() {
    let tx = SessionTx::new();
    let t = match Relation::triple(name_attr(), 5, b(210), b(211)) {
        Relation::Triple(t) => t,
        _ => unreachable!(),
    };
    let res = t.neg_join(vec![], &vec![], &vec![], &tx);
    assert_eq!(res, Err(QueryError::InvalidTripleJoinKeys));
}

/// Eliminated bindings translate to their positions in the binding list.
#[test]
fn eliminate_indices_positions() {
    let bindings = vec![b(1), b(2), b(3)];
    let eliminate = vec![b(3), b(1)];
    let idx = relcore::value::get_eliminate_indices(&bindings, &eliminate);
    assert_eq!(idx, vec![0usize, 2usize]);
}

/// The point existence check sees exactly the visible facts.
#[test]
fn eav_exists_respects_validity() {
    let mut tx = SessionTx::new();
    tx.put_triple(1, 1, iv(100), 7);
    assert!(tx.eav_exists(1, 1, iv(100), 7));
    assert!(!tx.eav_exists(1, 1, iv(100), 6));
    assert!(!tx.eav_exists(1, 1, iv(200), 7));
}

/// When the downstream `used` set still names every binding, the
/// elimination pass leaves both the binding list and the output unchanged.
#[test]
fn elimination_with_all_used_is_identity() {
    let mut tx = SessionTx::new();
    tx.put_triple(1, 1, iv(100), 0);
    let left = Relation::singlet(vec![b(230)], vec![iv(100)]);
    let right = Relation::triple(name_attr(), 5, b(231), b(230));
    let plan = left.join(right, vec![b(230)], vec![b(230)]);
    let before = rows(plan.iter(&tx, None, &vec![]));
    let plan = plan.eliminate_temp_vars(&vec![b(230), b(231)]);
    assert_eq!(plan.bindings_after_eliminate(), vec![b(230), b(231), b(230)]);
    let after = rows(plan.iter(&tx, None, &vec![]));
    assert_eq!(before, after);
}

/// The post-elimination bindings are a subsequence of the pre-elimination
/// bindings: eliminating drops columns without reordering the rest.
#[test]
fn bindings_after_is_subsequence() {
    let plan = Relation::fixed(
        vec![b(240), b(241), b(242)],
        vec![vec![iv(1), iv(2), iv(3)]],
    );
    let plan = plan.eliminate_temp_vars(&vec![b(240), b(242)]);
    assert_eq!(plan.bindings_before_eliminate(), vec![b(240), b(241), b(242)]);
    assert_eq!(plan.bindings_after_eliminate(), vec![b(240), b(242)]);
}

/// The negated join keeps exactly the probe tuples the positive join
/// drops: a partition of the probe stream.
#[test]
fn neg_join_partitions_probe() {
    let mut tx = SessionTx::new();
    tx.put_triple(1, 1, iv(100), 0);
    let probe = vec![Tuple(vec![en(1), iv(100)]), Tuple(vec![en(1), iv(200)])];
    let t = match Relation::triple(name_attr(), 5, b(220), b(221)) {
        Relation::Triple(t) => t,
        _ => unreachable!(),
    };
    let neg = rows(t.neg_join(probe.clone(), &vec![0, 1], &vec![0, 1], &tx));
    assert_eq!(neg, vec![vec![en(1), iv(200)]]);
    let bindings = vec![b(220), b(221), b(222), b(223)];
    let pos = rows(t.join(probe, &vec![0, 1], &vec![0, 1], &tx, &bindings, &vec![]));
    assert_eq!(pos.len(), 1);
    assert_eq!(pos[0][0], en(1));
    assert_eq!(pos[0][1], iv(100));
}
