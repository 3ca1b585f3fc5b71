//! Predicate expressions evaluated by filter nodes.  An expression names the
//! columns it reads symbolically; a one-time index-fill pass resolves names
//! to positions against a relation's binding list, and evaluation then reads
//! a positional tuple.

use vstd::prelude::*;
use crate::value::{find_binding, pos_of, Binding, DataValue, QueryError, Tuple};

verus! {

/// A predicate over one tuple: a constant, an equality between a column and
/// a constant, or an equality between two columns.  The `*_idx` fields start
/// out unresolved and are filled by `fill_binding_indices`.
#[derive(Clone, Copy, PartialEq, Eq, Structural, Debug)]
pub enum Expr {
    Const { val: bool },
    VarEqConst { var: Binding, idx: Option<usize>, val: DataValue },
    VarEqVar { lvar: Binding, rvar: Binding, lidx: Option<usize>, ridx: Option<usize> },
}

/// The free variables referenced by `e`, in syntactic order.
pub open spec fn expr_bindings_spec(e: Expr) -> Seq<Binding> {
    match e {
        Expr::Const { .. } => Seq::empty(),
        Expr::VarEqConst { var, .. } => seq![var],
        Expr::VarEqVar { lvar, rvar, .. } => seq![lvar, rvar],
    }
}

/// All column indices of `e` are resolved and fall within a tuple of
/// length `n`.
pub open spec fn expr_indices_ok(e: Expr, n: int) -> bool {
    match e {
        Expr::Const { .. } => true,
        Expr::VarEqConst { idx, .. } => idx is Some && idx->0 < n,
        Expr::VarEqVar { lidx, ridx, .. } => lidx is Some && lidx->0 < n && ridx is Some
            && ridx->0 < n,
    }
}

/// The truth value of `e` on tuple `t`, read through the resolved indices.
pub open spec fn pred_holds(e: Expr, t: Seq<DataValue>) -> bool {
    match e {
        Expr::Const { val } => val,
        Expr::VarEqConst { idx, val, .. } => t[idx->0 as int] == val,
        Expr::VarEqVar { lidx, ridx, .. } => t[lidx->0 as int] == t[ridx->0 as int],
    }
}

/// `e` with its indices resolved against `bindings`: each referenced
/// variable points at its first occurrence, or at nothing when absent.
pub open spec fn expr_filled(e: Expr, bindings: Seq<Binding>) -> Expr {
    match e {
        Expr::Const { val } => Expr::Const { val },
        Expr::VarEqConst { var, val, .. } => Expr::VarEqConst {
            var,
            idx: if bindings.contains(var) {
                Some(pos_of(bindings, var) as usize)
            } else {
                None
            },
            val,
        },
        Expr::VarEqVar { lvar, rvar, .. } => Expr::VarEqVar {
            lvar,
            rvar,
            lidx: if bindings.contains(lvar) {
                Some(pos_of(bindings, lvar) as usize)
            } else {
                None
            },
            ridx: if bindings.contains(rvar) {
                Some(pos_of(bindings, rvar) as usize)
            } else {
                None
            },
        },
    }
}

impl Expr {
    /// The free variables referenced by this predicate.
    pub fn bindings(&self) -> (r: Vec<Binding>)
        ensures
            r@ == expr_bindings_spec(*self),
    {
        match self {
            Expr::Const { .. } => {
                let r: Vec<Binding> = Vec::new();
                proof {
                    assert(r@ =~= expr_bindings_spec(*self));
                }
                r
            },
            Expr::VarEqConst { var, .. } => {
                let mut r: Vec<Binding> = Vec::new();
                r.push(*var);
                proof {
                    assert(r@ =~= expr_bindings_spec(*self));
                }
                r
            },
            Expr::VarEqVar { lvar, rvar, .. } => {
                let mut r: Vec<Binding> = Vec::new();
                r.push(*lvar);
                r.push(*rvar);
                proof {
                    assert(r@ =~= expr_bindings_spec(*self));
                }
                r
            },
        }
    }

    /// Resolves each referenced variable to its position in `bindings`.
    pub fn fill_binding_indices(self, bindings: &Vec<Binding>) -> (r: Expr)
        ensures
            r == expr_filled(self, bindings@),
    {
        proof {
            lemma_pos_of_all(bindings@);
        }
        match self {
            Expr::Const { val } => Expr::Const { val },
            Expr::VarEqConst { var, val, .. } => {
                let p = find_binding(bindings, var);
                let idx = if p < bindings.len() {
                    Some(p)
                } else {
                    None
                };
                Expr::VarEqConst { var, idx, val }
            },
            Expr::VarEqVar { lvar, rvar, .. } => {
                let lp = find_binding(bindings, lvar);
                let rp = find_binding(bindings, rvar);
                let lidx = if lp < bindings.len() {
                    Some(lp)
                } else {
                    None
                };
                let ridx = if rp < bindings.len() {
                    Some(rp)
                } else {
                    None
                };
                Expr::VarEqVar { lvar, rvar, lidx, ridx }
            },
        }
    }

    /// Evaluates the predicate on `t`.  Succeeds exactly when every index is
    /// resolved and in range, and then returns the predicate's truth value.
    pub fn eval_pred(&self, t: &Tuple) -> (res: Result<bool, QueryError>)
        ensures
            expr_indices_ok(*self, t@.len() as int) ==> res == Ok::<bool, QueryError>(
                pred_holds(*self, t@),
            ),
            !expr_indices_ok(*self, t@.len() as int) ==> res == Err::<bool, QueryError>(
                QueryError::UnresolvedPredicate,
            ),
    {
        match self {
            Expr::Const { val } => Ok(*val),
            Expr::VarEqConst { idx, val, .. } => {
                match idx {
                    Some(i) => {
                        if *i < t.0.len() {
                            Ok(t.0[*i] == *val)
                        } else {
                            Err(QueryError::UnresolvedPredicate)
                        }
                    },
                    None => Err(QueryError::UnresolvedPredicate),
                }
            },
            Expr::VarEqVar { lidx, ridx, .. } => {
                match (lidx, ridx) {
                    (Some(li), Some(ri)) => {
                        if *li < t.0.len() && *ri < t.0.len() {
                            Ok(t.0[*li] == t.0[*ri])
                        } else {
                            Err(QueryError::UnresolvedPredicate)
                        }
                    },
                    _ => Err(QueryError::UnresolvedPredicate),
                }
            },
        }
    }
}

/// Helper: `pos_of` facts for every binding (used by the fill pass).
pub proof fn lemma_pos_of_all(bs: Seq<Binding>)
    ensures
        forall|b: Binding| 0 <= #[trigger] pos_of(bs, b) <= bs.len(),
{
    assert forall|b: Binding| 0 <= #[trigger] pos_of(bs, b) <= bs.len() by {
        crate::value::lemma_pos_of(bs, b);
    }
}

} // verus!
