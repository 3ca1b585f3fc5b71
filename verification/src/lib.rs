//! Relational execution core of a Datalog-style triple store query engine.
//!
//! A query plan is a tree of relation nodes: inline fixed tables, triple
//! scans, derived (materialized) stores, inner joins, reorderings, and
//! predicate filters.  Each node announces the columns it produces, can have
//! temporary columns eliminated early, and enumerates its tuples against a
//! transactional storage snapshot, with epoch-aware reads for semi-naive
//! Datalog evaluation.

pub mod expr;
pub mod laws;
pub mod iterate;
pub mod relation;
pub mod sem;
pub mod storage;
pub mod value;

pub use value::{Binding, DataValue, QueryError, Tuple};
