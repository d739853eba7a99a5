//! An equality-saturation engine for symbolic arithmetic expressions.
//!
//! The crate maintains an e-graph: an ordered collection of equivalence
//! classes of e-nodes, each e-node being an operator applied to class
//! identifiers.  Expressions are inserted with deduplication up to known
//! equalities, classes are merged by a union-find discipline, and concrete
//! expressions are recovered by bounded enumerative extraction and by
//! pattern search.

pub mod exprs;
pub mod graphs;
pub mod matching;
pub mod render;
pub mod rules;
