//! Predicate pushdown through the projections of a query plan.
//!
//! A filter above a projection can be applied below it if the projection does not change what the
//! filter reads. The functions of this library decide which predicates can go on downwards, rename
//! them to the columns of the input on their way, and keep back those that cannot.

pub mod aexpr;
pub mod allowed;
pub mod arena;
pub mod boundary;
pub mod collections;
pub mod combine;
pub mod evaluation;
pub mod fate_laws;
pub mod key_laws;
pub mod keys;
pub mod laws;
pub mod meaning_laws;
pub mod names;
pub mod origins;
pub mod projection;
pub mod pushdown_laws;
pub mod rename;
pub mod row_laws;
pub mod schema;
pub mod shape_laws;
pub mod transfer;
pub mod traversal;
pub mod walk_laws;
