//! A small verified machine-learning toolkit: a rank-aware, row-major tensor
//! primitive and a decision-tree classifier built on top of it.
//!
//! Scalar observations are carried as totally ordered `i64` keys; callers that
//! measure in another scalar domain encode into keys before handing data to
//! the library and decode predictions on the way out.

pub mod shape;
pub mod ndarray;
pub mod node;
pub mod metric;
pub mod decision_tree;
pub mod document;
