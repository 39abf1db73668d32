//! Pull queries over attributes that change with time.
//!
//! A pull query asks, for the entities of a relation, for the values that
//! they have of some attributes, level by level along the paths of a tree.
//! A plan for such a query is compiled against a [`domain::Domain`] of
//! attributes into a [`relation::Implemented`] relation: a collection of
//! changes, each a row with the time at which it comes or goes and how
//! often. Rows are flat: the cells of a path and the labels of its levels
//! in turn, then an attribute and a value.
//!
//! Whatever a compilation installs in its [`shutdown::Scope`] is covered
//! by the [`shutdown::ShutdownHandle`] that it hands out, and a
//! compilation that fails leaves the scope as it found it.
//!
//! The contracts are stated over the models of these types; the laws that
//! relate the functions to each other are proved in [`laws`],
//! [`shutdown`] and [`timestamp`].

pub mod domain;
pub mod error;
pub mod laws;
pub mod plan;
pub mod pull;
pub mod relation;
pub mod shutdown;
pub mod timestamp;
pub mod value;
