//! A verified, in-memory key-value engine with a C-style status taxonomy.
//!
//! The crate models a persistent key-value engine behind a small, safe
//! surface: keys and values are text, operations validate their arguments
//! before touching the store, and every outcome is classified into a closed
//! set (`Success`, `NotFound(key)`, `Fail`, `InvalidArgument`). The store
//! itself
//! is specified as a `Map<Seq<char>, Seq<char>>`, and each operation's
//! contract pins its result and the new store state against that map.

pub mod errors;
pub mod keys;
pub mod kvengine;
pub mod model;
