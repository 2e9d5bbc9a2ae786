//! A content-addressed, multi-author, causally-ordered append-only log store.
//!
//! Many independent authors each keep a strictly sequence-numbered history of
//! records; the histories are cross-linked into one directed acyclic graph of
//! causal dependencies. The [`document::CausalDocument`] engine owns the union
//! of all records, the per-author logs derived from them, and the causal
//! frontier ("tips"), and offers insertion, lookup, ordered traversal and
//! three pruning strategies.

#![verifier::loop_isolation(false)]

pub mod hash;
pub mod identity;
pub mod operation;
pub mod document;
pub mod doc;

