//! Live-variable analysis for a small WHILE language.
//!
//! A program is a tree of statements over elementary blocks: assignments,
//! `skip` and tests. Its blocks are labelled `1..=len` in the order in which
//! they can first execute (`program`), the control flow is read off the
//! shape of the tree (`flow`), and the liveness equations (`analysis`) are
//! solved over that flow, by chaotic iteration or with a work list
//! (`algorithm`). What the solvers return, and how their results relate, is
//! stated and proved in `fixpoint`.

pub mod algorithm;
pub mod analysis;
pub mod block;
pub mod expression;
pub mod fixpoint;
pub mod flow;
pub mod lattice;
pub mod parser;
pub mod program;
pub mod statement;
