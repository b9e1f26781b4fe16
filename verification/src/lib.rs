//! Decision-tree indexing of access-control policies.
//!
//! A policy permits or forbids by conditions on the principal, the action, the
//! resource and the context of a request. Those that ask only that attributes
//! have given values are kept in a tree ([`poltree`]), which decides a request by
//! looking a few values up; the others are left to an evaluator of whole
//! conditions. [`cli`] is the command line around it.

pub mod ast;
pub mod authorizer;
pub mod cli;
pub mod entities;
pub mod keyed;
pub mod poltree;
pub mod seqs;
pub mod text;
