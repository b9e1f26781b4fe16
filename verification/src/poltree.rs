//! The policy tree: an index of policies by the attribute values that they ask
//! for, built once and searched for each request.
//!
//! A policy is indexed if all that it asks is that attributes have given values:
//! [`constraints`] says which do, and what they ask, and [`residual`] which do
//! not. An [`index`] lists the policies by what they ask, and the entities by
//! what they have, which [`scan`] and [`coverage`] find out. From it a [`tree`] is
//! built, each node of which splits on the key of [`choice`]; [`policy_tree`] does
//! it all for a policy set. [`evaluate`] searches the tree for a request, whose
//! values come from [`request_values`]. [`semantics`] says what policies mean, and
//! [`laws`] that the tree decides accordingly.
//!
//! [`meaning`] says the same of policies, requests and stores without any of these
//! notions, by their fields alone. That what is indexed, listed, covered, read and
//! decided is what it says, is proved in [`promises`], [`index_promises`] and
//! [`tree_promises`].

pub mod choice;
pub mod constraints;
pub mod coverage;
pub mod evaluate;
pub mod index;
pub mod index_promises;
pub mod keys;
pub mod laws;
pub mod meaning;
pub mod policy_tree;
pub mod promises;
pub mod request_values;
pub mod residual;
pub mod scan;
pub mod semantics;
pub mod tree;
pub mod tree_promises;
