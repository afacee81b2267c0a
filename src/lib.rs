//! An in-memory store of named model nodes forming a shared-node tree.
//!
//! Every node is either a leaf, which carries an algorithm label, or an
//! internal node, which carries an ordered list of child names. A child is a
//! reference by name, so one node may be listed by several parents. Each node
//! caches how many child slots in the whole store name it; that cache is
//! recomputed from scratch after every structural change.
use vstd::prelude::*;

pub mod model;
pub mod refcount;
pub mod naming;
pub mod engine;
pub mod edit;
pub mod store;
pub mod load;
