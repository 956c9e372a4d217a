//! Collaborative objects: append-only, causally ordered operation logs that
//! converge deterministically under conflict-free merge.
//!
//! The crate is built from three layers. A causal graph (`dag`) records
//! dependency edges between operation identifiers and computes valid
//! topological linearizations. A family of semilattice primitives (`max`,
//! `lwwreg`, `redactable`, `gate`, and the map joins in `lattice`) guarantees
//! commutative, associative, idempotent merges regardless of delivery order.
//! An operation/transaction layer (`cob`, `store`) turns a causally ordered
//! operation stream into materialized object state, demonstrated end to end
//! by the identity proposal object (`identity`, `thread`).

use vstd::prelude::*;

pub mod keys;
pub mod vecmap;
pub mod lattice;
pub mod text;
pub mod max;
pub mod lwwreg;
pub mod redactable;
pub mod gmap;
pub mod lwwmap;
pub mod gate;
pub mod dag;
pub mod cob;
pub mod thread;
pub mod identity;
pub mod store;
