//! Splitting driver and entry-point reconstruction for a Horn clause solver.
//!
//! The library holds the decisions: which negative clause to isolate next,
//! how partial models are merged, how positive samples depend on each other,
//! and which clauses can witness a sample. Preprocessing, learning and the
//! SMT oracle stay with the caller, which hands their outcomes back as plain
//! values.

pub mod instance;
pub mod candidates;
pub mod split;
pub mod split_loop;
pub mod sample;
pub mod entry_points;
pub mod reconstruct;
