//! A fine-grained reactive state-propagation engine.
//!
//! The crate offers mutable reactive cells, memoized derived selectors with
//! dynamic dependency tracking (push-based invalidation, pull-based
//! recomputation), a stack-scoped context registry, and a keyed-list
//! reconciler that keeps one computation subtree alive per stable key.
//!
//! A selector's recompute function is data: an expression tree over cell
//! reads that the engine interprets, recording which cells each run
//! actually touched. Derived values compose inside one expression; a
//! selector's dependencies are always cells, so invalidation is a single
//! walk over the recorded edges. Every operation's contract is stated
//! against the denotational model in [`expr::eval`]: what one run of the
//! recompute function would produce against the current store.
use vstd::prelude::*;

pub mod context;
pub mod engine;
pub mod expr;
pub mod laws;
pub mod reconcile;
pub mod value;

verus! {

/// The error taxonomy of the engine; every variant marks a violated caller
/// obligation, never a transient condition to retry.
#[derive(Clone, Copy, Debug, PartialEq, Eq, Structural)]
pub enum EngineError {
    /// A cell or selector handle was used after disposal, or never existed.
    StaleHandle,
    /// A context lookup found no ancestor binding for the requested key.
    MissingProvider,
    /// Two items in one reconciliation update carried the same key.
    DuplicateKey,
}

} // verus!
