//! An event-sourced, keyed state machine: a process-local store that holds
//! independent named "slices" of structured data, mutates each slice only by
//! applying a pure reducer to an incoming event, and reconstructs all slice
//! state at startup by replaying a persisted, ordered event log.
//!
//! - [`document`] holds the structured value type that serves as event
//!   payload and slice state, with its object operations.
//! - [`event`] holds the canonical event envelope, its minting, and the
//!   replay order.
//! - [`reducers`] holds the pure reducers, one per slice.
//! - [`registry`] maps each slice name to its initial value and reducer.
//! - [`machine`] owns the slice values and applies transitions atomically.
//! - [`eventlog`] records every applied event, keyed by identifier.
//! - [`store`] combines machine and log: startup, replay, and dispatch.
//! - [`laws`] proves the store's guarantees: replay determinism, no-op
//!   suppression, and the per-slice transition behavior.

pub mod document;
pub mod event;
pub mod eventlog;
pub mod laws;
pub mod reducers;
pub mod machine;
pub mod registry;
pub mod store;
