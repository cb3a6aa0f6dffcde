//! A multi-tenant note store with owner-gated visibility, soft deletion,
//! sequential record ids, and a fee policy administered by a designated
//! operator identity.
//!
//! The store keeps one `Note` record per id, a per-owner append-only index
//! of created ids, a global id counter, and a singleton fee configuration.
//! Every mutating operation is gated on the invoking principal proving
//! control of the acting identity; reads are gated per record on ownership
//! and activity.

pub mod contract;
pub mod laws;
pub mod model;
