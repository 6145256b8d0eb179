//! Orchestration layer of a binary-field SNARK constraint system.
//!
//! The crate models an append-only polynomial-oracle graph, per-table
//! polynomial constraints grouped by variable count, a cross-table
//! multiset ("channel") consistency argument, a binary codec for the
//! persisted structures, and the sequential proof-verification pipeline
//! that composes grand-product, sumcheck/zerocheck and evaluation-claim
//! reduction steps against a polynomial commitment scheme under a
//! Fiat-Shamir transcript.
pub mod arith;
pub mod channel;
pub mod codec;
pub mod constraint;
pub mod constraint_system;
pub mod error;
pub mod field;
pub mod oracle;
pub mod pipeline;
pub mod transcript;
pub mod transparent;
pub mod witness;
