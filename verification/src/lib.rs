//! Core of a branch-aware virtual filesystem overlay: classification of
//! virtual paths into routing decisions, the branch lifecycle state machine,
//! and the character-level codec for the persisted state document.
//!
//! Everything here is pure: the surrounding daemon performs the actual
//! filesystem work and persistence, consulting this crate for every routing
//! and lifecycle decision.

pub mod codec;
pub mod error;
pub mod fs_path;
pub mod state;
