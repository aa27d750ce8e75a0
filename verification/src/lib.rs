//! Combat state engine for a tabletop encounter tracker.
//!
//! The library owns the entity roster, the initiative ordering and the
//! turn/round state machine, together with the snapshot forms used for
//! durable saves and for the read-only viewer protocol.

pub mod dice;
pub mod dto;
pub mod entity;
pub mod protocol;
pub mod snapshot;
pub mod text;
pub mod tracker;
pub mod utils;
