//! Event-sourced collections: a list of entities rebuilt from an append-only
//! log of create, update and delete events, with queries into the past.

pub mod error;
pub mod laws;
pub mod projection;
pub mod projector;
pub mod typings;
