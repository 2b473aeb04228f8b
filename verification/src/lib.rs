//! An event-sourcing persistence core: an append-only event log, a
//! change encoder that turns entity mutations into field-level payloads,
//! and a replay engine that folds an aggregate's events back into a
//! materialized entity value.

pub mod dtos;
pub mod errors;
pub mod events;
pub mod models;
pub mod payload;
pub mod replay;
pub mod tweet_controller;
pub mod users;
mod trusted;
