//! A versioned mirror of ledger state: every change to an entity opens a new
//! version and closes the one before it, so that the state as of any block can
//! still be read.

pub mod engine;
pub mod entities;
pub mod grid_schemas;
pub mod group;
pub mod history;
pub mod key;
pub mod laws;
pub mod listing;
pub mod models;
pub mod organizations;
pub mod pipeline;
pub mod projector;
pub mod query;
pub mod record;
pub mod routes;
pub mod schemas;
pub mod seq_steps;
pub mod store;
pub mod text_order;
pub mod verbosity;
