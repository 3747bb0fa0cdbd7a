//! Off-chain order-matching engine for a decentralized spot exchange.
//!
//! The library holds the verified core of the matcher: the canonical order
//! model, the price-time-priority order book, the crossing engine, the
//! phantom-order filter, the settlement batcher and the run-loop state
//! machine. Network I/O, persistence and the admin surface live outside the
//! library and talk to it through plain values.

pub mod batch;
pub mod book;
pub mod bot;
pub mod common;
pub mod engine;
pub mod engine_laws;
pub mod error;
pub mod log;
pub mod logger;
pub mod matcher;
pub mod model;
pub mod phantom;
pub mod subscription;
pub mod web;
pub mod websocket;

pub use model::{OrderType, SpotOrder};
