//! Per-identifier Markov chain text models with durable storage.
//!
//! A [`chain::Chain`] is a first-order token-transition model trained
//! incrementally from whitespace-separated text and sampled by a weighted
//! random walk.  [`codec`] serializes a chain's transition table to bytes and
//! back, losslessly.  [`store`] persists each chain under an opaque
//! identifier in an embedded key-value store, and [`service`] exposes the
//! three operations (generate, feed, clear) over it.

pub mod chain;
pub mod codec;
pub mod error;
pub mod service;
pub mod store;
pub mod token;
