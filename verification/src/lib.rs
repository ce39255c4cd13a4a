//! A single-user inventory: a store of product records keyed by name, and the
//! codec that carries the records to and from comma-separated lines of text.
//!
//! Prices are binary64 numbers. This crate never computes with them: it holds
//! their bit pattern, and where a price is read or shown it works on the
//! price's text, which callers convert to and from the number.

pub mod auth;
pub mod codec;
pub mod error;
pub mod number;
pub mod persistence;
pub mod product;
pub mod report;
pub mod store;
pub mod text;
