//! Resumable discovery of pair-creation events on a block chain.
//!
//! The scan walks the chain in windows of blocks, asks how many events a
//! window holds, finds each block that holds one by bisection, and records
//! what it finds in an append-only store from which it can start again.
pub mod events;
pub mod locator;
pub mod decimal;
pub mod record;
pub mod store;
pub mod driver;
pub mod scan;
pub mod retry;
