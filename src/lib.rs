//! A recurring-subscription billing engine.
//!
//! Providers register billable services; users subscribe and are charged a
//! fee once per period. Renewals are kept in a forward index from renewal tick
//! to the subscriptions due at that tick, and a reverse index from each user
//! to the ticks at which that user has something due, so that a tick only
//! touches the subscriptions that are due at it.
use vstd::prelude::*;

pub mod types;
pub mod ledger;
pub mod catalog;
pub mod index;
pub mod engine;
pub mod laws;
