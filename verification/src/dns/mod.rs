//! Answering DNS queries from records.

pub mod answers;
pub mod chain;
pub mod context;
pub mod handler;
pub mod names;
pub mod query;
pub mod record;
pub mod resolver;
pub mod rr;
pub mod set;
pub mod store;
