//! A DNS server for names discovered from local sources.

pub mod api;
pub mod backoff;
pub mod config;
pub mod debounce;
pub mod dns;
pub mod docker;
pub mod ip;
pub mod name;
pub mod order;
pub mod pairs;
pub mod record;
pub mod rfc1035;
pub mod run_loop;
pub mod server;
pub mod sources;
pub mod text;
pub mod time;
pub mod upstream;
pub mod url;
pub mod util;
pub mod watcher;
