//! What is configured: zones, servers and sources.

pub mod env;
pub mod host;
pub mod settings;
pub mod stream;
pub mod zones;
