//! A server that answers for zones and forwards the rest to one upstream.

pub mod authority;
pub mod handler;
pub mod sets;
pub mod state;
pub mod zone;
