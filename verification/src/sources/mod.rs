//! Where records come from.

pub mod dhcp;
pub mod docker;
pub mod file;
pub mod id;
pub mod install;
pub mod remote;
pub mod traefik;
