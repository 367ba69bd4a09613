//! The data that the portal reads: configured services and the state of
//! the tailnet.
pub mod service;
pub mod tailscale;
