//! Verified core of a small Tailscale service portal: it reads the state of
//! a tailnet and a list of configured services, groups devices by their
//! owner, works out the address of each service and keeps the list of
//! configured services.
pub mod models;
pub mod text;
pub mod manage;
pub mod views;
pub mod portal_laws;
pub mod view_laws;
