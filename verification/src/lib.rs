//! Tailscale status, toggle and peer-picker helpers for an i3/sway status bar.

pub mod cli;
pub mod ipv4;
pub mod listing;
pub mod pick;
pub mod tailscale;
pub mod text;
