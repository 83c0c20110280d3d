//! Import of WireGuard `.conf` files into a managed Clash profile.
//!
//! The library parses the INI-like WireGuard configuration format, checks the
//! fields the import needs, and derives the Clash profile that describes the
//! resulting WireGuard proxy.
pub mod text;
pub mod error;
pub mod sections;
pub mod values;
pub mod config;
pub mod clash;
pub mod profile;
pub mod laws;
