//! The addressing engine, one module per address family.
pub mod structs;
pub mod text;
pub mod text6;
pub mod sizing;
pub mod ipv4;
pub mod ipv6;
