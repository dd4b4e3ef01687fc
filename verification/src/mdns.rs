//! Multicast DNS publication support.
pub mod advertise;
pub mod cache;
pub mod tsr;
pub mod wire;
