//! A small smart-home core: emulated devices, a room/device registry, a query
//! dispatcher, and the decision logic of a stream protocol and a datagram
//! telemetry feed.
pub mod device;
pub mod home;
pub mod socket;
pub mod text;

pub use home::SmartHome;
