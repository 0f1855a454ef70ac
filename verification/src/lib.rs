//! A fan-out gateway: chat commands and host updates go onto one ordered
//! bus, and a dispatch loop sends each message to every subscriber that is
//! connected, dropping the subscribers whose send fails.

pub mod bus;
pub mod dispatch;
pub mod frame;
pub mod ingest;
pub mod registry;
