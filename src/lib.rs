//! A local micro-service broker: modules connect, register under a name and a
//! semantic version, declare functions, call each other's functions through the
//! broker and publish or subscribe to hooks. This crate holds the broker's state
//! machine and the rules it enforces; the transport lives outside it.
pub mod json;
pub mod version;
pub mod module;
pub mod protocol;
pub mod registry;
pub mod broker;
pub mod requests;
pub mod laws;
pub mod logger;
pub mod transport;
