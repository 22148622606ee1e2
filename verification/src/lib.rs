//! A split-DNS forwarder: message validation, routing policy, exchange decisions.
pub mod address;
pub mod bytes;
pub mod cli;
pub mod config;
pub mod dns;
pub mod document;
pub mod forwarding;
pub mod logging;
pub mod pool;
pub mod routing;
pub mod server;
pub mod text;
pub mod transport;
pub mod upstream;
