//! Pure protocol boundary. Opaque record data and original wire bytes stay here.
//!
//! `Packet::parse` checks structural validity; `Packet::validate_query`
//! produces `QueryDecision`. Only `QueryDecision::Forward` may be relayed.
//! `QueryDecision::Ignore` must not be answered. Parsing a packet alone does
//! not establish that it is a query or a correlated response.
//! Original bytes preserve compression offsets and unknown record data when
//! packets cross the forwarding boundary.
use vstd::prelude::*;

pub mod cookie;
pub mod error;
pub mod extent;
pub mod identity;
pub mod message;
pub mod name;
pub mod parser;
pub mod policy;
pub mod readback;
pub mod renewal;
pub mod replies;
pub mod reply;
pub mod revised;
pub mod shape;
pub mod structure;
pub mod types;

verus! {

/// Fixed DNS header size, excluding a TCP frame's two-byte length prefix.
pub const HEADER_LENGTH: usize = 12;

/// Maximum DNS message length representable by the TCP frame prefix.
pub const MAX_MESSAGE_LENGTH: usize = 65535;

/// Client UDP response limit when no EDNS OPT record is present.
pub const CLASSIC_UDP_LENGTH: usize = 512;

/// Conservative EDNS size to avoid fragmentation on typical IPv6 paths.
pub const SERVER_UDP_LENGTH: usize = 1232;

} // verus!
