//! Limits of the service, and what its shutdown amounts to.
//!
//! UDP datagrams and TCP connections have separate bounded pools. A slow TCP
//! client therefore cannot consume the capacity reserved for UDP requests.
use crate::text::concat;
use crate::transport::IoErrorKind;
use vstd::prelude::*;

verus! {

pub const UDP_WORKERS: usize = 8;

pub const TCP_WORKERS: usize = 16;

pub const UDP_QUEUE: usize = 64;

pub const TCP_QUEUE: usize = 16;

pub const LISTENER_SHUTDOWN_TIMEOUT: u64 = 3_000_000_000;

pub const CLIENT_FRAME_TIMEOUT: u64 = 10_000_000_000;

pub const CLIENT_WRITE_TIMEOUT: u64 = 2_000_000_000;

/// How the thread of the TCP listener ended.
#[derive(Debug)]
pub enum ListenerEnd {
    /// It was joined, with its own result.
    Joined(Result<(), String>),
    /// It was joined and had panicked.
    Panicked,
    /// It did not end in time; `wake` is what became of the connection that was to
    /// wake it.
    TimedOut { wake: Result<(), String> },
}

/// The text of a result.
pub open spec fn result_text(result: Result<(), String>) -> Option<Seq<char>> {
    match result {
        Ok(_) => None,
        Err(text) => Some(text@),
    }
}

/// The error that the end of the TCP listener means, if any.
pub open spec fn listener_error(end: ListenerEnd) -> Option<Seq<char>> {
    match end {
        ListenerEnd::Joined(result) => result_text(result),
        ListenerEnd::Panicked => Some("TCP listener terminated unexpectedly"@),
        ListenerEnd::TimedOut { wake } => Some(
            "TCP listener shutdown timed out: "@ + (match wake {
                Ok(_) => "local wake connection succeeded"@,
                Err(text) => "local wake connection failed: "@ + text@,
            }),
        ),
    }
}

/// What the service ends with, and whether its shutdown was complete.
#[derive(Debug)]
pub struct ServiceEnd {
    pub result: Result<(), String>,
    pub complete: bool,
}

/// Combines the ends of both listeners: an error of the UDP listener comes first.
///
/// A listener that could not be joined must not hang the shutdown. Its error ends
/// the program, and the system reclaims the thread.
pub fn service_end(udp: Result<(), String>, tcp: ListenerEnd) -> (r: ServiceEnd)
    ensures
        r.complete == (listener_error(tcp) is None),
        result_text(r.result) == (match result_text(udp) {
            Some(text) => Some(text),
            None => listener_error(tcp),
        }),
{
    let tcp_result: Result<(), String> = match tcp {
        ListenerEnd::Joined(result) => result,
        ListenerEnd::Panicked => Err(String::from_str("TCP listener terminated unexpectedly")),
        ListenerEnd::TimedOut { wake } => {
            let detail = match wake {
                Ok(()) => String::from_str("local wake connection succeeded"),
                Err(text) => concat("local wake connection failed: ", text.as_str()),
            };
            Err(concat("TCP listener shutdown timed out: ", detail.as_str()))
        },
    };
    let complete = tcp_result.is_ok();
    let result = match udp {
        Ok(()) => tcp_result,
        Err(text) => Err(text),
    };
    ServiceEnd { result, complete }
}

/// Whether the failure of a client connection deserves a diagnostic: not during
/// shutdown, and not where a client was merely idle for too long.
pub fn reports_client_failure(kind: IoErrorKind, stop: bool) -> (r: bool)
    ensures
        r == (!stop && kind != IoErrorKind::TimedOut),
{
    !stop && kind != IoErrorKind::TimedOut
}

/// Only a TCP listener that was joined without an error ends well.
pub proof fn only_joined_listeners_end_well(end: ListenerEnd)
    ensures
        listener_error(end) is None <==> (end matches ListenerEnd::Joined(result) && result is Ok),
        end matches ListenerEnd::Joined(Err(text)) ==> listener_error(end) == Some(text@),
{
}

} // verus!
