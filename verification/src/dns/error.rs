//! Structural protocol errors, kept separate from DNS rejection response codes.
use crate::dns::reply::{self, ReplyContext};
use vstd::prelude::*;

verus! {

/// Failure to decode a bounded message or configuration name.
///
/// Messages describe the failure category without packet bytes or question
/// names, so callers can log them without exposing client queries.
#[derive(Debug, Clone, Copy, PartialEq, Eq, Structural)]
pub enum ParseError {
    UnexpectedEnd,
    OversizedMessage,
    InvalidLabel,
    NameTooLong,
    InvalidPointer,
    CompressionLoop,
    CompressionDepth,
    /// Counts cannot fit the message, or exceed the supported question count.
    InvalidCount,
    InvalidRecord,
    InvalidEdns,
    TrailingData,
}

impl ParseError {
    /// The text of each failure category.
    pub open spec fn text(self) -> Seq<char> {
        match self {
            ParseError::UnexpectedEnd => "truncated DNS field"@,
            ParseError::OversizedMessage => "DNS message exceeds 65535 bytes"@,
            ParseError::InvalidLabel => "invalid DNS label encoding"@,
            ParseError::NameTooLong => "DNS name exceeds 255 wire bytes"@,
            ParseError::InvalidPointer => "invalid DNS compression pointer"@,
            ParseError::CompressionLoop => "DNS compression pointer cycle"@,
            ParseError::CompressionDepth => "DNS compression chain exceeds 128 pointers"@,
            ParseError::InvalidCount => "DNS section count cannot fit in message"@,
            ParseError::InvalidRecord => "invalid DNS resource record data"@,
            ParseError::InvalidEdns => "invalid, misplaced or duplicate OPT record"@,
            ParseError::TrailingData => "trailing bytes after DNS sections"@,
        }
    }

    pub fn message(self) -> (r: &'static str)
        ensures
            r@ == self.text(),
    {
        match self {
            ParseError::UnexpectedEnd => "truncated DNS field",
            ParseError::OversizedMessage => "DNS message exceeds 65535 bytes",
            ParseError::InvalidLabel => "invalid DNS label encoding",
            ParseError::NameTooLong => "DNS name exceeds 255 wire bytes",
            ParseError::InvalidPointer => "invalid DNS compression pointer",
            ParseError::CompressionLoop => "DNS compression pointer cycle",
            ParseError::CompressionDepth => "DNS compression chain exceeds 128 pointers",
            ParseError::InvalidCount => "DNS section count cannot fit in message",
            ParseError::InvalidRecord => "invalid DNS resource record data",
            ParseError::InvalidEdns => "invalid, misplaced or duplicate OPT record",
            ParseError::TrailingData => "trailing bytes after DNS sections",
        }
    }
}

/// A message that was refused, and what an error reply to it may use.
///
/// The parser keeps no context for a message that is not a query.
#[derive(Debug)]
pub struct ParseFailure {
    pub error: ParseError,
    pub context: Option<ReplyContext>,
}

impl ParseFailure {
    /// Builds the format error that answers a broken query.
    pub fn format_reply(&self) -> (r: Option<Vec<u8>>)
        ensures
            match (reply::context_view(self.context), r) {
                (Some(context), Some(wire)) => wire@ == reply::format_error(context),
                (None, None) => true,
                _ => false,
            },
    {
        match &self.context {
            Some(context) => Some(context.format_reply()),
            None => None,
        }
    }
}

} // verus!
