//! DNS field values with explicit variants for recognized and unknown wire codes.
//!
//! Representing a code does not imply support for the operation it requests.
//! Query policy decides support; unknown record types and classes remain
//! forwardable.
use vstd::prelude::*;

verus! {

/// Identifies one exchange; client and upstream identifiers have separate lifetimes.
#[derive(Debug, Clone, Copy, PartialEq, Eq, Structural)]
pub struct TransactionId(pub u16);

/// The header QR bit, checked before replying to unsolicited traffic.
#[derive(Debug, Clone, Copy, PartialEq, Eq, Structural)]
pub enum MessageType {
    Query,
    Response,
}

/// Header operation code; this service forwards only standard queries.
#[derive(Debug, Clone, Copy, PartialEq, Eq, Structural)]
pub enum Opcode {
    Query,
    IQuery,
    Status,
    Notify,
    Update,
    Unknown(u8),
}

impl Opcode {
    /// The operation that a wire value stands for.
    pub open spec fn of(value: u8) -> Opcode {
        match value {
            0u8 => Opcode::Query,
            1u8 => Opcode::IQuery,
            2u8 => Opcode::Status,
            4u8 => Opcode::Notify,
            5u8 => Opcode::Update,
            _ => Opcode::Unknown(value),
        }
    }

    pub fn from_wire(value: u8) -> (r: Opcode)
        ensures
            r == Opcode::of(value),
    {
        match value {
            0 => Opcode::Query,
            1 => Opcode::IQuery,
            2 => Opcode::Status,
            4 => Opcode::Notify,
            5 => Opcode::Update,
            n => Opcode::Unknown(n),
        }
    }
}

/// Combined header and EDNS response code, including extended values such as BADVERS.
#[derive(Debug, Clone, Copy, PartialEq, Eq, Structural)]
pub enum ResponseCode {
    NoError,
    FormatError,
    ServerFailure,
    NameError,
    NotImplemented,
    Refused,
    BadVersion,
    BadCookie,
    Unknown(u16),
}

impl ResponseCode {
    /// The code that a wire value stands for.
    pub open spec fn of(value: u16) -> ResponseCode {
        match value {
            0u16 => ResponseCode::NoError,
            1u16 => ResponseCode::FormatError,
            2u16 => ResponseCode::ServerFailure,
            3u16 => ResponseCode::NameError,
            4u16 => ResponseCode::NotImplemented,
            5u16 => ResponseCode::Refused,
            16u16 => ResponseCode::BadVersion,
            23u16 => ResponseCode::BadCookie,
            _ => ResponseCode::Unknown(value),
        }
    }

    /// The wire value of a code.
    pub open spec fn code(self) -> u16 {
        match self {
            ResponseCode::NoError => 0,
            ResponseCode::FormatError => 1,
            ResponseCode::ServerFailure => 2,
            ResponseCode::NameError => 3,
            ResponseCode::NotImplemented => 4,
            ResponseCode::Refused => 5,
            ResponseCode::BadVersion => 16,
            ResponseCode::BadCookie => 23,
            ResponseCode::Unknown(n) => n,
        }
    }

    pub fn from_wire(value: u16) -> (r: ResponseCode)
        ensures
            r == ResponseCode::of(value),
    {
        match value {
            0 => ResponseCode::NoError,
            1 => ResponseCode::FormatError,
            2 => ResponseCode::ServerFailure,
            3 => ResponseCode::NameError,
            4 => ResponseCode::NotImplemented,
            5 => ResponseCode::Refused,
            16 => ResponseCode::BadVersion,
            23 => ResponseCode::BadCookie,
            n => ResponseCode::Unknown(n),
        }
    }

    pub fn wire(self) -> (r: u16)
        ensures
            r == self.code(),
    {
        match self {
            ResponseCode::NoError => 0,
            ResponseCode::FormatError => 1,
            ResponseCode::ServerFailure => 2,
            ResponseCode::NameError => 3,
            ResponseCode::NotImplemented => 4,
            ResponseCode::Refused => 5,
            ResponseCode::BadVersion => 16,
            ResponseCode::BadCookie => 23,
            ResponseCode::Unknown(n) => n,
        }
    }
}

/// A response code that fits the four bits of the header.
///
/// A reply without an OPT record has no place for the upper bits of an
/// extended code, so such replies are built from this type only.
#[derive(Debug, Clone, Copy, PartialEq, Eq, Structural)]
pub enum HeaderResponseCode {
    NoError,
    FormatError,
    ServerFailure,
    NameError,
    NotImplemented,
    Refused,
}

impl HeaderResponseCode {
    pub const FORMAT_ERROR: HeaderResponseCode = HeaderResponseCode::FormatError;

    /// The same code among those that may need an OPT record.
    pub open spec fn response(self) -> ResponseCode {
        match self {
            HeaderResponseCode::NoError => ResponseCode::NoError,
            HeaderResponseCode::FormatError => ResponseCode::FormatError,
            HeaderResponseCode::ServerFailure => ResponseCode::ServerFailure,
            HeaderResponseCode::NameError => ResponseCode::NameError,
            HeaderResponseCode::NotImplemented => ResponseCode::NotImplemented,
            HeaderResponseCode::Refused => ResponseCode::Refused,
        }
    }

    pub fn as_response(self) -> (r: ResponseCode)
        ensures
            r == self.response(),
            r.code() <= 15,
    {
        match self {
            HeaderResponseCode::NoError => ResponseCode::NoError,
            HeaderResponseCode::FormatError => ResponseCode::FormatError,
            HeaderResponseCode::ServerFailure => ResponseCode::ServerFailure,
            HeaderResponseCode::NameError => ResponseCode::NameError,
            HeaderResponseCode::NotImplemented => ResponseCode::NotImplemented,
            HeaderResponseCode::Refused => ResponseCode::Refused,
        }
    }
}

/// Question or record type; unknown values keep their numeric code for transparent relay.
#[derive(Debug, Clone, Copy, PartialEq, Eq, Structural)]
pub enum RecordType {
    A,
    Ns,
    Cname,
    Soa,
    Ptr,
    Mx,
    Txt,
    Aaaa,
    Srv,
    Opt,
    Sig,
    Tkey,
    Tsig,
    Ixfr,
    Axfr,
    Unknown(u16),
}

impl RecordType {
    /// The record type that a wire value stands for.
    pub open spec fn of(value: u16) -> RecordType {
        match value {
            1u16 => RecordType::A,
            2u16 => RecordType::Ns,
            5u16 => RecordType::Cname,
            6u16 => RecordType::Soa,
            12u16 => RecordType::Ptr,
            15u16 => RecordType::Mx,
            16u16 => RecordType::Txt,
            24u16 => RecordType::Sig,
            28u16 => RecordType::Aaaa,
            33u16 => RecordType::Srv,
            41u16 => RecordType::Opt,
            249u16 => RecordType::Tkey,
            250u16 => RecordType::Tsig,
            251u16 => RecordType::Ixfr,
            252u16 => RecordType::Axfr,
            _ => RecordType::Unknown(value),
        }
    }

    /// The wire value of a record type.
    pub open spec fn code(self) -> u16 {
        match self {
            RecordType::A => 1,
            RecordType::Ns => 2,
            RecordType::Cname => 5,
            RecordType::Soa => 6,
            RecordType::Ptr => 12,
            RecordType::Mx => 15,
            RecordType::Txt => 16,
            RecordType::Sig => 24,
            RecordType::Aaaa => 28,
            RecordType::Srv => 33,
            RecordType::Opt => 41,
            RecordType::Tkey => 249,
            RecordType::Tsig => 250,
            RecordType::Ixfr => 251,
            RecordType::Axfr => 252,
            RecordType::Unknown(n) => n,
        }
    }

    pub fn from_wire(value: u16) -> (r: RecordType)
        ensures
            r == RecordType::of(value),
    {
        match value {
            1 => RecordType::A,
            2 => RecordType::Ns,
            5 => RecordType::Cname,
            6 => RecordType::Soa,
            12 => RecordType::Ptr,
            15 => RecordType::Mx,
            16 => RecordType::Txt,
            24 => RecordType::Sig,
            28 => RecordType::Aaaa,
            33 => RecordType::Srv,
            41 => RecordType::Opt,
            249 => RecordType::Tkey,
            250 => RecordType::Tsig,
            251 => RecordType::Ixfr,
            252 => RecordType::Axfr,
            n => RecordType::Unknown(n),
        }
    }

    pub fn wire(self) -> (r: u16)
        ensures
            r == self.code(),
    {
        match self {
            RecordType::A => 1,
            RecordType::Ns => 2,
            RecordType::Cname => 5,
            RecordType::Soa => 6,
            RecordType::Ptr => 12,
            RecordType::Mx => 15,
            RecordType::Txt => 16,
            RecordType::Sig => 24,
            RecordType::Aaaa => 28,
            RecordType::Srv => 33,
            RecordType::Opt => 41,
            RecordType::Tkey => 249,
            RecordType::Tsig => 250,
            RecordType::Ixfr => 251,
            RecordType::Axfr => 252,
            RecordType::Unknown(n) => n,
        }
    }
}

/// Question or record class; OPT's CLASS field is instead interpreted as UDP capacity.
#[derive(Debug, Clone, Copy, PartialEq, Eq, Structural)]
pub enum RecordClass {
    In,
    Ch,
    Hs,
    Unknown(u16),
}

impl RecordClass {
    /// The class that a wire value stands for.
    pub open spec fn of(value: u16) -> RecordClass {
        match value {
            1u16 => RecordClass::In,
            3u16 => RecordClass::Ch,
            4u16 => RecordClass::Hs,
            _ => RecordClass::Unknown(value),
        }
    }

    /// The wire value of a class.
    pub open spec fn code(self) -> u16 {
        match self {
            RecordClass::In => 1,
            RecordClass::Ch => 3,
            RecordClass::Hs => 4,
            RecordClass::Unknown(n) => n,
        }
    }

    pub fn from_wire(value: u16) -> (r: RecordClass)
        ensures
            r == RecordClass::of(value),
    {
        match value {
            1 => RecordClass::In,
            3 => RecordClass::Ch,
            4 => RecordClass::Hs,
            n => RecordClass::Unknown(n),
        }
    }

    pub fn wire(self) -> (r: u16)
        ensures
            r == self.code(),
    {
        match self {
            RecordClass::In => 1,
            RecordClass::Ch => 3,
            RecordClass::Hs => 4,
            RecordClass::Unknown(n) => n,
        }
    }
}

/// Every response code value survives a reading and a writing, recognized or not.
pub proof fn response_code_keeps_its_value(value: u16)
    ensures
        ResponseCode::of(value).code() == value,
{
}

/// Every record type value survives a reading and a writing, recognized or not.
pub proof fn record_type_keeps_its_value(value: u16)
    ensures
        RecordType::of(value).code() == value,
{
}

/// Every class value survives a reading and a writing, recognized or not.
pub proof fn record_class_keeps_its_value(value: u16)
    ensures
        RecordClass::of(value).code() == value,
{
}

} // verus!
