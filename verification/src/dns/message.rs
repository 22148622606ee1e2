//! Parsed message metadata and the transition from a packet to a supported query.
//!
//! Fields remain private so that callers cannot make the decoded view disagree
//! with the immutable wire bytes retained for forwarding.
use crate::bytes::{self, push_word, put_word, read_word};
use crate::dns::cookie::{self, CookieField, RetryView, ServerCookieRetry};
use crate::dns::error::{ParseError, ParseFailure};
use crate::dns::name::{self, DomainName};
use crate::dns::types::{
    MessageType, Opcode, RecordClass, RecordType, ResponseCode, TransactionId,
};
use crate::dns::{identity, parser, reply, shape};
use crate::dns::{CLASSIC_UDP_LENGTH, HEADER_LENGTH, MAX_MESSAGE_LENGTH, SERVER_UDP_LENGTH};
use vstd::prelude::*;
use vstd::slice::slice_to_vec;

verus! {

pub const QR_MASK: u16 = 0x8000;

pub const OPCODE_MASK: u16 = 0x7800;

pub const TC_MASK: u16 = 0x0200;

pub const RD_MASK: u16 = 0x0100;

pub const RA_MASK: u16 = 0x0080;

pub const CD_MASK: u16 = 0x0010;

pub const RCODE_MASK: u16 = 0x000f;

pub const DO_MASK: u32 = 0x8000;

/// Header section counts, retaining wire order without exposing numeric indexes.
#[derive(Debug, Clone, Copy, PartialEq, Eq, Structural)]
pub struct SectionCounts {
    pub questions: u16,
    pub answers: u16,
    pub authorities: u16,
    pub additionals: u16,
}

/// Resource-record sections; the question section has its own wire layout.
#[derive(Debug, Clone, Copy, PartialEq, Eq, Structural)]
pub enum RecordSection {
    Answer,
    Authority,
    Additional,
}

impl SectionCounts {
    /// Visits record sections in their physical order in a DNS message.
    pub fn record_sections(self) -> (r: [(RecordSection, u16); 3])
        ensures
            r@ == seq![
                (RecordSection::Answer, self.answers),
                (RecordSection::Authority, self.authorities),
                (RecordSection::Additional, self.additionals),
            ],
    {
        [
            (RecordSection::Answer, self.answers),
            (RecordSection::Authority, self.authorities),
            (RecordSection::Additional, self.additionals),
        ]
    }
}

/// Decoded fixed header; query/response semantics are checked separately.
#[derive(Debug, Clone, Copy, PartialEq, Eq, Structural)]
pub struct Header {
    pub id: TransactionId,
    pub flags: u16,
    pub counts: SectionCounts,
}

impl Header {
    /// The header at the front of a message.
    pub open spec fn of(wire: Seq<u8>) -> Header {
        Header {
            id: TransactionId(bytes::word_at(wire, 0)),
            flags: bytes::word_at(wire, 2),
            counts: SectionCounts {
                questions: bytes::word_at(wire, 4),
                answers: bytes::word_at(wire, 6),
                authorities: bytes::word_at(wire, 8),
                additionals: bytes::word_at(wire, 10),
            },
        }
    }

    /// The wire form of a header.
    pub open spec fn form(self) -> Seq<u8> {
        bytes::word_bytes(self.id.0) + bytes::word_bytes(self.flags) + bytes::word_bytes(
            self.counts.questions,
        ) + bytes::word_bytes(self.counts.answers) + bytes::word_bytes(self.counts.authorities)
            + bytes::word_bytes(self.counts.additionals)
    }

    pub open spec fn direction(self) -> MessageType {
        if self.flags < 0x8000 {
            MessageType::Query
        } else {
            MessageType::Response
        }
    }

    pub open spec fn operation(self) -> Opcode {
        Opcode::of((self.flags / 0x800 % 16) as u8)
    }

    pub open spec fn cut(self) -> bool {
        self.flags / 0x200 % 2 == 1
    }

    /// Reads only the fixed header, even if the remaining message is malformed.
    pub fn parse(wire: &[u8]) -> (r: Result<Header, ParseError>)
        ensures
            r == (if wire@.len() < HEADER_LENGTH {
                Err(ParseError::UnexpectedEnd)
            } else {
                Ok(Header::of(wire@))
            }),
    {
        if wire.len() < HEADER_LENGTH {
            return Err(ParseError::UnexpectedEnd);
        }
        Ok(
            Header {
                id: TransactionId(read_word(wire, 0)),
                flags: read_word(wire, 2),
                counts: SectionCounts {
                    questions: read_word(wire, 4),
                    answers: read_word(wire, 6),
                    authorities: read_word(wire, 8),
                    additionals: read_word(wire, 10),
                },
            },
        )
    }

    pub fn message_type(self) -> (r: MessageType)
        ensures
            r == self.direction(),
    {
        let flags: u16 = self.flags;
        assert((flags & QR_MASK == 0) == (flags < 0x8000)) by (bit_vector);
        if flags & QR_MASK == 0 {
            MessageType::Query
        } else {
            MessageType::Response
        }
    }

    pub fn opcode(self) -> (r: Opcode)
        ensures
            r == self.operation(),
    {
        let flags: u16 = self.flags;
        assert((flags & OPCODE_MASK) >> 11 == flags / 0x800 % 16) by (bit_vector);
        Opcode::from_wire(((flags & OPCODE_MASK) >> 11) as u8)
    }

    pub fn truncated(self) -> (r: bool)
        ensures
            r == self.cut(),
    {
        let flags: u16 = self.flags;
        assert((flags & TC_MASK != 0) == (flags / 0x200 % 2 == 1)) by (bit_vector);
        flags & TC_MASK != 0
    }

    pub fn encode(self, wire: &mut Vec<u8>)
        ensures
            final(wire)@ == old(wire)@ + self.form(),
    {
        push_word(wire, self.id.0);
        push_word(wire, self.flags);
        push_word(wire, self.counts.questions);
        push_word(wire, self.counts.answers);
        push_word(wire, self.counts.authorities);
        push_word(wire, self.counts.additionals);
        assert(wire@ =~= old(wire)@ + self.form());
    }
}

/// What a question asks: a name, a record type and a class.
pub struct QuestionView {
    pub name: Seq<Seq<u8>>,
    pub kind: RecordType,
    pub class: RecordClass,
}

impl QuestionView {
    /// The wire form of a question, with its name uncompressed.
    pub open spec fn form(self) -> Seq<u8> {
        name::encoded(self.name) + bytes::word_bytes(self.kind.code()) + bytes::word_bytes(
            self.class.code(),
        )
    }

    /// Whether two questions ask the same: name up to ASCII case, type and class.
    pub open spec fn same(self, other: QuestionView) -> bool {
        &&& name::same_name(self.name, other.name)
        &&& self.kind == other.kind
        &&& self.class == other.class
    }
}

/// Query identity: case-insensitive name, record type and class all participate.
#[derive(Debug)]
pub struct Question {
    pub name: DomainName,
    pub kind: RecordType,
    pub class: RecordClass,
}

impl View for Question {
    type V = QuestionView;

    open spec fn view(&self) -> QuestionView {
        QuestionView { name: self.name@, kind: self.kind, class: self.class }
    }
}

impl Question {
    pub fn encode(&self, out: &mut Vec<u8>)
        ensures
            final(out)@ == old(out)@ + self@.form(),
    {
        self.name.encode(out);
        push_word(out, self.kind.wire());
        push_word(out, self.class.wire());
        assert(out@ =~= old(out)@ + self@.form());
    }
}

impl Clone for Question {
    fn clone(&self) -> (r: Self)
        ensures
            r@ == self@,
    {
        Question { name: self.name.clone(), kind: self.kind, class: self.class }
    }
}

impl PartialEq for Question {
    fn eq(&self, other: &Self) -> (r: bool) {
        self.name == other.name && self.kind == other.kind && self.class == other.class
    }
}

impl vstd::std_specs::cmp::PartialEqSpecImpl for Question {
    open spec fn obeys_eq_spec() -> bool {
        true
    }

    open spec fn eq_spec(&self, other: &Self) -> bool {
        self@.same(other@)
    }
}

impl Eq for Question {

}

/// The questions of a list.
pub open spec fn question_views(questions: Seq<Question>) -> Seq<QuestionView> {
    questions.map_values(|question: Question| question@)
}

/// OPT metadata needed for version checks, reply sizing and generated replies.
///
/// Unknown options stay in the packet's original bytes rather than this view.
#[derive(Debug, Clone, Copy, PartialEq, Eq, Structural)]
pub struct Edns {
    pub udp_size: u16,
    pub version: u8,
    pub extended_rcode: u8,
    pub dnssec_ok: bool,
}

/// Whether two lists ask the same questions in the same order.
pub open spec fn same_questions(a: Seq<QuestionView>, b: Seq<QuestionView>) -> bool {
    &&& a.len() == b.len()
    &&& forall|i: int| 0 <= i < a.len() ==> (#[trigger] a[i]).same(b[i])
}

/// What a structurally valid message says, beside its original bytes.
pub struct Message {
    pub wire: Seq<u8>,
    pub header: Header,
    pub questions: Seq<QuestionView>,
    pub edns: Option<Edns>,
    pub authenticated: bool,
    pub cookie: Option<CookieField>,
}

/// What is to be done with a packet that arrived from a client.
pub enum Decision {
    Forward,
    Reject(ResponseCode),
    Ignore,
}

impl Message {
    /// The header's low four bits below an optional EDNS extended code.
    pub open spec fn code(self) -> ResponseCode {
        let extended: int = match self.edns {
            Some(opt) => opt.extended_rcode as int,
            None => 0,
        };
        ResponseCode::of((extended * 16 + self.header.flags % 16) as u16)
    }

    /// How much a client takes over UDP, between the classic size and the local
    /// ceiling.
    pub open spec fn limit(self) -> usize {
        match self.edns {
            None => CLASSIC_UDP_LENGTH,
            Some(opt) => if opt.udp_size < CLASSIC_UDP_LENGTH {
                CLASSIC_UDP_LENGTH
            } else if opt.udp_size > SERVER_UDP_LENGTH {
                SERVER_UDP_LENGTH
            } else {
                opt.udp_size as usize
            },
        }
    }

    /// Whether the question is one that a forwarder passes on.
    pub open spec fn relayable(kind: RecordType) -> bool {
        !(kind == RecordType::Axfr || kind == RecordType::Ixfr || kind == RecordType::Tkey || kind
            == RecordType::Tsig || kind == RecordType::Opt)
    }

    /// Whether a query has one question, no TC, no response code and no answers.
    pub open spec fn plain_query(self) -> bool {
        &&& self.questions.len() == 1
        &&& !self.header.cut()
        &&& self.code() == ResponseCode::NoError
        &&& self.header.counts.answers == 0
        &&& self.header.counts.authorities == 0
        &&& self.cookie != Some(CookieField::Malformed)
    }

    pub open spec fn decision(self) -> Decision {
        if self.header.direction() != MessageType::Query {
            Decision::Ignore
        } else if self.header.operation() != Opcode::Query {
            Decision::Reject(ResponseCode::NotImplemented)
        } else if !self.plain_query() {
            Decision::Reject(ResponseCode::FormatError)
        } else if self.edns is Some && self.edns->0.version != 0 {
            Decision::Reject(ResponseCode::BadVersion)
        } else if self.authenticated || !Message::relayable(self.questions[0].kind) {
            Decision::Reject(ResponseCode::Refused)
        } else {
            Decision::Forward
        }
    }

    /// Whether this is a response to `query` under an identifier.
    pub open spec fn answers(self, query: Message, expected: TransactionId) -> bool {
        &&& self.header.direction() == MessageType::Response
        &&& self.header.id == expected
        &&& self.header.operation() == query.header.operation()
        &&& same_questions(self.questions, query.questions)
        &&& self.edns is Some ==> self.edns->0.version == 0 && query.edns is Some
        &&& !self.authenticated
    }

    /// The same message under another identifier.
    pub open spec fn renamed(self, id: TransactionId) -> Message {
        Message {
            wire: bytes::with_word(self.wire, 0, id.0),
            header: Header { id, ..self.header },
            ..self
        }
    }
}

/// Owns immutable original wire bytes and the decoded fields needed by policy.
/// Resource data is validated within the parser; it is never interpreted by routing.
#[derive(Debug)]
pub struct Packet {
    wire: Vec<u8>,
    header: Header,
    questions: Vec<Question>,
    edns: Option<Edns>,
    authenticated: bool,
    cookie: Option<CookieField>,
}

impl View for Packet {
    type V = Message;

    closed spec fn view(&self) -> Message {
        Message {
            wire: self.wire@,
            header: self.header,
            questions: question_views(self.questions@),
            edns: self.edns,
            authenticated: self.authenticated,
            cookie: self.cookie,
        }
    }
}

impl Packet {
    /// The decoded fields are those of the bytes.
    #[verifier::type_invariant]
    spec fn well_formed(self) -> bool {
        parser::parsed(self@.wire) == Ok::<Message, ParseError>(self@)
    }

    /// Keeps the fields that the parser read beside a copy of the bytes.
    pub(crate) fn of_parts(
        wire: &[u8],
        header: Header,
        questions: Vec<Question>,
        edns: Option<Edns>,
        authenticated: bool,
        cookie: Option<CookieField>,
    ) -> (r: Packet)
        requires
            parser::parsed(wire@) == Ok::<Message, ParseError>(
                (Message {
                    wire: wire@,
                    header,
                    questions: question_views(questions@),
                    edns,
                    authenticated,
                    cookie,
                }),
            ),
        ensures
            r@ == (Message {
                wire: wire@,
                header,
                questions: question_views(questions@),
                edns,
                authenticated,
                cookie,
            }),
    {
        let wire: Vec<u8> = slice_to_vec(wire);
        Packet { wire, header, questions, edns, authenticated, cookie }
    }
}

impl Packet {
    /// Validates a complete message and retains an owned copy of its original bytes.
    ///
    /// Successful parsing does not imply that query policy or response
    /// correlation has passed.
    pub fn parse(wire: &[u8]) -> (r: Result<Packet, ParseError>)
        ensures
            match parser::parsed(wire@) {
                Ok(message) => r is Ok && r->Ok_0@ == message,
                Err(error) => r is Err && r->Err_0 == error,
            },
    {
        match Packet::parse_for_reply(wire) {
            Ok(packet) => Ok(packet),
            Err(failure) => Err(failure.error),
        }
    }

    /// Validates like `parse`; a failure keeps what an error reply may use.
    pub fn parse_for_reply(wire: &[u8]) -> (r: Result<Packet, ParseFailure>)
        ensures
            match parser::parsed(wire@) {
                Ok(message) => r is Ok && r->Ok_0@ == message,
                Err(error) => {
                    &&& r is Err
                    &&& r->Err_0.error == error
                    &&& reply::context_view(r->Err_0.context) == parser::reply_context(wire@)
                },
            },
    {
        parser::parse(wire)
    }

    pub fn wire(&self) -> (r: &[u8])
        ensures
            r@ == self@.wire,
            parser::parsed(r@) == Ok::<Message, ParseError>(self@),
    {
        proof {
            use_type_invariant(self);
        }
        self.wire.as_slice()
    }

    pub fn header(&self) -> (r: Header)
        ensures
            r == self@.header,
    {
        self.header
    }

    pub fn questions(&self) -> (r: &[Question])
        ensures
            question_views(r@) == self@.questions,
    {
        self.questions.as_slice()
    }

    pub fn edns(&self) -> (r: Option<Edns>)
        ensures
            r == self@.edns,
    {
        self.edns
    }

    pub fn cookie(&self) -> (r: Option<CookieField>)
        ensures
            r == self@.cookie,
    {
        self.cookie
    }

    pub fn is_truncated(&self) -> (r: bool)
        ensures
            r == self@.header.cut(),
    {
        self.header.truncated()
    }

    /// Copies the original message and rewrites only its two-byte transaction ID.
    ///
    /// Re-encoding records could invalidate compression pointers or alter opaque
    /// extensions, so all bytes after the ID remain at their original offsets.
    pub fn with_id(&self, id: TransactionId) -> (r: Vec<u8>)
        ensures
            r@ == self@.renamed(id).wire,
    {
        proof {
            use_type_invariant(self);
            shape::parsed_message_shape(self@.wire);
        }
        let mut wire: Vec<u8> = slice_to_vec(self.wire.as_slice());
        put_word(&mut wire, 0, id.0);
        wire
    }

    /// Combines the header's low four bits with an optional EDNS extended code.
    pub fn response_code(&self) -> (r: ResponseCode)
        ensures
            r == self@.code(),
    {
        let extended: u8 = match self.edns {
            Some(opt) => opt.extended_rcode,
            None => 0,
        };
        let flags: u16 = self.header.flags;
        assert(((extended as u16) << 4) | (flags & RCODE_MASK) == extended as u16 * 16 + flags
            % 16) by (bit_vector);
        ResponseCode::from_wire(((extended as u16) << 4) | (flags & RCODE_MASK))
    }

    /// Applies the classic lower bound and local EDNS ceiling to client capacity.
    pub fn udp_limit(&self) -> (r: usize)
        ensures
            r == self@.limit(),
            CLASSIC_UDP_LENGTH <= r <= SERVER_UDP_LENGTH,
    {
        match self.edns {
            None => CLASSIC_UDP_LENGTH,
            Some(opt) => {
                let size: usize = opt.udp_size as usize;
                if size < CLASSIC_UDP_LENGTH {
                    CLASSIC_UDP_LENGTH
                } else if size > SERVER_UDP_LENGTH {
                    SERVER_UDP_LENGTH
                } else {
                    size
                }
            },
        }
    }

    /// Classifies a parsed packet as forwardable, rejectable, or silent.
    ///
    /// `QueryDecision::Ignore` is a response, or any other input that must not
    /// produce a reply. Replying to it would reflect unsolicited traffic.
    /// `QueryDecision::Reject` carries the DNS code for a malformed or
    /// unsupported query. Only `QueryDecision::Forward` can reach an upstream.
    pub fn validate_query(&self) -> (r: QueryDecision<'_>)
        ensures
            match self@.decision() {
                Decision::Forward => r is Forward && r->Forward_0@ == self@,
                Decision::Reject(code) => r is Reject && r->Reject_0 == code,
                Decision::Ignore => r is Ignore,
            },
    {
        if self.header.message_type() != MessageType::Query {
            return QueryDecision::Ignore;
        }
        if self.header.opcode() != Opcode::Query {
            return QueryDecision::Reject(ResponseCode::NotImplemented);
        }
        if self.questions.len() != 1 || self.header.truncated() || self.response_code()
            != ResponseCode::NoError || self.header.counts.answers != 0
            || self.header.counts.authorities != 0 {
            return QueryDecision::Reject(ResponseCode::FormatError);
        }
        if let Some(CookieField::Malformed) = self.cookie {
            return QueryDecision::Reject(ResponseCode::FormatError);
        }
        if let Some(opt) = self.edns {
            if opt.version != 0 {
                return QueryDecision::Reject(ResponseCode::BadVersion);
            }
        }
        let relayable = match self.questions[0].kind {
            RecordType::Axfr => false,
            RecordType::Ixfr => false,
            RecordType::Tkey => false,
            RecordType::Tsig => false,
            RecordType::Opt => false,
            _ => true,
        };
        assert(self@.questions[0].kind == self.questions[0].kind);
        if self.authenticated || !relayable {
            return QueryDecision::Reject(ResponseCode::Refused);
        }
        QueryDecision::Forward(Query { packet: self })
    }

    /// Checks response identity and supported metadata against one upstream attempt.
    ///
    /// The expected ID is the rewritten upstream ID. Source-endpoint filtering
    /// belongs to the connected socket. TC is checked separately by the transport
    /// policy because UDP truncation may authorize a TCP retry.
    pub fn corresponds_to(&self, query: &Query<'_>, expected: TransactionId) -> (r: bool)
        ensures
            r == self@.answers(query@, expected),
    {
        let query = query.packet;
        let edns_ok = match self.edns {
            Some(opt) => opt.version == 0 && query.edns.is_some(),
            None => true,
        };
        self.header.message_type() == MessageType::Response && self.header.id == expected
            && self.header.opcode() == query.header.opcode() && equal_questions(
            &self.questions,
            &query.questions,
        ) && edns_ok && !self.authenticated
    }
}

/// Whether two lists ask the same questions in the same order.
fn equal_questions(a: &Vec<Question>, b: &Vec<Question>) -> (r: bool)
    ensures
        r == same_questions(question_views(a@), question_views(b@)),
{
    if a.len() != b.len() {
        return false;
    }
    let mut i: usize = 0;
    while i < a.len()
        invariant
            i <= a@.len(),
            a@.len() == b@.len(),
            forall|k: int|
                0 <= k < i ==> (#[trigger] question_views(a@)[k]).same(question_views(b@)[k]),
        decreases a@.len() - i,
    {
        if a[i] != b[i] {
            assert(!question_views(a@)[i as int].same(question_views(b@)[i as int]));
            return false;
        }
        i += 1;
    }
    true
}

impl Clone for Packet {
    fn clone(&self) -> (r: Self)
        ensures
            r@ == self@,
    {
        proof {
            use_type_invariant(self);
        }
        let mut questions: Vec<Question> = Vec::new();
        let mut i: usize = 0;
        while i < self.questions.len()
            invariant
                i <= self.questions@.len(),
                question_views(questions@) == self@.questions.take(i as int),
            decreases self.questions@.len() - i,
        {
            let ghost before = question_views(questions@);
            let question = self.questions[i].clone();
            let ghost asked = question@;
            questions.push(question);
            assert(question_views(questions@) =~= before.push(asked));
            assert(question_views(questions@) =~= self@.questions.take(i + 1));
            i += 1;
        }
        assert(question_views(questions@) =~= self@.questions);
        Packet::of_parts(
            self.wire.as_slice(),
            self.header,
            questions,
            self.edns,
            self.authenticated,
            self.cookie,
        )
    }
}

/// Outcome of `Packet::validate_query`.
///
/// The variants separate "send this upstream", "answer with this code", and
/// "do not answer". A bare `ResponseCode` cannot express the last one.
#[derive(Debug)]
pub enum QueryDecision<'a> {
    Forward(Query<'a>),
    Reject(ResponseCode),
    Ignore,
}

/// A supported single-question query borrowed from an immutable parsed packet.
/// Only `QueryDecision::Forward` constructs this view, so forwarding cannot
/// skip validation.
#[derive(Debug)]
pub struct Query<'a> {
    packet: &'a Packet,
}

impl<'a> View for Query<'a> {
    type V = Message;

    closed spec fn view(&self) -> Message {
        self.packet@
    }
}

impl<'a> Query<'a> {
    #[verifier::type_invariant]
    spec fn well_formed(self) -> bool {
        self.packet@.decision() is Forward
    }

    /// Only a forwardable packet is ever seen as a query.
    pub fn name(&self) -> (r: &DomainName)
        ensures
            self@.decision() is Forward,
            r@ == self@.questions[0].name,
    {
        proof {
            use_type_invariant(self);
        }
        assert(self@.questions[0].name == self.packet.questions[0].name@);
        &self.packet.questions[0].name
    }

    /// Returns the original client ID to restore after the upstream exchange.
    pub fn id(&self) -> (r: TransactionId)
        ensures
            r == self@.header.id,
    {
        self.packet.header.id
    }

    pub fn with_id(&self, id: TransactionId) -> (r: Vec<u8>)
        ensures
            r@ == self@.renamed(id).wire,
    {
        self.packet.with_id(id)
    }

    pub fn udp_limit(&self) -> (r: usize)
        ensures
            r == self@.limit(),
            CLASSIC_UDP_LENGTH <= r <= SERVER_UDP_LENGTH,
    {
        self.packet.udp_limit()
    }

    /// The bytes that go upstream under `id`, with their metadata.
    pub fn sent(&self, id: TransactionId) -> (r: SentQuery)
        ensures
            r@ == (SentView { message: self@.renamed(id), cookie_required: false }),
            r@.message.decision() is Forward,
    {
        proof {
            use_type_invariant(self);
            use_type_invariant(self.packet);
            shape::parsed_message_shape(self@.wire);
            identity::rewritten_id_changes_nothing_else(self@.wire, id.0);
        }
        let copy = self.packet.clone();
        let wire: Vec<u8> = self.with_id(id);
        let header = Header { id, flags: copy.header.flags, counts: copy.header.counts };
        let packet = Packet::of_parts(
            wire.as_slice(),
            header,
            copy.questions,
            copy.edns,
            copy.authenticated,
            copy.cookie,
        );
        SentQuery { packet, cookie_required: false }
    }
}

/// An outgoing query, and whether its response must carry a cookie.
pub struct SentView {
    pub message: Message,
    pub cookie_required: bool,
}

impl SentView {
    /// Whether a message is a complete response to this query.
    pub open spec fn accepts(self, response: Message) -> bool {
        &&& self.message.decision() is Forward
        &&& !response.header.cut()
        &&& response.answers(self.message, self.message.header.id)
        &&& cookie::cookie_proved(self.message, response, self.cookie_required)
    }
}

/// The exact outgoing bytes and their metadata travel together, including retries.
#[derive(Debug)]
pub struct SentQuery {
    packet: Packet,
    cookie_required: bool,
}

impl View for SentQuery {
    type V = SentView;

    closed spec fn view(&self) -> SentView {
        SentView { message: self.packet@, cookie_required: self.cookie_required }
    }
}

impl SentQuery {
    pub fn wire(&self) -> (r: &[u8])
        ensures
            r@ == self@.message.wire,
            HEADER_LENGTH <= r@.len() <= MAX_MESSAGE_LENGTH,
    {
        let wire = self.packet.wire();
        proof {
            shape::parsed_message_shape(wire@);
        }
        wire
    }

    /// Whether a datagram is a truncated response that authorizes a TCP retry.
    pub fn matches_truncated(&self, wire: &[u8]) -> (r: bool)
        ensures
            r == parser::truncation_of(self@.message, wire@, self@.message.header.id),
    {
        parser::matches_truncated(&self.packet, wire, self.packet.header.id)
    }

    /// Accepts a complete response that belongs to this query.
    pub fn validate_response(&self, response: Packet) -> (r: Option<Response>)
        ensures
            match r {
                Some(accepted) => self@.accepts(response@) && accepted@ == response@,
                None => !self@.accepts(response@),
            },
    {
        let query = match self.packet.validate_query() {
            QueryDecision::Forward(query) => query,
            _ => {
                return None;
            },
        };
        if response.is_truncated() || !response.corresponds_to(&query, self.packet.header.id)
            || !cookie::valid_response(&self.packet, &response, self.cookie_required) {
            return None;
        }
        Some(Response { packet: response })
    }

    /// How a BADCOOKIE response to this query is to be handled.
    pub fn server_cookie_retry(&self, response: &Response) -> (r: ServerCookieRetry)
        ensures
            r@ == cookie::retry_of(self@.message, self@.message.wire, response@),
            r@ matches RetryView::Rewrite(wire) ==> wire.len() >= HEADER_LENGTH,
    {
        proof {
            use_type_invariant(&self.packet);
            shape::parsed_message_shape(self@.message.wire);
            cookie::retry_keeps_a_header(self@.message, response@);
        }
        cookie::retry(&self.packet, self.packet.wire(), &response.packet)
    }

    /// A retry requires COOKIE after this endpoint has demonstrated support.
    /// Reparse modified bytes here; old offsets cannot accompany the new wire.
    pub fn retry(&self, wire: Vec<u8>, id: TransactionId) -> (r: Result<SentQuery, ParseError>)
        requires
            wire@.len() >= 2,
        ensures
            match parser::parsed(bytes::with_word(wire@, 0, id.0)) {
                Ok(message) => r is Ok && r->Ok_0@ == (SentView { message, cookie_required: true }),
                Err(error) => r is Err && r->Err_0 == error,
            },
    {
        let mut wire: Vec<u8> = wire;
        put_word(&mut wire, 0, id.0);
        let packet = Packet::parse(wire.as_slice())?;
        Ok(SentQuery { packet, cookie_required: true })
    }
}

impl<'a> Query<'a> {
    /// How a BADCOOKIE response to `sent`, which came from this query, is to be
    /// handled.
    pub fn server_cookie_retry(&self, sent: &[u8], response: &Packet) -> (r: ServerCookieRetry)
        ensures
            r@ == cookie::retry_of(self@, sent@, response@),
    {
        cookie::retry(self.packet, sent, response)
    }

    /// The packet behind this query.
    pub(crate) fn packet(&self) -> (r: &Packet)
        ensures
            r@ == self@,
    {
        self.packet
    }
}

/// A complete response correlated to the actual outgoing query, including COOKIE.
#[derive(Debug)]
pub struct Response {
    packet: Packet,
}

impl View for Response {
    type V = Message;

    closed spec fn view(&self) -> Message {
        self.packet@
    }
}

impl Response {
    pub fn wire(&self) -> (r: &[u8])
        ensures
            r@ == self@.wire,
    {
        self.packet.wire()
    }

    pub fn response_code(&self) -> (r: ResponseCode)
        ensures
            r == self@.code(),
    {
        self.packet.response_code()
    }

    pub fn with_id(&self, id: TransactionId) -> (r: Vec<u8>)
        ensures
            r@ == self@.renamed(id).wire,
    {
        self.packet.with_id(id)
    }

    /// The packet behind this response.
    pub(crate) fn packet(&self) -> (r: &Packet)
        ensures
            r@ == self@,
    {
        &self.packet
    }
}

} // verus!
