//! Structural validation of untrusted DNS messages without network or policy I/O.
//!
//! Resource records are visited in place and only routing/reply metadata is kept.
//! Known RDATA layouts are checked; unknown types retain their declared byte range.
use crate::bytes::{self, read_double_word, read_word};
use crate::dns::cookie::{self, locate, CookieField};
use crate::dns::error::{ParseError, ParseFailure};
use crate::dns::message::{
    self, Edns, Header, Message, Packet, Question, QuestionView, RecordSection, SectionCounts,
    DO_MASK,
};
use crate::dns::name::{self, DomainName};
use crate::dns::reply::{self, ContextView, ReplyContext};
use crate::dns::types::{MessageType, Opcode, RecordClass, RecordType, TransactionId};
use crate::dns::{HEADER_LENGTH, MAX_MESSAGE_LENGTH};
use vstd::prelude::*;
use vstd::slice::slice_subrange;

verus! {

pub const QUESTION_FIXED_LENGTH: usize = 4;

pub const RECORD_FIXED_LENGTH: usize = 10;

/// The position behind `count` octets that the message must hold.
pub open spec fn skip(wire: Seq<u8>, at: int, count: int) -> Result<int, ParseError> {
    if at + count <= wire.len() {
        Ok(at + count)
    } else {
        Err(ParseError::UnexpectedEnd)
    }
}

/// The position behind a name.
pub open spec fn skip_name(wire: Seq<u8>, at: int) -> Result<int, ParseError> {
    match name::name_at(wire, at) {
        Ok((_, end)) => Ok(end),
        Err(error) => Err(error),
    }
}

/// The question at a position, and the position behind it.
pub open spec fn question_at(wire: Seq<u8>, at: int) -> Result<(QuestionView, int), ParseError> {
    match name::name_at(wire, at) {
        Ok((labels, end)) => if end + 4 > wire.len() {
            Err(ParseError::UnexpectedEnd)
        } else {
            Ok(
                (
                    QuestionView {
                        name: labels,
                        kind: RecordType::of(bytes::word_at(wire, end)),
                        class: RecordClass::of(bytes::word_at(wire, end + 2)),
                    },
                    end + 4,
                ),
            )
        },
        Err(error) => Err(error),
    }
}

/// A run of questions, and the position behind it.
pub open spec fn questions_at(wire: Seq<u8>, at: int, count: nat) -> Result<
    (Seq<QuestionView>, int),
    ParseError,
>
    decreases count,
{
    if count == 0 {
        Ok((Seq::empty(), at))
    } else {
        match questions_at(wire, at, (count - 1) as nat) {
            Ok((questions, end)) => match question_at(wire, end) {
                Ok((question, after)) => Ok((questions.push(question), after)),
                Err(error) => Err(error),
            },
            Err(error) => Err(error),
        }
    }
}

/// CLASS on an ordinary record, or the UDP payload size on OPT.
#[derive(Debug, Clone, Copy, PartialEq, Eq, Structural)]
pub enum ClassField {
    Dns(RecordClass),
    UdpPayload(u16),
}

/// A record envelope and where its data stands.
pub struct RecordView {
    pub owner: Seq<Seq<u8>>,
    pub kind: RecordType,
    pub class: ClassField,
    pub ttl: u32,
    pub start: int,
    pub length: int,
}

/// The record envelope at a position.
///
/// OPT stores the UDP payload size in the CLASS slot. Treating that number as a
/// class would make a size of 1 look like IN.
pub open spec fn record_at(wire: Seq<u8>, at: int) -> Result<RecordView, ParseError> {
    match name::name_at(wire, at) {
        Ok((owner, end)) => if end + 10 > wire.len() {
            Err(ParseError::UnexpectedEnd)
        } else {
            let kind = RecordType::of(bytes::word_at(wire, end));
            let class = bytes::word_at(wire, end + 2);
            Ok(
                RecordView {
                    owner,
                    kind,
                    class: if kind == RecordType::Opt {
                        ClassField::UdpPayload(class)
                    } else {
                        ClassField::Dns(RecordClass::of(class))
                    },
                    ttl: bytes::double_word_at(wire, end + 4),
                    start: end + 10,
                    length: bytes::word_at(wire, end + 8) as int,
                },
            )
        },
        Err(error) => Err(error),
    }
}

/// Whether octets from `at` on are whole EDNS options, whatever their codes.
pub open spec fn options_framed(octets: Seq<u8>, at: int) -> bool
    decreases octets.len() - at,
{
    if at >= octets.len() {
        true
    } else {
        let next = at + 4 + bytes::word_at(octets, at + 2);
        at + 4 <= octets.len() && next <= octets.len() && options_framed(octets, next)
    }
}

/// The position behind the character strings that start before `end`.
pub open spec fn skip_strings(wire: Seq<u8>, at: int, end: int) -> Result<int, ParseError>
    decreases
            if at < end {
                end - at
            } else {
                0
            },
{
    if at >= end {
        Ok(at)
    } else if at + 1 > wire.len() || at + 1 + wire[at] > wire.len() {
        Err(ParseError::UnexpectedEnd)
    } else {
        skip_strings(wire, at + 1 + wire[at], end)
    }
}

/// Where the layout of a record type ends, read from the record's data on.
///
/// Names keep full-message offsets, so a layout may read beyond the record.
pub open spec fn layout_end(
    wire: Seq<u8>,
    kind: RecordType,
    class: RecordClass,
    start: int,
    end: int,
) -> Result<int, ParseError> {
    if kind == RecordType::A && class == RecordClass::In {
        skip(wire, start, 4)
    } else if kind == RecordType::Aaaa && class == RecordClass::In {
        skip(wire, start, 16)
    } else if kind == RecordType::Ns || kind == RecordType::Cname || kind == RecordType::Ptr {
        skip_name(wire, start)
    } else if kind == RecordType::Mx {
        match skip(wire, start, 2) {
            Ok(at) => skip_name(wire, at),
            Err(error) => Err(error),
        }
    } else if kind == RecordType::Soa {
        match skip_name(wire, start) {
            Ok(middle) => match skip_name(wire, middle) {
                Ok(at) => skip(wire, at, 20),
                Err(error) => Err(error),
            },
            Err(error) => Err(error),
        }
    } else if kind == RecordType::Srv {
        match skip(wire, start, 6) {
            Ok(at) => skip_name(wire, at),
            Err(error) => Err(error),
        }
    } else if kind == RecordType::Txt {
        if start == end {
            Err(ParseError::InvalidRecord)
        } else {
            skip_strings(wire, start, end)
        }
    } else {
        Ok(end)
    }
}

/// Whether the data of a record is what its type asks for, to the octet.
pub open spec fn data_checked(wire: Seq<u8>, record: RecordView) -> Result<(), ParseError> {
    let end = record.start + record.length;
    match record.class {
        ClassField::UdpPayload(_) => Err(ParseError::InvalidRecord),
        ClassField::Dns(class) => match layout_end(wire, record.kind, class, record.start, end) {
            Ok(at) => if at == end {
                Ok(())
            } else {
                Err(ParseError::InvalidRecord)
            },
            Err(error) => Err(error),
        },
    }
}

/// OPT reuses TTL for extended RCODE, version and flags.
pub open spec fn edns_of(udp_size: u16, ttl: u32) -> Edns {
    Edns {
        udp_size,
        version: (ttl / 65536 % 256) as u8,
        extended_rcode: (ttl / 16777216) as u8,
        dnssec_ok: ttl / 0x8000 % 2 == 1,
    }
}

/// Whether a record in a section marks a message as signed.
pub open spec fn signs(section: RecordSection, kind: RecordType) -> bool {
    ||| kind == RecordType::Tsig
    ||| kind == RecordType::Tkey
    ||| section == RecordSection::Additional && kind == RecordType::Sig
}

/// What the records up to a position have told, and the error that stopped them.
pub struct ScanView {
    pub cursor: int,
    pub edns: Option<Edns>,
    pub cookie: Option<CookieField>,
    pub authenticated: bool,
    pub error: Option<ParseError>,
}

impl ScanView {
    pub open spec fn failed(self, error: ParseError) -> ScanView {
        ScanView { error: Some(error), ..self }
    }
}

/// One record further.
pub open spec fn scan_record(wire: Seq<u8>, section: RecordSection, scan: ScanView) -> ScanView {
    match record_at(wire, scan.cursor) {
        Err(error) => scan.failed(error),
        Ok(record) => {
            let end = record.start + record.length;
            match record.class {
                ClassField::UdpPayload(udp_size) => {
                    let known = ScanView { edns: Some(edns_of(udp_size, record.ttl)), ..scan };
                    if section != RecordSection::Additional || scan.edns is Some
                        || record.owner.len() != 0 {
                        scan.failed(ParseError::InvalidEdns)
                    } else if end > wire.len() || !options_framed(
                        wire.subrange(record.start, end),
                        0,
                    ) {
                        known.failed(ParseError::InvalidEdns)
                    } else {
                        ScanView {
                            cursor: end,
                            cookie: cookie::cookie_in(wire, record.start, record.start, end),
                            ..known
                        }
                    }
                },
                ClassField::Dns(_) => if end > wire.len() {
                    scan.failed(ParseError::UnexpectedEnd)
                } else {
                    match data_checked(wire, record) {
                        Err(error) => scan.failed(error),
                        Ok(_) => ScanView {
                            cursor: end,
                            authenticated: scan.authenticated || signs(section, record.kind),
                            ..scan
                        },
                    }
                },
            }
        },
    }
}

/// `count` records of a section further, or up to the first error.
pub open spec fn scan_section(
    wire: Seq<u8>,
    section: RecordSection,
    count: nat,
    scan: ScanView,
) -> ScanView
    decreases count,
{
    if count == 0 || scan.error is Some {
        scan
    } else {
        scan_section(wire, section, (count - 1) as nat, scan_record(wire, section, scan))
    }
}

/// All records of a message whose first record starts at `at`.
pub open spec fn scan_records(wire: Seq<u8>, counts: SectionCounts, at: int) -> ScanView {
    let none = ScanView {
        cursor: at,
        edns: None,
        cookie: None,
        authenticated: false,
        error: None,
    };
    let answers = scan_section(wire, RecordSection::Answer, counts.answers as nat, none);
    let authorities = scan_section(
        wire,
        RecordSection::Authority,
        counts.authorities as nat,
        answers,
    );
    scan_section(wire, RecordSection::Additional, counts.additionals as nat, authorities)
}

/// Whether counted questions and records can fit, even with root names.
pub open spec fn counts_fit(counts: SectionCounts, length: int) -> bool {
    counts.questions * 5 + (counts.answers + counts.authorities + counts.additionals) * 11
        <= length - 12
}

/// The questions of a message whose size and counts are acceptable.
pub open spec fn parsed_questions(wire: Seq<u8>) -> Result<(Seq<QuestionView>, int), ParseError> {
    let header = Header::of(wire);
    if wire.len() > MAX_MESSAGE_LENGTH {
        Err(ParseError::OversizedMessage)
    } else if wire.len() < HEADER_LENGTH {
        Err(ParseError::UnexpectedEnd)
    } else if header.counts.questions > 1 && header.operation() == Opcode::Query {
        Err(ParseError::InvalidCount)
    } else if !counts_fit(header.counts, wire.len() as int) {
        Err(ParseError::InvalidCount)
    } else {
        questions_at(wire, 12, header.counts.questions as nat)
    }
}

/// What a message says, or why it is not a message.
pub open spec fn parsed(wire: Seq<u8>) -> Result<Message, ParseError> {
    let header = Header::of(wire);
    match parsed_questions(wire) {
        Err(error) => Err(error),
        Ok((questions, at)) => {
            let scan = scan_records(wire, header.counts, at);
            match scan.error {
                Some(error) => Err(error),
                None => if scan.cursor != wire.len() {
                    Err(ParseError::TrailingData)
                } else {
                    Ok(
                        Message {
                            wire,
                            header,
                            questions,
                            edns: scan.edns,
                            authenticated: scan.authenticated,
                            cookie: scan.cookie,
                        },
                    )
                },
            }
        },
    }
}

/// The metadata collected for a reply when reading stops, from `before` on.
pub open spec fn collected(wire: Seq<u8>, before: Option<ContextView>) -> Option<ContextView> {
    let header = Header::of(wire);
    if wire.len() > MAX_MESSAGE_LENGTH || wire.len() < HEADER_LENGTH {
        before
    } else {
        let opened = if header.direction() == MessageType::Query {
            Some(ContextView { header, question: None, edns: None })
        } else {
            before
        };
        match (opened, parsed_questions(wire)) {
            (Some(context), Ok((questions, at))) => {
                let edns = scan_records(wire, header.counts, at).edns;
                Some(
                    ContextView {
                        header: context.header,
                        question: if questions.len() > 0 {
                            Some(questions[0])
                        } else {
                            None
                        },
                        edns: if edns is Some {
                            edns
                        } else {
                            context.edns
                        },
                    },
                )
            },
            _ => opened,
        }
    }
}

/// What a reply to a message that does not parse may use.
///
/// Only a query is answered. Its question and OPT are used only where OPT
/// itself was at fault; any other fault leaves the header alone.
pub open spec fn reply_context(wire: Seq<u8>) -> Option<ContextView> {
    match collected(wire, None) {
        Some(context) => if parsed(wire) == Err::<Message, ParseError>(ParseError::InvalidEdns) {
            Some(context)
        } else {
            Some(ContextView { question: None, edns: None, ..context })
        },
        None => None,
    }
}

/// Whether a datagram is a response with TC to `query`, judged by its header and
/// question alone.
pub open spec fn truncation_of(query: Message, wire: Seq<u8>, id: TransactionId) -> bool {
    let header = Header::of(wire);
    &&& wire.len() >= HEADER_LENGTH
    &&& header.cut()
    &&& header.id == id
    &&& header.direction() == MessageType::Response
    &&& header.operation() == query.header.operation()
    &&& header.counts.questions == 1
    &&& query.questions.len() == 1
    &&& question_at(wire, 12) matches Ok((question, _)) && query.questions[0].same(question)
}

/// A question that cannot be read ends a longer run with its error.
proof fn first_bad_question(wire: Seq<u8>, at: int, done: nat, count: nat)
    requires
        done < count,
        questions_at(wire, at, done) is Ok,
        question_at(wire, questions_at(wire, at, done)->Ok_0.1) is Err,
    ensures
        questions_at(wire, at, count) is Err,
        questions_at(wire, at, count)->Err_0 == question_at(
            wire,
            questions_at(wire, at, done)->Ok_0.1,
        )->Err_0,
    decreases count,
{
    if done + 1 < count {
        first_bad_question(wire, at, done, (count - 1) as nat);
    }
}

/// A checked cursor into one message; compression offsets use the full message.
///
/// On error a reader stays where it was.
pub struct Reader<'a> {
    pub wire: &'a [u8],
    pub cursor: usize,
}

impl<'a> Reader<'a> {
    pub fn take(&mut self, length: usize) -> (r: Result<&'a [u8], ParseError>)
        ensures
            final(self).wire == old(self).wire,
            match skip(old(self).wire@, old(self).cursor as int, length as int) {
                Ok(end) => r is Ok && r->Ok_0@ == old(self).wire@.subrange(
                    old(self).cursor as int,
                    end,
                ) && final(self).cursor == end,
                Err(error) => r == Err::<&'a [u8], ParseError>(error) && final(self).cursor == old(
                    self,
                ).cursor,
            },
    {
        let size: usize = self.wire.len();
        if self.cursor > size || size - self.cursor < length {
            return Err(ParseError::UnexpectedEnd);
        }
        let end: usize = self.cursor + length;
        let octets = slice_subrange(self.wire, self.cursor, end);
        self.cursor = end;
        Ok(octets)
    }

    pub fn word(&mut self) -> (r: Result<u16, ParseError>)
        ensures
            final(self).wire == old(self).wire,
            match skip(old(self).wire@, old(self).cursor as int, 2) {
                Ok(end) => r == Ok::<u16, ParseError>(
                    bytes::word_at(old(self).wire@, old(self).cursor as int),
                ) && final(self).cursor == end,
                Err(error) => r == Err::<u16, ParseError>(error) && final(self).cursor == old(
                    self,
                ).cursor,
            },
    {
        let octets = self.take(2)?;
        Ok(read_word(octets, 0))
    }

    pub fn double_word(&mut self) -> (r: Result<u32, ParseError>)
        ensures
            final(self).wire == old(self).wire,
            match skip(old(self).wire@, old(self).cursor as int, 4) {
                Ok(end) => r == Ok::<u32, ParseError>(
                    bytes::double_word_at(old(self).wire@, old(self).cursor as int),
                ) && final(self).cursor == end,
                Err(error) => r == Err::<u32, ParseError>(error) && final(self).cursor == old(
                    self,
                ).cursor,
            },
    {
        let octets = self.take(4)?;
        Ok(read_double_word(octets, 0))
    }

    pub fn name(&mut self) -> (r: Result<DomainName, ParseError>)
        ensures
            final(self).wire == old(self).wire,
            match name::name_at(old(self).wire@, old(self).cursor as int) {
                Ok((labels, end)) => r is Ok && r->Ok_0@ == labels && final(self).cursor == end,
                Err(error) => r == Err::<DomainName, ParseError>(error) && final(self).cursor
                    == old(self).cursor,
            },
    {
        let mut cursor: usize = self.cursor;
        let name = DomainName::decode(self.wire, &mut cursor)?;
        self.cursor = cursor;
        Ok(name)
    }

    pub fn question(&mut self) -> (r: Result<Question, ParseError>)
        ensures
            final(self).wire == old(self).wire,
            match question_at(old(self).wire@, old(self).cursor as int) {
                Ok((question, end)) => r is Ok && r->Ok_0@ == question && final(self).cursor
                    == end,
                Err(error) => r == Err::<Question, ParseError>(error) && final(self).cursor
                    == old(self).cursor,
            },
    {
        let start: usize = self.cursor;
        let name = self.name()?;
        let fixed: usize = self.cursor;
        if self.take(4).is_err() {
            self.cursor = start;
            return Err(ParseError::UnexpectedEnd);
        }
        Ok(
            Question {
                name,
                kind: RecordType::from_wire(read_word(self.wire, fixed)),
                class: RecordClass::from_wire(read_word(self.wire, fixed + 2)),
            },
        )
    }

    /// Reads a record envelope; its data is not yet bounded.
    pub fn resource_record(&mut self) -> (r: Result<ResourceRecord, ParseError>)
        ensures
            final(self).wire == old(self).wire,
            match record_at(old(self).wire@, old(self).cursor as int) {
                Ok(record) => r is Ok && r->Ok_0@ == record && final(self).cursor == record.start,
                Err(error) => r == Err::<ResourceRecord, ParseError>(error) && final(self).cursor
                    == old(self).cursor,
            },
    {
        let start: usize = self.cursor;
        let owner = self.name()?;
        let fixed: usize = self.cursor;
        if self.take(10).is_err() {
            self.cursor = start;
            return Err(ParseError::UnexpectedEnd);
        }
        let kind = RecordType::from_wire(read_word(self.wire, fixed));
        let class_wire: u16 = read_word(self.wire, fixed + 2);
        let class = if kind == RecordType::Opt {
            ClassField::UdpPayload(class_wire)
        } else {
            ClassField::Dns(RecordClass::from_wire(class_wire))
        };
        Ok(
            ResourceRecord {
                owner,
                kind,
                class,
                ttl: read_double_word(self.wire, fixed + 4),
                data_start: self.cursor,
                data_length: read_word(self.wire, fixed + 8) as usize,
            },
        )
    }
}

/// Parsed record metadata exists only while validating the protocol boundary.
pub struct ResourceRecord {
    pub owner: DomainName,
    pub kind: RecordType,
    pub class: ClassField,
    pub ttl: u32,
    pub data_start: usize,
    pub data_length: usize,
}

impl View for ResourceRecord {
    type V = RecordView;

    open spec fn view(&self) -> RecordView {
        RecordView {
            owner: self.owner@,
            kind: self.kind,
            class: self.class,
            ttl: self.ttl,
            start: self.data_start as int,
            length: self.data_length as int,
        }
    }
}

/// Checks option framing without assigning semantics to unknown EDNS option codes.
pub fn validate_options(octets: &[u8]) -> (r: Result<(), ParseError>)
    ensures
        r == (if options_framed(octets@, 0) {
            Ok(())
        } else {
            Err(ParseError::InvalidEdns)
        }),
{
    let mut reader = Reader { wire: octets, cursor: 0 };
    while reader.cursor < octets.len()
        invariant
            reader.wire == octets,
            reader.cursor <= octets@.len(),
            options_framed(octets@, 0) == options_framed(octets@, reader.cursor as int),
        decreases octets@.len() - reader.cursor,
    {
        // Unknown option codes are opaque.
        if reader.word().is_err() {
            return Err(ParseError::InvalidEdns);
        }
        let length: usize = match reader.word() {
            Ok(length) => length as usize,
            Err(_) => {
                return Err(ParseError::InvalidEdns);
            },
        };
        if reader.take(length).is_err() {
            return Err(ParseError::InvalidEdns);
        }
    }
    Ok(())
}

/// Reads past character strings until `end` is reached or passed.
fn pass_strings(reader: &mut Reader, end: usize) -> (r: Result<(), ParseError>)
    ensures
        final(reader).wire == old(reader).wire,
        match skip_strings(old(reader).wire@, old(reader).cursor as int, end as int) {
            Ok(at) => r is Ok && final(reader).cursor == at,
            Err(error) => r == Err::<(), ParseError>(error),
        },
{
    while reader.cursor < end
        invariant
            reader.wire == old(reader).wire,
            skip_strings(reader.wire@, old(reader).cursor as int, end as int) == skip_strings(
                reader.wire@,
                reader.cursor as int,
                end as int,
            ),
        decreases
                if reader.cursor < end {
                    end - reader.cursor
                } else {
                    0
                },
    {
        let length: usize = reader.take(1)?[0] as usize;
        reader.take(length)?;
    }
    Ok(())
}

/// Reads past the layout of a record type.
fn pass_layout(reader: &mut Reader, kind: RecordType, class: RecordClass, end: usize) -> (r: Result<
    (),
    ParseError,
>)
    ensures
        match layout_end(old(reader).wire@, kind, class, old(reader).cursor as int, end as int) {
            Ok(at) => r is Ok && final(reader).cursor == at,
            Err(error) => r == Err::<(), ParseError>(error),
        },
{
    if kind == RecordType::A && class == RecordClass::In {
        reader.take(4)?;
    } else if kind == RecordType::Aaaa && class == RecordClass::In {
        reader.take(16)?;
    } else if kind == RecordType::Ns || kind == RecordType::Cname || kind == RecordType::Ptr {
        reader.name()?;
    } else if kind == RecordType::Mx {
        reader.word()?;
        reader.name()?;
    } else if kind == RecordType::Soa {
        reader.name()?;
        reader.name()?;
        reader.take(20)?;
    } else if kind == RecordType::Srv {
        reader.take(6)?;
        reader.name()?;
    } else if kind == RecordType::Txt {
        if reader.cursor == end {
            return Err(ParseError::InvalidRecord);
        }
        pass_strings(reader, end)?;
    } else {
        // Unknown layouts are opaque; the envelope already checked that their
        // declared bytes fit, so interpreting them would add guesses.
        reader.cursor = end;
    }
    Ok(())
}

/// Checks known RDATA layouts and requires their encoded length to match RDLENGTH.
pub fn validate_data(wire: &[u8], record: &ResourceRecord) -> (r: Result<(), ParseError>)
    requires
        record.data_start + record.data_length <= usize::MAX,
    ensures
        r == data_checked(wire@, record@),
{
    // Keep full-message offsets for compressed names inside RDATA. The final
    // cursor check ensures the physical encoding consumes exactly this record.
    let mut reader = Reader { wire, cursor: record.data_start };
    let end: usize = record.data_start + record.data_length;
    match record.class {
        ClassField::UdpPayload(_) => Err(ParseError::InvalidRecord),
        ClassField::Dns(class) => {
            pass_layout(&mut reader, record.kind, class, end)?;
            if reader.cursor != end {
                return Err(ParseError::InvalidRecord);
            }
            Ok(())
        },
    }
}

/// Progress through the records of a message.
struct Scan {
    cursor: usize,
    edns: Option<Edns>,
    cookie: Option<CookieField>,
    authenticated: bool,
}

impl Scan {
    spec fn seen(self, error: Option<ParseError>) -> ScanView {
        ScanView {
            cursor: self.cursor as int,
            edns: self.edns,
            cookie: self.cookie,
            authenticated: self.authenticated,
            error,
        }
    }
}

/// The error in a result.
spec fn fault(r: Result<(), ParseError>) -> Option<ParseError> {
    match r {
        Ok(_) => None,
        Err(error) => Some(error),
    }
}

impl Scan {
    /// Checks one record and takes over what it tells.
    fn record(&mut self, wire: &[u8], section: RecordSection) -> (r: Result<(), ParseError>)
        ensures
            final(self).seen(fault(r)) == scan_record(wire@, section, old(self).seen(None)),
    {
        let mut reader = Reader { wire, cursor: self.cursor };
        let record = reader.resource_record()?;
        match record.class {
            ClassField::UdpPayload(udp_size) => {
                if section != RecordSection::Additional || self.edns.is_some()
                    || record.owner.label_count() != 0 {
                    return Err(ParseError::InvalidEdns);
                }
                let ttl: u32 = record.ttl;
                assert((ttl >> 16) & 0xff == ttl / 65536 % 256) by (bit_vector);
                assert(ttl >> 24 == ttl / 16777216) by (bit_vector);
                assert((ttl & DO_MASK != 0) == (ttl / 0x8000 % 2 == 1)) by (bit_vector);
                self.edns = Some(
                    Edns {
                        udp_size,
                        version: ((ttl >> 16) & 0xff) as u8,
                        extended_rcode: (ttl >> 24) as u8,
                        dnssec_ok: ttl & DO_MASK != 0,
                    },
                );
                let data = match reader.take(record.data_length) {
                    Ok(data) => data,
                    Err(_) => {
                        return Err(ParseError::InvalidEdns);
                    },
                };
                validate_options(data)?;
                self.cookie = locate(wire, record.data_start, record.data_length);
            },
            ClassField::Dns(_) => {
                reader.take(record.data_length)?;
                validate_data(wire, &record)?;
                let marks = match record.kind {
                    RecordType::Tsig => true,
                    RecordType::Tkey => true,
                    RecordType::Sig => section == RecordSection::Additional,
                    _ => false,
                };
                self.authenticated = self.authenticated || marks;
            },
        }
        self.cursor = reader.cursor;
        Ok(())
    }

    /// Checks the records of all sections, in their physical order.
    fn sections(&mut self, wire: &[u8], counts: SectionCounts) -> (r: Result<(), ParseError>)
        requires
            old(self).edns is None,
            old(self).cookie is None,
            !old(self).authenticated,
        ensures
            final(self).seen(fault(r)) == scan_records(wire@, counts, old(self).cursor as int),
    {
        let sections = counts.record_sections();
        let first = self.section(wire, sections[0].0, sections[0].1);
        if first.is_err() {
            return first;
        }
        let second = self.section(wire, sections[1].0, sections[1].1);
        if second.is_err() {
            return second;
        }
        self.section(wire, sections[2].0, sections[2].1)
    }

    /// Checks the records of a section.
    fn section(&mut self, wire: &[u8], section: RecordSection, count: u16) -> (r: Result<
        (),
        ParseError,
    >)
        ensures
            final(self).seen(fault(r)) == scan_section(
                wire@,
                section,
                count as nat,
                old(self).seen(None),
            ),
    {
        let mut left: u16 = count;
        while left > 0
            invariant
                scan_section(wire@, section, count as nat, old(self).seen(None)) == scan_section(
                    wire@,
                    section,
                    left as nat,
                    self.seen(None),
                ),
            decreases left,
        {
            proof {
                reveal_with_fuel(scan_section, 2);
            }
            let step = self.record(wire, section);
            if step.is_err() {
                return step;
            }
            left = left - 1;
        }
        Ok(())
    }
}

/// Reads a run of questions.
fn read_questions(reader: &mut Reader, count: usize) -> (r: Result<Vec<Question>, ParseError>)
    ensures
        final(reader).wire == old(reader).wire,
        match questions_at(old(reader).wire@, old(reader).cursor as int, count as nat) {
            Ok((questions, end)) => r is Ok && message::question_views(r->Ok_0@) == questions
                && final(reader).cursor == end,
            Err(error) => r == Err::<Vec<Question>, ParseError>(error),
        },
{
    let ghost start = reader.cursor as int;
    let mut questions: Vec<Question> = Vec::new();
    let mut done: usize = 0;
    assert(message::question_views(questions@) =~= Seq::empty());
    while done < count
        invariant
            done <= count,
            start == old(reader).cursor,
            reader.wire == old(reader).wire,
            questions_at(reader.wire@, start, done as nat) is Ok,
            questions_at(reader.wire@, start, done as nat)->Ok_0.0 == message::question_views(
                questions@,
            ),
            questions_at(reader.wire@, start, done as nat)->Ok_0.1 == reader.cursor,
        decreases count - done,
    {
        let ghost before = message::question_views(questions@);
        let step = reader.question();
        if step.is_err() {
            proof {
                first_bad_question(reader.wire@, start, done as nat, count as nat);
            }
        }
        let question = step?;
        let ghost asked = question@;
        questions.push(question);
        assert(message::question_views(questions@) =~= before.push(asked));
        done += 1;
    }
    Ok(questions)
}

/// Checks section bounds and record structure before retaining the original packet.
///
/// What a reply to a broken query may still use is collected in `context`.
pub fn parse_inner(wire: &[u8], context: &mut Option<ReplyContext>) -> (r: Result<
    Packet,
    ParseError,
>)
    ensures
        match parsed(wire@) {
            Ok(message) => r is Ok && r->Ok_0@ == message,
            Err(error) => r is Err && r->Err_0 == error,
        },
        reply::context_view(*final(context)) == collected(
            wire@,
            reply::context_view(*old(context)),
        ),
{
    if wire.len() > MAX_MESSAGE_LENGTH {
        return Err(ParseError::OversizedMessage);
    }
    let header = Header::parse(wire)?;
    if header.message_type() == MessageType::Query {
        *context = Some(ReplyContext { header, question: None, edns: None });
    }
    // Reject impossible counts before allocating, even for compressed root names.
    let question_count: usize = header.counts.questions as usize;
    // Standard DNS queries have at most one question. Reject before
    // allocating names: repeated compressed questions could amplify memory use.
    if question_count > 1 && header.opcode() == Opcode::Query {
        return Err(ParseError::InvalidCount);
    }
    let record_count: usize = header.counts.answers as usize + header.counts.authorities as usize
        + header.counts.additionals as usize;
    if question_count * (QUESTION_FIXED_LENGTH + 1) + record_count * (RECORD_FIXED_LENGTH + 1)
        > wire.len() - HEADER_LENGTH {
        return Err(ParseError::InvalidCount);
    }
    let mut reader = Reader { wire, cursor: HEADER_LENGTH };
    let questions = read_questions(&mut reader, question_count)?;
    if let Some(found) = context.take() {
        let question = if questions.len() > 0 {
            Some(questions[0].clone())
        } else {
            None
        };
        *context = Some(ReplyContext { header: found.header, question, edns: found.edns });
    }
    let mut scan = Scan { cursor: reader.cursor, edns: None, cookie: None, authenticated: false };
    let outcome = scan.sections(wire, header.counts);
    if scan.edns.is_some() {
        if let Some(found) = context.take() {
            *context = Some(
                ReplyContext { header: found.header, question: found.question, edns: scan.edns },
            );
        }
    }
    outcome?;
    if scan.cursor != wire.len() {
        return Err(ParseError::TrailingData);
    }
    Ok(
        Packet::of_parts(
            wire,
            header,
            questions,
            scan.edns,
            scan.authenticated,
            scan.cookie,
        ),
    )
}

/// Checks a message; a failure keeps the metadata that a reply may use.
pub fn parse(wire: &[u8]) -> (r: Result<Packet, ParseFailure>)
    ensures
        match parsed(wire@) {
            Ok(message) => r is Ok && r->Ok_0@ == message,
            Err(error) => {
                &&& r is Err
                &&& r->Err_0.error == error
                &&& reply::context_view(r->Err_0.context) == reply_context(wire@)
            },
        },
{
    let mut context: Option<ReplyContext> = None;
    match parse_inner(wire, &mut context) {
        Ok(packet) => Ok(packet),
        Err(error) => {
            // Only an OPT processing failure permits these partial metadata to be
            // used. Other structural failures retain the header-only policy.
            if error != ParseError::InvalidEdns {
                if let Some(found) = context.take() {
                    context = Some(
                        ReplyContext { header: found.header, question: None, edns: None },
                    );
                }
            }
            Err(ParseFailure { error, context })
        },
    }
}

/// A TC datagram may end inside an RR. Only use its complete header/question to
/// authorize a TCP retry; none of its answer data is ever trusted or relayed.
pub fn matches_truncated(query: &Packet, wire: &[u8], id: TransactionId) -> (r: bool)
    ensures
        r == truncation_of(query@, wire@, id),
{
    let header = match Header::parse(wire) {
        Ok(header) => header,
        Err(_) => {
            return false;
        },
    };
    if !header.truncated() || header.id != id || header.message_type() != MessageType::Response
        || header.opcode() != query.header().opcode() || header.counts.questions != 1 {
        return false;
    }
    let mut reader = Reader { wire, cursor: HEADER_LENGTH };
    let questions = query.questions();
    match reader.question() {
        Ok(question) => {
            assert(questions@.len() == 1 ==> query@.questions[0] == questions@[0]@);
            questions.len() == 1 && questions[0] == question
        },
        Err(_) => false,
    }
}

} // verus!
