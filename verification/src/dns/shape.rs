//! What holds of every message that parses.
use crate::dns::cookie::{self, CookieField, CookieSlot};
use crate::dns::message::{Header, Message, QuestionView, RecordSection};
use crate::dns::name;
use crate::dns::parser::{self, ScanView};
use crate::dns::types::{MessageType, RecordClass, RecordType};
use crate::{bytes, dns::MAX_MESSAGE_LENGTH};
use vstd::prelude::*;

verus! {

/// A cookie slot whose fields lie in a message in their wire order: the length of
/// the record data, the length of the option, then the cookie itself.
pub open spec fn slot_ok(wire: Seq<u8>, slot: CookieSlot) -> bool {
    &&& slot.length_at + 2 == slot.data_at
    &&& slot.rdlength_at + 6 <= slot.data_at
    &&& slot.data_at + slot.data_len <= wire.len()
    &&& slot.data_len == 8 || 16 <= slot.data_len <= 40
    &&& slot.data_len == bytes::word_at(wire, slot.length_at as int)
}

pub open spec fn cookie_ok(wire: Seq<u8>, field: Option<CookieField>) -> bool {
    field matches Some(CookieField::Present(slot)) ==> slot_ok(wire, slot)
}

/// A cookie slot inside the record data that its message counts for it.
pub open spec fn slot_inside(wire: Seq<u8>, slot: CookieSlot) -> bool {
    slot.data_at + slot.data_len <= slot.rdlength_at + 2 + bytes::word_at(
        wire,
        slot.rdlength_at as int,
    ) <= wire.len()
}

pub open spec fn cookie_inside(wire: Seq<u8>, field: Option<CookieField>) -> bool {
    field matches Some(CookieField::Present(slot)) ==> slot_inside(wire, slot)
}

/// A question that fits the wire and whose codes are written as they were read.
pub open spec fn question_ok(question: QuestionView) -> bool {
    &&& name::name_ok(question.name)
    &&& question.kind == RecordType::of(question.kind.code())
    &&& question.class == RecordClass::of(question.class.code())
}

/// The shape of a parsed message.
pub open spec fn message_ok(message: Message) -> bool {
    &&& 12 <= message.wire.len() <= MAX_MESSAGE_LENGTH
    &&& message.questions.len() == message.header.counts.questions
    &&& forall|i: int|
        0 <= i < message.questions.len() ==> question_ok(#[trigger] message.questions[i])
    &&& cookie_ok(message.wire, message.cookie)
}

proof fn questions_shape(wire: Seq<u8>, at: int, count: nat)
    requires
        0 <= at,
    ensures
        parser::questions_at(wire, at, count) matches Ok((questions, end)) ==> {
            &&& questions.len() == count
            &&& at <= end
            &&& forall|i: int| 0 <= i < questions.len() ==> question_ok(#[trigger] questions[i])
        },
    decreases count,
{
    if count > 0 {
        questions_shape(wire, at, (count - 1) as nat);
        match parser::questions_at(wire, at, (count - 1) as nat) {
            Ok((_, end)) => {
                name::decoded_name_fits(wire, end);
            },
            Err(_) => {},
        }
    }
}

proof fn record_shape(wire: Seq<u8>, section: RecordSection, scan: ScanView)
    requires
        0 <= scan.cursor,
        wire.len() <= MAX_MESSAGE_LENGTH,
        cookie_ok(wire, scan.cookie),
        cookie_inside(wire, scan.cookie),
    ensures
        0 <= parser::scan_record(wire, section, scan).cursor,
        cookie_ok(wire, parser::scan_record(wire, section, scan).cookie),
        cookie_inside(wire, parser::scan_record(wire, section, scan).cookie),
{
    name::decoded_name_fits(wire, scan.cursor);
    match parser::record_at(wire, scan.cursor) {
        Ok(record) => {
            cookie::located_cookie_is_inside(
                wire,
                record.start,
                record.start,
                record.start + record.length,
            );
        },
        Err(_) => {},
    }
}

proof fn section_shape(wire: Seq<u8>, section: RecordSection, count: nat, scan: ScanView)
    requires
        0 <= scan.cursor,
        wire.len() <= MAX_MESSAGE_LENGTH,
        cookie_ok(wire, scan.cookie),
        cookie_inside(wire, scan.cookie),
    ensures
        0 <= parser::scan_section(wire, section, count, scan).cursor,
        cookie_ok(wire, parser::scan_section(wire, section, count, scan).cookie),
        cookie_inside(wire, parser::scan_section(wire, section, count, scan).cookie),
    decreases count,
{
    if count > 0 && scan.error is None {
        record_shape(wire, section, scan);
        section_shape(
            wire,
            section,
            (count - 1) as nat,
            parser::scan_record(wire, section, scan),
        );
    }
}

/// Every message that parses has its original bytes, questions that can be
/// written again, and a cookie, where one is present, inside those bytes.
pub proof fn parsed_message_shape(wire: Seq<u8>)
    ensures
        parser::parsed(wire) matches Ok(message) ==> {
            &&& message.wire == wire
            &&& message_ok(message)
            &&& cookie_inside(wire, message.cookie)
        },
{
    match parser::parsed(wire) {
        Ok(message) => {
            let counts = message.header.counts;
            questions_shape(wire, 12, counts.questions as nat);
            let at = parser::parsed_questions(wire)->Ok_0.1;
            let none = ScanView {
                cursor: at,
                edns: None,
                cookie: None,
                authenticated: false,
                error: None,
            };
            section_shape(wire, RecordSection::Answer, counts.answers as nat, none);
            let answers = parser::scan_section(
                wire,
                RecordSection::Answer,
                counts.answers as nat,
                none,
            );
            section_shape(wire, RecordSection::Authority, counts.authorities as nat, answers);
            let authorities = parser::scan_section(
                wire,
                RecordSection::Authority,
                counts.authorities as nat,
                answers,
            );
            section_shape(
                wire,
                RecordSection::Additional,
                counts.additionals as nat,
                authorities,
            );
        },
        Err(_) => {},
    }
}

/// A broken message is answered only if it is a query, with its own header and
/// with a question that can be written again.
pub proof fn reply_context_shape(wire: Seq<u8>)
    ensures
        parser::reply_context(wire) matches Some(context) ==> {
            &&& wire.len() >= 12
            &&& context.header == Header::of(wire)
            &&& context.header.direction() == MessageType::Query
            &&& context.question matches Some(asked) ==> question_ok(asked)
        },
{
    questions_shape(wire, 12, Header::of(wire).counts.questions as nat);
}

} // verus!
