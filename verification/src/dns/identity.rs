//! Reading never depends on the transaction identifier.
//!
//! Names, questions and records are read from positions behind the header, and
//! compression never points into it. So a message whose identifier was
//! rewritten in place says exactly what it said before.
use crate::bytes;
use crate::dns::cookie;
use crate::dns::error::ParseError;
use crate::dns::message::{Header, Message, RecordSection, SectionCounts};
use crate::dns::name;
use crate::dns::parser::{self, ClassField, ScanView};
use crate::dns::types::{RecordClass, RecordType, TransactionId};
use vstd::prelude::*;

verus! {

/// Two messages that agree behind the header.
pub open spec fn same_body(a: Seq<u8>, b: Seq<u8>) -> bool {
    &&& a.len() == b.len()
    &&& forall|i: int| 12 <= i < a.len() ==> a[i] == b[i]
}

proof fn labels_agree(a: Seq<u8>, b: Seq<u8>, at: int, expanded: int, visited: Seq<int>)
    requires
        same_body(a, b),
        12 <= at,
    ensures
        name::labels_at(a, at, expanded, visited) == name::labels_at(b, at, expanded, visited),
        name::labels_at(a, at, expanded, visited) matches Ok((_, end)) ==> end > at,
    decreases 255 - expanded, 128 - visited.len(),
{
    if at < a.len() {
        if a[at] >= 192 {
            let target = (a[at] - 192) * 256 + a[at + 1];
            if at + 1 < a.len() && !visited.contains(target) && 12 <= target < at
                && visited.len() < 128 {
                labels_agree(a, b, target, expanded, visited.push(target));
            }
        } else if 0 < a[at] < 64 && expanded + a[at] + 1 <= 255 && at + 1 + a[at] <= a.len() {
            let next = at + 1 + a[at];
            labels_agree(a, b, next, expanded + a[at] + 1, visited);
            assert(a.subrange(at + 1, next) =~= b.subrange(at + 1, next));
        }
    }
}

proof fn names_agree(a: Seq<u8>, b: Seq<u8>, at: int)
    requires
        same_body(a, b),
        12 <= at,
    ensures
        name::name_at(a, at) == name::name_at(b, at),
        name::name_at(a, at) matches Ok((_, end)) ==> end > at,
{
    labels_agree(a, b, at, 1, Seq::empty());
}

proof fn questions_agree(a: Seq<u8>, b: Seq<u8>, at: int, count: nat)
    requires
        same_body(a, b),
        12 <= at,
    ensures
        parser::questions_at(a, at, count) == parser::questions_at(b, at, count),
        parser::questions_at(a, at, count) matches Ok((_, end)) ==> end >= at,
    decreases count,
{
    if count > 0 {
        questions_agree(a, b, at, (count - 1) as nat);
        match parser::questions_at(a, at, (count - 1) as nat) {
            Ok((_, end)) => {
                names_agree(a, b, end);
            },
            Err(_) => {},
        }
    }
}

proof fn strings_agree(a: Seq<u8>, b: Seq<u8>, at: int, end: int)
    requires
        same_body(a, b),
        12 <= at,
    ensures
        parser::skip_strings(a, at, end) == parser::skip_strings(b, at, end),
    decreases
            if at < end {
                end - at
            } else {
                0
            },
{
    if at < end && at + 1 <= a.len() && at + 1 + a[at] <= a.len() {
        strings_agree(a, b, at + 1 + a[at], end);
    }
}

proof fn layouts_agree(
    a: Seq<u8>,
    b: Seq<u8>,
    kind: RecordType,
    class: RecordClass,
    start: int,
    end: int,
)
    requires
        same_body(a, b),
        12 <= start,
    ensures
        parser::layout_end(a, kind, class, start, end) == parser::layout_end(
            b,
            kind,
            class,
            start,
            end,
        ),
{
    names_agree(a, b, start);
    names_agree(a, b, start + 2);
    names_agree(a, b, start + 6);
    strings_agree(a, b, start, end);
    match parser::skip_name(a, start) {
        Ok(middle) => {
            names_agree(a, b, middle);
        },
        Err(_) => {},
    }
}

proof fn cookies_agree(a: Seq<u8>, b: Seq<u8>, start: int, cursor: int, end: int)
    requires
        same_body(a, b),
        12 <= cursor,
    ensures
        cookie::cookie_in(a, start, cursor, end) == cookie::cookie_in(b, start, cursor, end),
    decreases end - cursor,
{
    let next = cursor + 4 + bytes::word_at(a, cursor + 2);
    if cursor + 4 <= end && cursor + 4 <= a.len() {
        assert(a[cursor + 2] == b[cursor + 2]);
        if next <= end && next <= a.len() {
            cookies_agree(a, b, start, next, end);
        }
    }
}

proof fn records_agree(a: Seq<u8>, b: Seq<u8>, section: RecordSection, scan: ScanView)
    requires
        same_body(a, b),
        12 <= scan.cursor,
    ensures
        parser::scan_record(a, section, scan) == parser::scan_record(b, section, scan),
        12 <= parser::scan_record(a, section, scan).cursor,
{
    names_agree(a, b, scan.cursor);
    match parser::record_at(a, scan.cursor) {
        Ok(record) => {
            let end = record.start + record.length;
            assert(parser::record_at(b, scan.cursor) == parser::record_at(a, scan.cursor));
            if end <= a.len() {
                assert(a.subrange(record.start, end) =~= b.subrange(record.start, end));
            }
            cookies_agree(a, b, record.start, record.start, end);
            match record.class {
                ClassField::Dns(class) => {
                    layouts_agree(a, b, record.kind, class, record.start, end);
                },
                ClassField::UdpPayload(_) => {},
            }
        },
        Err(_) => {},
    }
}

proof fn sections_agree(a: Seq<u8>, b: Seq<u8>, section: RecordSection, count: nat, scan: ScanView)
    requires
        same_body(a, b),
        12 <= scan.cursor,
    ensures
        parser::scan_section(a, section, count, scan) == parser::scan_section(
            b,
            section,
            count,
            scan,
        ),
        12 <= parser::scan_section(a, section, count, scan).cursor,
    decreases count,
{
    if count > 0 && scan.error is None {
        records_agree(a, b, section, scan);
        sections_agree(
            a,
            b,
            section,
            (count - 1) as nat,
            parser::scan_record(a, section, scan),
        );
    }
}

proof fn scans_agree(a: Seq<u8>, b: Seq<u8>, counts: SectionCounts, at: int)
    requires
        same_body(a, b),
        12 <= at,
    ensures
        parser::scan_records(a, counts, at) == parser::scan_records(b, counts, at),
{
    let none = ScanView {
        cursor: at,
        edns: None,
        cookie: None,
        authenticated: false,
        error: None,
    };
    sections_agree(a, b, RecordSection::Answer, counts.answers as nat, none);
    let answers = parser::scan_section(a, RecordSection::Answer, counts.answers as nat, none);
    sections_agree(a, b, RecordSection::Authority, counts.authorities as nat, answers);
    let authorities = parser::scan_section(
        a,
        RecordSection::Authority,
        counts.authorities as nat,
        answers,
    );
    sections_agree(a, b, RecordSection::Additional, counts.additionals as nat, authorities);
}

/// Rewriting the identifier in place changes the identifier and nothing else of
/// what a message says; what was no message stays none, for the same reason.
pub proof fn rewritten_id_changes_nothing_else(wire: Seq<u8>, id: u16)
    requires
        wire.len() >= 2,
    ensures
        parser::parsed(bytes::with_word(wire, 0, id)) == (match parser::parsed(wire) {
            Ok(message) => Ok::<Message, ParseError>(
                Message {
                    wire: bytes::with_word(wire, 0, id),
                    header: Header { id: TransactionId(id), ..message.header },
                    ..message
                },
            ),
            Err(error) => Err::<Message, ParseError>(error),
        }),
{
    let other = bytes::with_word(wire, 0, id);
    if 12 <= wire.len() <= 65535 {
        assert(same_body(wire, other));
        assert(Header::of(other) == Header { id: TransactionId(id), ..Header::of(wire) });
        let header = Header::of(wire);
        questions_agree(wire, other, 12, header.counts.questions as nat);
        match parser::parsed_questions(wire) {
            Ok((_, at)) => {
                scans_agree(wire, other, header.counts, at);
            },
            Err(_) => {},
        }
    }
}

} // verus!
