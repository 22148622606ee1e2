//! Where a message ends: a message is never part of a longer one.
use crate::bytes;
use crate::dns::cookie;
use crate::dns::error::ParseError;
use crate::dns::message::{Header, Message, RecordSection};
use crate::dns::name;
use crate::dns::parser::{self, ClassField, ScanView};
use crate::dns::types::{RecordClass, RecordType};
use crate::dns::MAX_MESSAGE_LENGTH;
use vstd::prelude::*;

verus! {

/// One message starts with the bytes of another.
spec fn extends(longer: Seq<u8>, wire: Seq<u8>) -> bool {
    &&& wire.len() <= longer.len()
    &&& forall|i: int| 0 <= i < wire.len() ==> wire[i] == longer[i]
}

proof fn labels_extend(wire: Seq<u8>, longer: Seq<u8>, at: int, expanded: int, visited: Seq<int>)
    requires
        extends(longer, wire),
        name::labels_at(wire, at, expanded, visited) is Ok,
    ensures
        name::labels_at(longer, at, expanded, visited) == name::labels_at(
            wire,
            at,
            expanded,
            visited,
        ),
    decreases 255 - expanded, 128 - visited.len(),
{
    if wire[at] >= 192 {
        let target = (wire[at] - 192) * 256 + wire[at + 1];
        labels_extend(wire, longer, target, expanded, visited.push(target));
    } else if wire[at] > 0 {
        let next = at + 1 + wire[at];
        labels_extend(wire, longer, next, expanded + wire[at] + 1, visited);
        assert(wire.subrange(at + 1, next) =~= longer.subrange(at + 1, next));
    }
}

proof fn name_extends(wire: Seq<u8>, longer: Seq<u8>, at: int)
    requires
        extends(longer, wire),
        name::name_at(wire, at) is Ok,
    ensures
        name::name_at(longer, at) == name::name_at(wire, at),
        at < name::name_at(wire, at)->Ok_0.1 <= wire.len(),
{
    labels_extend(wire, longer, at, 1, Seq::empty());
    name::decoded_name_fits(wire, at);
}

proof fn questions_extend(wire: Seq<u8>, longer: Seq<u8>, at: int, count: nat)
    requires
        extends(longer, wire),
        0 <= at,
        parser::questions_at(wire, at, count) is Ok,
    ensures
        parser::questions_at(longer, at, count) == parser::questions_at(wire, at, count),
        at <= parser::questions_at(wire, at, count)->Ok_0.1,
    decreases count,
{
    if count > 0 {
        questions_extend(wire, longer, at, (count - 1) as nat);
        let end = parser::questions_at(wire, at, (count - 1) as nat)->Ok_0.1;
        name_extends(wire, longer, end);
        let after = name::name_at(wire, end)->Ok_0.1;
        assert(bytes::word_at(longer, after) == bytes::word_at(wire, after));
        assert(bytes::word_at(longer, after + 2) == bytes::word_at(wire, after + 2));
    }
}

proof fn strings_extend(wire: Seq<u8>, longer: Seq<u8>, at: int, end: int)
    requires
        extends(longer, wire),
        0 <= at,
        parser::skip_strings(wire, at, end) is Ok,
    ensures
        parser::skip_strings(longer, at, end) == parser::skip_strings(wire, at, end),
    decreases
            if at < end {
                end - at
            } else {
                0
            },
{
    if at < end {
        strings_extend(wire, longer, at + 1 + wire[at], end);
    }
}

proof fn layout_extends(
    wire: Seq<u8>,
    longer: Seq<u8>,
    kind: RecordType,
    class: RecordClass,
    start: int,
    end: int,
)
    requires
        extends(longer, wire),
        0 <= start,
        parser::layout_end(wire, kind, class, start, end) is Ok,
    ensures
        parser::layout_end(longer, kind, class, start, end) == parser::layout_end(
            wire,
            kind,
            class,
            start,
            end,
        ),
{
    if kind == RecordType::Ns || kind == RecordType::Cname || kind == RecordType::Ptr {
        name_extends(wire, longer, start);
    } else if kind == RecordType::Mx {
        name_extends(wire, longer, start + 2);
    } else if kind == RecordType::Soa {
        name_extends(wire, longer, start);
        name_extends(wire, longer, name::name_at(wire, start)->Ok_0.1);
    } else if kind == RecordType::Srv {
        name_extends(wire, longer, start + 6);
    } else if kind == RecordType::Txt {
        strings_extend(wire, longer, start, end);
    }
}

proof fn cookie_extends(wire: Seq<u8>, longer: Seq<u8>, start: int, cursor: int, end: int)
    requires
        extends(longer, wire),
        0 <= start <= cursor,
        end <= wire.len(),
    ensures
        cookie::cookie_in(longer, start, cursor, end) == cookie::cookie_in(
            wire,
            start,
            cursor,
            end,
        ),
    decreases end - cursor,
{
    if cursor + 4 <= end {
        assert(bytes::word_at(longer, cursor) == bytes::word_at(wire, cursor));
        assert(bytes::word_at(longer, cursor + 2) == bytes::word_at(wire, cursor + 2));
        let next = cursor + 4 + bytes::word_at(wire, cursor + 2);
        if next <= end {
            cookie_extends(wire, longer, start, next, end);
        }
    }
}

proof fn record_extends(wire: Seq<u8>, longer: Seq<u8>, at: int)
    requires
        extends(longer, wire),
        parser::record_at(wire, at) is Ok,
    ensures
        parser::record_at(longer, at) == parser::record_at(wire, at),
        at + 11 <= parser::record_at(wire, at)->Ok_0.start <= wire.len(),
{
    name_extends(wire, longer, at);
    let end = name::name_at(wire, at)->Ok_0.1;
    assert(bytes::word_at(longer, end) == bytes::word_at(wire, end));
    assert(bytes::word_at(longer, end + 2) == bytes::word_at(wire, end + 2));
    assert(bytes::double_word_at(longer, end + 4) == bytes::double_word_at(wire, end + 4));
    assert(bytes::word_at(longer, end + 8) == bytes::word_at(wire, end + 8));
}

proof fn scan_step_extends(
    wire: Seq<u8>,
    longer: Seq<u8>,
    section: RecordSection,
    scan: ScanView,
)
    requires
        extends(longer, wire),
        0 <= scan.cursor,
        scan.error is None,
        parser::scan_record(wire, section, scan).error is None,
    ensures
        parser::scan_record(longer, section, scan) == parser::scan_record(wire, section, scan),
        scan.cursor < parser::scan_record(wire, section, scan).cursor,
{
    record_extends(wire, longer, scan.cursor);
    let record = parser::record_at(wire, scan.cursor)->Ok_0;
    let end = record.start + record.length;
    match record.class {
        ClassField::UdpPayload(_) => {
            assert(longer.subrange(record.start, end) =~= wire.subrange(record.start, end));
            cookie_extends(wire, longer, record.start, record.start, end);
        },
        ClassField::Dns(class) => {
            layout_extends(wire, longer, record.kind, class, record.start, end);
        },
    }
}

proof fn scan_extends(
    wire: Seq<u8>,
    longer: Seq<u8>,
    section: RecordSection,
    count: nat,
    scan: ScanView,
)
    requires
        extends(longer, wire),
        0 <= scan.cursor,
        parser::scan_section(wire, section, count, scan).error is None,
    ensures
        scan.error is None,
        parser::scan_section(longer, section, count, scan) == parser::scan_section(
            wire,
            section,
            count,
            scan,
        ),
        scan.cursor <= parser::scan_section(wire, section, count, scan).cursor,
    decreases count,
{
    if count > 0 && scan.error is None {
        let next = parser::scan_record(wire, section, scan);
        errors_stay(wire, section, (count - 1) as nat, next);
        scan_step_extends(wire, longer, section, scan);
        scan_extends(wire, longer, section, (count - 1) as nat, next);
    }
}

/// An error ends a section.
proof fn errors_stay(wire: Seq<u8>, section: RecordSection, count: nat, scan: ScanView)
    ensures
        scan.error is Some ==> parser::scan_section(wire, section, count, scan) == scan,
{
}

/// A message with more bytes behind it is no message: the bytes are trailing data,
/// or make it too long.
pub proof fn more_bytes_are_trailing_data(wire: Seq<u8>, more: Seq<u8>)
    requires
        parser::parsed(wire) is Ok,
        more.len() > 0,
    ensures
        parser::parsed(wire + more) == Err::<Message, ParseError>(
            if wire.len() + more.len() > MAX_MESSAGE_LENGTH {
                ParseError::OversizedMessage
            } else {
                ParseError::TrailingData
            },
        ),
{
    let longer = wire + more;
    let counts = Header::of(wire).counts;
    if longer.len() <= MAX_MESSAGE_LENGTH {
        assert(Header::of(longer) == Header::of(wire));
        questions_extend(wire, longer, 12, counts.questions as nat);
        let at = parser::questions_at(wire, 12, counts.questions as nat)->Ok_0.1;
        let none = ScanView {
            cursor: at,
            edns: None,
            cookie: None,
            authenticated: false,
            error: None,
        };
        let answers = parser::scan_section(
            wire,
            RecordSection::Answer,
            counts.answers as nat,
            none,
        );
        let authorities = parser::scan_section(
            wire,
            RecordSection::Authority,
            counts.authorities as nat,
            answers,
        );
        errors_stay(wire, RecordSection::Authority, counts.authorities as nat, answers);
        errors_stay(wire, RecordSection::Additional, counts.additionals as nat, authorities);
        scan_extends(wire, longer, RecordSection::Answer, counts.answers as nat, none);
        scan_extends(wire, longer, RecordSection::Authority, counts.authorities as nat, answers);
        scan_extends(
            wire,
            longer,
            RecordSection::Additional,
            counts.additionals as nat,
            authorities,
        );
    }
}

#[verifier::opaque]
spec fn whole(wire: Seq<u8>) -> bool {
    parser::parsed(wire) is Ok
}

proof fn longer_is_not_whole(wire: Seq<u8>, more: Seq<u8>)
    requires
        whole(wire),
        more.len() > 0,
    ensures
        !whole(wire + more),
{
    reveal(whole);
    more_bytes_are_trailing_data(wire, more);
}

proof fn shorter_is_not_whole(wire: Seq<u8>, length: int)
    requires
        whole(wire),
        0 <= length < wire.len(),
    ensures
        !whole(wire.take(length)),
{
    if whole(wire.take(length)) {
        longer_is_not_whole(wire.take(length), wire.skip(length));
        assert(wire.take(length) + wire.skip(length) =~= wire);
    }
}

/// No message is the beginning of another: whatever is cut off at its end, the
/// rest does not parse.
pub proof fn no_message_parses_cut_short(wire: Seq<u8>, length: int)
    requires
        parser::parsed(wire) is Ok,
        0 <= length < wire.len(),
    ensures
        parser::parsed(wire.take(length)) is Err,
{
    reveal(whole);
    shorter_is_not_whole(wire, length);
}

} // verus!
