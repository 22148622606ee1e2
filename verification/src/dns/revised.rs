//! What a query keeps when its cookie is rewritten, wherever its records stand.
//!
//! Names may be read ahead of the record that they stand in, so what they hold can
//! change with later bytes. Where they end cannot, and that fixes the place of every
//! record.
use crate::bytes;
use crate::dns::cookie::{self, CookieField, CookieSlot, RetryView, COOKIE_OPTION};
use crate::dns::error::ParseError;
use crate::dns::message::{Header, Message, QuestionView, RecordSection, SectionCounts};
use crate::dns::name;
use crate::dns::parser::{self, ClassField, ScanView};
use crate::dns::renewal;
use crate::dns::shape;
use vstd::prelude::*;

verus! {

/// Two messages have the same bytes on a stretch.
spec fn agree(a: Seq<u8>, b: Seq<u8>, from: int, to: int) -> bool {
    forall|i: int| from <= i < to ==> a[i] == b[i]
}

proof fn labels_end_behind(wire: Seq<u8>, at: int, expanded: int, visited: Seq<int>)
    requires
        name::labels_at(wire, at, expanded, visited) is Ok,
    ensures
        0 <= at < name::labels_at(wire, at, expanded, visited)->Ok_0.1 <= wire.len(),
    decreases 255 - expanded, 128 - visited.len(),
{
    if 0 < wire[at] < 192 {
        labels_end_behind(wire, at + 1 + wire[at], expanded + wire[at] + 1, visited);
    }
}

/// Where a name ends depends on its own bytes alone.
proof fn labels_end_alike(a: Seq<u8>, b: Seq<u8>, at: int, expanded: int, visited: Seq<int>)
    requires
        name::labels_at(a, at, expanded, visited) is Ok,
        name::labels_at(b, at, expanded, visited) is Ok,
        agree(a, b, at, name::labels_at(a, at, expanded, visited)->Ok_0.1),
    ensures
        name::labels_at(b, at, expanded, visited)->Ok_0.1 == name::labels_at(
            a,
            at,
            expanded,
            visited,
        )->Ok_0.1,
    decreases 255 - expanded, 128 - visited.len(),
{
    labels_end_behind(a, at, expanded, visited);
    assert(a[at] == b[at]);
    if 0 < a[at] < 192 {
        labels_end_alike(a, b, at + 1 + a[at], expanded + a[at] + 1, visited);
    }
}

/// Questions whose types and classes are the same.
spec fn ask_alike(a: Seq<QuestionView>, b: Seq<QuestionView>) -> bool {
    &&& a.len() == b.len()
    &&& forall|i: int|
        0 <= i < a.len() ==> (#[trigger] a[i]).kind == b[i].kind && a[i].class == b[i].class
}

proof fn questions_end_alike(a: Seq<u8>, b: Seq<u8>, at: int, count: nat)
    requires
        parser::questions_at(a, at, count) is Ok,
        parser::questions_at(b, at, count) is Ok,
        agree(a, b, at, parser::questions_at(a, at, count)->Ok_0.1),
    ensures
        parser::questions_at(b, at, count)->Ok_0.1 == parser::questions_at(a, at, count)->Ok_0.1,
        at <= parser::questions_at(a, at, count)->Ok_0.1,
        ask_alike(
            parser::questions_at(a, at, count)->Ok_0.0,
            parser::questions_at(b, at, count)->Ok_0.0,
        ),
    decreases count,
{
    if count > 0 {
        let end = parser::questions_at(a, at, (count - 1) as nat)->Ok_0.1;
        labels_end_behind(a, end, 1, Seq::empty());
        questions_end_alike(a, b, at, (count - 1) as nat);
        labels_end_alike(a, b, end, 1, Seq::empty());
    }
}

/// What the envelope of a record says of its data depends on its own bytes alone.
proof fn records_alike(a: Seq<u8>, b: Seq<u8>, at: int)
    requires
        parser::record_at(a, at) is Ok,
        parser::record_at(b, at) is Ok,
        agree(a, b, at, parser::record_at(a, at)->Ok_0.start - 2),
    ensures
        ({
            let left = parser::record_at(a, at)->Ok_0;
            let right = parser::record_at(b, at)->Ok_0;
            &&& left.start == right.start
            &&& left.kind == right.kind
            &&& left.class == right.class
            &&& left.ttl == right.ttl
            &&& left.length == bytes::word_at(a, left.start - 2)
            &&& right.length == bytes::word_at(b, left.start - 2)
            &&& at + 11 <= left.start <= a.len()
        }),
{
    labels_end_behind(a, at, 1, Seq::empty());
    labels_end_alike(a, b, at, 1, Seq::empty());
}

/// A section that is read without an error has been read record by record.
proof fn section_goes_on(wire: Seq<u8>, section: RecordSection, count: nat, scan: ScanView)
    requires
        count > 0,
        parser::scan_section(wire, section, count, scan).error is None,
    ensures
        scan.error is None,
        parser::scan_record(wire, section, scan).error is None,
        parser::scan_section(wire, section, count, scan) == parser::scan_section(
            wire,
            section,
            (count - 1) as nat,
            parser::scan_record(wire, section, scan),
        ),
        parser::record_at(wire, scan.cursor) is Ok,
{
    let next = parser::scan_record(wire, section, scan);
    assert(next.error is Some ==> parser::scan_section(wire, section, (count - 1) as nat, next)
        == next);
}

/// Whether no OPT record may come in the rest of a section.
spec fn settled(section: RecordSection, scan: ScanView) -> bool {
    section != RecordSection::Additional || scan.edns is Some
}

proof fn settled_scan_keeps(wire: Seq<u8>, section: RecordSection, count: nat, scan: ScanView)
    requires
        settled(section, scan),
        0 <= scan.cursor <= wire.len(),
        parser::scan_section(wire, section, count, scan).error is None,
    ensures
        ({
            let done = parser::scan_section(wire, section, count, scan);
            &&& scan.error is None
            &&& scan.cursor <= done.cursor <= wire.len()
            &&& done.edns == scan.edns
            &&& done.cookie == scan.cookie
        }),
    decreases count,
{
    if count > 0 {
        section_goes_on(wire, section, count, scan);
        let next = parser::scan_record(wire, section, scan);
        labels_end_behind(wire, scan.cursor, 1, Seq::empty());
        settled_scan_keeps(wire, section, (count - 1) as nat, next);
    }
}

/// Records without OPT among them end at the same place and sign alike.
proof fn settled_scans_alike(
    a: Seq<u8>,
    b: Seq<u8>,
    section: RecordSection,
    count: nat,
    left: ScanView,
    right: ScanView,
)
    requires
        settled(section, left),
        settled(section, right),
        0 <= left.cursor <= a.len(),
        left.cursor == right.cursor <= b.len(),
        left.authenticated == right.authenticated,
        parser::scan_section(a, section, count, left).error is None,
        parser::scan_section(b, section, count, right).error is None,
        agree(a, b, left.cursor, parser::scan_section(a, section, count, left).cursor),
    ensures
        ({
            let done = parser::scan_section(a, section, count, left);
            let same = parser::scan_section(b, section, count, right);
            &&& done.cursor == same.cursor
            &&& done.authenticated == same.authenticated
        }),
    decreases count,
{
    settled_scan_keeps(a, section, count, left);
    settled_scan_keeps(b, section, count, right);
    if count > 0 {
        let one = parser::scan_record(a, section, left);
        let two = parser::scan_record(b, section, right);
        section_goes_on(a, section, count, left);
        section_goes_on(b, section, count, right);
        labels_end_behind(a, left.cursor, 1, Seq::empty());
        labels_end_behind(b, left.cursor, 1, Seq::empty());
        settled_scan_keeps(a, section, (count - 1) as nat, one);
        records_alike(a, b, left.cursor);
        let start = parser::record_at(a, left.cursor)->Ok_0.start;
        assert(bytes::word_at(a, start - 2) == bytes::word_at(b, start - 2));
        settled_scans_alike(a, b, section, (count - 1) as nat, one, two);
    }
}

/// A cookie that is still to be found stands in a record that is still to come.
proof fn cookie_comes_later(wire: Seq<u8>, count: nat, scan: ScanView, slot: CookieSlot)
    requires
        0 <= scan.cursor <= wire.len() <= 65535,
        scan.edns is None,
        scan.cookie is None,
        parser::scan_section(wire, RecordSection::Additional, count, scan).error is None,
        parser::scan_section(wire, RecordSection::Additional, count, scan).cookie == Some(
            CookieField::Present(slot),
        ),
    ensures
        scan.cursor + 9 <= slot.rdlength_at,
    decreases count,
{
    let next = parser::scan_record(wire, RecordSection::Additional, scan);
    assert(count > 0);
    section_goes_on(wire, RecordSection::Additional, count, scan);
    labels_end_behind(wire, scan.cursor, 1, Seq::empty());
    let record = parser::record_at(wire, scan.cursor)->Ok_0;
    let end = record.start + record.length;
    match record.class {
        ClassField::UdpPayload(_) => {
            settled_scan_keeps(wire, RecordSection::Additional, (count - 1) as nat, next);
            cookie::located_cookie_is_inside(wire, record.start, record.start, end);
        },
        ClassField::Dns(_) => {
            cookie_comes_later(wire, (count - 1) as nat, next, slot);
        },
    }
}

/// A rewritten cookie is found where the old one was.
proof fn renewed_cookie_is_found(
    a: Seq<u8>,
    b: Seq<u8>,
    start: int,
    slot: CookieSlot,
    length: nat,
    cursor: int,
    end: int,
)
    requires
        renewal::rewriting(a, b, start, slot, length),
        end <= a.len() <= 65535,
        start <= cursor,
        cookie::cookie_in(a, start, cursor, end) == Some(CookieField::Present(slot)),
    ensures
        cookie::cookie_in(b, start, cursor, end - slot.data_len + length) == Some(
            CookieField::Present(renewal::renewed(slot, length)),
        ),
    decreases end - cursor,
{
    cookie::located_cookie_is_inside(a, start, cursor, end);
    let next = cursor + 4 + bytes::word_at(a, cursor + 2);
    assert(bytes::word_at(b, cursor) == bytes::word_at(a, cursor));
    if bytes::word_at(a, cursor) != COOKIE_OPTION {
        cookie::located_cookie_is_inside(a, start, next, end);
        assert(bytes::word_at(b, cursor + 2) == bytes::word_at(a, cursor + 2));
        renewed_cookie_is_found(a, b, start, slot, length, next, end);
    } else {
        assert(slot.length_at == cursor + 2);
    }
}

/// The OPT record of a rewritten query says the same, around the new cookie.
proof fn opt_alike(
    a: Seq<u8>,
    b: Seq<u8>,
    left: ScanView,
    right: ScanView,
    slot: CookieSlot,
    length: nat,
)
    requires
        a.len() <= 65535,
        0 <= left.cursor <= a.len(),
        left.cursor == right.cursor <= b.len(),
        left.authenticated == right.authenticated,
        left.error is None,
        right.error is None,
        parser::record_at(a, left.cursor) is Ok,
        parser::record_at(a, left.cursor)->Ok_0.class is UdpPayload,
        parser::scan_record(a, RecordSection::Additional, left).error is None,
        parser::scan_record(b, RecordSection::Additional, right).error is None,
        parser::scan_record(a, RecordSection::Additional, left).cookie == Some(
            CookieField::Present(slot),
        ),
        renewal::rewriting(a, b, slot.rdlength_at + 2, slot, length),
        bytes::word_at(b, slot.rdlength_at as int) == bytes::word_at(a, slot.rdlength_at as int)
            - slot.data_len + length,
    ensures
        ({
            let one = parser::scan_record(a, RecordSection::Additional, left);
            let two = parser::scan_record(b, RecordSection::Additional, right);
            &&& two.cookie == Some(CookieField::Present(renewal::renewed(slot, length)))
            &&& two.edns == one.edns
            &&& one.edns is Some
            &&& two.authenticated == one.authenticated
            &&& two.cursor == one.cursor - slot.data_len + length
            &&& slot.data_at + slot.data_len <= one.cursor <= a.len()
            &&& 0 <= two.cursor <= b.len()
        }),
{
    labels_end_behind(a, left.cursor, 1, Seq::empty());
    let record = parser::record_at(a, left.cursor)->Ok_0;
    let start = record.start;
    let end = start + record.length;
    cookie::located_cookie_is_inside(a, start, start, end);
    assert(slot.rdlength_at == start - 2);
    assert(agree(a, b, left.cursor, start - 2));
    records_alike(a, b, left.cursor);
    renewed_cookie_is_found(a, b, start, slot, length, start, end);
}

/// The records behind a rewritten OPT say the same.
proof fn records_behind_opt_alike(
    a: Seq<u8>,
    b: Seq<u8>,
    count: nat,
    left: ScanView,
    right: ScanView,
    slot: CookieSlot,
    length: nat,
)
    requires
        left.edns is Some,
        right.edns is Some,
        left.authenticated == right.authenticated,
        slot.data_at + slot.data_len <= left.cursor <= a.len(),
        right.cursor == left.cursor - slot.data_len + length,
        0 <= right.cursor <= b.len(),
        parser::scan_section(a, RecordSection::Additional, count, left).error is None,
        parser::scan_section(b, RecordSection::Additional, count, right).error is None,
        length == slot.data_len || slot.data_at + slot.data_len == a.len(),
        b.len() == a.len() - slot.data_len + length,
        b.skip(slot.data_at + length) == a.skip(slot.data_at + slot.data_len),
    ensures
        ({
            let done = parser::scan_section(a, RecordSection::Additional, count, left);
            let same = parser::scan_section(b, RecordSection::Additional, count, right);
            &&& same.cookie == right.cookie
            &&& same.edns == right.edns
            &&& done.edns == left.edns
            &&& same.authenticated == done.authenticated
        }),
{
    settled_scan_keeps(a, RecordSection::Additional, count, left);
    settled_scan_keeps(b, RecordSection::Additional, count, right);
    if length == slot.data_len {
        let end = slot.data_at + slot.data_len;
        assert forall|i: int| left.cursor <= i < a.len() implies a[i] == b[i] by {
            assert(a.skip(end)[i - end] == b.skip(end)[i - end]);
        }
        settled_scans_alike(a, b, RecordSection::Additional, count, left, right);
    } else if count > 0 {
        section_goes_on(a, RecordSection::Additional, count, left);
    }
}

/// The additional records of a rewritten query say the same, around the new cookie.
proof fn additionals_alike(
    a: Seq<u8>,
    b: Seq<u8>,
    count: nat,
    left: ScanView,
    right: ScanView,
    slot: CookieSlot,
    length: nat,
)
    requires
        a.len() <= 65535,
        b.len() <= 65535,
        0 <= left.cursor <= a.len(),
        left.cursor == right.cursor <= b.len(),
        left.authenticated == right.authenticated,
        left.edns is None,
        right.edns is None,
        left.cookie is None,
        right.cookie is None,
        parser::scan_section(a, RecordSection::Additional, count, left).error is None,
        parser::scan_section(b, RecordSection::Additional, count, right).error is None,
        parser::scan_section(a, RecordSection::Additional, count, left).cookie == Some(
            CookieField::Present(slot),
        ),
        renewal::rewriting(a, b, slot.rdlength_at + 2, slot, length),
        bytes::word_at(b, slot.rdlength_at as int) == bytes::word_at(a, slot.rdlength_at as int)
            - slot.data_len + length,
    ensures
        ({
            let done = parser::scan_section(a, RecordSection::Additional, count, left);
            let same = parser::scan_section(b, RecordSection::Additional, count, right);
            &&& same.cookie == Some(CookieField::Present(renewal::renewed(slot, length)))
            &&& same.edns == done.edns
            &&& same.authenticated == done.authenticated
        }),
    decreases count,
{
    assert(count > 0);
    let one = parser::scan_record(a, RecordSection::Additional, left);
    let two = parser::scan_record(b, RecordSection::Additional, right);
    section_goes_on(a, RecordSection::Additional, count, left);
    section_goes_on(b, RecordSection::Additional, count, right);
    if parser::record_at(a, left.cursor)->Ok_0.class is UdpPayload {
        labels_end_behind(a, left.cursor, 1, Seq::empty());
        settled_scan_keeps(a, RecordSection::Additional, (count - 1) as nat, one);
        opt_alike(a, b, left, right, slot, length);
        records_behind_opt_alike(a, b, (count - 1) as nat, one, two, slot, length);
    } else {
        labels_end_behind(a, left.cursor, 1, Seq::empty());
        labels_end_behind(b, left.cursor, 1, Seq::empty());
        cookie_comes_later(a, (count - 1) as nat, one, slot);
        records_alike(a, b, left.cursor);
        let start = parser::record_at(a, left.cursor)->Ok_0.start;
        assert(bytes::word_at(a, start - 2) == bytes::word_at(b, start - 2));
        additionals_alike(a, b, (count - 1) as nat, one, two, slot, length);
    }
}

spec fn unscanned(at: int) -> ScanView {
    ScanView { cursor: at, edns: None, cookie: None, authenticated: false, error: None }
}

/// The place of the cookie of a message with respect to its sections.
proof fn cookie_stands_last(wire: Seq<u8>, counts: SectionCounts, at: int, slot: CookieSlot)
    requires
        0 <= at <= wire.len() <= 65535,
        parser::scan_records(wire, counts, at).error is None,
        parser::scan_records(wire, counts, at).cookie == Some(CookieField::Present(slot)),
    ensures
        ({
            let answers = parser::scan_section(
                wire,
                RecordSection::Answer,
                counts.answers as nat,
                unscanned(at),
            );
            let authorities = parser::scan_section(
                wire,
                RecordSection::Authority,
                counts.authorities as nat,
                answers,
            );
            &&& answers.error is None && authorities.error is None
            &&& at <= answers.cursor <= authorities.cursor <= wire.len()
            &&& authorities.cursor + 9 <= slot.rdlength_at
            &&& authorities.edns is None && authorities.cookie is None
        }),
{
    let answers = parser::scan_section(
        wire,
        RecordSection::Answer,
        counts.answers as nat,
        unscanned(at),
    );
    let authorities = parser::scan_section(
        wire,
        RecordSection::Authority,
        counts.authorities as nat,
        answers,
    );
    assert(authorities.error is None);
    assert(answers.error is None);
    settled_scan_keeps(wire, RecordSection::Answer, counts.answers as nat, unscanned(at));
    settled_scan_keeps(wire, RecordSection::Authority, counts.authorities as nat, answers);
    cookie_comes_later(wire, counts.additionals as nat, authorities, slot);
}

/// The records of a rewritten query say the same, around the new cookie.
proof fn scans_alike(
    a: Seq<u8>,
    b: Seq<u8>,
    counts: SectionCounts,
    at: int,
    slot: CookieSlot,
    length: nat,
)
    requires
        a.len() <= 65535,
        b.len() <= 65535,
        0 <= at <= a.len(),
        at <= b.len(),
        parser::scan_records(a, counts, at).error is None,
        parser::scan_records(b, counts, at).error is None,
        parser::scan_records(a, counts, at).cookie == Some(CookieField::Present(slot)),
        renewal::rewriting(a, b, slot.rdlength_at + 2, slot, length),
        bytes::word_at(b, slot.rdlength_at as int) == bytes::word_at(a, slot.rdlength_at as int)
            - slot.data_len + length,
    ensures
        ({
            let done = parser::scan_records(a, counts, at);
            let same = parser::scan_records(b, counts, at);
            &&& same.cookie == Some(CookieField::Present(renewal::renewed(slot, length)))
            &&& same.edns == done.edns
            &&& same.authenticated == done.authenticated
        }),
{
    cookie_stands_last(a, counts, at, slot);
    let one = parser::scan_section(a, RecordSection::Answer, counts.answers as nat, unscanned(at));
    let two = parser::scan_section(b, RecordSection::Answer, counts.answers as nat, unscanned(at));
    let three = parser::scan_section(
        a,
        RecordSection::Authority,
        counts.authorities as nat,
        one,
    );
    let four = parser::scan_section(b, RecordSection::Authority, counts.authorities as nat, two);
    assert(four.error is None);
    assert(two.error is None);
    settled_scan_keeps(a, RecordSection::Answer, counts.answers as nat, unscanned(at));
    settled_scan_keeps(b, RecordSection::Answer, counts.answers as nat, unscanned(at));
    settled_scan_keeps(a, RecordSection::Authority, counts.authorities as nat, one);
    settled_scan_keeps(b, RecordSection::Authority, counts.authorities as nat, two);
    settled_scans_alike(
        a,
        b,
        RecordSection::Answer,
        counts.answers as nat,
        unscanned(at),
        unscanned(at),
    );
    settled_scans_alike(a, b, RecordSection::Authority, counts.authorities as nat, one, two);
    additionals_alike(a, b, counts.additionals as nat, three, four, slot, length);
}

/// The parts of a message that parses: where its questions end, and what its
/// records say.
proof fn message_parts(message: Message) -> (at: int)
    requires
        parser::parsed(message.wire) == Ok::<Message, ParseError>(message),
    ensures
        ({
            let counts = message.header.counts;
            let scan = parser::scan_records(message.wire, counts, at);
            &&& 12 <= message.wire.len() <= 65535
            &&& message.header == Header::of(message.wire)
            &&& parser::questions_at(message.wire, 12, counts.questions as nat) == Ok::<
                (Seq<QuestionView>, int),
                ParseError,
            >((message.questions, at))
            &&& scan.error is None
            &&& scan.edns == message.edns
            &&& scan.cookie == message.cookie
            &&& scan.authenticated == message.authenticated
        }),
{
    parser::parsed_questions(message.wire)->Ok_0.1
}

proof fn questions_end_inside(wire: Seq<u8>, at: int, count: nat)
    requires
        0 <= at <= wire.len(),
        parser::questions_at(wire, at, count) is Ok,
    ensures
        at <= parser::questions_at(wire, at, count)->Ok_0.1 <= wire.len(),
    decreases count,
{
    if count > 0 {
        questions_end_inside(wire, at, (count - 1) as nat);
        let end = parser::questions_at(wire, at, (count - 1) as nat)->Ok_0.1;
        labels_end_behind(wire, end, 1, Seq::empty());
    }
}

/// Whether a message differs from a query in its cookie, and otherwise says the
/// same: only the names in it may be others.
pub open spec fn revises(query: Message, again: Message, cookie: CookieField) -> bool {
    &&& again.header == query.header
    &&& again.edns == query.edns
    &&& again.authenticated == query.authenticated
    &&& again.cookie == Some(cookie)
    &&& again.questions.len() == query.questions.len()
    &&& forall|i: int|
        0 <= i < query.questions.len() ==> (#[trigger] query.questions[i]).kind
            == again.questions[i].kind && query.questions[i].class == again.questions[i].class
}

proof fn rewriting_revises(
    query: Message,
    again: Message,
    at: int,
    end: int,
    slot: CookieSlot,
    length: nat,
)
    requires
        12 <= query.wire.len() <= 65535,
        12 <= again.wire.len() <= 65535,
        query.header == Header::of(query.wire),
        again.header == Header::of(again.wire),
        parser::questions_at(query.wire, 12, query.header.counts.questions as nat) == Ok::<
            (Seq<QuestionView>, int),
            ParseError,
        >((query.questions, at)),
        parser::questions_at(again.wire, 12, again.header.counts.questions as nat) == Ok::<
            (Seq<QuestionView>, int),
            ParseError,
        >((again.questions, end)),
        ({
            let scan = parser::scan_records(query.wire, query.header.counts, at);
            &&& scan.error is None
            &&& scan.edns == query.edns
            &&& scan.cookie == Some(CookieField::Present(slot))
            &&& scan.authenticated == query.authenticated
        }),
        ({
            let scan = parser::scan_records(again.wire, again.header.counts, end);
            &&& scan.error is None
            &&& scan.edns == again.edns
            &&& scan.cookie == again.cookie
            &&& scan.authenticated == again.authenticated
        }),
        renewal::rewriting(query.wire, again.wire, slot.rdlength_at + 2, slot, length),
        bytes::word_at(again.wire, slot.rdlength_at as int) == bytes::word_at(
            query.wire,
            slot.rdlength_at as int,
        ) - slot.data_len + length,
    ensures
        revises(query, again, CookieField::Present(renewal::renewed(slot, length))),
{
    let a = query.wire;
    let b = again.wire;
    questions_end_inside(a, 12, query.header.counts.questions as nat);
    cookie_stands_last(a, query.header.counts, at, slot);
    assert(again.header == query.header);
    questions_end_inside(b, 12, again.header.counts.questions as nat);
    questions_end_alike(a, b, 12, query.header.counts.questions as nat);
    scans_alike(a, b, query.header.counts, at, slot, length);
}

/// A rewritten query that parses is the same query with the cookie that the server
/// gave: it has the same header, question types, OPT and fate, and is not rewritten
/// for that cookie again. Its cookie is the client part that was sent, behind it the
/// server part of the response. Only the cookie and the two lengths that count it
/// are other bytes, and only a query that ends with its cookie changes in length.
pub proof fn rewritten_query_carries_the_new_cookie(
    query: Message,
    response: Message,
    again: Message,
)
    requires
        parser::parsed(query.wire) == Ok::<Message, ParseError>(query),
        parser::parsed(response.wire) == Ok::<Message, ParseError>(response),
        parser::parsed(again.wire) == Ok::<Message, ParseError>(again),
        cookie::retry_of(query, query.wire, response) == RetryView::Rewrite(again.wire),
    ensures
        query.cookie is Some,
        query.cookie->0 is Present,
        cookie::cookie_data(response) is Some,
        ({
            let slot = query.cookie->0->Present_0;
            let end = slot.data_at + slot.data_len;
            let sent = cookie::cookie_data(query)->0;
            let offered = cookie::cookie_data(response)->0;
            &&& revises(
                query,
                again,
                CookieField::Present(renewal::renewed(slot, offered.len())),
            )
            &&& again.decision() == query.decision()
            &&& cookie::cookie_data(again) == Some(sent.take(8) + offered.skip(8))
            &&& cookie::retry_of(again, again.wire, response) is Current
            &&& again.wire.skip(slot.data_at + offered.len()) == query.wire.skip(end)
            &&& forall|i: int|
                0 <= i < slot.data_at && i != slot.length_at && i != slot.length_at + 1 && i
                    != slot.rdlength_at && i != slot.rdlength_at + 1 ==> again.wire[i]
                    == query.wire[i]
            &&& again.wire.len() != query.wire.len() ==> end == query.wire.len()
        }),
{
    let at = message_parts(query);
    let end = message_parts(again);
    let slot = query.cookie->0->Present_0;
    let offered = cookie::cookie_data(response)->0;
    rewriting_holds(query, response, again.wire, at);
    rewriting_revises(query, again, at, end, slot, offered.len());
    retry_is_current(query, response, again);
}

/// What rewriting does to the bytes of a query that parses.
proof fn rewriting_holds(query: Message, response: Message, b: Seq<u8>, at: int)
    requires
        12 <= query.wire.len() <= 65535,
        parser::parsed(query.wire) == Ok::<Message, ParseError>(query),
        parser::parsed(response.wire) == Ok::<Message, ParseError>(response),
        cookie::retry_of(query, query.wire, response) == RetryView::Rewrite(b),
        parser::questions_at(query.wire, 12, query.header.counts.questions as nat) == Ok::<
            (Seq<QuestionView>, int),
            ParseError,
        >((query.questions, at)),
        parser::scan_records(query.wire, query.header.counts, at).error is None,
        parser::scan_records(query.wire, query.header.counts, at).cookie == query.cookie,
    ensures
        query.cookie is Some,
        query.cookie->0 is Present,
        cookie::cookie_data(response) is Some,
        shape::cookie_ok(response.wire, response.cookie),
        shape::slot_ok(query.wire, query.cookie->0->Present_0),
        ({
            let slot = query.cookie->0->Present_0;
            let offered = cookie::cookie_data(response)->0;
            &&& renewal::rewriting(query.wire, b, slot.rdlength_at + 2, slot, offered.len())
            &&& bytes::word_at(b, slot.rdlength_at as int) == bytes::word_at(
                query.wire,
                slot.rdlength_at as int,
            ) - slot.data_len + offered.len()
        }),
{
    let slot = query.cookie->0->Present_0;
    shape::parsed_message_shape(query.wire);
    shape::parsed_message_shape(response.wire);
    questions_end_inside(query.wire, 12, query.header.counts.questions as nat);
    cookie_stands_last(query.wire, query.header.counts, at, slot);
    renewal::retry_rewrites(query, response, b, slot.rdlength_at + 2);
}

/// A query with the cookie of a response is not rewritten for it again.
proof fn retry_is_current(query: Message, response: Message, again: Message)
    requires
        query.cookie is Some,
        query.cookie->0 is Present,
        shape::slot_ok(query.wire, query.cookie->0->Present_0),
        shape::cookie_ok(response.wire, response.cookie),
        cookie::retry_of(query, query.wire, response) == RetryView::Rewrite(again.wire),
        revises(
            query,
            again,
            CookieField::Present(
                renewal::renewed(
                    query.cookie->0->Present_0,
                    cookie::cookie_data(response)->0.len(),
                ),
            ),
        ),
    ensures
        again.decision() == query.decision(),
        cookie::cookie_data(again) == Some(
            cookie::cookie_data(query)->0.take(8) + cookie::cookie_data(response)->0.skip(8),
        ),
        cookie::retry_of(again, again.wire, response) is Current,
{
    let slot = query.cookie->0->Present_0;
    let sent = cookie::cookie_data(query)->0;
    let offered = cookie::cookie_data(response)->0;
    cookie::rewritten_query_is_current(query, response, again);
    cookie::rewrite_changes_only_the_cookie(query.wire, slot, sent.take(8), offered.skip(8));
}

} // verus!
