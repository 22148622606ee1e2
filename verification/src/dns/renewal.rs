//! A query that was rewritten for a server's cookie is still the same query.
use crate::bytes;
use crate::dns::cookie::{self, CookieField, CookieSlot, RetryView, COOKIE_OPTION};
use crate::dns::error::ParseError;
use crate::dns::message::{Header, Message, QuestionView, RecordSection};
use crate::dns::name;
use crate::dns::parser::{self, RecordView, ScanView};
use crate::dns::readback;
use crate::dns::shape;
use vstd::prelude::*;

verus! {

/// A query as resolvers and stubs write it: one question whose name is written
/// out, and OPT as the only record.
pub open spec fn plainly_written(query: Message) -> bool {
    &&& query.questions.len() == 1
    &&& query.header.counts.answers == 0
    &&& query.header.counts.authorities == 0
    &&& query.header.counts.additionals == 1
    &&& query.edns is Some
    &&& 12 + query.questions[0].form().len() <= query.wire.len()
    &&& query.wire.subrange(12, 12 + query.questions[0].form().len() as int)
        == query.questions[0].form()
}

/// The slot of a rewritten cookie.
pub open spec fn renewed(slot: CookieSlot, length: nat) -> CookieSlot {
    CookieSlot { data_len: length as usize, ..slot }
}

/// A root name is read from bytes that do not lie behind its own encoding.
proof fn root_name_agrees(a: Seq<u8>, b: Seq<u8>, at: int, limit: int, visited: Seq<int>)
    requires
        12 <= at,
        at + 2 <= limit,
        limit <= a.len(),
        limit <= b.len(),
        forall|i: int| 12 <= i < limit ==> a[i] == b[i],
        name::labels_at(a, at, 1, visited) matches Ok((labels, _)) && labels.len() == 0,
    ensures
        name::labels_at(b, at, 1, visited) == name::labels_at(a, at, 1, visited),
    decreases 128 - visited.len(),
{
    if a[at] >= 192 {
        let target = (a[at] - 192) * 256 + a[at + 1];
        root_name_agrees(a, b, target, limit, visited.push(target));
    }
}

/// Framing depends only on what is still to come.
proof fn framing_agrees(a: Seq<u8>, b: Seq<u8>, at: int)
    requires
        0 <= at,
        a.len() == b.len(),
        forall|i: int| at <= i < a.len() ==> a[i] == b[i],
    ensures
        parser::options_framed(a, at) == parser::options_framed(b, at),
    decreases a.len() - at,
{
    if at < a.len() && at + 4 <= a.len() {
        let next = at + 4 + bytes::word_at(a, at + 2);
        assert(bytes::word_at(b, at + 2) == bytes::word_at(a, at + 2));
        if next <= a.len() {
            framing_agrees(a, b, next);
        }
    }
}

/// What a rewriting does to the bytes of a query, and to its OPT data from `start`.
pub open spec fn rewriting(a: Seq<u8>, b: Seq<u8>, start: int, slot: CookieSlot, length: nat) -> bool {
    let end = slot.data_at + slot.data_len;
    &&& shape::slot_ok(a, slot)
    &&& 14 <= start
    &&& slot.rdlength_at == start - 2
    &&& start + 4 <= slot.data_at
    &&& 16 <= length <= 40
    &&& length == slot.data_len || end == a.len()
    &&& b.len() == a.len() - slot.data_len + length
    &&& bytes::word_at(b, slot.length_at as int) == length
    &&& forall|i: int|
        0 <= i < slot.data_at && i != slot.length_at && i != slot.length_at + 1 && i != start - 2
            && i != start - 1 ==> a[i] == b[i]
    &&& b.skip(slot.data_at + length) == a.skip(end)
}

/// The options of a rewritten OPT are framed, and its cookie is found at the same
/// place with its new length.
proof fn options_are_renewed(
    a: Seq<u8>,
    b: Seq<u8>,
    start: int,
    slot: CookieSlot,
    length: nat,
    cursor: int,
)
    requires
        rewriting(a, b, start, slot, length),
        a.len() <= usize::MAX,
        start <= cursor,
        cookie::cookie_in(a, start, cursor, a.len() as int) == Some(CookieField::Present(slot)),
        parser::options_framed(a.subrange(start, a.len() as int), cursor - start),
    ensures
        cookie::cookie_in(b, start, cursor, b.len() as int) == Some(
            CookieField::Present(renewed(slot, length)),
        ),
        parser::options_framed(b.subrange(start, b.len() as int), cursor - start),
    decreases a.len() - cursor,
{
    let da = a.subrange(start, a.len() as int);
    let db = b.subrange(start, b.len() as int);
    cookie::located_cookie_is_inside(a, start, cursor, a.len() as int);
    let next = cursor + 4 + bytes::word_at(a, cursor + 2);
    assert(da[cursor - start + 2] == a[cursor + 2]);
    assert(da[cursor - start + 3] == a[cursor + 3]);
    assert(bytes::word_at(da, cursor - start + 2) == bytes::word_at(a, cursor + 2));
    assert(a[cursor] == b[cursor] && a[cursor + 1] == b[cursor + 1]);
    if bytes::word_at(a, cursor) != COOKIE_OPTION {
        cookie::located_cookie_is_inside(a, start, next, a.len() as int);
        assert(next + 4 <= slot.data_at);
        assert(a[cursor + 2] == b[cursor + 2] && a[cursor + 3] == b[cursor + 3]);
        assert(db[cursor - start + 2] == b[cursor + 2]);
        assert(db[cursor - start + 3] == b[cursor + 3]);
        options_are_renewed(a, b, start, slot, length, next);
        assert(next <= b.len());
    } else {
        assert(slot.length_at == cursor + 2);
        assert(db[cursor - start + 2] == b[cursor + 2]);
        assert(db[cursor - start + 3] == b[cursor + 3]);
        let after = slot.data_at + length;
        assert(after <= b.len());
        if length == slot.data_len {
            assert forall|i: int| next - start <= i < da.len() implies da[i] == db[i] by {
                assert(a.skip(next)[start + i - next] == b.skip(after)[start + i - next]);
            }
            framing_agrees(da, db, next - start);
        } else {
            assert(after == b.len());
        }
        assert(parser::options_framed(db, after - start));
    }
}

/// The OPT record of a rewritten query says the same, around its new cookie.
proof fn record_is_renewed(
    a: Seq<u8>,
    b: Seq<u8>,
    at: int,
    slot: CookieSlot,
    length: nat,
    none: ScanView,
)
    requires
        a.len() <= 65535,
        b.len() <= 65535,
        12 <= at,
        none.cursor == at,
        none.edns is None,
        none.error is None,
        parser::record_at(a, at) matches Ok(record) && rewriting(a, b, record.start, slot, length)
            && record.start + record.length == a.len() && bytes::word_at(b, record.start - 2)
            == record.length - slot.data_len + length,
        ({
            let scan = parser::scan_record(a, RecordSection::Additional, none);
            scan.error is None && scan.edns is Some && scan.cookie == Some(
                CookieField::Present(slot),
            )
        }),
        none.cookie is None,
    ensures
        parser::scan_record(b, RecordSection::Additional, none) == (ScanView {
            cursor: b.len() as int,
            cookie: Some(CookieField::Present(renewed(slot, length))),
            ..parser::scan_record(a, RecordSection::Additional, none)
        }),
{
    let record = parser::record_at(a, at)->Ok_0;
    let start = record.start;
    name::decoded_name_fits(a, at);
    let end = name::name_at(a, at)->Ok_0.1;
    assert(start == end + 10);
    assert(record.class is UdpPayload);
    root_name_ends_soon(a, at, Seq::empty());
    root_name_agrees(a, b, at, start - 2, Seq::empty());
    assert(name::name_at(b, at) == name::name_at(a, at));
    assert forall|i: int| end <= i < end + 8 implies a[i] == b[i] by {}
    assert(bytes::word_at(b, end) == bytes::word_at(a, end));
    assert(bytes::word_at(b, end + 2) == bytes::word_at(a, end + 2));
    assert(bytes::double_word_at(b, end + 4) == bytes::double_word_at(a, end + 4));
    assert(parser::record_at(b, at) == Ok::<RecordView, ParseError>(
        RecordView { length: record.length - slot.data_len + length, ..record },
    ));
    options_are_renewed(a, b, start, slot, length, start);
}

/// A root name takes one octet or a pointer.
proof fn root_name_ends_soon(wire: Seq<u8>, at: int, visited: Seq<int>)
    requires
        name::labels_at(wire, at, 1, visited) matches Ok((labels, _)) && labels.len() == 0,
    ensures
        at < name::labels_at(wire, at, 1, visited)->Ok_0.1 <= at + 2,
        at + 1 < wire.len() || name::labels_at(wire, at, 1, visited)->Ok_0.1 == at + 1,
{
}

/// The parts of a plainly written query with a cookie.
proof fn plain_query_parts(query: Message, slot: CookieSlot) -> (record: RecordView)
    requires
        parser::parsed(query.wire) == Ok::<Message, ParseError>(query),
        plainly_written(query),
        query.cookie == Some(CookieField::Present(slot)),
    ensures
        ({
            let a = query.wire;
            let at = 12 + query.questions[0].form().len() as int;
            let none = ScanView {
                cursor: at,
                edns: None,
                cookie: None,
                authenticated: false,
                error: None,
            };
            let scan = parser::scan_record(a, RecordSection::Additional, none);
            &&& query.header == Header::of(a)
            &&& query.header.counts.questions == 1
            &&& 12 <= a.len() <= 65535
            &&& shape::slot_ok(a, slot)
            &&& shape::question_ok(query.questions[0])
            &&& parser::record_at(a, at) == Ok::<RecordView, ParseError>(record)
            &&& record.start + record.length == a.len()
            &&& 14 <= record.start
            &&& slot.rdlength_at == record.start - 2
            &&& bytes::word_at(a, record.start - 2) == record.length
            &&& record.start + 4 <= slot.data_at
            &&& scan == (ScanView {
                cursor: a.len() as int,
                edns: query.edns,
                cookie: query.cookie,
                authenticated: query.authenticated,
                error: None,
            })
        }),
{
    let a = query.wire;
    let asked = query.questions[0];
    let form = asked.form();
    let at = 12 + form.len() as int;
    shape::parsed_message_shape(a);
    assert(shape::question_ok(asked));
    assert(a =~= a.take(12) + form + a.skip(at));
    readback::question_reads_back(a.take(12), asked, a.skip(at));
    readback::few_questions(a, Some(asked), at);
    let none = ScanView {
        cursor: at,
        edns: None,
        cookie: None,
        authenticated: false,
        error: None,
    };
    let scan = parser::scan_record(a, RecordSection::Additional, none);
    readback::few_records(a, query.header.counts, at, scan);
    let record = parser::record_at(a, at)->Ok_0;
    name::decoded_name_fits(a, at);
    cookie::located_cookie_is_inside(a, record.start, record.start, a.len() as int);
    record
}

/// Bytes that rewriting makes of a plainly written query parse as that query with
/// the new cookie.
proof fn renewed_query_parses(
    query: Message,
    b: Seq<u8>,
    record: RecordView,
    slot: CookieSlot,
    length: nat,
)
    requires
        plainly_written(query),
        query.header == Header::of(query.wire),
        query.header.counts.questions == 1,
        query.wire.len() <= 65535,
        b.len() <= 65535,
        shape::question_ok(query.questions[0]),
        query.cookie == Some(CookieField::Present(slot)),
        rewriting(query.wire, b, record.start, slot, length),
        record.start + record.length == query.wire.len(),
        bytes::word_at(b, record.start - 2) == record.length - slot.data_len + length,
        ({
            let at = 12 + query.questions[0].form().len() as int;
            let none = ScanView {
                cursor: at,
                edns: None,
                cookie: None,
                authenticated: false,
                error: None,
            };
            &&& parser::record_at(query.wire, at) == Ok::<RecordView, ParseError>(record)
            &&& parser::scan_record(query.wire, RecordSection::Additional, none) == (ScanView {
                cursor: query.wire.len() as int,
                edns: query.edns,
                cookie: query.cookie,
                authenticated: query.authenticated,
                error: None,
            })
        }),
    ensures
        parser::parsed(b) == Ok::<Message, ParseError>(
            (Message {
                wire: b,
                cookie: Some(CookieField::Present(renewed(slot, length))),
                ..query
            }),
        ),
{
    let a = query.wire;
    let asked = query.questions[0];
    let at = 12 + asked.form().len() as int;
    let none = ScanView {
        cursor: at,
        edns: None,
        cookie: None,
        authenticated: false,
        error: None,
    };
    record_is_renewed(a, b, at, slot, length, none);
    let scan = parser::scan_record(b, RecordSection::Additional, none);
    name::decoded_name_fits(a, at);
    front_is_kept(a, b, asked, record.start, slot, length);
    assert(readback::reply_questions(Some(asked)) =~= query.questions);
    readback::few_records(b, query.header.counts, at, scan);
    readback::assembled(b, query.header, query.questions, at, scan);
}

/// The header and the question of a rewritten query are those of the query.
proof fn front_is_kept(
    a: Seq<u8>,
    b: Seq<u8>,
    asked: QuestionView,
    start: int,
    slot: CookieSlot,
    length: nat,
)
    requires
        shape::question_ok(asked),
        rewriting(a, b, start, slot, length),
        12 + asked.form().len() < start - 2,
        12 + asked.form().len() <= a.len(),
        a.subrange(12, 12 + asked.form().len() as int) == asked.form(),
    ensures
        Header::of(b) == Header::of(a),
        parser::questions_at(b, 12, 1) == Ok::<(Seq<QuestionView>, int), ParseError>(
            (readback::reply_questions(Some(asked)), 12 + asked.form().len() as int),
        ),
{
    let at = 12 + asked.form().len() as int;
    assert forall|i: int| 0 <= i < at implies a[i] == b[i] by {}
    assert(b.take(12) + asked.form() + b.skip(at) =~= b) by {
        assert forall|i: int| 12 <= i < at implies b[i] == asked.form()[i - 12] by {
            assert(a.subrange(12, at)[i - 12] == a[i]);
        }
    }
    readback::question_reads_back(b.take(12), asked, b.skip(at));
    readback::few_questions(b, Some(asked), at);
}

/// What a retry rewrites, in terms of the bytes.
pub proof fn retry_rewrites(query: Message, response: Message, b: Seq<u8>, start: int)
    requires
        cookie::retry_of(query, query.wire, response) == RetryView::Rewrite(b),
        query.cookie is Some,
        query.cookie->0 is Present,
        shape::slot_ok(query.wire, query.cookie->0->Present_0),
        shape::cookie_ok(response.wire, response.cookie),
        14 <= start,
        query.cookie->0->Present_0.rdlength_at == start - 2,
    ensures
        ({
            let slot = query.cookie->0->Present_0;
            let offered = cookie::cookie_data(response)->0;
            &&& cookie::cookie_data(response) is Some
            &&& rewriting(query.wire, b, start, slot, offered.len())
            &&& bytes::word_at(b, start - 2) == bytes::word_at(query.wire, start - 2)
                - slot.data_len + offered.len()
            &&& b.len() <= 65535
            &&& b.subrange(slot.data_at as int, slot.data_at + offered.len()) == offered
        }),
{
    let a = query.wire;
    let slot = query.cookie->0->Present_0;
    let offered = cookie::cookie_data(response)->0;
    let held = a.subrange(slot.data_at as int, slot.data_at + slot.data_len);
    let server = offered.skip(8);
    cookie::rewrite_changes_only_the_cookie(a, slot, held.take(8), server);
    assert(held.take(8) + server =~= offered) by {
        assert(offered.take(8) + offered.skip(8) =~= offered);
    }
}

/// A plainly written query that is rewritten for a server's cookie is still the
/// same query: it parses, with the same header, question and OPT, carries exactly
/// the cookie that the server gave, and is not rewritten for it again.
pub proof fn rewritten_query_is_the_same_query(query: Message, response: Message)
    requires
        parser::parsed(query.wire) == Ok::<Message, ParseError>(query),
        parser::parsed(response.wire) == Ok::<Message, ParseError>(response),
        plainly_written(query),
    ensures
        cookie::retry_of(query, query.wire, response) matches RetryView::Rewrite(wire) ==> {
            let slot = query.cookie->0->Present_0;
            let offered = cookie::cookie_data(response)->0;
            let again = Message {
                wire,
                cookie: Some(CookieField::Present(renewed(slot, offered.len()))),
                ..query
            };
            &&& parser::parsed(wire) == Ok::<Message, ParseError>(again)
            &&& cookie::cookie_data(again) == Some(offered)
            &&& again.decision() == query.decision()
            &&& cookie::retry_of(again, wire, response) is Current
        },
{
    match cookie::retry_of(query, query.wire, response) {
        RetryView::Rewrite(b) => {
            let slot = query.cookie->0->Present_0;
            let offered = cookie::cookie_data(response)->0;
            let record = plain_query_parts(query, slot);
            shape::parsed_message_shape(response.wire);
            retry_rewrites(query, response, b, record.start);
            renewed_query_parses(query, b, record, slot, offered.len());
            let again = Message {
                wire: b,
                cookie: Some(CookieField::Present(renewed(slot, offered.len()))),
                ..query
            };
            cookie::rewritten_query_is_current(query, response, again);
        },
        _ => {},
    }
}

} // verus!
