//! DNS COOKIE option location and the retry query with a server's cookie.
//!
//! Only the first COOKIE option is meaningful. Lengths other than 8 or 16 to 40
//! are malformed; a forwarder still accepts the message, but it cannot retry
//! from that option.
use crate::bytes::{self, push_slice, put_word, read_word, same_bytes};
use crate::dns::message::{Message, Packet};
use crate::dns::{shape, MAX_MESSAGE_LENGTH};
use vstd::prelude::*;
use vstd::slice::slice_subrange;

verus! {

pub const COOKIE_OPTION: u16 = 10;

/// Where the data of a COOKIE option stands in a message, and the two length
/// fields that count it.
#[derive(Debug, Clone, Copy, PartialEq, Eq, Structural)]
pub struct CookieSlot {
    pub length_at: usize,
    pub data_at: usize,
    pub data_len: usize,
    pub rdlength_at: usize,
}

#[derive(Debug, Clone, Copy, PartialEq, Eq, Structural)]
pub enum CookieField {
    Present(CookieSlot),
    Malformed,
}

/// The first COOKIE option among the options from `cursor` up to `end`, in
/// record data that starts at `start`.
///
/// An option that reaches beyond `end` or the message makes the field
/// malformed, as does a COOKIE of a length that the protocol does not know.
pub open spec fn cookie_in(wire: Seq<u8>, start: int, cursor: int, end: int) -> Option<CookieField>
    decreases end - cursor,
{
    let length = bytes::word_at(wire, cursor + 2);
    let data_at = cursor + 4;
    if data_at > end || data_at > wire.len() {
        None
    } else if data_at + length > end || data_at + length > wire.len() {
        Some(CookieField::Malformed)
    } else if bytes::word_at(wire, cursor) != COOKIE_OPTION {
        cookie_in(wire, start, data_at + length, end)
    } else if length == 8 || 16 <= length <= 40 {
        Some(
            CookieField::Present(
                CookieSlot {
                    length_at: (cursor + 2) as usize,
                    data_at: data_at as usize,
                    data_len: length as usize,
                    rdlength_at: (if start >= 2 {
                        start - 2
                    } else {
                        0
                    }) as usize,
                },
            ),
        )
    } else {
        Some(CookieField::Malformed)
    }
}

/// Finds the first COOKIE option in the data of an OPT record.
pub fn locate(wire: &[u8], rdata_at: usize, rdata_len: usize) -> (r: Option<CookieField>)
    ensures
        r == cookie_in(wire@, rdata_at as int, rdata_at as int, rdata_at + rdata_len),
{
    let end: usize = rdata_at.saturating_add(rdata_len);
    let size: usize = wire.len();
    let mut cursor: usize = rdata_at;
    while cursor <= end && end - cursor >= 4 && cursor <= size && size - cursor >= 4
        invariant
            size == wire@.len(),
            end == (if rdata_at + rdata_len <= usize::MAX {
                rdata_at + rdata_len
            } else {
                usize::MAX as int
            }),
            cookie_in(wire@, rdata_at as int, rdata_at as int, rdata_at + rdata_len) == cookie_in(
                wire@,
                rdata_at as int,
                cursor as int,
                rdata_at + rdata_len,
            ),
        decreases end - cursor,
    {
        let code: u16 = read_word(wire, cursor);
        let length: usize = read_word(wire, cursor + 2) as usize;
        let data_at: usize = cursor + 4;
        if end - data_at < length || size - data_at < length {
            return Some(CookieField::Malformed);
        }
        if code == COOKIE_OPTION {
            if length == 8 || (16 <= length && length <= 40) {
                return Some(
                    CookieField::Present(
                        CookieSlot {
                            length_at: cursor + 2,
                            data_at,
                            data_len: length,
                            rdlength_at: rdata_at.saturating_sub(2),
                        },
                    ),
                );
            }
            return Some(CookieField::Malformed);
        }
        cursor = data_at + length;
    }
    None
}

/// A located cookie lies inside the record data and the message, with its own
/// length field in front of it.
pub proof fn located_cookie_is_inside(wire: Seq<u8>, start: int, cursor: int, end: int)
    requires
        0 <= start <= cursor,
        wire.len() <= usize::MAX,
    ensures
        cookie_in(wire, start, cursor, end) matches Some(CookieField::Present(slot)) ==> {
            &&& slot.length_at + 2 == slot.data_at
            &&& cursor + 4 <= slot.data_at
            &&& slot.data_at + slot.data_len <= end
            &&& slot.data_at + slot.data_len <= wire.len()
            &&& slot.data_len == 8 || 16 <= slot.data_len <= 40
            &&& slot.data_len == bytes::word_at(wire, slot.length_at as int)
            &&& bytes::word_at(wire, slot.data_at - 4) == COOKIE_OPTION
            &&& slot.rdlength_at == (if start >= 2 {
                start - 2
            } else {
                0
            })
        },
    decreases end - cursor,
{
    let length = bytes::word_at(wire, cursor + 2);
    let next = cursor + 4 + length;
    if cursor + 4 <= end && cursor + 4 <= wire.len() && next <= end && next <= wire.len()
        && bytes::word_at(wire, cursor) != COOKIE_OPTION {
        located_cookie_is_inside(wire, start, next, end);
    }
}

/// The cookie that a message carries.
pub open spec fn cookie_data(message: Message) -> Option<Seq<u8>> {
    match message.cookie {
        Some(CookieField::Present(slot)) => Some(
            message.wire.subrange(slot.data_at as int, slot.data_at + slot.data_len),
        ),
        _ => None,
    }
}

/// Whether a response proves that it answers the cookie of `query`.
///
/// A query without a cookie asks for no proof. Otherwise a cookie in the
/// response must hold a server part behind the client part that was sent, and
/// one must be there where `required`.
pub open spec fn cookie_proved(query: Message, response: Message, required: bool) -> bool {
    match cookie_data(query) {
        None => true,
        Some(sent) => match response.cookie {
            None => !required,
            Some(CookieField::Malformed) => false,
            Some(CookieField::Present(_)) => {
                let data = cookie_data(response)->0;
                data.len() >= 16 && data.take(8) == sent.take(8)
            },
        },
    }
}

/// How a BADCOOKIE response relates to the COOKIE option that was sent.
pub enum RetryView {
    Absent,
    Discard,
    Current,
    Rewrite(Seq<u8>),
    Leave,
}

/// How a BADCOOKIE response relates to the COOKIE option that was sent.
#[derive(Debug)]
pub enum ServerCookieRetry {
    /// No COOKIE option was sent, so there is nothing to retry with.
    Absent,
    /// The response cookie is unusable, and the response is to be discarded.
    Discard,
    /// The server cookie in the response is already the one that was sent.
    Current,
    /// Query bytes using the server cookie from the response.
    Rewrite(Vec<u8>),
    /// The server cookie would move later bytes. Compression pointers are
    /// absolute offsets, so the query stays as it was.
    Leave,
}

impl View for ServerCookieRetry {
    type V = RetryView;

    open spec fn view(&self) -> RetryView {
        match self {
            ServerCookieRetry::Absent => RetryView::Absent,
            ServerCookieRetry::Discard => RetryView::Discard,
            ServerCookieRetry::Current => RetryView::Current,
            ServerCookieRetry::Rewrite(wire) => RetryView::Rewrite(wire@),
            ServerCookieRetry::Leave => RetryView::Leave,
        }
    }
}

/// The bytes of `query` with the cookie of a slot replaced, and both length
/// fields corrected.
pub open spec fn rewritten(
    query: Seq<u8>,
    slot: CookieSlot,
    client: Seq<u8>,
    server: Seq<u8>,
) -> Option<Seq<u8>> {
    let end = slot.data_at + slot.data_len;
    let body = query.take(slot.data_at as int) + client + server + query.skip(end);
    let sized = bytes::with_word(body, slot.length_at as int, (8 + server.len()) as u16);
    let rdlength = bytes::word_at(sized, slot.rdlength_at as int) + 8 + server.len()
        - slot.data_len;
    if !(8 <= server.len() <= 32) || slot.rdlength_at + 2 > slot.data_at || end > query.len()
        || body.len() > MAX_MESSAGE_LENGTH || !(0 <= rdlength <= 65535) {
        None
    } else {
        Some(bytes::with_word(sized, slot.rdlength_at as int, rdlength as u16))
    }
}

/// What to do with `sent`, which has the cookie slot of `query`, after
/// `response` refused its cookie.
pub open spec fn retry_of(query: Message, sent: Seq<u8>, response: Message) -> RetryView {
    match (query.cookie, cookie_data(response)) {
        (None, _) => RetryView::Absent,
        (Some(CookieField::Present(slot)), Some(offered)) => {
            let end = slot.data_at + slot.data_len;
            let held = sent.subrange(slot.data_at as int, end);
            let server = offered.skip(8);
            if end > sent.len() || offered.len() < 16 || held.take(8) != offered.take(8) {
                RetryView::Discard
            } else if held.len() > 8 && held.skip(8) == server {
                RetryView::Current
            } else if 8 + server.len() != slot.data_len && end != sent.len() {
                RetryView::Leave
            } else {
                match rewritten(sent, slot, held.take(8), server) {
                    Some(wire) => RetryView::Rewrite(wire),
                    None => RetryView::Discard,
                }
            }
        },
        _ => RetryView::Discard,
    }
}

/// The cookie that a message carries.
pub fn response_cookie(packet: &Packet) -> (r: Option<&[u8]>)
    ensures
        match (cookie_data(packet@), r) {
            (Some(data), Some(octets)) => octets@ == data && shape::message_ok(packet@)
                && shape::slot_ok(packet@.wire, packet@.cookie->0->Present_0),
            (None, None) => true,
            _ => false,
        },
{
    let wire = packet.wire();
    proof {
        shape::parsed_message_shape(wire@);
    }
    match packet.cookie() {
        Some(CookieField::Present(slot)) => Some(
            slice_subrange(wire, slot.data_at, slot.data_at + slot.data_len),
        ),
        _ => None,
    }
}

/// Whether a response proves that it answers the cookie of `query`.
pub fn valid_response(query: &Packet, response: &Packet, required: bool) -> (r: bool)
    ensures
        r == cookie_proved(query@, response@, required),
{
    let sent = match response_cookie(query) {
        Some(sent) => sent,
        None => {
            return true;
        },
    };
    match response.cookie() {
        None => !required,
        Some(CookieField::Malformed) => false,
        Some(CookieField::Present(_)) => match response_cookie(response) {
            Some(data) => {
                assert(data@.take(8) =~= data@.subrange(0, 8));
                assert(sent@.take(8) =~= sent@.subrange(0, 8));
                data.len() >= 16 && same_bytes(
                    slice_subrange(data, 0, 8),
                    slice_subrange(sent, 0, 8),
                )
            },
            None => false,
        },
    }
}

/// Decides how `sent` can be asked again with the cookie of `response`.
pub fn retry(query: &Packet, sent: &[u8], response: &Packet) -> (r: ServerCookieRetry)
    ensures
        r@ == retry_of(query@, sent@, response@),
{
    let slot = match query.cookie() {
        None => {
            return ServerCookieRetry::Absent;
        },
        Some(CookieField::Malformed) => {
            return ServerCookieRetry::Discard;
        },
        Some(CookieField::Present(slot)) => slot,
    };
    let offered = match response_cookie(response) {
        None => {
            return ServerCookieRetry::Discard;
        },
        Some(offered) => offered,
    };
    let wire = query.wire();
    proof {
        shape::parsed_message_shape(wire@);
    }
    let end: usize = slot.data_at + slot.data_len;
    if end > sent.len() {
        return ServerCookieRetry::Discard;
    }
    let held = slice_subrange(sent, slot.data_at, end);
    if offered.len() < 16 {
        return ServerCookieRetry::Discard;
    }
    let client = slice_subrange(held, 0, 8);
    assert(held@.take(8) =~= client@);
    assert(offered@.take(8) =~= offered@.subrange(0, 8));
    if !same_bytes(client, slice_subrange(offered, 0, 8)) {
        return ServerCookieRetry::Discard;
    }
    let server = slice_subrange(offered, 8, offered.len());
    assert(offered@.skip(8) =~= server@);
    assert(held@.skip(8) =~= held@.subrange(8, held@.len() as int));
    if held.len() > 8 && same_bytes(slice_subrange(held, 8, held.len()), server) {
        return ServerCookieRetry::Current;
    }
    // A pointer after this option names a byte offset. Growing or shrinking
    // the option moves those bytes, and opaque RDATA can hide further pointers.
    if 8 + server.len() != slot.data_len && end != sent.len() {
        return ServerCookieRetry::Leave;
    }
    match rewrite(sent, slot, client, server) {
        Some(wire) => ServerCookieRetry::Rewrite(wire),
        None => ServerCookieRetry::Discard,
    }
}

/// Replaces the cookie in a slot and corrects both length fields that count it.
pub fn rewrite(query: &[u8], slot: CookieSlot, client: &[u8], server: &[u8]) -> (r: Option<Vec<u8>>)
    requires
        slot.length_at + 2 <= slot.data_at,
        slot.rdlength_at + 2 <= usize::MAX,
        slot.data_at + slot.data_len <= usize::MAX,
    ensures
        match (rewritten(query@, slot, client@, server@), r) {
            (Some(wire), Some(octets)) => octets@ == wire,
            (None, None) => true,
            _ => false,
        },
{
    if server.len() < 8 || server.len() > 32 || slot.rdlength_at + 2 > slot.data_at {
        return None;
    }
    let end: usize = slot.data_at + slot.data_len;
    if end > query.len() {
        return None;
    }
    let new_len: usize = 8 + server.len();
    let mut out: Vec<u8> = Vec::new();
    push_slice(&mut out, slice_subrange(query, 0, slot.data_at));
    push_slice(&mut out, client);
    push_slice(&mut out, server);
    push_slice(&mut out, slice_subrange(query, end, query.len()));
    assert(query@.take(slot.data_at as int) =~= query@.subrange(0, slot.data_at as int));
    assert(query@.skip(end as int) =~= query@.subrange(end as int, query@.len() as int));
    assert(out@ =~= query@.take(slot.data_at as int) + client@ + server@ + query@.skip(end as int));
    if out.len() > MAX_MESSAGE_LENGTH {
        return None;
    }
    put_word(&mut out, slot.length_at, new_len as u16);
    let rdlength: usize = read_word(out.as_slice(), slot.rdlength_at) as usize + new_len;
    if rdlength < slot.data_len || rdlength - slot.data_len > 65535 {
        return None;
    }
    put_word(&mut out, slot.rdlength_at, (rdlength - slot.data_len) as u16);
    Some(out)
}

/// A rewritten query differs from the query in its cookie and in the two length
/// fields that count it; what follows the cookie follows the new one.
pub proof fn rewrite_changes_only_the_cookie(
    query: Seq<u8>,
    slot: CookieSlot,
    client: Seq<u8>,
    server: Seq<u8>,
)
    requires
        shape::slot_ok(query, slot),
        client.len() == 8,
    ensures
        rewritten(query, slot, client, server) matches Some(wire) ==> {
            let end = slot.data_at + slot.data_len;
            let new_end = slot.data_at + 8 + server.len();
            &&& wire.len() == query.len() - slot.data_len + 8 + server.len()
            &&& wire.subrange(slot.data_at as int, new_end) == client + server
            &&& wire.skip(new_end) == query.skip(end)
            &&& bytes::word_at(wire, slot.length_at as int) == 8 + server.len()
            &&& bytes::word_at(wire, slot.rdlength_at as int) == bytes::word_at(
                query,
                slot.rdlength_at as int,
            ) - slot.data_len + 8 + server.len()
            &&& forall|i: int|
                0 <= i < slot.data_at && i != slot.length_at && i != slot.length_at + 1 && i
                    != slot.rdlength_at && i != slot.rdlength_at + 1 ==> wire[i] == query[i]
        },
{
    match rewritten(query, slot, client, server) {
        Some(wire) => {
            let end = slot.data_at + slot.data_len;
            let new_end = slot.data_at + 8 + server.len();
            let body = query.take(slot.data_at as int) + client + server + query.skip(end);
            let sized = bytes::with_word(body, slot.length_at as int, (8 + server.len()) as u16);
            assert(wire.subrange(slot.data_at as int, new_end) =~= client + server);
            assert(wire.skip(new_end) =~= query.skip(end));
            assert(sized[slot.rdlength_at as int] == query[slot.rdlength_at as int]);
            assert(sized[slot.rdlength_at + 1] == query[slot.rdlength_at + 1]);
            assert(wire[slot.length_at as int] == sized[slot.length_at as int]);
            assert(wire[slot.length_at + 1] == sized[slot.length_at + 1]);
        },
        None => {},
    }
}

/// A query that was rewritten for a response already has that response's cookie:
/// it is not rewritten again.
pub proof fn rewritten_query_is_current(query: Message, response: Message, again: Message)
    requires
        query.cookie matches Some(CookieField::Present(slot)) && shape::slot_ok(query.wire, slot)
            && again.cookie == Some(
            CookieField::Present(
                (CookieSlot {
                    data_len: cookie_data(response)->0.len() as usize,
                    ..slot
                }),
            ),
        ),
        shape::cookie_ok(response.wire, response.cookie),
        retry_of(query, query.wire, response) matches RetryView::Rewrite(wire) && again.wire
            == wire,
    ensures
        retry_of(again, again.wire, response) is Current,
{
    let slot = query.cookie->0->Present_0;
    let offered = cookie_data(response)->0;
    let held = query.wire.subrange(slot.data_at as int, slot.data_at + slot.data_len);
    rewrite_changes_only_the_cookie(query.wire, slot, held.take(8), offered.skip(8));
    let now = again.wire.subrange(slot.data_at as int, slot.data_at + offered.len());
    assert(now =~= held.take(8) + offered.skip(8));
    assert(now.take(8) =~= offered.take(8));
    assert(now.skip(8) =~= offered.skip(8));
}

/// A retry has nothing to work with exactly where the query has no COOKIE option.
pub proof fn retry_is_absent_without_a_cookie(query: Message, sent: Seq<u8>, response: Message)
    ensures
        retry_of(query, sent, response) is Absent <==> query.cookie is None,
{
}

/// A rewritten query is no shorter than a header.
pub proof fn retry_keeps_a_header(query: Message, response: Message)
    requires
        shape::message_ok(query),
    ensures
        retry_of(query, query.wire, response) matches RetryView::Rewrite(wire) ==> wire.len() >= 12,
{
}

} // verus!
