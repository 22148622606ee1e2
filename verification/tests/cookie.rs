use sederial::dns::cookie::{CookieField, ServerCookieRetry, COOKIE_OPTION};
use sederial::dns::message::{Packet, QueryDecision};

fn query_with_cookie(server: Option<&[u8]>) -> Vec<u8> {
    let mut wire = b"\x12\x34\x01\x00\x00\x01\x00\x00\x00\x00\x00\x01\
        \x03www\x07example\x03com\x00\x00\x01\x00\x01\x00\x00\x29\x04\xd0\x00\x00\x00\x00"
        .to_vec();
    let server_len = server.map_or(0, <[u8]>::len);
    let data_len = (8 + server_len) as u16;
    wire.extend_from_slice(&(4 + data_len).to_be_bytes());
    wire.extend_from_slice(&COOKIE_OPTION.to_be_bytes());
    wire.extend_from_slice(&data_len.to_be_bytes());
    wire.extend_from_slice(&[1, 2, 3, 4, 5, 6, 7, 8]);
    if let Some(server) = server {
        wire.extend_from_slice(server);
    }
    wire
}

fn as_badcookie(mut wire: Vec<u8>) -> Vec<u8> {
    wire[2] |= 0x80;
    wire[3] = 0x87;
    let opt = 12 + b"\x03www\x07example\x03com\x00\x00\x01\x00\x01".len();
    wire[opt + 5] = 1;
    wire
}

#[test]
fn retry_inserts_the_server_cookie_and_rejects_a_mismatch() {
    let sent = query_with_cookie(None);
    let parsed = Packet::parse(&sent).unwrap();
    let QueryDecision::Forward(query) = parsed.validate_query() else {
        panic!("expected a forwardable query");
    };
    let server = [0x11; 8];
    let response = Packet::parse(&as_badcookie(query_with_cookie(Some(&server)))).unwrap();
    let ServerCookieRetry::Rewrite(rewritten) = query.server_cookie_retry(&sent, &response)
    else {
        panic!("expected a rewritten query");
    };
    let rewritten_packet = Packet::parse(&rewritten).unwrap();
    let CookieField::Present(slot) = rewritten_packet.cookie().unwrap() else {
        panic!("cookie missing");
    };
    assert_eq!(
        &rewritten[slot.data_at..slot.data_at + 8],
        &[1, 2, 3, 4, 5, 6, 7, 8]
    );
    assert_eq!(
        &rewritten[slot.data_at + 8..slot.data_at + slot.data_len],
        &server
    );
    let QueryDecision::Forward(rewritten_query) = rewritten_packet.validate_query() else {
        panic!("rewritten query should still be forwardable");
    };
    assert!(matches!(
        rewritten_query.server_cookie_retry(&rewritten, &response),
        ServerCookieRetry::Current
    ));

    let mut mismatched = as_badcookie(query_with_cookie(Some(&server)));
    let CookieField::Present(slot) = Packet::parse(&mismatched).unwrap().cookie().unwrap() else {
        panic!("cookie missing");
    };
    mismatched[slot.data_at] ^= 0xff;
    let mismatched = Packet::parse(&mismatched).unwrap();
    assert!(matches!(
        query.server_cookie_retry(&sent, &mismatched),
        ServerCookieRetry::Discard
    ));
}

#[test]
fn growing_a_cookie_before_later_bytes_is_not_rewritten() {
    let mut sent = query_with_cookie(None);
    // Another EDNS option after COOKIE. Its bytes would move, and a name
    // compressed against a later offset would keep the old pointer.
    let rdlen_at = sent.len() - 4 - 8 - 2;
    let rdlen = u16::from_be_bytes([sent[rdlen_at], sent[rdlen_at + 1]]) + 4;
    sent[rdlen_at..rdlen_at + 2].copy_from_slice(&rdlen.to_be_bytes());
    sent.extend_from_slice(&[0, 1, 0, 0]);
    let parsed = Packet::parse(&sent).unwrap();
    let QueryDecision::Forward(query) = parsed.validate_query() else {
        panic!("expected a forwardable query");
    };
    let response = Packet::parse(&as_badcookie(query_with_cookie(Some(&[0x11; 8])))).unwrap();
    assert!(matches!(
        query.server_cookie_retry(&sent, &response),
        ServerCookieRetry::Leave
    ));
}
