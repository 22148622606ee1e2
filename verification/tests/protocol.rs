//! Properties of messages, names and replies on concrete values.
use sederial::bytes::{push_double_word, push_word, read_double_word, read_word};
use sederial::dns::cookie::{locate, CookieField, ServerCookieRetry};
use sederial::dns::error::ParseError;
use sederial::dns::message::{Header, Packet, QueryDecision};
use sederial::dns::name::DomainName;
use sederial::dns::parser::{validate_options, Reader};
use sederial::dns::types::{
    MessageType, Opcode, RecordClass, RecordType, ResponseCode, TransactionId,
};
use sederial::text::{decimal_text, same_text};
use sederial::upstream::ForwardError;

const QUERY: &[u8] = b"\x12\x34\x01\x00\x00\x01\x00\x00\x00\x00\x00\x00\x03www\x07example\x03com\x00\x00\x01\x00\x01";

fn with_opt(data: &[u8]) -> Vec<u8> {
    let mut wire = QUERY.to_vec();
    wire[11] = 1;
    wire.extend_from_slice(&[0, 0, 41, 4, 208, 0, 0, 0, 0]);
    wire.extend_from_slice(&(data.len() as u16).to_be_bytes());
    wire.extend_from_slice(data);
    wire
}

fn with_cookie(cookie: &[u8]) -> Vec<u8> {
    let mut data = vec![0, 10, 0, cookie.len() as u8];
    data.extend_from_slice(cookie);
    with_opt(&data)
}

fn answer(record: &[u8]) -> Vec<u8> {
    let mut wire = QUERY.to_vec();
    wire[2] |= 0x80;
    wire[7] = 1;
    wire.extend_from_slice(b"\xc0\x0c");
    wire.extend_from_slice(record);
    wire
}

#[test]
fn fields_are_big_endian() {
    let mut out = vec![9];
    push_word(&mut out, 0x1234);
    push_double_word(&mut out, 0x5678_9abc);
    assert_eq!(out, [9, 0x12, 0x34, 0x56, 0x78, 0x9a, 0xbc]);
    assert_eq!(read_word(&out, 1), 0x1234);
    assert_eq!(read_double_word(&out, 3), 0x5678_9abc);
}

#[test]
fn codes_survive_reading_and_writing() {
    for value in 0..=u16::MAX {
        assert_eq!(ResponseCode::from_wire(value).wire(), value);
        assert_eq!(RecordType::from_wire(value).wire(), value);
        assert_eq!(RecordClass::from_wire(value).wire(), value);
    }
    assert_eq!(Opcode::from_wire(4), Opcode::Notify);
    assert_eq!(Opcode::from_wire(3), Opcode::Unknown(3));
}

#[test]
fn names_survive_encoding_whatever_surrounds_them() {
    let mut wire = vec![7; 20];
    let start = wire.len();
    wire.extend_from_slice(b"\x03a.b\x01\xff\x00");
    let end = wire.len();
    wire.extend_from_slice(&[1, 2, 3]);
    let mut cursor = start;
    let name = DomainName::decode(&wire, &mut cursor).unwrap();
    assert_eq!(cursor, end);
    let mut out = vec![5];
    name.encode(&mut out);
    assert_eq!(out[0], 5);
    assert_eq!(&out[1..], &wire[start..end]);
    let mut failed = end - 1 + 4;
    assert_eq!(
        DomainName::decode(&wire, &mut failed),
        Err(ParseError::UnexpectedEnd)
    );
    assert_eq!(failed, end + 3);
}

#[test]
fn configuration_names_survive_being_shown() {
    for text in ["a", "a.b-c._d.", ".", "XN--1.test"] {
        let name: DomainName = text.parse().unwrap();
        let again: DomainName = name.to_string().parse().unwrap();
        assert!(name == again);
        assert_eq!(again.to_string(), name.to_string());
    }
    assert_eq!("a.B".parse::<DomainName>().unwrap().to_string(), "a.B.");
    assert_eq!(".".parse::<DomainName>().unwrap().to_string(), ".");
}

#[test]
fn each_decoding_error_has_its_input() {
    let decode = |tail: &[u8]| {
        let mut wire = vec![0; 12];
        wire.extend_from_slice(tail);
        DomainName::decode(&wire, &mut { 12 }).map(|name| name.to_string())
    };
    assert_eq!(decode(b"\x01a"), Err(ParseError::UnexpectedEnd));
    assert_eq!(decode(b"\x41a\x00"), Err(ParseError::InvalidLabel));
    assert_eq!(decode(b"\xc0\x0b"), Err(ParseError::InvalidPointer));
    let mut long = Vec::new();
    for _ in 0..4 {
        long.push(63);
        long.extend_from_slice(&[b'a'; 63]);
    }
    assert_eq!(decode(&long), Err(ParseError::NameTooLong));
    // The target of the first pointer leads to a second pointer with that target.
    let mut wire = vec![0; 12];
    wire.extend_from_slice(b"\x01a\xc0\x0c\xc0\x0c");
    assert_eq!(
        DomainName::decode(&wire, &mut { 16 }),
        Err(ParseError::CompressionLoop)
    );
}

#[test]
fn each_parsing_error_has_its_input() {
    let parse = |wire: &[u8]| Packet::parse(wire).unwrap_err();
    assert_eq!(parse(&vec![0; 65536]), ParseError::OversizedMessage);
    assert_eq!(parse(&QUERY[..11]), ParseError::UnexpectedEnd);
    let mut two = QUERY.to_vec();
    two[5] = 2;
    assert_eq!(parse(&two), ParseError::InvalidCount);
    assert_eq!(
        parse(&answer(b"\x00\x01\x00\x01\x00\x00\x00\x00\x00\x05\x01\x02\x03\x04\x05")),
        ParseError::InvalidRecord
    );
    assert_eq!(parse(&with_opt(&[0])), ParseError::InvalidEdns);
    let mut trailing = QUERY.to_vec();
    trailing.push(0);
    assert_eq!(parse(&trailing), ParseError::TrailingData);
    for error in [
        ParseError::UnexpectedEnd,
        ParseError::OversizedMessage,
        ParseError::InvalidLabel,
        ParseError::NameTooLong,
        ParseError::InvalidPointer,
        ParseError::CompressionLoop,
        ParseError::CompressionDepth,
        ParseError::InvalidCount,
        ParseError::InvalidRecord,
        ParseError::InvalidEdns,
        ParseError::TrailingData,
    ] {
        assert!(!error.message().is_empty());
    }
    assert_eq!(
        ParseError::CompressionDepth.message(),
        "DNS compression chain exceeds 128 pointers"
    );
}

#[test]
fn known_record_layouts_must_fill_their_data() {
    for (record, ok) in [
        (&b"\x00\x01\x00\x01\x00\x00\x00\x00\x00\x04\x01\x02\x03\x04"[..], true),
        (b"\x00\x01\x00\x03\x00\x00\x00\x00\x00\x01\x01", true),
        (b"\x00\x1c\x00\x01\x00\x00\x00\x00\x00\x10\x00\x01\x02\x03\x04\x05\x06\x07\x08\x09\x0a\x0b\x0c\x0d\x0e\x0f", true),
        (b"\x00\x1c\x00\x01\x00\x00\x00\x00\x00\x04\x01\x02\x03\x04", false),
        (b"\x00\x05\x00\x01\x00\x00\x00\x00\x00\x02\xc0\x0c", true),
        (b"\x00\x05\x00\x01\x00\x00\x00\x00\x00\x03\xc0\x0c\x00", false),
        (b"\x00\x0f\x00\x01\x00\x00\x00\x00\x00\x04\x00\x05\xc0\x0c", true),
        (b"\x00\x21\x00\x01\x00\x00\x00\x00\x00\x08\x00\x01\x00\x02\x00\x03\xc0\x0c", true),
        (b"\x00\x06\x00\x01\x00\x00\x00\x00\x00\x18\xc0\x0c\xc0\x0c\x00\x00\x00\x01\x00\x00\x00\x02\x00\x00\x00\x03\x00\x00\x00\x04\x00\x00\x00\x05", true),
        (b"\x00\x10\x00\x01\x00\x00\x00\x00\x00\x04\x01a\x01b", true),
        (b"\x00\x10\x00\x01\x00\x00\x00\x00\x00\x00", false),
        (b"\x00\x10\x00\x01\x00\x00\x00\x00\x00\x03\x01a\x05", false),
        (b"\xfd\xe8\x00\x01\x00\x00\x00\x00\x00\x00", true),
    ] {
        assert_eq!(Packet::parse(&answer(record)).is_ok(), ok, "{record:?}");
    }
}

#[test]
fn signed_messages_are_refused() {
    let mut signed = QUERY.to_vec();
    signed[11] = 1;
    signed.extend_from_slice(b"\x00\x00\x18\x00\xff\x00\x00\x00\x00\x00\x00");
    let packet = Packet::parse(&signed).unwrap();
    assert!(matches!(
        packet.validate_query(),
        QueryDecision::Reject(ResponseCode::Refused)
    ));
    signed[QUERY.len() + 2] = 250;
    let packet = Packet::parse(&signed).unwrap();
    assert!(matches!(
        packet.validate_query(),
        QueryDecision::Reject(ResponseCode::Refused)
    ));
}

#[test]
fn rewriting_the_id_changes_two_bytes() {
    let wire = with_cookie(&[1, 2, 3, 4, 5, 6, 7, 8]);
    let packet = Packet::parse(&wire).unwrap();
    let other = packet.with_id(TransactionId(0xabcd));
    assert_eq!(&other[..2], &[0xab, 0xcd]);
    assert_eq!(&other[2..], &wire[2..]);
    let again = Packet::parse(&other).unwrap();
    assert_eq!(again.header().id, TransactionId(0xabcd));
    assert_eq!(again.header().flags, packet.header().flags);
    assert_eq!(again.edns(), packet.edns());
    assert_eq!(again.cookie(), packet.cookie());
    assert!(again.questions() == packet.questions());
}

#[test]
fn cookies_are_found_by_their_first_option() {
    let slot = |cookie: &[u8]| Packet::parse(&with_cookie(cookie)).unwrap().cookie();
    for length in [8, 16, 17, 40] {
        let Some(CookieField::Present(found)) = slot(&vec![1; length]) else {
            panic!("cookie missing");
        };
        assert_eq!(found.data_len, length);
        assert_eq!(found.data_at, QUERY.len() + 15);
        assert_eq!(found.length_at, QUERY.len() + 13);
        assert_eq!(found.rdlength_at, QUERY.len() + 9);
    }
    for length in [0, 7, 9, 15, 41] {
        assert_eq!(slot(&vec![1; length]), Some(CookieField::Malformed));
    }
    assert_eq!(Packet::parse(&with_opt(&[])).unwrap().cookie(), None);
    // An option that overruns the record.
    assert_eq!(
        locate(&[0, 9, 0, 5, 1], 0, 5),
        Some(CookieField::Malformed)
    );
    assert_eq!(locate(&[0, 9, 0, 1, 1], 0, 5), None);
    assert_eq!(locate(&[], 7, usize::MAX), None);
}

#[test]
fn malformed_cookies_make_a_format_error() {
    let packet = Packet::parse(&with_cookie(&[1; 9])).unwrap();
    assert!(matches!(
        packet.validate_query(),
        QueryDecision::Reject(ResponseCode::FormatError)
    ));
}

#[test]
fn a_client_with_a_server_cookie_gets_no_local_error() {
    for (cookie, replied) in [(&[1_u8; 8][..], true), (&[1; 16][..], false)] {
        let packet = Packet::parse(&with_cookie(cookie)).unwrap();
        let QueryDecision::Forward(query) = packet.validate_query() else {
            panic!("expected a forwardable query");
        };
        assert_eq!(
            query.error_reply(ResponseCode::ServerFailure).is_some(),
            replied
        );
    }
}

#[test]
fn replies_answer_their_query_and_stay_small() {
    let mut long = QUERY[..12].to_vec();
    for _ in 0..3 {
        long.push(63);
        long.extend_from_slice(&[b'x'; 63]);
    }
    long.push(61);
    long.extend_from_slice(&[b'y'; 61]);
    long.extend_from_slice(&[0, 0, 1, 0, 1]);
    for wire in [QUERY.to_vec(), with_cookie(&[1; 8]), long] {
        let packet = Packet::parse(&wire).unwrap();
        let QueryDecision::Forward(query) = packet.validate_query() else {
            panic!("expected a forwardable query");
        };
        for code in [0, 2, 5, 16, 23, 4095] {
            let bytes = packet.error_reply(ResponseCode::from_wire(code));
            assert!(bytes.len() <= 512);
            let reply = Packet::parse(&bytes).unwrap();
            assert!(reply.corresponds_to(&query, query.id()));
            let kept = if packet.edns().is_some() {
                code
            } else {
                code & 15
            };
            assert_eq!(reply.response_code().wire(), kept);
            assert_eq!(reply.header().message_type(), MessageType::Response);
        }
    }
}

#[test]
fn broken_queries_are_answered_and_broken_responses_are_not() {
    let mut broken = QUERY.to_vec();
    broken.push(1);
    let reply = Packet::parse_for_reply(&broken)
        .unwrap_err()
        .format_reply()
        .unwrap();
    let reply = Packet::parse(&reply).unwrap();
    assert_eq!(reply.response_code(), ResponseCode::FormatError);
    assert_eq!(reply.header().id, TransactionId(0x1234));
    broken[2] |= 0x80;
    assert!(Packet::parse_for_reply(&broken)
        .unwrap_err()
        .format_reply()
        .is_none());
}

#[test]
fn a_rewritten_cookie_is_current() {
    let wire = with_cookie(&[1, 2, 3, 4, 5, 6, 7, 8]);
    let packet = Packet::parse(&wire).unwrap();
    let mut offer = with_cookie(&[1, 2, 3, 4, 5, 6, 7, 8, 9, 9, 9, 9, 9, 9, 9, 9]);
    offer[2] |= 0x80;
    let response = Packet::parse(&offer).unwrap();
    let QueryDecision::Forward(query) = packet.validate_query() else {
        panic!("expected a forwardable query");
    };
    let ServerCookieRetry::Rewrite(rewritten) = query.server_cookie_retry(&wire, &response) else {
        panic!("expected a rewritten query");
    };
    assert_eq!(
        rewritten,
        with_cookie(&[1, 2, 3, 4, 5, 6, 7, 8, 9, 9, 9, 9, 9, 9, 9, 9])
    );
    let again = Packet::parse(&rewritten).unwrap();
    let QueryDecision::Forward(again) = again.validate_query() else {
        panic!("expected a forwardable query");
    };
    assert!(matches!(
        again.server_cookie_retry(&rewritten, &response),
        ServerCookieRetry::Current
    ));
    let plain = Packet::parse(QUERY).unwrap();
    let QueryDecision::Forward(plain) = plain.validate_query() else {
        panic!("expected a forwardable query");
    };
    assert!(matches!(
        plain.server_cookie_retry(QUERY, &response),
        ServerCookieRetry::Absent
    ));
}

#[test]
fn readers_stay_where_they_were_on_error() {
    let mut reader = Reader {
        wire: &[1, 2, 3],
        cursor: 1,
    };
    assert_eq!(reader.double_word(), Err(ParseError::UnexpectedEnd));
    assert_eq!(reader.cursor, 1);
    assert_eq!(reader.word(), Ok(0x0203));
    assert_eq!(reader.cursor, 3);
    assert_eq!(reader.take(usize::MAX), Err(ParseError::UnexpectedEnd));
    assert!(reader.question().is_err());
    assert!(reader.resource_record().is_err());
    assert_eq!(reader.cursor, 3);
    assert_eq!(validate_options(&[0, 1, 0, 0, 0, 2, 0, 1, 7]), Ok(()));
    assert_eq!(validate_options(&[0, 1, 0]), Err(ParseError::InvalidEdns));
}

#[test]
fn headers_are_read_alone() {
    let header = Header::parse(&QUERY[..12]).unwrap();
    assert_eq!(header.flags, 0x0100);
    assert_eq!(header.counts.questions, 1);
    let mut out = Vec::new();
    header.encode(&mut out);
    assert_eq!(out, &QUERY[..12]);
    assert!(Header::parse(&QUERY[..11]).is_err());
}

#[test]
fn texts_and_numbers_are_plain() {
    assert_eq!(decimal_text(0), "0");
    assert_eq!(decimal_text(18_446_744_073_709_551_615), "18446744073709551615");
    assert!(same_text("é", "é"));
    assert!(!same_text("a", "A"));
}

#[test]
fn forwarding_failures_are_explained() {
    for (error, message) in [
        (ForwardError::Timeout, "exchange timed out"),
        (ForwardError::Cancelled, "shutdown requested"),
        (ForwardError::Io("broken pipe".to_string()), "broken pipe"),
        (
            ForwardError::Parse(ParseError::TrailingData),
            "trailing bytes after DNS sections",
        ),
        (
            ForwardError::InvalidResponse,
            "invalid or uncorrelated response",
        ),
        (
            ForwardError::from_rcode(ResponseCode::ServerFailure),
            "upstream returned SERVFAIL",
        ),
        (
            ForwardError::from_rcode(ResponseCode::Refused),
            "upstream returned REFUSED",
        ),
    ] {
        assert_eq!(error.message(), message);
    }
}

#[test]
fn a_cookie_behind_another_record_is_rewritten_and_current() {
    // A compressed A record stands in front of OPT, which ends with its cookie.
    let question = QUERY.len();
    let plain = with_cookie(&[1, 2, 3, 4, 5, 6, 7, 8]);
    let record = b"\xc0\x0c\x00\x01\x00\x01\x00\x00\x00\x3c\x00\x04\x0a\x00\x00\x01";
    let mut wire = plain[..question].to_vec();
    wire[11] = 2;
    wire.extend_from_slice(record);
    wire.extend_from_slice(&plain[question..]);
    let packet = Packet::parse(&wire).unwrap();
    let mut offer = with_cookie(&[1, 2, 3, 4, 5, 6, 7, 8, 9, 9, 9, 9, 9, 9, 9, 9]);
    offer[2] |= 0x80;
    let response = Packet::parse(&offer).unwrap();
    let QueryDecision::Forward(query) = packet.validate_query() else {
        panic!("expected a forwardable query");
    };
    let ServerCookieRetry::Rewrite(rewritten) = query.server_cookie_retry(&wire, &response) else {
        panic!("expected a rewritten query");
    };
    assert_eq!(rewritten.len(), wire.len() + 8);
    let again = Packet::parse(&rewritten).unwrap();
    assert_eq!(again.header().counts.additionals, 2);
    let QueryDecision::Forward(query) = again.validate_query() else {
        panic!("expected a forwardable query");
    };
    assert!(matches!(
        query.server_cookie_retry(&rewritten, &response),
        ServerCookieRetry::Current
    ));
}

#[test]
fn a_message_ends_where_it_ends() {
    let wire = with_cookie(&[1, 2, 3, 4, 5, 6, 7, 8]);
    assert!(Packet::parse(&wire).is_ok());
    for length in 0..wire.len() {
        assert!(Packet::parse(&wire[..length]).is_err());
    }
    for more in [1, 2, 500, 65535 - wire.len()] {
        let mut longer = wire.clone();
        longer.resize(wire.len() + more, 0);
        assert!(matches!(
            Packet::parse(&longer),
            Err(ParseError::TrailingData)
        ));
    }
    let mut longer = wire.clone();
    longer.resize(65536, 0);
    assert!(matches!(
        Packet::parse(&longer),
        Err(ParseError::OversizedMessage)
    ));
}
