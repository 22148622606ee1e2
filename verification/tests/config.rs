use sederial::address::{parse_address, IpAddress, SocketAddress};
use sederial::config::{Config, ConfigError};
use sederial::document::{read_document, Block, Document, Field, Key, Leaf, Section};
use sederial::routing::RouteError;

fn v4(octets: [u8; 4], port: u16) -> SocketAddress {
    SocketAddress {
        ip: IpAddress::V4(u32::from_be_bytes(octets)),
        port,
        scope_id: 0,
    }
}

fn v6(bits: u128, port: u16) -> SocketAddress {
    SocketAddress {
        ip: IpAddress::V6(bits),
        port,
        scope_id: 0,
    }
}

const VALID: &str = "listen='127.0.0.1:5300'\n[default]\nservers=['1.1.1.1:53']\n";
#[test]
fn parses_complete_toml_and_ipv6() {
    let config = Config::parse("listen = '[::1]:5300'\n[default]\nservers = [\n '[::1]:5353', # comment\n]\n[[route]]\ndomain = '_tcp.EXAMPLE.test.'\nservers = ['127.0.0.1:5354']").unwrap();
    assert!(config.listen.ip.is_ipv6());
    assert_eq!(config.routing.routes().len(), 1);
}
#[test]
fn defaults_omitted_ports_and_preserves_explicit_ports() {
    for (raw, expected) in [
        ("127.0.0.1", v4([127, 0, 0, 1], 53)),
        ("127.0.0.1:53", v4([127, 0, 0, 1], 53)),
        ("127.0.0.1:5353", v4([127, 0, 0, 1], 5353)),
        ("::1", v6(1, 53)),
        ("[::1]", v6(1, 53)),
        ("[::1]:53", v6(1, 53)),
        ("[::1]:5353", v6(1, 5353)),
        // Without brackets, the final segment belongs to the IPv6 address.
        (
            "2001:db8::1:5353",
            v6(0x2001_0db8_0000_0000_0000_0000_0001_5353, 53),
        ),
    ] {
                let config = Config::parse(&format!(
            "listen='{raw}'\n[default]\nservers=['192.0.2.53']"
        ))
        .unwrap();
        assert_eq!(config.listen, expected, "listen={raw}");
        let config = Config::parse(&format!(
            "listen='127.0.0.2:5300'\n[default]\nservers=['{raw}']\n\
             [[route]]\ndomain='example.test'\nservers=['{raw}']"
        ))
        .unwrap();
        assert_eq!(config.routing.default().servers()[0].socket(), expected);
        assert_eq!(
            config.routing.routes()[0].upstreams.servers()[0].socket(),
            expected
        );
    }
}
#[test]
fn default_ports_preserve_loop_and_duplicate_detection() {
    for (listen, upstream) in [
        ("127.0.0.1", "127.0.0.1:53"),
        ("127.0.0.1:53", "127.0.0.1"),
        ("::1", "[::1]:53"),
        ("[::1]:53", "[::1]"),
        ("127.0.0.1", "::ffff:127.0.0.1"),
    ] {
        for group in [
            format!("[default]\nservers=['{upstream}']"),
            format!(
                "[default]\nservers=['192.0.2.53']\n\
                 [[route]]\ndomain='example.test'\nservers=['{upstream}']"
            ),
        ] {
            let error = Config::parse(&format!("listen='{listen}'\n{group}")).unwrap_err();
            assert!(matches!(error, ConfigError::ForwardingLoop));
        }
    }
    for servers in [
        "['1.1.1.1', '1.1.1.1:53']",
        "['::1', '[::1]:53']",
        "['[::1]', '::1']",
        "['192.0.2.53', '[::ffff:192.0.2.53]:53']",
        "['::ffff:192.0.2.53', '192.0.2.53:53']",
    ] {
        let error = Config::parse(&format!(
            "listen='127.0.0.1:5300'\n[default]\nservers={servers}"
        ))
        .unwrap_err();
        assert!(matches!(
            error,
            ConfigError::Routing(RouteError::DuplicateServer)
        ));
    }
}
#[test]
fn listen_keeps_the_canonical_unicast_address() {
    let config =
        Config::parse("listen='[::ffff:127.0.0.1]'\n[default]\nservers=['192.0.2.53']\n")
            .unwrap();
    assert_eq!(config.listen, v4([127, 0, 0, 1], 53));
}
#[test]
fn rejects_invalid_config_as_a_whole() {
    for input in [
        "",
        "listen='localhost:53'",
        "listen='0.0.0.0:53'\n[default]\nservers=['1.1.1.1:53']",
        "listen='127.0.0.1:0'\n[default]\nservers=['1.1.1.1:53']",
        "listen=42",
    ] {
        assert!(Config::parse(input).is_err(), "{input}");
    }
    for servers in [
        "[]",
        "['0.0.0.0:53']",
        "['0.0.0.0']",
        "['::']",
        "['1.1.1.1:0']",
        "['1.1.1.1:']",
        "['1.1.1.1:65536']",
        "['1.1.1.1:dns']",
        "['[::1]:0']",
        "['[::1]:']",
        "['[::1]:65536']",
        "['[::1]:dns']",
        "['[1.1.1.1]']",
        "[':53']",
        "['localhost']",
        "['224.0.0.1:53']",
        "['255.255.255.255:53']",
        "['127.0.0.1:5300']",
        "['1.1.1.1:53','1.1.1.1:53']",
        "['bad']",
        "[1]",
    ] {
        assert!(
            Config::parse(&format!(
                "listen='127.0.0.1:5300'\n[default]\nservers={servers}"
            ))
            .is_err()
        );
    }
    for extra in [
        "unknown=true",
        "[[route]]\ndomain='bad..test'\nservers=['1.1.1.1:53']",
        "[[route]]\ndomain='test'",
        "[[route]]\ndomain='test'\nservers=[]",
        "[[route]]\ndomain='*.test'\nservers=['1.1.1.1:53']",
        "[[route]]\ndomain='test'\nservers=['1.1.1.1:53']\n[[route]]\ndomain='TEST.'\nservers=['1.0.0.1:53']",
    ] {
        assert!(
            Config::parse(&format!("{VALID}{extra}")).is_err(),
            "{extra}"
        );
    }
}

fn fault(input: &str) -> String {
    Config::parse(input).unwrap_err().message()
}

#[test]
fn every_fault_is_explained() {
    let servers = |list: &str| format!("listen='127.0.0.1:5300'\n[default]\nservers={list}");
    let route = |body: &str| format!("{VALID}{body}");
    for (input, message) in [
        (String::new(), "listen: expected a string"),
        ("listen=42".to_string(), "listen: expected a string"),
        (
            "listen='localhost:53'".to_string(),
            "listen must be an IP address with an optional port (IPv6 with port: [address]:port)",
        ),
        (
            "listen='0.0.0.0:53'".to_string(),
            "listen: expected a unicast IP address with a nonzero port",
        ),
        ("listen='127.0.0.1'".to_string(), "missing [default] table"),
        (
            "listen='127.0.0.1'\n[default]\nservers='1.1.1.1'".to_string(),
            "servers: expected an array of IP address strings with optional ports",
        ),
        (servers("[1]"), "server address must be a string"),
        (servers("['bad']"), "invalid upstream address \"bad\""),
        (
            servers("['127.0.0.1:5300']"),
            "upstream points to the listener (forwarding loop)",
        ),
        (
            servers("['224.0.0.1']"),
            "expected a unicast IP address with a nonzero port",
        ),
        (servers("[]"), "each upstream group needs 1..=8 servers"),
        (
            servers(
                "['1.1.1.1','1.1.1.2','1.1.1.3','1.1.1.4','1.1.1.5','1.1.1.6','1.1.1.7','1.1.1.8','1.1.1.9']",
            ),
            "each upstream group needs 1..=8 servers",
        ),
        (
            servers("['1.1.1.1','1.1.1.1:53']"),
            "duplicate upstream server",
        ),
        (
            "route=3\nlisten='127.0.0.1'\n[default]\nservers=['1.1.1.1']".to_string(),
            "route must be an array of tables",
        ),
        (
            "route=[3]\nlisten='127.0.0.1'\n[default]\nservers=['1.1.1.1']".to_string(),
            "route 0: expected a table",
        ),
        (
            route("[[route]]\nservers=['1.1.1.1']"),
            "domain: expected a string",
        ),
        (
            route("[[route]]\ndomain='a..b'\nservers=['1.1.1.1']"),
            "route 0 domain: invalid DNS label encoding",
        ),
        (
            route(
                "[[route]]\ndomain='a'\nservers=['1.1.1.1']\n[[route]]\ndomain='A.'\nservers=['1.1.1.2']",
            ),
            "duplicate route for A.",
        ),
    ] {
        assert_eq!(fault(&input), message, "{input}");
    }
}

#[test]
fn unknown_keys_are_named_with_their_place() {
    assert_eq!(
        fault("unknown=true"),
        "configuration: unknown key Spanned { span: 0..7, value: \"unknown\" }"
    );
    assert_eq!(
        fault("listen='127.0.0.1'\n[default]\nweight=1"),
        "default: unknown key Spanned { span: 29..35, value: \"weight\" }"
    );
    assert_eq!(
        fault(&format!("{VALID}[[route]]\ndomain='a'\n'b\\c'=1")),
        format!(
            "route 0: unknown key Spanned {{ span: {}..{}, value: \"b\\\\c\" }}",
            VALID.len() + 21,
            VALID.len() + 26
        )
    );
}

#[test]
fn syntax_errors_are_explained_by_the_reader() {
    let error = Config::parse("listen =").unwrap_err();
    assert!(matches!(error, ConfigError::Syntax(_)));
    assert!(error.message().contains("TOML parse error at line 1"));
}

#[test]
fn oversized_files_are_refused_before_they_are_read() {
    let mut text = VALID.to_string();
    text.push_str(&"#".repeat(1_048_576 - VALID.len()));
    assert_eq!(text.len(), 1_048_576);
    assert!(Config::load(&text).is_ok());
    text.push('#');
    assert_eq!(
        Config::load(&text).unwrap_err().message(),
        "configuration exceeds 1 MiB"
    );
}

#[test]
fn too_many_routes_are_refused() {
    let mut text = VALID.to_string();
    for i in 0..4096 {
        text.push_str(&format!(
            "[[route]]\ndomain='r{i}'\nservers=['1.1.1.1']\n"
        ));
    }
    assert_eq!(Config::parse(&text).unwrap().routing.routes().len(), 4096);
    text.push_str("[[route]]\ndomain='more'\nservers=['1.1.1.1']\n");
    assert_eq!(fault(&text), "at most 4096 routes are supported");
}

#[test]
fn documents_are_taken_over_in_key_order() {
    let document = read_document("route=[{domain='x'}, 1]\nb=1\na=['t', 2]\n[default]\nservers=['s', 3]").unwrap();
    let keys: Vec<&str> = document
        .entries
        .iter()
        .map(|(key, _)| key.name.as_str())
        .collect();
    assert_eq!(keys, ["a", "b", "default", "route"]);
    assert_eq!((document.entries[0].0.start, document.entries[0].0.end), (28, 29));
    assert!(matches!(&document.entries[0].1, Block::Sections(list) if list.len() == 2));
    assert!(matches!(&document.entries[1].1, Block::Other));
    let Block::Table(section) = &document.entries[2].1 else {
        panic!("expected a table");
    };
    let Field::List(leaves) = &section.entries[0].1 else {
        panic!("expected a list");
    };
    assert!(matches!(&leaves[0], Leaf::Text(text) if text == "s"));
    assert!(matches!(&leaves[1], Leaf::Other));
    let Block::Sections(sections) = &document.entries[3].1 else {
        panic!("expected an array");
    };
    let first = sections[0].as_ref().unwrap();
    assert!(matches!(&first.entries[0].1, Field::Text(text) if text == "x"));
    assert!(sections[1].is_none());
}

#[test]
fn settings_can_be_given_without_a_file() {
    let key = |name: &str| Key {
        name: name.to_string(),
        start: 0,
        end: 0,
    };
    let document = Document {
        entries: vec![
            (
                key("default"),
                Block::Table(Section {
                    entries: vec![(
                        key("servers"),
                        Field::List(vec![
                            Leaf::Text("192.0.2.2".to_string()),
                            Leaf::Text("192.0.2.1".to_string()),
                        ]),
                    )],
                }),
            ),
            (key("listen"), Block::Text("::1".to_string())),
        ],
    };
    let config = Config::from_document(&document).unwrap();
    assert_eq!(config.listen, v6(1, 53));
    let servers: Vec<SocketAddress> = config
        .routing
        .default()
        .servers()
        .iter()
        .map(|server| server.socket())
        .collect();
    assert_eq!(servers, [v4([192, 0, 2, 2], 53), v4([192, 0, 2, 1], 53)]);
    assert!(config.routing.routes().is_empty());
}

#[test]
fn addresses_are_read_in_all_their_forms() {
    for (text, expected) in [
        ("0.0.0.0", v4([0, 0, 0, 0], 53)),
        ("255.255.255.255:65535", v4([255, 255, 255, 255], 65535)),
        ("1.2.3.4:00053", v4([1, 2, 3, 4], 53)),
        ("::", v6(0, 53)),
        ("1:2:3:4:5:6:7:8", v6(0x0001_0002_0003_0004_0005_0006_0007_0008, 53)),
        ("1:2:3:4:5:6:7::", v6(0x0001_0002_0003_0004_0005_0006_0007_0000, 53)),
        ("::2:3:4:5:6:7:8", v6(0x0000_0002_0003_0004_0005_0006_0007_0008, 53)),
        ("1:2:3:4:5:6:1.2.3.4", v6(0x0001_0002_0003_0004_0005_0006_0102_0304, 53)),
        ("::ffff:1.2.3.4", v6(0xffff_0102_0304, 53)),
        ("1::1.2.3.4", v6(0x0001_0000_0000_0000_0000_0000_0102_0304, 53)),
        ("ABCD:ef01::", v6(0xabcd_ef01 << 96, 53)),
        ("[2001:db8::5]:853", v6(0x2001_0db8_0000_0000_0000_0000_0000_0005, 853)),
        ("[::1]:0", v6(1, 0)),
    ] {
        assert_eq!(parse_address(text), Some(expected), "{text}");
    }
    assert_eq!(
        parse_address("[fe80::1%7]:53"),
        Some(SocketAddress {
            ip: IpAddress::V6(0xfe80 << 112 | 1),
            port: 53,
            scope_id: 7
        })
    );
}

#[test]
fn texts_that_are_no_addresses_are_refused() {
    for text in [
        "", ".", ":", "1", "1.2.3", "1.2.3.4.5", "01.2.3.4", "1.2.3.256", "1.2.3.0004", "1.2.3.4 ",
        "1.2.3.4:", "1.2.3.4:65536", "1.2.3.4:+5", "1.2.3.4%1", "1:2:3:4:5:6:7", "1:2:3:4:5:6:7:8:9",
        "1:2:3:4:5:6:7:8::", "1:2:3:4::5:6:7:8", "1::2::3", ":::", ":1::2", "1::2:", "12345::",
        "::g", "1.2.3.4::", "::1.2.3.4:5", "1:2:3:4:5:6:7:1.2.3.4", "::1.2.3", "[::1", "::1]",
        "[::1]53", "[::1]:", "[]", "[]:53", "[1.2.3.4]:53", "[::1%]:53", "[::1%4294967296]:53",
        "[::1%1]", "fe80::1%1", "localhost", "\u{661}.2.3.4",
    ] {
        assert_eq!(parse_address(text), None, "{text}");
    }
}

#[test]
fn mapped_addresses_are_their_ipv4_selves() {
    let mapped = IpAddress::V6(0xffff_7f00_0001);
    assert_eq!(mapped.to_canonical(), IpAddress::V4(0x7f00_0001));
    assert_eq!(mapped.to_canonical().to_canonical(), mapped.to_canonical());
    assert_eq!(IpAddress::V6(1).to_canonical(), IpAddress::V6(1));
    assert!(v6(0xffff_7f00_0001, 5).same_endpoint(v4([127, 0, 0, 1], 5)));
    assert!(!v6(0xffff_7f00_0001, 5).same_endpoint(v4([127, 0, 0, 1], 6)));
    for (ip, unicast) in [
        (IpAddress::V4(0), false),
        (IpAddress::V4(0xdfff_ffff), true),
        (IpAddress::V4(0xe000_0000), false),
        (IpAddress::V4(0xefff_ffff), false),
        (IpAddress::V4(0xf000_0000), true),
        (IpAddress::V4(0xffff_ffff), false),
        (IpAddress::V6(0), false),
        (IpAddress::V6(1), true),
        (IpAddress::V6(0xff02 << 112), false),
        (IpAddress::V6(0xfe80 << 112), true),
    ] {
        assert_eq!(ip.is_unicast(), unicast, "{ip:?}");
    }
}
