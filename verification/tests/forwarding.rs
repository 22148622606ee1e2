//! Whole requests against simulated resolvers on a simulated clock.
use sederial::address::{parse_address, SocketAddress};
use sederial::config::Config;
use sederial::dns::message::QueryDecision;
use sederial::dns::types::TransactionId;
use sederial::forwarding::{conclude, dispatch, intake, Intake};
use sederial::logging::{warn, WarningWindow};
use sederial::transport::{
    Deadline, FrameReader, FrameStep, FrameWriter, IoErrorKind, IoFailure, Transport,
};
use sederial::upstream::{
    forward, tcp_next, ConnectionCache, Datagram, Exchange, ForwardError, Step, TcpNext,
    REQUEST_BUDGET,
};
use std::cell::{Cell, RefCell};
use std::rc::Rc;

const MILLISECOND: u64 = 1_000_000;
const MOCK_IDLE: u64 = 100 * MILLISECOND;

fn query(name: &str, kind: u16, id: u16) -> Vec<u8> {
    let mut wire = vec![0x12, 0x34, 1, 0, 0, 1, 0, 0, 0, 0, 0, 0];
    wire[..2].copy_from_slice(&id.to_be_bytes());
    for label in name
        .trim_end_matches('.')
        .split('.')
        .filter(|s| !s.is_empty())
    {
        wire.push(label.len() as u8);
        wire.extend_from_slice(label.as_bytes());
    }
    wire.push(0);
    wire.extend_from_slice(&kind.to_be_bytes());
    wire.extend_from_slice(&1_u16.to_be_bytes());
    wire
}

fn question_end(wire: &[u8]) -> usize {
    let mut at = 12;
    while wire[at] != 0 {
        at += usize::from(wire[at]) + 1;
    }
    at + 5
}

fn response(query: &[u8], marker: u8) -> Vec<u8> {
    let end = question_end(query);
    let kind = u16::from_be_bytes([query[end - 4], query[end - 3]]);
    let data = match kind {
        1 => vec![192, 0, 2, marker],
        28 => {
            let mut data = vec![0; 16];
            data[15] = marker;
            data
        }
        12 => b"\x04host\x04test\x00".to_vec(),
        33 => b"\x00\x00\x00\x64\x01\x85\x04dc01\x02ad\x03lab\x07exceeds\x04test\x00".to_vec(),
        _ => vec![marker],
    };
    let mut wire = query[..end].to_vec();
    wire[2] = 0x81;
    wire[3] = 0x80;
    wire[7] = 1;
    wire.extend_from_slice(&[0xc0, 0x0c]);
    wire.extend_from_slice(&kind.to_be_bytes());
    wire.extend_from_slice(&[0, 1, 0, 0, 0, 60]);
    wire.extend_from_slice(&(data.len() as u16).to_be_bytes());
    wire.extend_from_slice(&data);
    wire.extend_from_slice(&query[end..]);
    wire
}

fn empty_response(query: &[u8], code: u8) -> Vec<u8> {
    let mut bytes = query.to_vec();
    bytes[2] |= 0x80;
    bytes[3] = 0x80 | code;
    bytes
}

fn large_response(query: &[u8], size: usize) -> Vec<u8> {
    let mut bytes = query[..question_end(query)].to_vec();
    bytes[2] |= 0x80;
    bytes[3] = 0x80;
    bytes[7] = 1;
    // Unknown RR type with opaque RDATA, independently constructed.
    bytes.extend_from_slice(&[0xc0, 0x0c, 0xfd, 0xe8, 0, 1, 0, 0, 0, 60]);
    bytes.extend_from_slice(&(size as u16).to_be_bytes());
    bytes.resize(bytes.len() + size, 42);
    bytes.extend_from_slice(&query[question_end(query)..]);
    bytes
}

fn edns(query: &mut Vec<u8>, size: u16) {
    query[11] = 1;
    query.extend_from_slice(&[0, 0, 41]);
    query.extend_from_slice(&size.to_be_bytes());
    query.extend_from_slice(&[0, 0, 0x80, 0, 0, 5, 0xfd, 0xe8, 0, 1, 42]);
}

fn frame(bytes: &[u8]) -> Vec<u8> {
    let mut data = (bytes.len() as u16).to_be_bytes().to_vec();
    data.extend_from_slice(bytes);
    data
}

type Handler = dyn Fn(&[u8], bool) -> Vec<Vec<u8>>;

/// A resolver: what it answers, what it saw, and how often TCP was connected.
struct Mock {
    address: String,
    handle: Box<Handler>,
    seen: RefCell<Vec<Vec<u8>>>,
    tcp_connections: Cell<usize>,
    up: bool,
}

impl Mock {
    fn new(address: &str, handle: impl Fn(&[u8], bool) -> Vec<Vec<u8>> + 'static) -> Rc<Mock> {
        Rc::new(Mock {
            address: address.to_string(),
            handle: Box::new(handle),
            seen: RefCell::new(Vec::new()),
            tcp_connections: Cell::new(0),
            up: true,
        })
    }
    /// An address at which nothing listens.
    fn closed(address: &str) -> Rc<Mock> {
        Rc::new(Mock {
            address: address.to_string(),
            handle: Box::new(|_, _| vec![]),
            seen: RefCell::new(Vec::new()),
            tcp_connections: Cell::new(0),
            up: false,
        })
    }
    fn ask(&self, wire: &[u8], tcp: bool) -> Vec<Vec<u8>> {
        self.seen.borrow_mut().push(wire.to_vec());
        (self.handle)(wire, tcp)
    }
}

/// A connected stream: when the resolver last heard of it.
#[derive(Debug)]
struct Stream {
    active: u64,
}

/// The service around the library, without sockets.
struct Daemon {
    config: Config,
    mocks: Vec<Rc<Mock>>,
    now: Cell<u64>,
    stop: Rc<Cell<bool>>,
    budget: u64,
    next_id: Cell<u16>,
    cache: RefCell<ConnectionCache<Stream>>,
    window: RefCell<Option<WarningWindow>>,
    logs: RefCell<String>,
}

fn refused() -> ForwardError {
    ForwardError::from(IoFailure {
        kind: IoErrorKind::Other,
        cancelled: false,
        message: "connection refused".to_string(),
    })
}

impl Daemon {
    fn start(default: &[&Rc<Mock>], routes: &[(&str, &Rc<Mock>)]) -> Daemon {
        let addresses: Vec<String> = default.iter().map(|m| m.address.clone()).collect();
        let mut mocks: Vec<Rc<Mock>> = default.iter().map(|m| Rc::clone(m)).collect();
        mocks.extend(routes.iter().map(|(_, m)| Rc::clone(m)));
        let listed: Vec<(&str, &str)> = routes
            .iter()
            .map(|(name, m)| (*name, m.address.as_str()))
            .collect();
        Daemon::on("127.0.0.1:5300", &addresses, &listed, mocks)
    }
    fn on(
        listen: &str,
        default: &[String],
        routes: &[(&str, &str)],
        mocks: Vec<Rc<Mock>>,
    ) -> Daemon {
        let servers: Vec<String> = default.iter().map(|a| format!("'{a}'")).collect();
        let mut text = format!(
            "listen='{listen}'\n[default]\nservers=[{}]\n",
            servers.join(",")
        );
        for (name, upstream) in routes {
            text.push_str(&format!(
                "[[route]]\ndomain='{name}'\nservers=['{upstream}']\n"
            ));
        }
        Daemon {
            config: Config::load(&text).unwrap(),
            mocks,
            now: Cell::new(1_000_000_000),
            stop: Rc::new(Cell::new(false)),
            budget: REQUEST_BUDGET,
            next_id: Cell::new(0x7000),
            cache: RefCell::new(ConnectionCache::new()),
            window: RefCell::new(None),
            logs: RefCell::new(String::new()),
        }
    }
    fn log(&self, message: &str) {
        for line in warn(&mut self.window.borrow_mut(), self.now.get(), message) {
            assert!(!line.important);
            self.logs.borrow_mut().push_str(&format!("{}\n", line.text));
        }
    }
    fn mock_at(&self, address: SocketAddress) -> Option<Rc<Mock>> {
        self.mocks
            .iter()
            .find(|m| {
                let listed = parse_address(&m.address).unwrap();
                m.up && listed.same_endpoint(address)
            })
            .map(Rc::clone)
    }
    fn draw(&self) -> TransactionId {
        self.next_id.set(self.next_id.get().wrapping_add(1));
        TransactionId(self.next_id.get())
    }
    /// Nothing more arrives: the clock runs to the end of the attempt.
    fn wait(&self, deadline: Deadline) -> ForwardError {
        self.now.set(self.now.get().max(deadline.at));
        ForwardError::from(
            deadline
                .remaining(self.now.get(), self.stop.get())
                .unwrap_err(),
        )
    }
    fn send_over_tcp(
        &self,
        exchange: &Exchange<'_>,
        stream: &mut Stream,
    ) -> Result<sederial::dns::message::Response, ForwardError> {
        let mut writer = FrameWriter::new(exchange.sent().wire()).map_err(ForwardError::from)?;
        let mut out = Vec::new();
        while !writer.pending().is_empty() {
            let part: Vec<u8> = writer.pending().iter().take(5).copied().collect();
            writer.advance(part.len()).map_err(ForwardError::from)?;
            out.extend(part);
        }
        let mock = self
            .mock_at(exchange.address().socket())
            .ok_or_else(refused)?;
        let closed = self.now.get() - stream.active >= MOCK_IDLE;
        stream.active = self.now.get();
        let mut input: Vec<u8> = Vec::new();
        if !closed {
            assert_eq!(out, frame(exchange.sent().wire()));
            for reply in mock.ask(&out[2..], true) {
                input.extend(frame(&reply));
            }
            if input.is_empty() {
                return Err(self.wait(exchange.deadline()));
            }
        }
        let mut reader = FrameReader::new();
        let mut at = 0;
        loop {
            let size = reader.wanted().min(7).min(input.len() - at);
            let step = reader.receive(&input[at..at + size]);
            at += size;
            match step {
                FrameStep::Partial => continue,
                FrameStep::Closed => {
                    return exchange.accept_frame(None, self.now.get(), self.stop.get());
                }
                FrameStep::Complete(wire) => {
                    return exchange.accept_frame(Some(&wire), self.now.get(), self.stop.get());
                }
                FrameStep::Failed(failure) => return Err(ForwardError::from(failure)),
            }
        }
    }
    fn connect(&self, exchange: &Exchange<'_>) -> Result<Stream, ForwardError> {
        exchange
            .deadline()
            .remaining(self.now.get(), self.stop.get())
            .map_err(ForwardError::from)?;
        let mock = self
            .mock_at(exchange.address().socket())
            .ok_or_else(refused)?;
        mock.tcp_connections.set(mock.tcp_connections.get() + 1);
        Ok(Stream {
            active: self.now.get(),
        })
    }
    fn tcp_exchange(
        &self,
        exchange: &Exchange<'_>,
    ) -> Result<sederial::dns::message::Response, ForwardError> {
        let cached = self
            .cache
            .borrow_mut()
            .take(exchange.address(), self.now.get());
        let mut reused = cached.is_some();
        let mut stream = match cached {
            Some(stream) => stream,
            None => self.connect(exchange)?,
        };
        loop {
            match tcp_next(reused, self.send_over_tcp(exchange, &mut stream)) {
                TcpNext::Reconnect => {
                    reused = false;
                    stream = self.connect(exchange)?;
                }
                TcpNext::Keep(response) => {
                    self.cache
                        .borrow_mut()
                        .keep(exchange.address(), stream, self.now.get());
                    return Ok(response);
                }
                TcpNext::Abandon(error) => return Err(error),
            }
        }
    }
    fn udp_exchange(
        &self,
        exchange: &Exchange<'_>,
    ) -> Result<sederial::dns::message::Response, ForwardError> {
        let mock = self
            .mock_at(exchange.address().socket())
            .ok_or_else(refused)?;
        let mut ignored = 0;
        for reply in mock.ask(exchange.sent().wire(), false) {
            match exchange.judge(&reply, ignored, self.now.get(), self.stop.get())? {
                Datagram::Answer(response) => return Ok(response),
                Datagram::Truncated => return self.tcp_exchange(exchange),
                Datagram::GiveUp => return Err(ForwardError::InvalidResponse),
                Datagram::Ignored { warn } => {
                    ignored += 1;
                    if warn {
                        self.log("ignored uncorrelated or malformed UDP response");
                    }
                }
            }
        }
        Err(self.wait(exchange.deadline()))
    }
    fn run(
        &self,
        query: &sederial::dns::message::Query<'_>,
        transport: Transport,
    ) -> Result<sederial::dns::message::Response, ForwardError> {
        let deadline = Deadline::after(self.now.get(), self.budget);
        let mut step = dispatch(
            &self.config.routing,
            query,
            transport,
            deadline,
            self.now.get(),
            self.stop.get(),
        );
        loop {
            let turn = match step {
                Step::Done(outcome) => return outcome,
                Step::Draw(draw) => draw.drawn(self.now.get(), self.stop.get(), Ok(self.draw())),
                Step::Exchange(exchange) => {
                    let reply = match exchange.over() {
                        Transport::Udp => self.udp_exchange(&exchange),
                        Transport::Tcp => self.tcp_exchange(&exchange),
                    };
                    exchange.replied(self.now.get(), self.stop.get(), reply)
                }
            };
            if let Some(warning) = turn.warning {
                self.log(&format!(
                    "upstream {:?}: {}",
                    warning.address.socket(),
                    warning.text
                ));
            }
            step = turn.step;
        }
    }
    fn respond(&self, wire: &[u8], transport: Transport) -> Option<Vec<u8>> {
        let packet = match intake(wire) {
            Intake::Silent { warning } => {
                if let Some(text) = warning {
                    self.log(&text);
                }
                return None;
            }
            Intake::Reply { wire, warning } => {
                if let Some(text) = warning {
                    self.log(&text);
                }
                return Some(wire);
            }
            Intake::Forward(packet) => packet,
        };
        let QueryDecision::Forward(query) = packet.validate_query() else {
            panic!("expected a forwardable query");
        };
        let conclusion = conclude(&query, transport, self.run(&query, transport));
        if let Some(text) = conclusion.warning {
            self.log(&text);
        }
        conclusion.reply
    }
}

fn udp(daemon: &Daemon, wire: &[u8]) -> Vec<u8> {
    daemon.respond(wire, Transport::Udp).expect("no UDP reply")
}

/// A client's TCP connection to the service.
struct Client<'a> {
    daemon: &'a Daemon,
    reader: FrameReader,
    inbox: Vec<u8>,
    open: bool,
}

fn tcp(daemon: &Daemon) -> Client<'_> {
    Client {
        daemon,
        reader: FrameReader::new(),
        inbox: Vec::new(),
        open: true,
    }
}

impl Client<'_> {
    fn write_all(&mut self, bytes: &[u8]) {
        let mut at = 0;
        while at < bytes.len() && self.open {
            let size = self.reader.wanted().min(bytes.len() - at);
            match self.reader.receive(&bytes[at..at + size]) {
                FrameStep::Partial => {}
                FrameStep::Complete(wire) => {
                    if let Some(reply) = self.daemon.respond(&wire, Transport::Tcp) {
                        self.inbox.extend(frame(&reply));
                    }
                }
                FrameStep::Closed => self.open = false,
                FrameStep::Failed(_) => self.open = false,
            }
            at += size;
        }
    }
    fn shutdown_write(&mut self) -> FrameStep {
        self.open = false;
        self.reader.receive(&[])
    }
}

fn read_frame(client: &mut Client<'_>) -> Vec<u8> {
    let size = usize::from(u16::from_be_bytes([client.inbox[0], client.inbox[1]]));
    let wire = client.inbox[2..2 + size].to_vec();
    client.inbox.drain(..2 + size);
    wire
}

#[test]
fn malformed_edns_returns_a_fresh_opt_over_both_transports() {
    let upstream = Mock::new("192.0.2.2:53", |q, _| vec![response(q, 1)]);
    let daemon = Daemon::start(&[&upstream], &[]);
    let base = query("edns.test", 1, 0x1234);
    let mut malformed = base.clone();
    edns(&mut malformed, 1232);
    let end = malformed.len();
    malformed[end - 2] = 2; // TLV declares two bytes, only one remains.
    let mut duplicate = base.clone();
    edns(&mut duplicate, 1232);
    duplicate.extend_from_within(base.len()..);
    duplicate[11] = 2;
    let mut short_opt = base.clone();
    edns(&mut short_opt, 1232);
    short_opt.truncate(base.len() + 9);
    let mut no_opt = base.clone();
    no_opt.push(0); // Trailing byte, no OPT advertised.
    let short_question = base[..base.len() - 1].to_vec();
    for (wire, with_opt) in [
        (malformed, true),
        (duplicate, true),
        (short_opt, false),
        (no_opt, false),
        (short_question, false),
    ] {
        for over_tcp in [false, true] {
            let reply = if over_tcp {
                let mut stream = tcp(&daemon);
                stream.write_all(&frame(&wire));
                read_frame(&mut stream)
            } else {
                udp(&daemon, &wire)
            };
            assert_eq!(&reply[..2], &base[..2]);
            assert_eq!(reply[3] & 15, 1);
            assert_eq!(&reply[6..10], &[0; 4]);
            assert_eq!(&reply[10..12], &[0, u8::from(with_opt)]);
            if with_opt {
                assert_eq!(&reply[4..6], &[0, 1]);
                assert_eq!(&reply[12..base.len()], &base[12..]);
                assert_eq!(
                    &reply[base.len()..],
                    &[0, 0, 41, 4, 208, 0, 0, 128, 0, 0, 0]
                );
            } else {
                assert_eq!(reply.len(), 12);
            }
        }
    }
    assert!(upstream.seen.borrow().is_empty());
}

#[test]
fn split_dns_routes_ad_srv_reverse_and_default_over_both_transports() {
    let public = Mock::new("192.0.2.3:53", |q, _| vec![response(q, 1)]);
    let parent = Mock::new("192.0.2.4:53", |q, _| vec![response(q, 2)]);
    let ad = Mock::new("192.0.2.5:53", |q, _| vec![response(q, 3)]);
    let daemon = Daemon::start(
        &[&public],
        &[
            ("exceeds.test", &parent),
            ("ad.lab.exceeds.test", &ad),
            ("100.168.192.in-addr.arpa", &ad),
        ],
    );
    for (name, kind, marker) in [
        ("dc01.ad.lab.exceeds.test", 1, 3),
        ("AD.LAB.EXCEEDS.TEST", 28, 3),
        ("_ldap._tcp.dc._msdcs.ad.lab.exceeds.test", 33, 3),
        ("1.100.168.192.in-addr.arpa", 12, 3),
        ("example.com", 1, 1),
        ("github.com", 1, 1),
        ("host.exceeds.test", 1, 2),
        ("badexceeds.test", 1, 1),
    ] {
        let query = query(name, kind, 0x4567);
        assert_eq!(udp(&daemon, &query), response(&query, marker));
        let mut stream = tcp(&daemon);
        stream.write_all(&frame(&query));
        assert_eq!(read_frame(&mut stream), response(&query, marker));
    }
    assert_eq!(ad.seen.borrow().len(), 8);
}

#[test]
fn tcp_fragmentation_pipelining_and_upstream_connection_reuse() {
    let mock = Mock::new("192.0.2.6:53", |q, tcp| {
        assert!(tcp);
        vec![response(q, 9)]
    });
    let daemon = Daemon::start(&[&mock], &[]);
    let mut stream = tcp(&daemon);
    let queries = [
        query("one.test", 1, 1),
        query("two.test", 1, 2),
        query("three.test", 1, 3),
    ];
    let bytes: Vec<_> = queries.iter().flat_map(|q| frame(q)).collect();
    for byte in &bytes {
        stream.write_all(&[*byte]);
    }
    for query in queries {
        assert_eq!(read_frame(&mut stream), response(&query, 9));
    }
    assert_eq!(mock.tcp_connections.get(), 1);
}

#[test]
fn truncated_udp_retries_tcp_and_respects_client_size() {
    let mock = Mock::new("192.0.2.7:53", |q, tcp| {
        if tcp {
            vec![large_response(q, 700)]
        } else {
            let mut reply = empty_response(q, 0);
            reply[2] |= 2;
            reply[7] = 1;
            reply.extend_from_slice(&[0xc0]); // RR cut during truncation: TCP must still be tried.
            vec![reply]
        }
    });
    let daemon = Daemon::start(&[&mock], &[]);
    let small = query("large.test", 1, 123);
    let truncated = udp(&daemon, &small);
    assert_ne!(truncated[2] & 2, 0);
    assert!(truncated.len() <= 512);
    assert_eq!(&truncated[6..10], &[0, 0, 0, 0]);
    let mut big = small.clone();
    edns(&mut big, 1232);
    assert_eq!(udp(&daemon, &big), large_response(&big, 700));
    let mut stream = tcp(&daemon);
    stream.write_all(&frame(&small));
    assert_eq!(read_frame(&mut stream), large_response(&small, 700));
    assert!(mock.tcp_connections.get() >= 1);
}

#[test]
fn edns_unknown_records_flags_and_options_survive() {
    let mock = Mock::new("192.0.2.8:53", |q, _| {
        let mut reply = large_response(q, 600);
        reply[3] |= 0x70;
        vec![reply]
    });
    let daemon = Daemon::start(&[&mock], &[]);
    let mut q = query("unknown.test", 65000, 72);
    edns(&mut q, 4096);
    q[3] |= 0x50;
    let actual = udp(&daemon, &q);
    let mut expected = large_response(&q, 600);
    expected[3] |= 0x70;
    assert_eq!(actual, expected);
    let seen = mock.seen.borrow();
    assert_eq!(&seen[0][2..], &q[2..]);
}

#[test]
fn last_dns_failure_preserves_ede_even_after_transport_failure() {
    for codes in [[2, 5], [5, 2], [2, 2]] {
        let first = Mock::new("192.0.2.9:53", move |q, _| vec![empty_response(q, codes[0])]);
        let last = Mock::new("192.0.2.10:53", move |q, _| {
            let mut reply = empty_response(q, codes[1]);
            // An independently encoded Extended DNS Error option.
            let opt = question_end(q);
            reply.truncate(opt);
            reply[11] = 1;
            reply.extend_from_slice(&[
                0, 0, 41, 4, 208, 0, 0, 0, 0, 0, 8, 0, 15, 0, 4, 0, 22, b'n', b'o',
            ]);
            vec![reply]
        });
        let closed = Mock::closed("192.0.2.250:53");
        let daemon = Daemon::start(&[&first, &last, &closed], &[]);
        let mut q = query("ede.test", 1, 17);
        edns(&mut q, 1232);
        for over_tcp in [false, true] {
            let reply = if over_tcp {
                let mut stream = tcp(&daemon);
                stream.write_all(&frame(&q));
                read_frame(&mut stream)
            } else {
                udp(&daemon, &q)
            };
            assert_eq!(reply[3] & 15, codes[1]);
            assert!(reply.ends_with(&[0, 15, 0, 4, 0, 22, b'n', b'o']));
        }
    }
}

#[test]
fn invalid_udp_responses_are_ignored_until_correlated_reply() {
    let mock = Mock::new("192.0.2.11:53", |q, _| {
        let valid = response(q, 7);
        let mut id = valid.clone();
        id[0] ^= 1;
        let mut name = valid.clone();
        name[13] ^= 1;
        let mut kind = valid.clone();
        kind[question_end(q) - 3] ^= 1;
        let mut class = valid.clone();
        class[question_end(q) - 1] ^= 1;
        let mut opcode = valid.clone();
        opcode[2] ^= 8;
        vec![vec![0; 3], q.to_vec(), id, name, kind, class, opcode, valid]
    });
    let daemon = Daemon::start(&[&mock], &[]);
    let q = query("valid.test", 1, 7);
    assert_eq!(udp(&daemon, &q), response(&q, 7));
}

#[test]
fn timeout_servfail_and_connection_failure_fail_over_but_nxdomain_is_final() {
    let silent = Mock::new("192.0.2.12:53", |_, _| vec![]);
    let soft = Mock::new("192.0.2.13:53", |q, _| vec![empty_response(q, 2)]);
    let good = Mock::new("192.0.2.14:53", |q, _| vec![response(q, 8)]);
    let daemon = Daemon::start(&[&silent, &soft, &good], &[]);
    let q = query("fallback.test", 1, 8);
    let started = daemon.now.get();
    assert_eq!(udp(&daemon, &q), response(&q, 8));
    let elapsed = daemon.now.get() - started;
    assert!(elapsed >= 1900 * MILLISECOND && elapsed < 4500 * MILLISECOND);
    let negative = Mock::new("192.0.2.15:53", |q, _| vec![empty_response(q, 3)]);
    let daemon = Daemon::start(&[&negative, &good], &[]);
    assert_eq!(udp(&daemon, &q), empty_response(&q, 3));
    assert_eq!(good.seen.borrow().len(), 1);
    let closed = Mock::closed("192.0.2.250:53");
    let daemon = Daemon::start(&[&closed, &good], &[]);
    let mut stream = tcp(&daemon);
    stream.write_all(&frame(&q));
    assert_eq!(read_frame(&mut stream), response(&q, 8));
}

fn query_with_client_cookie(name: &str, id: u16, client: &[u8; 8]) -> Vec<u8> {
    let mut wire = query(name, 1, id);
    wire[11] = 1;
    wire.extend_from_slice(&[0, 0, 41, 0x04, 0xd0, 0, 0, 0, 0, 0, 12, 0, 10, 0, 8]);
    wire.extend_from_slice(client);
    wire
}

fn badcookie_offering(query: &[u8], server: &[u8; 8]) -> Vec<u8> {
    let mut reply = query.to_vec();
    reply[2] |= 0x80;
    reply[3] = 0x87;
    let opt = question_end(&reply);
    reply[opt + 5] = 1;
    let rdlen = u16::from_be_bytes([reply[opt + 9], reply[opt + 10]]) + 8;
    reply[opt + 9..opt + 11].copy_from_slice(&rdlen.to_be_bytes());
    let option_len = u16::from_be_bytes([reply[opt + 13], reply[opt + 14]]) + 8;
    reply[opt + 13..opt + 15].copy_from_slice(&option_len.to_be_bytes());
    reply.extend_from_slice(server);
    reply
}

fn has_server_cookie(query: &[u8], server: &[u8; 8]) -> bool {
    let opt = question_end(query);
    query.len() >= opt + 15 + 8 + 8 && query[opt + 15 + 8..].starts_with(server)
}

#[test]
fn badcookie_retries_the_same_server_then_tcp() {
    let server = [0x22; 8];
    let client = [1, 2, 3, 4, 5, 6, 7, 8];
    let upstream = Mock::new("192.0.2.16:53", move |q, tcp| {
        if tcp && has_server_cookie(q, &server) {
            vec![response(q, 4)]
        } else if has_server_cookie(q, &server) {
            let mut reply = q.to_vec();
            reply[2] |= 0x80;
            reply[3] = 0x87;
            let opt = question_end(&reply);
            reply[opt + 5] = 1;
            vec![reply]
        } else {
            vec![badcookie_offering(q, &server)]
        }
    });
    let other = Mock::new("192.0.2.17:53", |q, _| vec![response(q, 1)]);
    let daemon = Daemon::start(&[&upstream, &other], &[]);
    let q = query_with_client_cookie("cookie.test", 9, &client);
    let answer = udp(&daemon, &q);
    assert_eq!(
        answer[3] & 0x0f,
        0,
        "expected the TCP answer, got {answer:?}"
    );
    assert_eq!(upstream.tcp_connections.get(), 1);
    assert!(other.seen.borrow().is_empty());
    assert_eq!(upstream.seen.borrow().len(), 3);
}

#[test]
fn badcookie_with_a_fresh_server_cookie_is_answered_on_udp() {
    let server = [0x33; 8];
    let client = [8, 7, 6, 5, 4, 3, 2, 1];
    let upstream = Mock::new("192.0.2.18:53", move |q, tcp| {
        assert!(!tcp);
        if has_server_cookie(q, &server) {
            vec![response(q, 6)]
        } else {
            vec![badcookie_offering(q, &server)]
        }
    });
    let other = Mock::new("192.0.2.19:53", |q, _| vec![response(q, 1)]);
    let daemon = Daemon::start(&[&upstream, &other], &[]);
    let q = query_with_client_cookie("retry.test", 6, &client);
    let answer = udp(&daemon, &q);
    assert_eq!(&answer[..2], &q[..2]);
    assert_eq!(answer[3] & 0x0f, 0);
    assert_eq!(upstream.seen.borrow().len(), 2);
    assert!(other.seen.borrow().is_empty());
}

#[test]
fn servfail_after_cookie_retry_tries_the_next_server() {
    let server = [0x44; 8];
    let client = [9; 8];
    let upstream = Mock::new("192.0.2.20:53", move |q, tcp| {
        assert!(!tcp);
        if has_server_cookie(q, &server) {
            vec![empty_response(q, 2)]
        } else {
            vec![badcookie_offering(q, &server)]
        }
    });
    let other = Mock::new("192.0.2.21:53", |q, _| vec![cookie_response(q, 0, false)]);
    let daemon = Daemon::start(&[&upstream, &other], &[]);
    let q = query_with_client_cookie("failover.test", 7, &client);
    assert_eq!(udp(&daemon, &q), cookie_response(&q, 0, false));
    assert_eq!(upstream.seen.borrow().len(), 2);
    assert_eq!(other.seen.borrow().len(), 1);
}

#[test]
fn refused_fails_over_but_nxdomain_is_final() {
    let refused = Mock::new("192.0.2.22:53", |q, _| vec![empty_response(q, 5)]);
    let good = Mock::new("192.0.2.23:53", |q, _| vec![response(q, 4)]);
    let daemon = Daemon::start(&[&refused, &good], &[]);
    let q = query("refused.test", 1, 4);
    assert_eq!(udp(&daemon, &q), response(&q, 4));

    let negative = Mock::new("192.0.2.24:53", |q, _| vec![empty_response(q, 3)]);
    let untouched = Mock::new("192.0.2.25:53", |q, _| vec![response(q, 1)]);
    let daemon = Daemon::start(&[&negative, &untouched], &[]);
    assert_eq!(
        udp(&daemon, &query("nxdomain.test", 1, 3)),
        empty_response(&query("nxdomain.test", 1, 3), 3)
    );
    assert!(untouched.seen.borrow().is_empty());

    let only = Mock::new("192.0.2.26:53", |q, _| vec![empty_response(q, 5)]);
    let daemon = Daemon::start(&[&only], &[]);
    let refused_query = query("last-refused.test", 1, 5);
    assert_eq!(
        udp(&daemon, &refused_query),
        empty_response(&refused_query, 5)
    );
}

#[test]
fn unavailable_upstreams_return_servfail() {
    let mock = Mock::new("192.0.2.27:53", |_, _| vec![]);
    let daemon = Daemon::start(&[&mock], &[]);
    let q = query("timeout.test", 1, 55);
    let reply = udp(&daemon, &q);
    assert_eq!(&reply[..2], &q[..2]);
    assert_eq!(reply[3] & 15, 2);
}

#[test]
fn ipv6_listener_and_upstream() {
    let mock = Mock::new("[::1]:5353", |q, _| vec![response(q, 6)]);
    let daemon = Daemon::on(
        "[::1]:5300",
        &[mock.address.clone()],
        &[],
        vec![Rc::clone(&mock)],
    );
    let q = query("ipv6.test", 28, 6);
    assert_eq!(udp(&daemon, &q), response(&q, 6));
    let mut stream = tcp(&daemon);
    stream.write_all(&frame(&q));
    assert_eq!(read_frame(&mut stream), response(&q, 6));
}

#[test]
fn ipv4_mapped_upstream_reaches_the_ipv4_endpoint() {
    let mock = Mock::new("192.0.2.28:53", |q, _| vec![response(q, 4)]);
    let mapped = format!("[::ffff:{}]:53", mock.address.trim_end_matches(":53"));
    let daemon = Daemon::on("127.0.0.1:5300", &[mapped], &[], vec![Rc::clone(&mock)]);
    let q = query("mapped.test", 1, 4);
    assert_eq!(udp(&daemon, &q), response(&q, 4));
    let mut stream = tcp(&daemon);
    stream.write_all(&frame(&q));
    assert_eq!(read_frame(&mut stream), response(&q, 4));
}

#[test]
fn invalid_tcp_responses_fail_over_and_private_routes_do_not_leak() {
    let bad = Mock::new("192.0.2.29:53", |q, _| {
        let mut reply = response(q, 1);
        reply[0] ^= 1;
        vec![reply]
    });
    let good = Mock::new("192.0.2.30:53", |q, _| vec![response(q, 2)]);
    let daemon = Daemon::start(&[&bad, &good], &[]);
    let q = query("failover.test", 1, 13);
    let mut stream = tcp(&daemon);
    stream.write_all(&frame(&q));
    assert_eq!(read_frame(&mut stream), response(&q, 2));
    let private = Mock::new("192.0.2.31:53", |q, _| vec![empty_response(q, 2)]);
    let daemon = Daemon::start(&[&good], &[("private.test", &private)]);
    let answer = udp(&daemon, &query("secret.private.test", 1, 14));
    assert_eq!(answer[3] & 15, 2);
    assert_eq!(good.seen.borrow().len(), 1);
}

#[test]
fn udp_ceiling_truncates_large_edns_answer_but_tcp_keeps_it() {
    // Exceed the 1232-byte reply limit without requiring IP fragmentation.
    let mock = Mock::new("192.0.2.32:53", |q, _| vec![large_response(q, 1300)]);
    let daemon = Daemon::start(&[&mock], &[]);
    let mut q = query("ceiling.test", 1, 33);
    edns(&mut q, 4096);
    let reply = udp(&daemon, &q);
    assert_ne!(
        reply[2] & 2,
        0,
        "reply {:?}; logs {}",
        &reply[..12],
        daemon.logs.borrow()
    );
    assert!(reply.len() <= 1232);
    assert_eq!(reply[11], 1); // Keep EDNS in the generated TC reply.
    let mut stream = tcp(&daemon);
    stream.write_all(&frame(&q));
    assert_eq!(read_frame(&mut stream), large_response(&q, 1300));
}

// Returns a valid response COOKIE, replacing only the independently known OPT.
fn cookie_response(q: &[u8], code: u8, large: bool) -> Vec<u8> {
    let client = &q[question_end(q) + 15..question_end(q) + 23];
    let mut reply = if large {
        large_response(q, 1300)
    } else {
        empty_response(q, code & 15)
    };
    let opt = if large {
        question_end(q) + 12 + 1300
    } else {
        question_end(q)
    };
    reply.truncate(opt);
    reply[3] = 0x80 | (code & 15);
    reply[11] = 1;
    reply.extend_from_slice(&[0, 0, 41, 4, 208, code >> 4, 0, 0, 0, 0, 20, 0, 10, 0, 16]);
    reply.extend_from_slice(client);
    reply.extend_from_slice(&[0x55; 8]);
    reply
}

#[test]
fn every_udp_rcode_checks_cookie_before_accepting_the_response() {
    for code in [0, 2, 5, 23] {
        let upstream = Mock::new("192.0.2.33:53", move |q, over_tcp| {
            let valid = cookie_response(q, code, false);
            if over_tcp {
                return vec![valid];
            }
            let mut mismatch = valid.clone();
            mismatch[question_end(q) + 15] ^= 1;
            let mut short = valid.clone();
            let opt = question_end(q);
            short[opt + 10] = 12;
            short[opt + 14] = 8;
            short.truncate(opt + 23);
            vec![mismatch, short, valid]
        });
        let daemon = Daemon::start(&[&upstream], &[]);
        let q = query_with_client_cookie("correlate.test", 37, &[4; 8]);
        assert_eq!(udp(&daemon, &q), cookie_response(&q, code, false));
    }
}

#[test]
fn local_tc_retains_the_validated_response_cookie() {
    let upstream = Mock::new("192.0.2.34:53", |q, _| vec![cookie_response(q, 0, true)]);
    let daemon = Daemon::start(&[&upstream], &[]);
    let q = query_with_client_cookie("cookie-large.test", 38, &[7; 8]);
    let reply = udp(&daemon, &q);
    assert_ne!(
        reply[2] & 2,
        0,
        "reply={reply:?}, logs={:?}",
        daemon.logs.borrow()
    );
    assert_eq!(&reply[4..12], &[0, 1, 0, 0, 0, 0, 0, 1]);
    assert_eq!(
        &reply[question_end(&q)..],
        &cookie_response(&q, 0, false)[question_end(&q)..]
    );
}

#[test]
fn cookie_before_padding_unknown_option_or_additional_rr_uses_tcp_without_moving_bytes() {
    for suffix in [0, 1, 2] {
        let upstream =
            Mock::new("192.0.2.35:53", |q, over_tcp| vec![cookie_response(q, if over_tcp { 0 } else { 23 }, false)]);
        let public = Mock::new("192.0.2.36:53", |q, _| vec![response(q, 1)]);
        let daemon = Daemon::start(&[&public], &[("private.test", &upstream)]);
        let mut q = query_with_client_cookie("private.test", 39, &[6; 8]);
        let opt = question_end(&q);
        if suffix < 2 {
            q[opt + 10] += 5;
            q.extend_from_slice(&[
                if suffix == 0 { 0 } else { 253 },
                if suffix == 0 { 12 } else { 232 },
                0,
                1,
                0,
            ]);
        } else {
            q[11] = 2;
            // Opaque data contains a pointer-looking byte sequence; never relocate it.
            q.extend_from_slice(&[0xc0, 12, 253, 232, 0, 1, 0, 0, 0, 0, 0, 2, 0xc0, 12]);
        }
        let reply = udp(&daemon, &q);
        assert_eq!(reply[3] & 15, 0);
        assert_eq!(upstream.tcp_connections.get(), 1);
        let seen = upstream.seen.borrow();
        assert_eq!(seen.len(), 2);
        assert_eq!(&seen[1][2..], &q[2..]);
        assert!(public.seen.borrow().is_empty());
    }
}

#[test]
fn cookie_validation_covers_initial_and_retried_tcp_and_udp_responses() {
    for phase in [
        "initial-udp",
        "initial-tcp",
        "udp-retry",
        "tcp-retry",
        "tcp-after-udp",
    ] {
        for invalid in ["mismatch", "short", "missing"] {
            if invalid == "missing" && phase.starts_with("initial") {
                continue;
            }
            let calls = Cell::new(0_usize);
            let upstream = Mock::new("192.0.2.37:53", move |q, over_tcp| {
                let call = calls.replace(calls.get() + 1);
                let challenge = match phase {
                    "udp-retry" | "tcp-retry" => call == 0,
                    "tcp-after-udp" => call < 2,
                    _ => false,
                };
                if challenge {
                    return vec![cookie_response(q, 23, false)];
                }
                let valid = cookie_response(q, 0, false);
                let mut bad = valid.clone();
                let opt = question_end(q);
                match invalid {
                    "mismatch" => bad[opt + 15] ^= 1,
                    "short" => {
                        bad[opt + 10] = 12;
                        bad[opt + 14] = 8;
                        bad.truncate(opt + 23);
                    }
                    _ => {
                        bad[opt + 10] = 0;
                        bad.truncate(opt + 11);
                    }
                }
                if over_tcp {
                    vec![bad]
                } else {
                    vec![bad, valid]
                }
            });
            let public = Mock::new("192.0.2.38:53", |q, _| vec![response(q, 1)]);
            let daemon = Daemon::start(&[&public], &[("private.test", &upstream)]);
            let q = query_with_client_cookie("private.test", 52, &[8; 8]);
            let client_tcp = matches!(phase, "initial-tcp" | "tcp-retry");
            let actual = if client_tcp {
                let mut stream = tcp(&daemon);
                stream.write_all(&frame(&q));
                read_frame(&mut stream)
            } else {
                udp(&daemon, &q)
            };
            let expected_code = if phase.contains("tcp") { 2 } else { 0 };
            assert_eq!(actual[3] & 15, expected_code, "{phase} {invalid}");
            if expected_code == 0 {
                assert_eq!(actual, cookie_response(&q, 0, false));
            }
            assert!(public.seen.borrow().is_empty());
        }
    }
}

#[test]
fn cookie_unaware_servers_remain_compatible_on_the_first_exchange() {
    let upstream = Mock::new("192.0.2.39:53", |q, _| {
        let mut reply = empty_response(q, 0);
        reply.truncate(question_end(q));
        reply[11] = 0;
        vec![reply]
    });
    let daemon = Daemon::start(&[&upstream], &[]);
    for server_cookie in [false, true] {
        let mut q = query_with_client_cookie("legacy.test", 53, &[3; 8]);
        if server_cookie {
            let opt = question_end(&q);
            q[opt + 10] = 20;
            q[opt + 14] = 16;
            q.extend_from_slice(&[9; 8]);
        }
        assert_eq!(udp(&daemon, &q)[3] & 15, 0);
        let mut stream = tcp(&daemon);
        stream.write_all(&frame(&q));
        assert_eq!(read_frame(&mut stream)[3] & 15, 0);
    }
}

#[test]
fn private_route_failures_never_contact_default_over_udp_or_tcp() {
    for failure in [
        "timeout",
        "servfail",
        "refused",
        "badcookie",
        "malformed",
        "reconnect",
    ] {
        let upstream = Mock::new("192.0.2.40:53", move |q, _| match failure {
            "timeout" => vec![],
            "servfail" => vec![empty_response(q, 2)],
            "refused" => vec![empty_response(q, 5)],
            "badcookie" => vec![cookie_response(q, 23, false)],
            "malformed" => vec![vec![0; 3]],
            _ => vec![response(q, 9)],
        });
        let public = Mock::new("192.0.2.41:53", |q, _| vec![response(q, 1)]);
        let daemon = Daemon::start(&[&public], &[("private.test", &upstream)]);
        let q = if failure == "badcookie" {
            query_with_client_cookie("private.test", 54, &[8; 8])
        } else {
            query("private.test", 1, 54)
        };
        let answer = udp(&daemon, &q);
        assert_eq!(&answer[..2], &q[..2]);
        let mut stream = tcp(&daemon);
        stream.write_all(&frame(&q));
        read_frame(&mut stream);
        if failure == "reconnect" {
            // Mock closes idle TCP in 100 ms; the worker retains it for 2 s.
            daemon.now.set(daemon.now.get() + 250 * MILLISECOND);
            stream.write_all(&frame(&q));
            assert_eq!(read_frame(&mut stream), response(&q, 9));
            assert!(upstream.tcp_connections.get() >= 2);
        }
        assert!(public.seen.borrow().is_empty(), "{failure}");
    }
}

#[test]
fn malformed_unsupported_and_unsolicited_packets_do_not_break_service() {
    let mock = Mock::new("192.0.2.201:53", |q, _| vec![response(q, 1)]);
    let daemon = Daemon::start(&[&mock], &[]);
    let q = query("private-client-name.test", 1, 1);
    for bytes in [&[1, 2, 3][..], &empty_response(&q, 0)] {
        assert!(daemon.respond(bytes, Transport::Udp).is_none());
    }
    let mut invalid = q[..12].to_vec();
    invalid.extend_from_slice(&[0xc0, 12, 0, 1, 0, 1]);
    assert_eq!(udp(&daemon, &invalid)[3] & 15, 1);
    let mut count = q.clone();
    count[5] = 2;
    assert_eq!(udp(&daemon, &count)[3] & 15, 1);
    let mut opcode = q.clone();
    opcode[2] |= 8;
    assert_eq!(udp(&daemon, &opcode)[3] & 15, 4);
    for kind in [251, 252, 249, 250, 41] {
        assert_eq!(udp(&daemon, &query("test", kind, 2))[3] & 15, 5);
    }
    let mut version = q.clone();
    edns(&mut version, 1232);
    version[q.len() + 6] = 1;
    let error = udp(&daemon, &version);
    assert_eq!(error[3] & 15, 0);
    assert_eq!(error[question_end(&error) + 5], 1); // extended BADVERS
    assert_eq!(udp(&daemon, &q), response(&q, 1));
    assert!(!daemon.logs.borrow().contains("private-client-name"));
    assert_eq!(mock.seen.borrow().len(), 1);
}

#[test]
fn malformed_tcp_frames_close_only_the_offending_connection() {
    let mock = Mock::new("192.0.2.202:53", |q, _| vec![response(q, 1)]);
    let daemon = Daemon::start(&[&mock], &[]);
    for length in [0_u16, 1, 11] {
        let mut stream = tcp(&daemon);
        stream.write_all(&length.to_be_bytes());
        assert!(!stream.open);
        assert!(stream.inbox.is_empty());
    }
    let mut partial = tcp(&daemon);
    partial.write_all(&[0, 50, 1, 2]);
    assert!(matches!(partial.shutdown_write(), FrameStep::Failed(_)));
    assert!(partial.inbox.is_empty());
    let q = query("still-alive.test", 1, 9);
    assert_eq!(udp(&daemon, &q), response(&q, 1));
}

const BUDGET: u64 = 150 * MILLISECOND;

#[test]
fn request_budget_bounds_failover_and_shutdown_never_contacts_next_server() {
    for cancel in [false, true] {
        let stop = Rc::new(Cell::new(false));
        let stopping = Rc::clone(&stop);
        let first = Mock::new("192.0.2.203:53", move |q, _| {
            let mut q = q.to_vec();
            q[2] |= 0x80;
            q[3] = 0x85;
            stopping.set(cancel);
            vec![q]
        });
        let silent = Mock::new("192.0.2.204:53", |_, _| vec![]);
        let never = Mock::new("192.0.2.205:53", |_, _| vec![]);
        let mut daemon = Daemon::start(&[&first, &silent, &never], &[]);
        daemon.stop = stop;
        daemon.budget = BUDGET;
        let packet = sederial::dns::message::Packet::parse(&query("a.test", 1, 0x1234)).unwrap();
        let QueryDecision::Forward(query) = packet.validate_query() else {
            panic!()
        };
        let result = daemon.run(&query, Transport::Udp);
        if cancel {
            assert!(matches!(result, Err(ForwardError::Cancelled)));
            assert!(silent.seen.borrow().is_empty());
        } else {
            assert!(matches!(result, Err(ForwardError::Timeout)));
            assert_eq!(silent.seen.borrow().len(), 1);
        }
        assert!(never.seen.borrow().is_empty());
    }
}

#[test]
fn tc_cookie_and_reused_tcp_share_the_original_request_budget() {
    for mode in ["tc", "cookie", "reconnect"] {
        let mut wire = query("a.test", 1, 0x1234);
        let opt = wire.len();
        if mode == "cookie" {
            wire[11] = 1;
            wire.extend_from_slice(&[0, 0, 41, 4, 208, 0, 0, 0, 0, 0, 12, 0, 10, 0, 8]);
            wire.extend_from_slice(&[7; 8]);
        }
        let calls = Cell::new(0_usize);
        let upstream = Mock::new("192.0.2.206:53", move |q, tcp| {
            let call = calls.replace(calls.get() + 1);
            let mut q = q.to_vec();
            q[2] |= 0x80;
            if tcp {
                return vec![];
            }
            if mode == "cookie" {
                q[3] = 0x87;
                q[opt + 5] = 1;
                if call == 0 {
                    q[opt + 10] = 20;
                    q[opt + 14] = 16;
                    q.extend_from_slice(&[9; 8]);
                }
            } else {
                q[2] |= 2;
                q[7] = 1;
                q.push(0xc0);
            }
            vec![q]
        });
        let never = Mock::new("192.0.2.207:53", |_, _| vec![]);
        let mut daemon = Daemon::start(&[&upstream, &never], &[]);
        daemon.budget = BUDGET;
        let transport = if mode == "reconnect" {
            let address = daemon.config.routing.default().servers()[0];
            let idle = Stream {
                active: daemon.now.get() - MOCK_IDLE,
            };
            daemon
                .cache
                .borrow_mut()
                .keep(address, idle, daemon.now.get());
            Transport::Tcp
        } else {
            Transport::Udp
        };
        let packet = sederial::dns::message::Packet::parse(&wire).unwrap();
        let QueryDecision::Forward(query) = packet.validate_query() else {
            panic!()
        };
        let started = daemon.now.get();
        let result = daemon.run(&query, transport);
        assert!(
            matches!(result, Err(ForwardError::Timeout)),
            "{mode}: {result:?}"
        );
        assert_eq!(daemon.now.get() - started, BUDGET);
        assert_eq!(upstream.tcp_connections.get(), 1);
        assert!(never.seen.borrow().is_empty());
    }
}

#[test]
fn the_last_tolerated_invalid_datagram_ends_the_exchange() {
    for (count, code) in [(63, 0), (64, 2)] {
        let noisy = Mock::new("192.0.2.208:53", move |q, _| {
            let mut list = vec![vec![0; 3]; count];
            list.push(response(q, 1));
            list
        });
        let daemon = Daemon::start(&[&noisy], &[]);
        let reply = udp(&daemon, &query("noise.test", 1, 3));
        assert_eq!(reply[3] & 15, code);
        let logs = daemon.logs.borrow();
        assert_eq!(logs.matches("ignored uncorrelated").count(), 1);
        assert_eq!(
            logs.matches("invalid or uncorrelated response").count(),
            if code == 0 { 0 } else { 2 }
        );
    }
}

#[test]
fn a_failed_draw_gives_the_query_up() {
    let first = Mock::new("192.0.2.209:53", |q, _| vec![response(q, 1)]);
    let second = Mock::new("192.0.2.210:53", |q, _| vec![response(q, 1)]);
    let daemon = Daemon::start(&[&first, &second], &[]);
    let packet = sederial::dns::message::Packet::parse(&query("a.test", 1, 1)).unwrap();
    let QueryDecision::Forward(query) = packet.validate_query() else {
        panic!()
    };
    let selection = daemon.config.routing.select(query.name());
    let deadline = Deadline::after(0, REQUEST_BUDGET);
    let step = forward(
        &query,
        selection.upstreams(),
        Transport::Udp,
        deadline,
        0,
        false,
    );
    let Step::Draw(draw) = step else {
        panic!("expected a draw");
    };
    let turn = draw.drawn(
        0,
        false,
        Err(IoFailure {
            kind: IoErrorKind::UnexpectedEof,
            cancelled: false,
            message: "no entropy".to_string(),
        }),
    );
    assert!(turn.warning.is_none());
    match turn.step {
        Step::Done(Err(ForwardError::Io(text))) => assert_eq!(text, "no entropy"),
        other => panic!("expected a failure, got {other:?}"),
    }
}

#[test]
fn attempts_are_capped_by_the_request() {
    let packet = sederial::dns::message::Packet::parse(&query("a.test", 1, 1)).unwrap();
    let QueryDecision::Forward(query) = packet.validate_query() else {
        panic!()
    };
    let silent = Mock::new("192.0.2.211:53", |_, _| vec![]);
    let daemon = Daemon::start(&[&silent], &[]);
    let selection = daemon.config.routing.select(query.name());
    for (budget, attempt) in [(16_000, 2_000), (1_500, 1_500)] {
        let deadline = Deadline::after(0, budget * MILLISECOND);
        let step = forward(
            &query,
            selection.upstreams(),
            Transport::Tcp,
            deadline,
            0,
            false,
        );
        let Step::Draw(draw) = step else {
            panic!("expected a draw");
        };
        let Step::Exchange(exchange) = draw.drawn(0, false, Ok(TransactionId(0x0102))).step else {
            panic!("expected an exchange");
        };
        assert_eq!(exchange.deadline().at, attempt * MILLISECOND);
        assert_eq!(exchange.over(), Transport::Tcp);
        assert_eq!(&exchange.sent().wire()[..2], &[1, 2]);
        assert_eq!(&exchange.sent().wire()[2..], &packet.wire()[2..]);
        assert_eq!(
            exchange.address().socket(),
            parse_address("192.0.2.211:53").unwrap()
        );
    }
    let stopped = forward(
        &query,
        selection.upstreams(),
        Transport::Tcp,
        Deadline::after(0, 5),
        0,
        true,
    );
    assert!(matches!(stopped, Step::Done(Err(ForwardError::Cancelled))));
}

#[test]
fn cached_streams_expire_and_match_their_server() {
    let server = |text: &str| {
        sederial::routing::UpstreamAddress::new(parse_address(text).unwrap()).unwrap()
    };
    let mut cache: ConnectionCache<u8> = ConnectionCache::new();
    cache.keep(server("192.0.2.1"), 7, 100);
    assert_eq!(cache.take(server("192.0.2.1"), 100 + 1_999_999_999), Some(7));
    assert_eq!(cache.take(server("192.0.2.1"), 100), None);
    cache.keep(server("192.0.2.1"), 8, 100);
    assert_eq!(cache.take(server("192.0.2.2"), 100), None);
    assert_eq!(cache.take(server("192.0.2.1"), 100), None);
    cache.keep(server("192.0.2.1"), 9, 100);
    cache.expire_idle(100 + 2_000_000_000);
    assert_eq!(cache.take(server("192.0.2.1"), 100), None);
}

#[test]
fn a_query_is_dispatched_to_the_group_of_its_name() {
    let default = Mock::new("192.0.2.212:53", |q, _| vec![response(q, 1)]);
    let broad = Mock::new("192.0.2.213:53", |q, _| vec![response(q, 1)]);
    let narrow = Mock::new("192.0.2.214:53", |q, _| vec![response(q, 1)]);
    let daemon = Daemon::start(
        &[&default],
        &[("corp.test", &broad), ("lab.corp.test", &narrow)],
    );
    for (name, server) in [
        ("public.test", "192.0.2.212:53"),
        ("xcorp.test", "192.0.2.212:53"),
        ("corp.test", "192.0.2.213:53"),
        ("host.CORP.test", "192.0.2.213:53"),
        ("host.lab.corp.test", "192.0.2.214:53"),
    ] {
        let packet = sederial::dns::message::Packet::parse(&query(name, 1, 1)).unwrap();
        let QueryDecision::Forward(query) = packet.validate_query() else {
            panic!()
        };
        let deadline = Deadline::after(0, REQUEST_BUDGET);
        let step = dispatch(
            &daemon.config.routing,
            &query,
            Transport::Udp,
            deadline,
            0,
            false,
        );
        let Step::Draw(draw) = step else {
            panic!("expected a draw");
        };
        let Step::Exchange(exchange) = draw.drawn(0, false, Ok(TransactionId(7))).step else {
            panic!("expected an exchange");
        };
        assert_eq!(
            exchange.address().socket(),
            parse_address(server).unwrap(),
            "{name}"
        );
    }
}
