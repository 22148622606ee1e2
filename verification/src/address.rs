//! IP endpoints and their text form.
//!
//! IPv4 is four decimal octets without leading zeros. IPv6 is hexadecimal
//! groups, at most one `::`, and possibly a trailing IPv4 part. An endpoint puts
//! IPv6 in brackets, with an optional numeric scope, before its port.
use crate::text::{self, chars_of, split_chars};
use vstd::prelude::*;
use vstd::slice::slice_subrange;

verus! {

pub const DEFAULT_DNS_PORT: u16 = 53;

/// An IP address as its big-endian value.
#[derive(Debug, Clone, Copy, PartialEq, Eq, Structural)]
pub enum IpAddress {
    V4(u32),
    V6(u128),
}

impl IpAddress {
    /// The IPv4 address that an IPv4-mapped IPv6 address denotes; any other
    /// address as it is.
    pub open spec fn canonical(self) -> IpAddress {
        match self {
            IpAddress::V6(bits) => if bits / 0x1_0000_0000 == 0xffff {
                IpAddress::V4((bits % 0x1_0000_0000) as u32)
            } else {
                self
            },
            IpAddress::V4(_) => self,
        }
    }

    /// Whether a packet can be sent to this address and reach one host.
    pub open spec fn unicast(self) -> bool {
        match self {
            IpAddress::V4(bits) => bits != 0 && bits / 0x1000_0000 != 14 && bits != 0xffff_ffff,
            IpAddress::V6(bits) => bits != 0 && bits / 0x0100_0000_0000_0000_0000_0000_0000_0000
                != 0xff,
        }
    }

    pub fn to_canonical(self) -> (r: IpAddress)
        ensures
            r == self.canonical(),
    {
        match self {
            IpAddress::V6(bits) => if bits / 0x1_0000_0000 == 0xffff {
                IpAddress::V4((bits % 0x1_0000_0000) as u32)
            } else {
                self
            },
            IpAddress::V4(_) => self,
        }
    }

    pub fn is_unicast(self) -> (r: bool)
        ensures
            r == self.unicast(),
    {
        match self {
            IpAddress::V4(bits) => bits != 0 && bits / 0x1000_0000 != 14 && bits != 0xffff_ffff,
            IpAddress::V6(bits) => bits != 0 && bits / 0x0100_0000_0000_0000_0000_0000_0000_0000
                != 0xff,
        }
    }

    pub fn is_ipv6(self) -> (r: bool)
        ensures
            r == (self is V6),
    {
        match self {
            IpAddress::V4(_) => false,
            IpAddress::V6(_) => true,
        }
    }
}

/// An IP address and a port; the scope belongs to IPv6 and is zero otherwise.
#[derive(Debug, Clone, Copy, PartialEq, Eq, Structural)]
pub struct SocketAddress {
    pub ip: IpAddress,
    pub port: u16,
    pub scope_id: u32,
}

impl SocketAddress {
    /// Whether two endpoints are the same address and port, however the address
    /// is spelled; the scope does not matter.
    pub open spec fn meets(self, other: SocketAddress) -> bool {
        self.port == other.port && self.ip.canonical() == other.ip.canonical()
    }

    pub fn same_endpoint(self, other: SocketAddress) -> (r: bool)
        ensures
            r == self.meets(other),
    {
        self.port == other.port && self.ip.to_canonical() == other.ip.to_canonical()
    }
}

/// The value of a digit in a base of up to sixteen.
pub open spec fn digit_value(c: char, base: int) -> Option<int> {
    let value = if '0' <= c <= '9' {
        c as int - '0' as int
    } else if 'a' <= c <= 'f' {
        c as int - 'a' as int + 10
    } else if 'A' <= c <= 'F' {
        c as int - 'A' as int + 10
    } else {
        99
    };
    if value < base {
        Some(value)
    } else {
        None
    }
}

/// The value of a text of at least one digit.
pub open spec fn number(text: Seq<char>, base: int) -> Option<int>
    decreases text.len(),
{
    if text.len() == 0 {
        None
    } else if text.len() == 1 {
        digit_value(text[0], base)
    } else {
        match (number(text.drop_last(), base), digit_value(text.last(), base)) {
            (Some(value), Some(digit)) => Some(value * base + digit),
            _ => None,
        }
    }
}

/// The value of a text of digits that does not exceed a limit.
pub open spec fn limited(text: Seq<char>, base: int, max: int) -> Option<int> {
    match number(text, base) {
        Some(value) => if value <= max {
            Some(value)
        } else {
            None
        },
        None => None,
    }
}

/// A decimal octet, without leading zeros.
pub open spec fn octet(text: Seq<char>) -> Option<int> {
    if text.len() > 3 || text.len() > 1 && text[0] == '0' {
        None
    } else {
        limited(text, 10, 255)
    }
}

/// A hexadecimal group of up to four digits.
pub open spec fn group(text: Seq<char>) -> Option<int> {
    if text.len() > 4 {
        None
    } else {
        limited(text, 16, 0xffff)
    }
}

/// The IPv4 address that a text stands for.
pub open spec fn ipv4_text(text: Seq<char>) -> Option<u32> {
    let parts = text::split(text, '.');
    if parts.len() != 4 {
        None
    } else {
        match (octet(parts[0]), octet(parts[1]), octet(parts[2]), octet(parts[3])) {
            (Some(a), Some(b), Some(c), Some(d)) => Some(
                (a * 0x100_0000 + b * 0x1_0000 + c * 0x100 + d) as u32,
            ),
            _ => None,
        }
    }
}

/// The words of the groups of an IPv6 address; the last may be an IPv4 address,
/// which makes two words, where `v4` allows it.
pub open spec fn words_of(parts: Seq<Seq<char>>, v4: bool) -> Option<Seq<u16>>
    decreases parts.len(),
{
    if parts.len() == 0 {
        Some(Seq::empty())
    } else if v4 && parts.len() == 1 && ipv4_text(parts[0]) is Some {
        let ip = ipv4_text(parts[0])->0;
        Some(seq![(ip / 0x1_0000) as u16, (ip % 0x1_0000) as u16])
    } else {
        match (group(parts[0]), words_of(parts.drop_first(), v4)) {
            (Some(first), Some(rest)) => Some(seq![first as u16] + rest),
            _ => None,
        }
    }
}

/// The words of one side of an IPv6 address, which may be empty.
pub open spec fn side_words(text: Seq<char>, v4: bool) -> Option<Seq<u16>> {
    if text.len() == 0 {
        Some(Seq::empty())
    } else {
        words_of(text::split(text, ':'), v4)
    }
}

/// The first place from `from` on where two colons stand next to each other.
pub open spec fn first_gap(text: Seq<char>, from: int) -> Option<int>
    decreases text.len() - from,
{
    if from + 1 >= text.len() {
        None
    } else if text[from] == ':' && text[from + 1] == ':' {
        Some(from)
    } else {
        first_gap(text, from + 1)
    }
}

/// The address made of eight words.
pub open spec fn joined(words: Seq<u16>) -> u128 {
    (words[0] * 0x1_0000_0000_0000_0000_0000_0000_0000 + words[1]
        * 0x1_0000_0000_0000_0000_0000_0000 + words[2] * 0x1_0000_0000_0000_0000_0000 + words[3]
        * 0x1_0000_0000_0000_0000 + words[4] * 0x1_0000_0000_0000 + words[5] * 0x1_0000_0000
        + words[6] * 0x1_0000 + words[7]) as u128
}

/// `count` zero words.
pub open spec fn zeros(count: nat) -> Seq<u16> {
    Seq::new(count, |i: int| 0u16)
}

/// The IPv6 address that a text stands for.
///
/// `::` stands for at least one zero word; without it all eight must be there.
pub open spec fn ipv6_text(text: Seq<char>) -> Option<u128> {
    match first_gap(text, 0) {
        Some(gap) => match (
            side_words(text.take(gap), false),
            side_words(text.skip(gap + 2), true),
        ) {
            (Some(head), Some(tail)) => if head.len() + tail.len() <= 7 {
                Some(joined(head + zeros((8 - head.len() - tail.len()) as nat) + tail))
            } else {
                None
            },
            _ => None,
        },
        None => match side_words(text, true) {
            Some(words) => if words.len() == 8 {
                Some(joined(words))
            } else {
                None
            },
            None => None,
        },
    }
}

/// The first place of a character from `from` on.
pub open spec fn first_of(text: Seq<char>, c: char, from: int) -> Option<int>
    decreases text.len() - from,
{
    if from >= text.len() {
        None
    } else if text[from] == c {
        Some(from)
    } else {
        first_of(text, c, from + 1)
    }
}

/// An IPv6 address with an optional scope behind `%`.
pub open spec fn scoped_text(text: Seq<char>) -> Option<(u128, u32)> {
    match first_of(text, '%', 0) {
        Some(at) => match (
            ipv6_text(text.take(at)),
            limited(text.skip(at + 1), 10, 0xffff_ffff),
        ) {
            (Some(ip), Some(scope)) => Some((ip, scope as u32)),
            _ => None,
        },
        None => match ipv6_text(text) {
            Some(ip) => Some((ip, 0)),
            None => None,
        },
    }
}

/// The endpoint that a text with a port stands for.
pub open spec fn socket_text(text: Seq<char>) -> Option<SocketAddress> {
    if text.len() > 0 && text[0] == '[' {
        match first_of(text, ']', 0) {
            Some(close) => if close + 1 < text.len() && text[close + 1] == ':' {
                match (
                    scoped_text(text.subrange(1, close)),
                    limited(text.skip(close + 2), 10, 0xffff),
                ) {
                    (Some((ip, scope_id)), Some(port)) => Some(
                        SocketAddress { ip: IpAddress::V6(ip), port: port as u16, scope_id },
                    ),
                    _ => None,
                }
            } else {
                None
            },
            None => None,
        }
    } else {
        match first_of(text, ':', 0) {
            Some(at) => match (ipv4_text(text.take(at)), limited(text.skip(at + 1), 10, 0xffff)) {
                (Some(ip), Some(port)) => Some(
                    SocketAddress { ip: IpAddress::V4(ip), port: port as u16, scope_id: 0 },
                ),
                _ => None,
            },
            None => None,
        }
    }
}

/// The address that a text without a port stands for; brackets hold IPv6 only.
pub open spec fn bare_text(text: Seq<char>) -> Option<IpAddress> {
    if text.len() >= 2 && text[0] == '[' && text.last() == ']' {
        match ipv6_text(text.subrange(1, text.len() - 1)) {
            Some(ip) => Some(IpAddress::V6(ip)),
            None => None,
        }
    } else {
        match (ipv4_text(text), ipv6_text(text)) {
            (Some(ip), _) => Some(IpAddress::V4(ip)),
            (None, Some(ip)) => Some(IpAddress::V6(ip)),
            (None, None) => None,
        }
    }
}

/// The endpoint that a configuration text stands for, on port 53 if it names none.
pub open spec fn endpoint_text(text: Seq<char>) -> Option<SocketAddress> {
    match socket_text(text) {
        Some(address) => Some(address),
        None => match bare_text(text) {
            Some(ip) => Some(SocketAddress { ip, port: DEFAULT_DNS_PORT, scope_id: 0 }),
            None => None,
        },
    }
}

proof fn number_grows(text: Seq<char>, base: int, k: int)
    requires
        1 <= k <= text.len(),
        base >= 1,
    ensures
        number(text, base) matches Some(whole) ==> 0 <= whole && (number(text.take(k), base)
            matches Some(part) && 0 <= part <= whole),
    decreases text.len(),
{
    if k == text.len() {
        assert(text.take(k) =~= text);
    }
    if text.len() > 1 {
        let less = text.drop_last();
        if k < text.len() {
            assert(text.take(k) =~= less.take(k));
            number_grows(less, base, k);
        } else {
            number_grows(less, base, less.len() as int);
        }
        match (number(less, base), digit_value(text.last(), base)) {
            (Some(value), Some(_)) => {
                assert(value * base >= value) by (nonlinear_arith)
                    requires
                        value >= 0,
                        base >= 1,
                ;
            },
            _ => {},
        }
    }
}

fn digit(c: char, base: u32) -> (r: Option<u32>)
    requires
        base <= 16,
    ensures
        match r {
            Some(value) => digit_value(c, base as int) == Some(value as int),
            None => digit_value(c, base as int) is None,
        },
{
    let value: u32 = if '0' <= c && c <= '9' {
        c as u32 - '0' as u32
    } else if 'a' <= c && c <= 'f' {
        c as u32 - 'a' as u32 + 10
    } else if 'A' <= c && c <= 'F' {
        c as u32 - 'A' as u32 + 10
    } else {
        99
    };
    if value < base {
        Some(value)
    } else {
        None
    }
}

/// Reads a number that does not exceed a limit.
fn parse_number(text: &[char], base: u32, max: u32) -> (r: Option<u32>)
    requires
        base == 10 || base == 16,
    ensures
        match r {
            Some(value) => limited(text@, base as int, max as int) == Some(value as int),
            None => limited(text@, base as int, max as int) is None,
        },
{
    if text.len() == 0 {
        return None;
    }
    let mut value: u64 = 0;
    let mut i: usize = 0;
    while i < text.len()
        invariant
            0 < text@.len(),
            i <= text@.len(),
            base == 10 || base == 16,
            i == 0 ==> value == 0,
            i > 0 ==> number(text@.take(i as int), base as int) == Some(value as int),
            value <= max,
        decreases text@.len() - i,
    {
        let ghost next = text@.take(i + 1);
        assert(next.drop_last() =~= text@.take(i as int));
        assert(next.last() == text@[i as int]);
        proof {
            number_grows(text@, base as int, i + 1);
        }
        match digit(text[i], base) {
            None => {
                return None;
            },
            Some(d) => {
                assert(value * base <= 16 * value) by (nonlinear_arith)
                    requires
                        base <= 16,
                        value >= 0,
                ;
                assert(number(next, base as int) == Some(value * base + d));
                value = value * base as u64 + d as u64;
                if value > max as u64 {
                    return None;
                }
            },
        }
        i += 1;
    }
    assert(text@.take(i as int) =~= text@);
    Some(value as u32)
}

fn parse_octet(text: &[char]) -> (r: Option<u32>)
    ensures
        match r {
            Some(value) => octet(text@) == Some(value as int) && value <= 255,
            None => octet(text@) is None,
        },
{
    if text.len() > 3 || (text.len() > 1 && text[0] == '0') {
        return None;
    }
    parse_number(text, 10, 255)
}

fn parse_group(text: &[char]) -> (r: Option<u16>)
    ensures
        match r {
            Some(value) => group(text@) == Some(value as int),
            None => group(text@) is None,
        },
{
    if text.len() > 4 {
        return None;
    }
    match parse_number(text, 16, 0xffff) {
        Some(value) => Some(value as u16),
        None => None,
    }
}

fn parse_ipv4(text: &[char]) -> (r: Option<u32>)
    ensures
        r == ipv4_text(text@),
{
    let parts: Vec<Vec<char>> = split_chars(text, '.');
    let ghost views = text::pieces(parts@);
    if parts.len() != 4 {
        return None;
    }
    assert(views[0] == parts@[0]@ && views[1] == parts@[1]@ && views[2] == parts@[2]@ && views[3]
        == parts@[3]@);
    match (
        parse_octet(parts[0].as_slice()),
        parse_octet(parts[1].as_slice()),
        parse_octet(parts[2].as_slice()),
        parse_octet(parts[3].as_slice()),
    ) {
        (Some(a), Some(b), Some(c), Some(d)) => Some(
            a * 0x100_0000 + b * 0x1_0000 + c * 0x100 + d,
        ),
        _ => None,
    }
}

/// A list of words that may be missing.
spec fn listed(words: Option<Vec<u16>>) -> Option<Seq<u16>> {
    match words {
        Some(words) => Some(words@),
        None => None,
    }
}

/// Reads the words of the groups of one side of an IPv6 address.
fn parse_side(text: &[char], v4: bool) -> (r: Option<Vec<u16>>)
    ensures
        listed(r) == side_words(text@, v4),
{
    let mut words: Vec<u16> = Vec::new();
    if text.len() == 0 {
        assert(words@ =~= Seq::empty());
        return Some(words);
    }
    let parts: Vec<Vec<char>> = split_chars(text, ':');
    let ghost views = text::pieces(parts@);
    let ghost whole = words_of(views, v4);
    let mut i: usize = 0;
    proof {
        assert(views.skip(0) =~= views);
        match whole {
            Some(all) => {
                assert(words@ + all =~= all);
            },
            None => {},
        }
    }
    while i < parts.len()
        invariant
            i <= parts@.len(),
            views == text::pieces(parts@),
            whole == side_words(text@, v4),
            whole == (match words_of(views.skip(i as int), v4) {
                Some(rest) => Some(words@ + rest),
                None => None,
            }),
        decreases parts@.len() - i,
    {
        let ghost rest = views.skip(i as int);
        assert(rest[0] == parts@[i as int]@);
        assert(rest.drop_first() =~= views.skip(i + 1));
        let ghost before = words@;
        let last = v4 && i + 1 == parts.len();
        let v4_part = if last {
            parse_ipv4(parts[i].as_slice())
        } else {
            None
        };
        match v4_part {
            Some(ip) => {
                words.push((ip / 0x1_0000) as u16);
                words.push((ip % 0x1_0000) as u16);
                assert(words@ =~= before + seq![(ip / 0x1_0000) as u16, (ip % 0x1_0000) as u16]);
                return Some(words);
            },
            None => {
                match parse_group(parts[i].as_slice()) {
                    None => {
                        return None;
                    },
                    Some(word) => {
                        words.push(word);
                        proof {
                            match words_of(views.skip(i + 1), v4) {
                                Some(more) => {
                                    assert(before + (seq![word] + more) =~= words@ + more);
                                },
                                None => {},
                            }
                        }
                    },
                }
            },
        }
        i += 1;
    }
    assert(words@ + Seq::<u16>::empty() =~= words@);
    Some(words)
}

fn find_gap(text: &[char]) -> (r: Option<usize>)
    ensures
        match r {
            Some(at) => first_gap(text@, 0) == Some(at as int) && at + 2 <= text@.len(),
            None => first_gap(text@, 0) is None,
        },
{
    let mut i: usize = 0;
    while i < text.len() && text.len() - i >= 2
        invariant
            i <= text@.len(),
            first_gap(text@, 0) == first_gap(text@, i as int),
        decreases text@.len() - i,
    {
        if text[i] == ':' && text[i + 1] == ':' {
            return Some(i);
        }
        i += 1;
    }
    None
}

fn find_char(text: &[char], c: char) -> (r: Option<usize>)
    ensures
        match r {
            Some(at) => first_of(text@, c, 0) == Some(at as int) && at < text@.len() && text@[
                at as int
            ] == c,
            None => first_of(text@, c, 0) is None,
        },
{
    let mut i: usize = 0;
    while i < text.len()
        invariant
            i <= text@.len(),
            first_of(text@, c, 0) == first_of(text@, c, i as int),
        decreases text@.len() - i,
    {
        if text[i] == c {
            return Some(i);
        }
        i += 1;
    }
    None
}

fn join(words: &Vec<u16>) -> (r: u128)
    requires
        words@.len() == 8,
    ensures
        r == joined(words@),
{
    words[0] as u128 * 0x1_0000_0000_0000_0000_0000_0000_0000 + words[1] as u128
        * 0x1_0000_0000_0000_0000_0000_0000 + words[2] as u128 * 0x1_0000_0000_0000_0000_0000
        + words[3] as u128 * 0x1_0000_0000_0000_0000 + words[4] as u128 * 0x1_0000_0000_0000
        + words[5] as u128 * 0x1_0000_0000 + words[6] as u128 * 0x1_0000 + words[7] as u128
}

fn parse_ipv6(text: &[char]) -> (r: Option<u128>)
    ensures
        r == ipv6_text(text@),
{
    match find_gap(text) {
        Some(gap) => {
            let size: usize = text.len();
            assert(text@.take(gap as int) =~= text@.subrange(0, gap as int));
            assert(text@.skip(gap + 2) =~= text@.subrange(gap + 2, size as int));
            let head = match parse_side(slice_subrange(text, 0, gap), false) {
                Some(head) => head,
                None => {
                    return None;
                },
            };
            let tail = match parse_side(slice_subrange(text, gap + 2, size), true) {
                Some(tail) => tail,
                None => {
                    return None;
                },
            };
            if head.len() > 7 || tail.len() > 7 - head.len() {
                return None;
            }
            let mut words: Vec<u16> = head;
            let ghost front = words@;
            let missing: usize = 8 - words.len() - tail.len();
            let mut i: usize = 0;
            while i < missing
                invariant
                    i <= missing,
                    words@ == front + zeros(i as nat),
                decreases missing - i,
            {
                words.push(0);
                i += 1;
                assert(words@ =~= front + zeros(i as nat));
            }
            let mut k: usize = 0;
            let ghost middle = words@;
            assert(words@ =~= middle + tail@.take(0));
            while k < tail.len()
                invariant
                    k <= tail@.len(),
                    words@ == middle + tail@.take(k as int),
                decreases tail@.len() - k,
            {
                words.push(tail[k]);
                k += 1;
                assert(words@ =~= middle + tail@.take(k as int));
            }
            assert(words@ =~= front + zeros(missing as nat) + tail@);
            Some(join(&words))
        },
        None => match parse_side(text, true) {
            Some(words) => if words.len() == 8 {
                Some(join(&words))
            } else {
                None
            },
            None => None,
        },
    }
}

fn parse_scoped(text: &[char]) -> (r: Option<(u128, u32)>)
    ensures
        r == scoped_text(text@),
{
    match find_char(text, '%') {
        Some(at) => {
            let size: usize = text.len();
            assert(text@.take(at as int) =~= text@.subrange(0, at as int));
            assert(text@.skip(at + 1) =~= text@.subrange(at + 1, size as int));
            match (
                parse_ipv6(slice_subrange(text, 0, at)),
                parse_number(slice_subrange(text, at + 1, size), 10, 0xffff_ffff),
            ) {
                (Some(ip), Some(scope)) => Some((ip, scope)),
                _ => None,
            }
        },
        None => match parse_ipv6(text) {
            Some(ip) => Some((ip, 0)),
            None => None,
        },
    }
}

fn parse_socket(text: &[char]) -> (r: Option<SocketAddress>)
    ensures
        r == socket_text(text@),
{
    let size: usize = text.len();
    if size > 0 && text[0] == '[' {
        match find_char(text, ']') {
            Some(close) => {
                if size - close < 2 || text[close + 1] != ':' {
                    return None;
                }
                assert(text@.skip(close + 2) =~= text@.subrange(close + 2, size as int));
                match (
                    parse_scoped(slice_subrange(text, 1, close)),
                    parse_number(slice_subrange(text, close + 2, size), 10, 0xffff),
                ) {
                    (Some((ip, scope_id)), Some(port)) => Some(
                        SocketAddress { ip: IpAddress::V6(ip), port: port as u16, scope_id },
                    ),
                    _ => None,
                }
            },
            None => None,
        }
    } else {
        match find_char(text, ':') {
            Some(at) => {
                assert(text@.take(at as int) =~= text@.subrange(0, at as int));
                assert(text@.skip(at + 1) =~= text@.subrange(at + 1, size as int));
                match (
                    parse_ipv4(slice_subrange(text, 0, at)),
                    parse_number(slice_subrange(text, at + 1, size), 10, 0xffff),
                ) {
                    (Some(ip), Some(port)) => Some(
                        SocketAddress { ip: IpAddress::V4(ip), port: port as u16, scope_id: 0 },
                    ),
                    _ => None,
                }
            },
            None => None,
        }
    }
}

fn parse_bare(text: &[char]) -> (r: Option<IpAddress>)
    ensures
        r == bare_text(text@),
{
    let size: usize = text.len();
    if size >= 2 && text[0] == '[' && text[size - 1] == ']' {
        match parse_ipv6(slice_subrange(text, 1, size - 1)) {
            Some(ip) => Some(IpAddress::V6(ip)),
            None => None,
        }
    } else {
        match parse_ipv4(text) {
            Some(ip) => Some(IpAddress::V4(ip)),
            None => match parse_ipv6(text) {
                Some(ip) => Some(IpAddress::V6(ip)),
                None => None,
            },
        }
    }
}

/// Parses a literal IP endpoint, defaulting a missing port to DNS port 53.
///
/// Bare IPv6 is always an address; an explicit IPv6 port requires brackets.
/// Hostnames are rejected, so loading configuration never needs DNS resolution.
pub fn parse_address(raw: &str) -> (r: Option<SocketAddress>)
    ensures
        r == endpoint_text(raw@),
{
    let chars: Vec<char> = chars_of(raw);
    match parse_socket(chars.as_slice()) {
        Some(address) => Some(address),
        None => match parse_bare(chars.as_slice()) {
            Some(ip) => Some(SocketAddress { ip, port: DEFAULT_DNS_PORT, scope_id: 0 }),
            None => None,
        },
    }
}

/// A mapped address is canonical once it was made so.
pub proof fn canonical_is_stable(ip: IpAddress)
    ensures
        ip.canonical().canonical() == ip.canonical(),
{
}

proof fn digits_only(text: Seq<char>, base: int, i: int)
    requires
        number(text, base) is Some,
        0 <= i < text.len(),
    ensures
        digit_value(text[i], base) is Some,
    decreases text.len(),
{
    if text.len() > 1 && i < text.len() - 1 {
        digits_only(text.drop_last(), base, i);
    }
}

/// A character other than the separator stands in one of the pieces.
proof fn piece_with(text: Seq<char>, separator: char, i: int) -> (p: int)
    requires
        0 <= i < text.len(),
        text[i] != separator,
    ensures
        0 <= p < text::split(text, separator).len(),
        text::split(text, separator)[p].contains(text[i]),
    decreases text.len(),
{
    let less = text.drop_last();
    let parts = text::split(less, separator);
    text::split_has_a_piece(less, separator);
    let result = text::split(text, separator);
    if i == text.len() - 1 {
        let p = parts.len() - 1;
        assert(result[p] == parts.last().push(text[i]));
        assert(result[p][result[p].len() - 1] == text[i]);
        p
    } else {
        let p = piece_with(less, separator, i);
        let k = choose|k: int| 0 <= k < parts[p].len() && parts[p][k] == text[i];
        assert(result[p][k] == text[i]);
        p
    }
}

proof fn first_of_finds(text: Seq<char>, c: char, from: int)
    requires
        0 <= from,
    ensures
        match first_of(text, c, from) {
            Some(at) => {
                &&& from <= at < text.len()
                &&& text[at] == c
                &&& forall|k: int| from <= k < at ==> text[k] != c
            },
            None => forall|k: int| from <= k < text.len() ==> text[k] != c,
        },
    decreases text.len() - from,
{
    if from < text.len() && text[from] != c {
        first_of_finds(text, c, from + 1);
    }
}

/// The first piece is what stands before the first separator.
proof fn first_piece(text: Seq<char>, separator: char)
    ensures
        match first_of(text, separator, 0) {
            Some(at) => text::split(text, separator).len() >= 2 && text::split(text, separator)[0]
                == text.take(at),
            None => text::split(text, separator) == seq![text],
        },
    decreases text.len(),
{
    first_of_finds(text, separator, 0);
    if text.len() == 0 {
        assert(text =~= Seq::empty());
    } else {
        let less = text.drop_last();
        first_piece(less, separator);
        first_of_finds(less, separator, 0);
        text::split_has_a_piece(less, separator);
        match first_of(less, separator, 0) {
            Some(at) => {
                assert(text[at] == less[at]);
                let found = first_of(text, separator, 0)->0;
                assert(found == at) by {
                    if found < at {
                        assert(less[found] == text[found]);
                    }
                }
                assert(text.take(at) =~= less.take(at));
            },
            None => {
                if text.last() == separator {
                    let found = first_of(text, separator, 0)->0;
                    assert(text[text.len() - 1] == separator);
                    assert(found == text.len() - 1) by {
                        if found < text.len() - 1 {
                            assert(less[found] == text[found]);
                        }
                    }
                    assert(text.take(found) =~= less);
                } else {
                    assert(less.push(text.last()) =~= text);
                    assert(text::split(text, separator) =~= seq![text]);
                    match first_of(text, separator, 0) {
                        Some(found) => {
                            if found < less.len() {
                                assert(less[found] == text[found]);
                            }
                        },
                        None => {},
                    }
                }
            },
        }
    }
}

/// A character that may stand in an address without brackets.
spec fn address_char(c: char) -> bool {
    digit_value(c, 16) is Some || c == '.' || c == ':'
}

proof fn ipv4_chars(text: Seq<char>, i: int)
    requires
        ipv4_text(text) is Some,
        0 <= i < text.len(),
    ensures
        text[i] == '.' || digit_value(text[i], 10) is Some,
{
    if text[i] != '.' {
        let p = piece_with(text, '.', i);
        let piece = text::split(text, '.')[p];
        let k = choose|k: int| 0 <= k < piece.len() && piece[k] == text[i];
        assert(p == 0 || p == 1 || p == 2 || p == 3);
        assert(octet(piece) is Some);
        digits_only(piece, 10, k);
    }
}

/// A hexadecimal group is no IPv4 address.
proof fn group_is_not_ipv4(text: Seq<char>)
    requires
        group(text) is Some,
    ensures
        ipv4_text(text) is None,
{
    first_of_finds(text, '.', 0);
    match first_of(text, '.', 0) {
        Some(at) => {
            digits_only(text, 16, at);
        },
        None => {
            first_piece(text, '.');
        },
    }
}

proof fn words_chars(parts: Seq<Seq<char>>, v4: bool, p: int, k: int)
    requires
        words_of(parts, v4) is Some,
        0 <= p < parts.len(),
        0 <= k < parts[p].len(),
    ensures
        address_char(parts[p][k]),
    decreases parts.len(),
{
    if v4 && parts.len() == 1 && ipv4_text(parts[0]) is Some {
        ipv4_chars(parts[0], k);
    } else if p == 0 {
        digits_only(parts[0], 16, k);
    } else {
        assert(parts.drop_first()[p - 1] == parts[p]);
        words_chars(parts.drop_first(), v4, p - 1, k);
    }
}

proof fn side_chars(text: Seq<char>, v4: bool, i: int)
    requires
        side_words(text, v4) is Some,
        0 <= i < text.len(),
    ensures
        address_char(text[i]),
{
    if text[i] != ':' {
        let p = piece_with(text, ':', i);
        let parts = text::split(text, ':');
        let k = choose|k: int| 0 <= k < parts[p].len() && parts[p][k] == text[i];
        words_chars(parts, v4, p, k);
    }
}

proof fn first_gap_is_a_gap(text: Seq<char>, from: int)
    requires
        0 <= from,
    ensures
        first_gap(text, from) matches Some(gap) ==> from <= gap && gap + 1 < text.len()
            && text[gap] == ':' && text[gap + 1] == ':',
    decreases text.len() - from,
{
    if from + 1 < text.len() && !(text[from] == ':' && text[from + 1] == ':') {
        first_gap_is_a_gap(text, from + 1);
    }
}

proof fn ipv6_chars(text: Seq<char>, i: int)
    requires
        ipv6_text(text) is Some,
        0 <= i < text.len(),
    ensures
        address_char(text[i]),
{
    first_gap_is_a_gap(text, 0);
    match first_gap(text, 0) {
        Some(gap) => {
            if i < gap {
                assert(text.take(gap)[i] == text[i]);
                side_chars(text.take(gap), false, i);
            } else if i >= gap + 2 {
                assert(text.skip(gap + 2)[i - gap - 2] == text[i]);
                side_chars(text.skip(gap + 2), true, i - gap - 2);
            }
        },
        None => {
            side_chars(text, true, i);
        },
    }
}

/// What stands before the first colon of an IPv6 address is no IPv4 address.
proof fn ipv6_starts_with_a_group(text: Seq<char>)
    requires
        ipv6_text(text) is Some,
    ensures
        first_of(text, ':', 0) matches Some(at) ==> ipv4_text(text.take(at)) is None,
{
    first_gap_is_a_gap(text, 0);
    first_of_finds(text, ':', 0);
    match first_of(text, ':', 0) {
        Some(at) => {
            let side = match first_gap(text, 0) {
                Some(gap) => text.take(gap),
                None => text,
            };
            first_piece(side, ':');
            first_of_finds(side, ':', 0);
            match first_of(side, ':', 0) {
                Some(found) => {
                    assert(side[found] == text[found]);
                    assert(found == at) by {
                        if at < found {
                            assert(side[at] == text[at]);
                        }
                    }
                    assert(side.take(at) =~= text.take(at));
                    let parts = text::split(side, ':');
                    assert(group(parts[0]) is Some);
                    group_is_not_ipv4(text.take(at));
                },
                None => {
                    assert(at >= side.len()) by {
                        if at < side.len() {
                            assert(side[at] == text[at]);
                        }
                    }
                    assert(text.take(at) =~= side);
                    if side.len() == 0 {
                        first_piece(side, '.');
                        first_of_finds(side, '.', 0);
                    } else {
                        assert(text::split(side, ':') == seq![side]);
                        assert(group(seq![side][0]) is Some);
                        group_is_not_ipv4(side);
                    }
                },
            }
        },
        None => {},
    }
}

/// An address without a port means port 53, in whichever form it is written.
pub proof fn bare_address_means_port_53(text: Seq<char>)
    ensures
        bare_text(text) matches Some(ip) ==> endpoint_text(text) == Some(
            (SocketAddress { ip, port: 53, scope_id: 0 }),
        ),
{
    if bare_text(text) is Some {
        if text.len() >= 2 && text[0] == '[' && text.last() == ']' {
            let inner = text.subrange(1, text.len() - 1);
            first_of_finds(text, ']', 0);
            match first_of(text, ']', 0) {
                Some(close) => {
                    if close < text.len() - 1 {
                        assert(inner[close - 1] == text[close]);
                        ipv6_chars(inner, close - 1);
                    }
                },
                None => {},
            }
        } else {
            if text.len() > 0 && text[0] == '[' {
                if ipv4_text(text) is Some {
                    ipv4_chars(text, 0);
                } else {
                    ipv6_chars(text, 0);
                }
            }
            first_of_finds(text, ':', 0);
            match first_of(text, ':', 0) {
                Some(at) => {
                    if ipv4_text(text) is Some {
                        ipv4_chars(text, at);
                    } else {
                        ipv6_starts_with_a_group(text);
                    }
                },
                None => {},
            }
        }
    }
}

/// A number in decimal digits is read as that number, and has no zero in front unless it
/// is a single digit.
pub proof fn decimals_are_read_as_their_number(value: nat)
    ensures
        number(text::decimal(value), 10) == Some(value as int),
        text::decimal(value).len() >= 1,
        text::decimal(value).len() == 1 || text::decimal(value)[0] != '0',
        value < 1000 ==> text::decimal(value).len() <= 3,
        forall|i: int|
            0 <= i < text::decimal(value).len() ==> '0' <= #[trigger] text::decimal(value)[i]
                <= '9',
    decreases value,
{
    let digits = text::decimal(value);
    let last = (48 + value % 10) as u8 as char;
    assert(digit_value(last, 10) == Some((value % 10) as int));
    if value >= 10 {
        let upper = value / 10;
        decimals_are_read_as_their_number(upper);
        assert(digits.drop_last() =~= text::decimal(upper));
        assert(digits.last() == last);
        assert(digits[0] == text::decimal(upper)[0]);
        if upper < 10 {
            assert(upper != 0);
            assert(text::decimal(upper)[0] == (48 + upper % 10) as u8 as char);
        }
        if value < 1000 {
            assert(upper < 100);
            if upper >= 10 {
                assert(upper / 10 < 10);
                assert(text::decimal(upper / 10).len() == 1);
                assert(text::decimal(upper).len() == 2);
            }
        }
    }
}

/// Only its decimal digits are read as a number, where no zero stands in front.
proof fn numbers_are_written_in_decimal(text: Seq<char>)
    requires
        text.len() == 1 || text.len() > 1 && text[0] != '0',
    ensures
        number(text, 10) matches Some(value) ==> value >= 0 && text == text::decimal(value as nat)
            && (text.len() > 1 ==> value >= 10),
    decreases text.len(),
{
    match number(text, 10) {
        Some(value) => {
            if text.len() == 1 {
                assert(text::decimal(value as nat) =~= text);
            } else {
                let less = text.drop_last();
                numbers_are_written_in_decimal(less);
                let upper = number(less, 10)->0;
                let digit = digit_value(text.last(), 10)->0;
                assert(value == upper * 10 + digit);
                assert(0 <= digit < 10);
                if less.len() == 1 {
                    assert(upper > 0) by {
                        assert(text[0] == less[0]);
                    }
                }
                assert(value as nat / 10 == upper as nat);
                assert(value as nat % 10 == digit as nat);
                assert(less.push(text.last()) =~= text);
                assert(text::decimal(value as nat) =~= text);
            }
        },
        None => {},
    }
}

/// Four numbers of up to 255 in decimal digits, with dots between them.
pub open spec fn dotted(a: int, b: int, c: int, d: int) -> Seq<char> {
    text::joined(
        seq![
            text::decimal(a as nat),
            text::decimal(b as nat),
            text::decimal(c as nat),
            text::decimal(d as nat),
        ],
        '.',
    )
}

proof fn decimal_is_an_octet(value: int)
    requires
        0 <= value <= 255,
    ensures
        octet(text::decimal(value as nat)) == Some(value),
        !text::decimal(value as nat).contains('.'),
        !text::decimal(value as nat).contains(':'),
{
    decimals_are_read_as_their_number(value as nat);
}

proof fn octets_are_decimal(text: Seq<char>)
    ensures
        octet(text) matches Some(value) ==> 0 <= value <= 255 && text == text::decimal(
            value as nat,
        ),
{
    if octet(text) is Some {
        numbers_are_written_in_decimal(text);
    }
}

/// An IPv4 address is read from four numbers of up to 255 with dots between them, and
/// from no other text; the first number is the upper byte.
pub proof fn ipv4_is_four_numbers(text: Seq<char>, bits: u32)
    ensures
        ipv4_text(text) == Some(bits) <==> text == dotted(
            bits as int / 0x100_0000,
            bits as int / 0x1_0000 % 256,
            bits as int / 0x100 % 256,
            bits as int % 256,
        ),
{
    let a = bits as int / 0x100_0000;
    let b = bits as int / 0x1_0000 % 256;
    let c = bits as int / 0x100 % 256;
    let d = bits as int % 256;
    assert(bits == a * 0x100_0000 + b * 0x1_0000 + c * 0x100 + d);
    let parts = seq![
        text::decimal(a as nat),
        text::decimal(b as nat),
        text::decimal(c as nat),
        text::decimal(d as nat),
    ];
    decimal_is_an_octet(a);
    decimal_is_an_octet(b);
    decimal_is_an_octet(c);
    decimal_is_an_octet(d);
    if text == dotted(a, b, c, d) {
        assert forall|i: int| 0 <= i < parts.len() implies !(#[trigger] parts[i]).contains(
            '.',
        ) by {
            assert(i == 0 || i == 1 || i == 2 || i == 3);
        }
        text::joined_pieces_come_apart(parts, '.');
    }
    if ipv4_text(text) == Some(bits) {
        let read = text::split(text, '.');
        text::pieces_join_to_the_text(text, '.');
        octets_are_decimal(read[0]);
        octets_are_decimal(read[1]);
        octets_are_decimal(read[2]);
        octets_are_decimal(read[3]);
        bytes_come_apart(
            octet(read[0])->0,
            octet(read[1])->0,
            octet(read[2])->0,
            octet(read[3])->0,
        );
        assert(read =~= parts);
    }
}

proof fn bytes_come_apart(a: int, b: int, c: int, d: int)
    requires
        0 <= a <= 255,
        0 <= b <= 255,
        0 <= c <= 255,
        0 <= d <= 255,
    ensures
        ({
            let bits = a * 0x100_0000 + b * 0x1_0000 + c * 0x100 + d;
            &&& 0 <= bits <= 0xffff_ffff
            &&& bits / 0x100_0000 == a
            &&& bits / 0x1_0000 % 256 == b
            &&& bits / 0x100 % 256 == c
            &&& bits % 256 == d
        }),
{
    let bits = a * 0x100_0000 + b * 0x1_0000 + c * 0x100 + d;
    assert(bits / 0x1_0000 == a * 256 + b);
    assert(bits / 0x100 == (a * 256 + b) * 256 + c);
}

proof fn dotted_is_plain(bits: u32, text: Seq<char>)
    requires
        ipv4_text(text) == Some(bits),
    ensures
        text.len() > 0,
        text[0] != '[',
        !text.contains(':'),
{
    if text.len() == 0 {
        text::pieces_join_to_the_text(text, '.');
        assert(text =~= Seq::empty());
    } else {
        ipv4_chars(text, 0);
        if text.contains(':') {
            let i = choose|i: int| 0 <= i < text.len() && text[i] == ':';
            ipv4_chars(text, i);
        }
    }
}

/// An endpoint may be an IPv4 address, which means port 53, or one with a port behind a
/// colon.
pub proof fn ipv4_endpoints_are_read(text: Seq<char>, bits: u32, port: u16)
    requires
        ipv4_text(text) == Some(bits),
    ensures
        endpoint_text(text) == Some(
            (SocketAddress { ip: IpAddress::V4(bits), port: 53, scope_id: 0 }),
        ),
        endpoint_text(text.push(':') + text::decimal(port as nat)) == Some(
            (SocketAddress { ip: IpAddress::V4(bits), port, scope_id: 0 }),
        ),
{
    dotted_is_plain(bits, text);
    first_of_finds(text, ':', 0);
    if let Some(at) = first_of(text, ':', 0) {
        assert(text.contains(text[at]));
    }
    assert(text.len() >= 2 && text[0] == '[' ==> false);
    let whole = text.push(':') + text::decimal(port as nat);
    decimals_are_read_as_their_number(port as nat);
    first_of_finds(whole, ':', 0);
    let at = text.len() as int;
    assert(whole[at] == ':');
    let found = first_of(whole, ':', 0)->0;
    assert(found == at) by {
        if found < at {
            assert(text[found] == ':');
            assert(text.contains(':'));
        }
    }
    assert(whole.take(at) =~= text);
    assert(whole.skip(at + 1) =~= text::decimal(port as nat));
    assert(whole[0] == text[0]);
}

/// A hexadecimal digit.
pub open spec fn hex_digit(value: int) -> char {
    if value < 10 {
        ('0' as int + value) as char
    } else {
        ('a' as int + value - 10) as char
    }
}

/// A 16-bit number in four hexadecimal digits.
pub open spec fn hex_word(word: u16) -> Seq<char> {
    seq![
        hex_digit(word as int / 4096),
        hex_digit(word as int / 256 % 16),
        hex_digit(word as int / 16 % 16),
        hex_digit(word as int % 16),
    ]
}

proof fn hex_digits_are_read(value: int)
    requires
        0 <= value < 16,
    ensures
        digit_value(hex_digit(value), 16) == Some(value),
        hex_digit(value) != ':',
        value >= 10 ==> digit_value(('A' as int + value - 10) as char, 16) == Some(value),
{
}

proof fn hex_words_are_read(word: u16)
    ensures
        group(hex_word(word)) == Some(word as int),
        !hex_word(word).contains(':'),
        ipv4_text(hex_word(word)) is None,
{
    let text = hex_word(word);
    let a = word as int / 4096;
    let b = word as int / 256 % 16;
    let c = word as int / 16 % 16;
    let d = word as int % 16;
    hex_digits_are_read(a);
    hex_digits_are_read(b);
    hex_digits_are_read(c);
    hex_digits_are_read(d);
    let three = text.drop_last();
    let two = three.drop_last();
    let one = two.drop_last();
    assert(one.len() == 1 && one[0] == text[0]);
    assert(number(one, 16) == Some(a));
    assert(two.last() == text[1]);
    assert(number(two, 16) == Some(a * 16 + b));
    assert(three.last() == text[2]);
    assert(number(three, 16) == Some((a * 16 + b) * 16 + c));
    assert(text.last() == text[3]);
    assert(number(text, 16) == Some(((a * 16 + b) * 16 + c) * 16 + d));
    assert(((a * 16 + b) * 16 + c) * 16 + d == word);
    group_is_not_ipv4(text);
}

/// Groups of an IPv6 address, with colons between them.
pub open spec fn hex_groups(words: Seq<u16>) -> Seq<char> {
    text::joined(words.map_values(|word: u16| hex_word(word)), ':')
}

proof fn group_words_are_read(words: Seq<u16>, v4: bool)
    ensures
        words_of(words.map_values(|word: u16| hex_word(word)), v4) == Some(words),
    decreases words.len(),
{
    let parts = words.map_values(|word: u16| hex_word(word));
    if words.len() == 0 {
        assert(words =~= Seq::empty());
    } else {
        let rest = words.drop_first();
        group_words_are_read(rest, v4);
        hex_words_are_read(words[0]);
        assert(parts.drop_first() =~= rest.map_values(|word: u16| hex_word(word)));
        assert(seq![words[0]] + rest =~= words);
    }
}

proof fn groups_are_read(words: Seq<u16>, v4: bool)
    ensures
        side_words(hex_groups(words), v4) == Some(words),
        words.len() > 0 ==> hex_groups(words).len() > 0,
{
    let parts = words.map_values(|word: u16| hex_word(word));
    if words.len() == 0 {
        assert(words =~= Seq::empty());
    } else {
        assert forall|i: int| 0 <= i < parts.len() implies !(#[trigger] parts[i]).contains(
            ':',
        ) by {
            hex_words_are_read(words[i]);
        }
        text::joined_pieces_come_apart(parts, ':');
        group_words_are_read(words, v4);
        groups_have_no_gap(words);
    }
}

/// Groups begin and end with a digit, and no two colons meet in them.
proof fn groups_have_no_gap(words: Seq<u16>)
    requires
        words.len() > 0,
    ensures
        ({
            let text = hex_groups(words);
            &&& text.len() >= 4
            &&& text[0] != ':'
            &&& text.last() != ':'
            &&& forall|i: int|
                0 <= i < text.len() - 1 ==> !(#[trigger] text[i] == ':' && text[i + 1] == ':')
        }),
    decreases words.len(),
{
    let text = hex_groups(words);
    let parts = words.map_values(|word: u16| hex_word(word));
    let last = hex_word(words.last());
    hex_words_are_read(words.last());
    assert forall|k: int| 0 <= k < 4 implies #[trigger] last[k] != ':' by {
        assert(last.contains(last[k]));
    }
    if words.len() == 1 {
        assert(text == last);
    } else {
        let less = words.drop_last();
        groups_have_no_gap(less);
        assert(parts.drop_last() =~= less.map_values(|word: u16| hex_word(word)));
        let front = hex_groups(less);
        assert(text == front.push(':') + last);
        assert forall|i: int| 0 <= i < text.len() - 1 implies !(#[trigger] text[i] == ':' && text[i
            + 1] == ':') by {
            if i < front.len() - 1 {
                assert(text[i] == front[i] && text[i + 1] == front[i + 1]);
            } else if i == front.len() - 1 {
                assert(text[i] == front.last());
            } else if i == front.len() {
                assert(text[i + 1] == last[0]);
            } else {
                assert(text[i] == last[i - front.len() - 1]);
            }
        }
    }
}

proof fn first_gap_is_found(text: Seq<char>, from: int, gap: int)
    requires
        0 <= from <= gap,
        gap + 1 < text.len(),
        text[gap] == ':' && text[gap + 1] == ':',
        forall|i: int| from <= i < gap ==> !(#[trigger] text[i] == ':' && text[i + 1] == ':'),
    ensures
        first_gap(text, from) == Some(gap),
    decreases gap - from,
{
    if from < gap {
        assert(!(text[from] == ':' && text[from + 1] == ':'));
        first_gap_is_found(text, from + 1, gap);
    }
}

proof fn no_gap_is_found(text: Seq<char>, from: int)
    requires
        0 <= from,
        forall|i: int|
            0 <= i < text.len() - 1 ==> !(#[trigger] text[i] == ':' && text[i + 1] == ':'),
    ensures
        first_gap(text, from) is None,
    decreases text.len() - from,
{
    if from + 1 < text.len() {
        assert(!(text[from] == ':' && text[from + 1] == ':'));
        no_gap_is_found(text, from + 1);
    }
}

/// The number that eight words make, the first of them uppermost.
pub open spec fn word_number(words: Seq<u16>) -> int {
    ((((((words[0] * 65536 + words[1]) * 65536 + words[2]) * 65536 + words[3]) * 65536 + words[4])
        * 65536 + words[5]) * 65536 + words[6]) * 65536 + words[7]
}

proof fn eight_words_make_an_address(words: Seq<u16>)
    requires
        words.len() == 8,
    ensures
        joined(words) == word_number(words),
{
}

/// An IPv6 address is read from eight hexadecimal groups, the first uppermost.
pub proof fn ipv6_groups_are_read(words: Seq<u16>)
    requires
        words.len() == 8,
    ensures
        ipv6_text(hex_groups(words)) matches Some(bits) && bits == word_number(words),
{
    groups_are_read(words, true);
    groups_have_no_gap(words);
    no_gap_is_found(hex_groups(words), 0);
    eight_words_make_an_address(words);
}

/// Two colons stand for as many groups of zero as are missing, at least one.
pub proof fn ipv6_gaps_are_read(head: Seq<u16>, tail: Seq<u16>)
    requires
        head.len() + tail.len() <= 7,
    ensures
        ipv6_text(hex_groups(head) + seq![':', ':'] + hex_groups(tail)) matches Some(bits) && bits
            == word_number(
            head + Seq::new((8 - head.len() - tail.len()) as nat, |i: int| 0u16) + tail,
        ),
{
    let front = hex_groups(head);
    let back = hex_groups(tail);
    let text = front + seq![':', ':'] + back;
    let gap = front.len() as int;
    groups_are_read(head, false);
    groups_are_read(tail, true);
    if head.len() > 0 {
        groups_have_no_gap(head);
    }
    assert forall|i: int| 0 <= i < gap implies !(#[trigger] text[i] == ':' && text[i + 1]
        == ':') by {
        assert(text[i] == front[i]);
        if i < gap - 1 {
            assert(text[i + 1] == front[i + 1]);
        }
    }
    assert(text[gap] == ':' && text[gap + 1] == ':');
    first_gap_is_found(text, 0, gap);
    assert(text.take(gap) =~= front);
    assert(text.skip(gap + 2) =~= back);
    let filled = head + zeros((8 - head.len() - tail.len()) as nat) + tail;
    assert(zeros((8 - head.len() - tail.len()) as nat) =~= Seq::new(
        (8 - head.len() - tail.len()) as nat,
        |i: int| 0u16,
    ));
    eight_words_make_an_address(filled);
}

/// An endpoint may be an IPv6 address, with or without brackets, which means port 53.
pub proof fn bare_ipv6_endpoints_are_read(text: Seq<char>, bits: u128)
    requires
        ipv6_text(text) == Some(bits),
        ipv4_text(text) is None,
    ensures
        endpoint_text(text) == Some(
            (SocketAddress { ip: IpAddress::V6(bits), port: 53, scope_id: 0 }),
        ),
        endpoint_text(seq!['['] + text + seq![']']) == Some(
            (SocketAddress { ip: IpAddress::V6(bits), port: 53, scope_id: 0 }),
        ),
{
    let boxed = seq!['['] + text + seq![']'];
    assert(bare_text(text) == Some(IpAddress::V6(bits))) by {
        if text.len() > 0 {
            ipv6_chars(text, 0);
            assert(text[0] != '[');
        }
    }
    assert(bare_text(boxed) == Some(IpAddress::V6(bits))) by {
        assert(boxed.subrange(1, boxed.len() - 1) =~= text);
    }
    bare_address_means_port_53(text);
    bare_address_means_port_53(boxed);
}

/// An endpoint may be an IPv6 address in brackets with a port behind a colon.
pub proof fn ipv6_endpoints_are_read(text: Seq<char>, bits: u128, port: u16)
    requires
        ipv6_text(text) == Some(bits),
    ensures
        endpoint_text(seq!['['] + text + seq![']', ':'] + text::decimal(port as nat)) == Some(
            (SocketAddress { ip: IpAddress::V6(bits), port, scope_id: 0 }),
        ),
{
    address_chars(text);
    plain_address_has_no_scope(text);
    boxed_endpoint_is_read(text, bits, 0, port);
}

/// An IPv6 address with a port may have a scope behind a percent sign.
pub proof fn scoped_endpoints_are_read(text: Seq<char>, bits: u128, scope: u32, port: u16)
    requires
        ipv6_text(text) == Some(bits),
    ensures
        endpoint_text(
            seq!['['] + (text + seq!['%'] + text::decimal(scope as nat)) + seq![']', ':']
                + text::decimal(port as nat),
        ) == Some((SocketAddress { ip: IpAddress::V6(bits), port, scope_id: scope })),
{
    let scoped = text + seq!['%'] + text::decimal(scope as nat);
    address_chars(text);
    scoped_address_is_read(text, bits, scope);
    assert forall|i: int| 0 <= i < scoped.len() implies #[trigger] scoped[i] != ']' by {
        decimals_are_read_as_their_number(scope as nat);
        if i < text.len() {
            assert(scoped[i] == text[i]);
            assert(address_char(text[i]));
        } else if i > text.len() {
            assert(scoped[i] == text::decimal(scope as nat)[i - text.len() - 1]);
        }
    }
    boxed_endpoint_is_read(scoped, bits, scope, port);
}

proof fn address_chars(text: Seq<char>)
    requires
        ipv6_text(text) is Some,
    ensures
        forall|i: int| 0 <= i < text.len() ==> address_char(#[trigger] text[i]),
{
    assert forall|i: int| 0 <= i < text.len() implies address_char(#[trigger] text[i]) by {
        ipv6_chars(text, i);
    }
}

proof fn plain_address_has_no_scope(text: Seq<char>)
    requires
        forall|i: int| 0 <= i < text.len() ==> address_char(#[trigger] text[i]),
    ensures
        first_of(text, '%', 0) is None,
        forall|i: int| 0 <= i < text.len() ==> #[trigger] text[i] != ']',
{
    first_of_finds(text, '%', 0);
    if let Some(at) = first_of(text, '%', 0) {
        assert(address_char(text[at]));
    }
    assert forall|i: int| 0 <= i < text.len() implies #[trigger] text[i] != ']' by {
        assert(address_char(text[i]));
    }
}

proof fn scoped_address_is_read(text: Seq<char>, bits: u128, scope: u32)
    requires
        ipv6_text(text) == Some(bits),
        forall|i: int| 0 <= i < text.len() ==> address_char(#[trigger] text[i]),
    ensures
        scoped_text(text + seq!['%'] + text::decimal(scope as nat)) == Some((bits, scope)),
{
    let whole = text + seq!['%'] + text::decimal(scope as nat);
    let at = text.len() as int;
    decimals_are_read_as_their_number(scope as nat);
    first_of_finds(whole, '%', 0);
    assert(whole[at] == '%');
    let found = first_of(whole, '%', 0)->0;
    assert(found == at) by {
        if found < at {
            assert(whole[found] == text[found]);
            assert(address_char(text[found]));
        }
    }
    assert(whole.take(at) =~= text);
    assert(whole.skip(at + 1) =~= text::decimal(scope as nat));
}

proof fn boxed_endpoint_is_read(inner: Seq<char>, bits: u128, scope: u32, port: u16)
    requires
        scoped_text(inner) == Some((bits, scope)),
        forall|i: int| 0 <= i < inner.len() ==> #[trigger] inner[i] != ']',
    ensures
        endpoint_text(seq!['['] + inner + seq![']', ':'] + text::decimal(port as nat)) == Some(
            (SocketAddress { ip: IpAddress::V6(bits), port, scope_id: scope }),
        ),
{
    let whole = seq!['['] + inner + seq![']', ':'] + text::decimal(port as nat);
    let close = inner.len() as int + 1;
    decimals_are_read_as_their_number(port as nat);
    first_of_finds(whole, ']', 0);
    assert(whole[close] == ']');
    assert(whole[close + 1] == ':');
    let found = first_of(whole, ']', 0)->0;
    assert(found == close) by {
        if found < close {
            if found > 0 {
                assert(whole[found] == inner[found - 1]);
            }
        }
    }
    assert(whole.subrange(1, close) =~= inner);
    assert(whole.skip(close + 2) =~= text::decimal(port as nat));
}

} // verus!
