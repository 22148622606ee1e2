//! Which bytes are a message, told by where its parts lie.
//!
//! A message is a header and, behind it, as many questions and records as the header
//! counts, one directly behind the other, up to the last byte.
use crate::bytes;
use crate::dns::cookie::{self, CookieField, CookieSlot};
use crate::dns::error::ParseError;
use crate::dns::message::{Header, Message, RecordSection, SectionCounts};
use crate::dns::name;
use crate::dns::parser::{self, ClassField, RecordView, ScanView};
use crate::dns::types::{RecordClass, RecordType};
use vstd::prelude::*;

verus! {

/// The 16-bit number at a place.
pub open spec fn field(wire: Seq<u8>, at: int) -> int {
    256 * wire[at] + wire[at + 1]
}

/// Where the name at a place ends.
pub open spec fn name_end(wire: Seq<u8>, at: int) -> int {
    name::name_at(wire, at)->Ok_0.1
}

/// Whether a name lies between two places.
pub open spec fn name_lies(wire: Seq<u8>, from: int, to: int) -> bool {
    name::name_at(wire, from) is Ok && name_end(wire, from) == to
}

/// Whether a question lies between two places: a name, a type and a class.
pub open spec fn question_lies(wire: Seq<u8>, from: int, to: int) -> bool {
    name_lies(wire, from, to - 4) && to <= wire.len()
}

/// Whether character strings fill the bytes between two places.
pub open spec fn strings_lie(wire: Seq<u8>, from: int, to: int) -> bool {
    exists|cuts: Seq<int>| #[trigger] strings_cut(wire, cuts, from, to)
}

/// Whether bytes are cut into character strings, each behind its length.
pub open spec fn strings_cut(wire: Seq<u8>, cuts: Seq<int>, from: int, to: int) -> bool {
    &&& cuts.len() >= 1
    &&& cuts[0] == from
    &&& cuts.last() == to
    &&& forall|i: int| 0 <= i < cuts.len() - 1 ==> cuts[i + 1] == #[trigger] cuts[i] + 1 + wire[cuts[i]]
}

/// Whether EDNS options fill the bytes between two places.
pub open spec fn options_lie(wire: Seq<u8>, from: int, to: int) -> bool {
    exists|cuts: Seq<int>| #[trigger] options_cut(wire, cuts, from, to)
}

/// Whether bytes are cut into EDNS options: a code, a length and so many bytes.
pub open spec fn options_cut(wire: Seq<u8>, cuts: Seq<int>, from: int, to: int) -> bool {
    &&& cuts.len() >= 1
    &&& cuts[0] == from
    &&& cuts.last() == to
    &&& forall|i: int|
        0 <= i < cuts.len() - 1 ==> cuts[i + 1] == #[trigger] cuts[i] + 4 + field(wire, cuts[i] + 2)
}

/// Whether the data of a record is what the number of its type asks for.
///
/// Addresses of the Internet have four bytes (type 1) or sixteen (28). NS (2),
/// CNAME (5) and PTR (12) are a name, MX (15) a name behind two bytes, SRV (33) one
/// behind six, SOA (6) two names in front of twenty bytes, TXT (16) one or more
/// strings. Data of any other type or class is opaque.
pub open spec fn data_lies(wire: Seq<u8>, kind: int, class: int, from: int, to: int) -> bool {
    &&& kind == 1 && class == 1 ==> to - from == 4
    &&& kind == 28 && class == 1 ==> to - from == 16
    &&& kind == 2 || kind == 5 || kind == 12 ==> name_lies(wire, from, to)
    &&& kind == 15 ==> to - from >= 2 && name_lies(wire, from + 2, to)
    &&& kind == 33 ==> to - from >= 6 && name_lies(wire, from + 6, to)
    &&& kind == 6 ==> name::name_at(wire, from) is Ok && name_lies(
        wire,
        name_end(wire, from),
        to - 20,
    )
    &&& kind == 16 ==> from < to && strings_lie(wire, from, to)
}

/// The number of the type of the record at a place.
pub open spec fn kind_at(wire: Seq<u8>, at: int) -> int {
    field(wire, name_end(wire, at))
}

/// Whether a record lies between two places: a name, a type, a class, a time to
/// live, and as much data as it says. OPT (type 41) has the root for its name and
/// EDNS options for data, and stands among the additional records only.
pub open spec fn record_lies(wire: Seq<u8>, from: int, to: int, additional: bool) -> bool {
    let end = name_end(wire, from);
    &&& name::name_at(wire, from) is Ok
    &&& end + 10 <= wire.len()
    &&& to == end + 10 + field(wire, end + 8)
    &&& to <= wire.len()
    &&& if kind_at(wire, from) == 41 {
        additional && name::name_at(wire, from)->Ok_0.0.len() == 0 && options_lie(
            wire,
            end + 10,
            to,
        )
    } else {
        data_lies(wire, kind_at(wire, from), field(wire, end + 2), end + 10, to)
    }
}

/// Where the questions and the records of a message start, each list with the place
/// behind its last.
pub struct Layout {
    pub questions: Seq<int>,
    pub records: Seq<int>,
}

/// How many records stand in front of the additional ones.
pub open spec fn inner_records(wire: Seq<u8>) -> int {
    field(wire, 6) + field(wire, 8)
}

/// Whether bytes are a message of a layout.
///
/// Only messages of another operation than QUERY may have several questions, and at
/// most one record is an OPT.
pub open spec fn laid_out(wire: Seq<u8>, layout: Layout) -> bool {
    let q = layout.questions;
    let r = layout.records;
    &&& 12 <= wire.len() <= 65535
    &&& field(wire, 4) > 1 ==> wire[2] / 8 % 16 != 0
    &&& q.len() == field(wire, 4) + 1
    &&& q[0] == 12
    &&& forall|i: int| 0 <= i < q.len() - 1 ==> question_lies(wire, #[trigger] q[i], q[i + 1])
    &&& r.len() == inner_records(wire) + field(wire, 10) + 1
    &&& r[0] == q.last()
    &&& r.last() == wire.len()
    &&& forall|i: int|
        0 <= i < r.len() - 1 ==> record_lies(
            wire,
            #[trigger] r[i],
            r[i + 1],
            i >= inner_records(wire),
        )
    &&& forall|i: int, j: int|
        0 <= i < j < r.len() - 1 && kind_at(wire, #[trigger] r[i]) == 41 ==> kind_at(
            wire,
            #[trigger] r[j],
        ) != 41
}

/// Whether a record signs its message: TSIG (250) and TKEY (249) anywhere, SIG (24)
/// among the additional records.
pub open spec fn record_signs(wire: Seq<u8>, at: int, additional: bool) -> bool {
    ||| kind_at(wire, at) == 250
    ||| kind_at(wire, at) == 249
    ||| additional && kind_at(wire, at) == 24
}

proof fn name_behind(wire: Seq<u8>, at: int)
    requires
        name::name_at(wire, at) is Ok,
    ensures
        0 <= at < name_end(wire, at) <= wire.len(),
{
    name::decoded_name_fits(wire, at);
}

proof fn strings_scan(wire: Seq<u8>, cuts: Seq<int>, k: int, from: int, to: int)
    requires
        strings_cut(wire, cuts, from, to),
        0 <= k < cuts.len(),
        0 <= from,
        to <= wire.len(),
    ensures
        from <= cuts[k] <= to,
        parser::skip_strings(wire, cuts[k], to) == Ok::<int, ParseError>(to),
    decreases cuts.len() - k,
{
    cuts_grow(wire, cuts, k, from, to);
    if k < cuts.len() - 1 {
        strings_scan(wire, cuts, k + 1, from, to);
        assert(cuts[k + 1] == cuts[k] + 1 + wire[cuts[k]]);
    }
}

proof fn cuts_grow(wire: Seq<u8>, cuts: Seq<int>, k: int, from: int, to: int)
    requires
        strings_cut(wire, cuts, from, to),
        0 <= k < cuts.len(),
    ensures
        from <= cuts[k],
    decreases k,
{
    if k > 0 {
        cuts_grow(wire, cuts, k - 1, from, to);
        assert(cuts[k - 1 + 1] == cuts[k - 1] + 1 + wire[cuts[k - 1]]);
    }
}

proof fn scanned_strings(wire: Seq<u8>, from: int, to: int) -> (cuts: Seq<int>)
    requires
        from <= to,
        parser::skip_strings(wire, from, to) == Ok::<int, ParseError>(to),
    ensures
        strings_cut(wire, cuts, from, to),
    decreases to - from,
{
    if from == to {
        seq![from]
    } else {
        let next = from + 1 + wire[from];
        if next > to {
            assert(parser::skip_strings(wire, next, to) == Ok::<int, ParseError>(next));
        }
        let rest = scanned_strings(wire, next, to);
        let cuts = seq![from] + rest;
        assert forall|i: int| 0 <= i < cuts.len() - 1 implies cuts[i + 1] == #[trigger] cuts[i] + 1
            + wire[cuts[i]] by {
            if i > 0 {
                assert(rest[i - 1 + 1] == rest[i - 1] + 1 + wire[rest[i - 1]]);
            }
        }
        cuts
    }
}

/// The data of a record is accepted exactly where it is what its type asks for.
proof fn data_agrees(wire: Seq<u8>, record: RecordView, kind: int, class: int)
    requires
        0 <= record.start,
        0 <= record.length,
        record.start + record.length <= wire.len(),
        0 <= kind <= 65535,
        0 <= class <= 65535,
        record.kind == RecordType::of(kind as u16),
        record.class == ClassField::Dns(RecordClass::of(class as u16)),
    ensures
        parser::data_checked(wire, record) is Ok <==> data_lies(
            wire,
            kind,
            class,
            record.start,
            record.start + record.length,
        ),
{
    let from = record.start;
    let to = record.start + record.length;
    if kind == 16 && from < to {
        if strings_lie(wire, from, to) {
            let cuts = choose|cuts: Seq<int>| #[trigger] strings_cut(wire, cuts, from, to);
            strings_scan(wire, cuts, 0, from, to);
        }
        if parser::skip_strings(wire, from, to) == Ok::<int, ParseError>(to) {
            let cuts = scanned_strings(wire, from, to);
            assert(strings_cut(wire, cuts, from, to));
        }
    }
    if kind == 6 && name::name_at(wire, from) is Ok {
        name_behind(wire, from);
        if name::name_at(wire, name_end(wire, from)) is Ok {
            name_behind(wire, name_end(wire, from));
        }
    }
    if kind == 15 && name::name_at(wire, from + 2) is Ok {
        name_behind(wire, from + 2);
    }
    if kind == 33 && name::name_at(wire, from + 6) is Ok {
        name_behind(wire, from + 6);
    }
    if (kind == 2 || kind == 5 || kind == 12) && name::name_at(wire, from) is Ok {
        name_behind(wire, from);
    }
}

proof fn option_cuts_grow(wire: Seq<u8>, cuts: Seq<int>, i: int, j: int, from: int, to: int)
    requires
        options_cut(wire, cuts, from, to),
        0 <= i <= j < cuts.len(),
    ensures
        cuts[i] + 4 * (j - i) <= cuts[j],
    decreases j - i,
{
    if i < j {
        option_cuts_grow(wire, cuts, i, j - 1, from, to);
        assert(cuts[j - 1 + 1] == cuts[j - 1] + 4 + field(wire, cuts[j - 1] + 2));
    }
}

proof fn options_scan(wire: Seq<u8>, cuts: Seq<int>, k: int, from: int, to: int)
    requires
        options_cut(wire, cuts, from, to),
        0 <= k < cuts.len(),
        0 <= from,
        to <= wire.len(),
    ensures
        parser::options_framed(wire.subrange(from, to), cuts[k] - from),
    decreases cuts.len() - k,
{
    let data = wire.subrange(from, to);
    option_cuts_grow(wire, cuts, 0, k, from, to);
    if k < cuts.len() - 1 {
        assert(cuts[k + 1] == cuts[k] + 4 + field(wire, cuts[k] + 2));
        option_cuts_grow(wire, cuts, k + 1, cuts.len() - 1, from, to);
        options_scan(wire, cuts, k + 1, from, to);
        let at = cuts[k] - from;
        assert(data[at + 2] == wire[cuts[k] + 2]);
        assert(data[at + 3] == wire[cuts[k] + 3]);
        assert(bytes::word_at(data, at + 2) == field(wire, cuts[k] + 2));
    }
}

proof fn framed_options(wire: Seq<u8>, from: int, at: int, to: int) -> (cuts: Seq<int>)
    requires
        0 <= from <= at <= to <= wire.len(),
        parser::options_framed(wire.subrange(from, to), at - from),
    ensures
        options_cut(wire, cuts, at, to),
    decreases to - at,
{
    let data = wire.subrange(from, to);
    if at == to {
        seq![at]
    } else {
        assert(data[at - from + 2] == wire[at + 2]);
        assert(data[at - from + 3] == wire[at + 3]);
        let next = at + 4 + field(wire, at + 2);
        assert(bytes::word_at(data, at - from + 2) == field(wire, at + 2));
        let rest = framed_options(wire, from, next, to);
        let cuts = seq![at] + rest;
        assert forall|i: int| 0 <= i < cuts.len() - 1 implies cuts[i + 1] == #[trigger] cuts[i] + 4
            + field(wire, cuts[i] + 2) by {
            if i > 0 {
                assert(rest[i - 1 + 1] == rest[i - 1] + 4 + field(wire, rest[i - 1] + 2));
            }
        }
        cuts
    }
}

/// What the envelope of a record says.
proof fn envelope(wire: Seq<u8>, at: int)
    requires
        name::name_at(wire, at) is Ok,
        name_end(wire, at) + 10 <= wire.len(),
    ensures
        parser::record_at(wire, at) matches Ok(record) && {
            let end = name_end(wire, at);
            &&& 0 <= at < end
            &&& record.owner == name::name_at(wire, at)->Ok_0.0
            &&& record.kind == RecordType::of(kind_at(wire, at) as u16)
            &&& kind_at(wire, at) == 41 ==> record.class == ClassField::UdpPayload(
                field(wire, end + 2) as u16,
            )
            &&& kind_at(wire, at) != 41 ==> record.class == ClassField::Dns(
                RecordClass::of(field(wire, end + 2) as u16),
            )
            &&& record.ttl == 65536 * field(wire, end + 4) + field(wire, end + 6)
            &&& record.start == end + 10
            &&& record.length == field(wire, end + 8)
        },
{
    name_behind(wire, at);
    let end = name_end(wire, at);
    assert(bytes::word_at(wire, end) == field(wire, end));
    assert(bytes::word_at(wire, end + 2) == field(wire, end + 2));
    assert(bytes::word_at(wire, end + 8) == field(wire, end + 8));
}

/// A record is accepted exactly where it lies in the message as a record; only a
/// second OPT is refused although it does.
proof fn record_agrees(wire: Seq<u8>, section: RecordSection, scan: ScanView)
    requires
        scan.error is None,
    ensures
        ({
            let next = parser::scan_record(wire, section, scan);
            let additional = section == RecordSection::Additional;
            let at = scan.cursor;
            let end = name_end(wire, at);
            let to = end + 10 + field(wire, end + 8);
            &&& next.error is None <==> record_lies(wire, at, to, additional) && !(scan.edns is Some
                && kind_at(wire, at) == 41)
            &&& next.error is None ==> {
                &&& next.cursor == to
                &&& kind_at(wire, at) != 41 ==> next.edns == scan.edns && next.cookie == scan.cookie
                &&& next.authenticated == (scan.authenticated || record_signs(
                    wire,
                    at,
                    additional,
                ))
                &&& kind_at(wire, at) == 41 ==> {
                    &&& next.edns matches Some(opt) && {
                        &&& opt.udp_size == field(wire, end + 2)
                        &&& opt.extended_rcode == wire[end + 4]
                        &&& opt.version == wire[end + 5]
                        &&& opt.dnssec_ok == (wire[end + 6] >= 128)
                    }
                    &&& next.cookie == cookie::cookie_in(wire, end + 10, end + 10, to)
                }
            }
        }),
{
    let at = scan.cursor;
    if name::name_at(wire, at) is Ok && name_end(wire, at) + 10 <= wire.len() {
        envelope(wire, at);
        let record = parser::record_at(wire, at)->Ok_0;
        let end = name_end(wire, at);
        let to = end + 10 + field(wire, end + 8);
        if to <= wire.len() {
            if kind_at(wire, at) == 41 {
                if options_lie(wire, end + 10, to) {
                    let cuts = choose|cuts: Seq<int>| #[trigger]
                        options_cut(wire, cuts, end + 10, to);
                    options_scan(wire, cuts, 0, end + 10, to);
                }
                if parser::options_framed(wire.subrange(end + 10, to), 0) {
                    let cuts = framed_options(wire, end + 10, end + 10, to);
                    assert(options_cut(wire, cuts, end + 10, to));
                }
                edns_bytes(wire, end + 4, field(wire, end + 2) as u16, record.ttl);
            } else {
                data_agrees(wire, record, kind_at(wire, at), field(wire, end + 2));
            }
        }
    }
}

/// OPT has its extended code, its version and its DO bit in the bytes of the time to
/// live.
proof fn edns_bytes(wire: Seq<u8>, at: int, size: u16, ttl: u32)
    requires
        0 <= at,
        at + 3 < wire.len(),
        ttl == 65536 * field(wire, at) + field(wire, at + 2),
    ensures
        ({
            let opt = parser::edns_of(size, ttl);
            &&& opt.udp_size == size
            &&& opt.extended_rcode == wire[at]
            &&& opt.version == wire[at + 1]
            &&& opt.dnssec_ok == (wire[at + 2] >= 128)
        }),
{
    let a = wire[at] as int;
    let b = wire[at + 1] as int;
    let c = wire[at + 2] as int;
    let d = wire[at + 3] as int;
    assert(ttl == 16777216 * a + 65536 * b + 256 * c + d);
    assert(ttl / 16777216 == a);
    assert(ttl / 65536 == 256 * a + b);
    assert((256 * a + b) % 256 == b);
    assert(ttl / 0x8000 == 2 * (256 * a + b) + (if c >= 128 {
        1int
    } else {
        0int
    }));
}

/// Whether an OPT record tells what a scan found in one.
pub open spec fn opt_tells(wire: Seq<u8>, at: int, to: int, message: Message) -> bool {
    let end = name_end(wire, at);
    &&& kind_at(wire, at) == 41
    &&& message.edns matches Some(opt) && {
        &&& opt.udp_size == field(wire, end + 2)
        &&& opt.extended_rcode == wire[end + 4]
        &&& opt.version == wire[end + 5]
        &&& opt.dnssec_ok == (wire[end + 6] >= 128)
    }
    &&& message.cookie == cookie::cookie_in(wire, end + 10, end + 10, to)
}

spec fn scan_tells(wire: Seq<u8>, at: int, to: int, scan: ScanView) -> bool {
    let end = name_end(wire, at);
    &&& kind_at(wire, at) == 41
    &&& scan.edns matches Some(opt) && {
        &&& opt.udp_size == field(wire, end + 2)
        &&& opt.extended_rcode == wire[end + 4]
        &&& opt.version == wire[end + 5]
        &&& opt.dnssec_ok == (wire[end + 6] >= 128)
    }
    &&& scan.cookie == cookie::cookie_in(wire, end + 10, end + 10, to)
}

/// Whether a scan has read the records up to a mark.
spec fn scanned(wire: Seq<u8>, marks: Seq<int>, n: int, scan: ScanView) -> bool {
    &&& 0 <= n < marks.len()
    &&& scan.error is None
    &&& scan.cursor == marks[n]
    &&& scan.authenticated <==> exists|j: int|
        0 <= j < n && record_signs(wire, #[trigger] marks[j], j >= inner_records(wire))
    &&& scan.edns is None ==> scan.cookie is None && forall|j: int|
        0 <= j < n ==> kind_at(wire, #[trigger] marks[j]) != 41
    &&& scan.edns is Some ==> exists|j: int|
        0 <= j < n && scan_tells(wire, #[trigger] marks[j], marks[j + 1], scan)
}

proof fn one_record_further(
    wire: Seq<u8>,
    marks: Seq<int>,
    section: RecordSection,
    n: int,
    scan: ScanView,
)
    requires
        scanned(wire, marks, n, scan),
        n + 1 < marks.len(),
        (section == RecordSection::Additional) == (n >= inner_records(wire)),
        parser::scan_record(wire, section, scan).error is None,
        marks[n + 1] == parser::scan_record(wire, section, scan).cursor,
    ensures
        scanned(wire, marks, n + 1, parser::scan_record(wire, section, scan)),
{
    let next = parser::scan_record(wire, section, scan);
    record_agrees(wire, section, scan);
    let additional = n >= inner_records(wire);
    if scan.authenticated {
        let j = choose|j: int|
            0 <= j < n && record_signs(wire, #[trigger] marks[j], j >= inner_records(wire));
        assert(0 <= j < n + 1 && record_signs(wire, marks[j], j >= inner_records(wire)));
    }
    if record_signs(wire, marks[n], additional) {
        assert(0 <= n < n + 1 && record_signs(wire, marks[n], n >= inner_records(wire)));
    }
    if kind_at(wire, marks[n]) == 41 {
        assert(scan_tells(wire, marks[n], marks[n + 1], next));
    } else if scan.edns is Some {
        let j = choose|j: int|
            0 <= j < n && scan_tells(wire, #[trigger] marks[j], marks[j + 1], scan);
        assert(scan_tells(wire, marks[j], marks[j + 1], next));
    }
}

proof fn section_is_scanned(
    wire: Seq<u8>,
    marks: Seq<int>,
    section: RecordSection,
    n: int,
    count: nat,
    scan: ScanView,
)
    requires
        scanned(wire, marks, n, scan),
        n + count < marks.len(),
        forall|i: int|
            n <= i < n + count ==> record_lies(
                wire,
                #[trigger] marks[i],
                marks[i + 1],
                i >= inner_records(wire),
            ) && (section == RecordSection::Additional) == (i >= inner_records(wire)),
        forall|i: int, j: int|
            0 <= i < j < marks.len() - 1 && kind_at(wire, #[trigger] marks[i]) == 41 ==> kind_at(
                wire,
                #[trigger] marks[j],
            ) != 41,
    ensures
        scanned(
            wire,
            marks,
            n + count,
            parser::scan_section(wire, section, count, scan),
        ),
    decreases count,
{
    if count > 0 {
        let next = parser::scan_record(wire, section, scan);
        record_agrees(wire, section, scan);
        assert(record_lies(wire, marks[n], marks[n + 1], n >= inner_records(wire)));
        if scan.edns is Some {
            let j = choose|j: int|
                0 <= j < n && scan_tells(wire, #[trigger] marks[j], marks[j + 1], scan);
            assert(kind_at(wire, marks[j]) == 41);
            assert(kind_at(wire, marks[n]) != 41);
        }
        one_record_further(wire, marks, section, n, scan);
        section_is_scanned(wire, marks, section, n + 1, (count - 1) as nat, next);
    }
}

proof fn questions_are_read(wire: Seq<u8>, marks: Seq<int>, n: nat)
    requires
        n < marks.len(),
        marks[0] == 12,
        forall|i: int|
            0 <= i < marks.len() - 1 ==> question_lies(wire, #[trigger] marks[i], marks[i + 1]),
    ensures
        parser::questions_at(wire, 12, n) matches Ok((questions, end)) && {
            &&& end == marks[n as int]
            &&& questions.len() == n
            &&& forall|i: int|
                0 <= i < n ==> {
                    let stop = name_end(wire, marks[i]);
                    &&& (#[trigger] questions[i]).name == name::name_at(wire, marks[i])->Ok_0.0
                    &&& questions[i].kind.code() == field(wire, stop)
                    &&& questions[i].class.code() == field(wire, stop + 2)
                }
        },
        12 + 5 * n <= marks[n as int],
    decreases n,
{
    if n > 0 {
        questions_are_read(wire, marks, (n - 1) as nat);
        let at = marks[n - 1];
        assert(question_lies(wire, at, marks[n - 1 + 1]));
        name_behind(wire, at);
        let end = name_end(wire, at);
        assert(bytes::word_at(wire, end) == field(wire, end));
        assert(bytes::word_at(wire, end + 2) == field(wire, end + 2));
    }
}

proof fn records_take_room(wire: Seq<u8>, marks: Seq<int>, n: int)
    requires
        0 <= n < marks.len(),
        forall|i: int|
            0 <= i < marks.len() - 1 ==> record_lies(
                wire,
                #[trigger] marks[i],
                marks[i + 1],
                i >= inner_records(wire),
            ),
    ensures
        marks[0] + 11 * n <= marks[n],
    decreases n,
{
    if n > 0 {
        records_take_room(wire, marks, n - 1);
        assert(record_lies(
            wire,
            marks[n - 1],
            marks[n - 1 + 1],
            n - 1 >= inner_records(wire),
        ));
        name_behind(wire, marks[n - 1]);
    }
}

/// The header of bytes, in numbers.
proof fn header_numbers(wire: Seq<u8>)
    requires
        wire.len() >= 12,
    ensures
        ({
            let header = Header::of(wire);
            &&& header.id.0 == field(wire, 0)
            &&& header.flags == field(wire, 2)
            &&& header.counts.questions == field(wire, 4)
            &&& header.counts.answers == field(wire, 6)
            &&& header.counts.authorities == field(wire, 8)
            &&& header.counts.additionals == field(wire, 10)
            &&& header.flags / 0x800 % 16 == wire[2] / 8 % 16
        }),
{
}

proof fn laid_out_records_scan(wire: Seq<u8>, layout: Layout)
    requires
        laid_out(wire, layout),
    ensures
        scanned(
            wire,
            layout.records,
            layout.records.len() - 1,
            parser::scan_records(wire, Header::of(wire).counts, layout.records[0]),
        ),
{
    let r = layout.records;
    let counts = Header::of(wire).counts;
    header_numbers(wire);
    let none = ScanView {
        cursor: r[0],
        edns: None,
        cookie: None,
        authenticated: false,
        error: None,
    };
    let a = counts.answers as int;
    let b = counts.authorities as int;
    assert(scanned(wire, r, 0, none));
    section_is_scanned(wire, r, RecordSection::Answer, 0, counts.answers as nat, none);
    let one = parser::scan_section(wire, RecordSection::Answer, counts.answers as nat, none);
    section_is_scanned(wire, r, RecordSection::Authority, a, counts.authorities as nat, one);
    let two = parser::scan_section(
        wire,
        RecordSection::Authority,
        counts.authorities as nat,
        one,
    );
    section_is_scanned(
        wire,
        r,
        RecordSection::Additional,
        a + b,
        counts.additionals as nat,
        two,
    );
}

/// Bytes that are laid out as a message parse, whatever their counts: as the
/// questions that lie in them, with the OPT that is among their records, signed
/// exactly where a record signs.
pub proof fn laid_out_messages_parse(wire: Seq<u8>, layout: Layout)
    requires
        laid_out(wire, layout),
    ensures
        parser::parsed(wire) matches Ok(message) && {
            &&& message.wire == wire
            &&& message.header.id.0 == field(wire, 0)
            &&& message.header.flags == field(wire, 2)
            &&& message.questions.len() == field(wire, 4)
            &&& message.header.counts.questions == field(wire, 4)
            &&& message.header.counts.answers == field(wire, 6)
            &&& message.header.counts.authorities == field(wire, 8)
            &&& message.header.counts.additionals == field(wire, 10)
            &&& forall|i: int|
                0 <= i < message.questions.len() ==> {
                    let at = layout.questions[i];
                    let stop = name_end(wire, at);
                    &&& (#[trigger] message.questions[i]).name == name::name_at(wire, at)->Ok_0.0
                    &&& message.questions[i].kind.code() == field(wire, stop)
                    &&& message.questions[i].class.code() == field(wire, stop + 2)
                }
            &&& message.edns is None ==> message.cookie is None && forall|i: int|
                0 <= i < layout.records.len() - 1 ==> kind_at(wire, #[trigger] layout.records[i])
                    != 41
            &&& message.edns is Some ==> exists|i: int|
                0 <= i < layout.records.len() - 1 && opt_tells(
                    wire,
                    #[trigger] layout.records[i],
                    layout.records[i + 1],
                    message,
                )
            &&& message.authenticated <==> exists|i: int|
                0 <= i < layout.records.len() - 1 && record_signs(
                    wire,
                    #[trigger] layout.records[i],
                    i >= inner_records(wire),
                )
        },
{
    let q = layout.questions;
    let r = layout.records;
    header_numbers(wire);
    questions_are_read(wire, q, (q.len() - 1) as nat);
    records_take_room(wire, r, r.len() - 1);
    laid_out_records_scan(wire, layout);
    counted_messages_parse(wire);
    let message = parser::parsed(wire)->Ok_0;
    let scan = parser::scan_records(wire, Header::of(wire).counts, r[0]);
    if message.edns is Some {
        let j = choose|j: int|
            0 <= j < r.len() - 1 && scan_tells(wire, #[trigger] r[j], r[j + 1], scan);
        assert(opt_tells(wire, r[j], r[j + 1], message));
    }
}

/// Counts are never the reason why a message is refused whose questions and records
/// can be read up to its end.
proof fn counted_messages_parse(wire: Seq<u8>)
    requires
        12 <= wire.len() <= 65535,
        ({
            let counts = Header::of(wire).counts;
            &&& counts.questions > 1 ==> Header::of(wire).flags / 0x800 % 16 != 0
            &&& counts.questions * 5 + (counts.answers + counts.authorities + counts.additionals)
                * 11 <= wire.len() - 12
            &&& parser::questions_at(wire, 12, counts.questions as nat) matches Ok((_, at)) && {
                let scan = parser::scan_records(wire, counts, at);
                scan.error is None && scan.cursor == wire.len()
            }
        }),
    ensures
        parser::parsed(wire) matches Ok(message) && {
            let counts = Header::of(wire).counts;
            let (questions, at) = parser::questions_at(
                wire,
                12,
                counts.questions as nat,
            )->Ok_0;
            let scan = parser::scan_records(wire, counts, at);
            &&& message.wire == wire
            &&& message.header == Header::of(wire)
            &&& message.questions == questions
            &&& message.edns == scan.edns
            &&& message.cookie == scan.cookie
            &&& message.authenticated == scan.authenticated
        },
{
}

spec fn marked(wire: Seq<u8>, marks: Seq<int>, scan: ScanView) -> bool {
    &&& marks.len() >= 1
    &&& marks.last() == scan.cursor
    &&& scan.edns is None ==> forall|j: int|
        0 <= j < marks.len() - 1 ==> kind_at(wire, #[trigger] marks[j]) != 41
    &&& forall|i: int|
        0 <= i < marks.len() - 1 ==> record_lies(
            wire,
            #[trigger] marks[i],
            marks[i + 1],
            i >= inner_records(wire),
        )
    &&& forall|i: int, j: int|
        0 <= i < j < marks.len() - 1 && kind_at(wire, #[trigger] marks[i]) == 41 ==> kind_at(
            wire,
            #[trigger] marks[j],
        ) != 41
}

/// The marks of the records that a scan went over.
proof fn section_marks(
    wire: Seq<u8>,
    section: RecordSection,
    count: nat,
    scan: ScanView,
    before: Seq<int>,
) -> (marks: Seq<int>)
    requires
        marked(wire, before, scan),
        parser::scan_section(wire, section, count, scan).error is None,
        forall|i: int|
            before.len() - 1 <= i < before.len() - 1 + count ==> (section
                == RecordSection::Additional) == (#[trigger] (i + 0) >= inner_records(wire)),
    ensures
        marked(wire, marks, parser::scan_section(wire, section, count, scan)),
        marks.len() == before.len() + count,
        marks[0] == before[0],
    decreases count,
{
    if count == 0 {
        before
    } else {
        let next = parser::scan_record(wire, section, scan);
        assert(scan.error is None);
        assert(next.error is Some ==> parser::scan_section(wire, section, (count - 1) as nat, next)
            == next);
        record_agrees(wire, section, scan);
        let n = before.len() - 1;
        let marks = before.push(next.cursor);
        assert((section == RecordSection::Additional) == (n + 0 >= inner_records(wire)));
        assert forall|i: int| 0 <= i < marks.len() - 1 implies record_lies(
            wire,
            #[trigger] marks[i],
            marks[i + 1],
            i >= inner_records(wire),
        ) by {
            if i < n {
                assert(record_lies(wire, before[i], before[i + 1], i >= inner_records(wire)));
            }
        }
        assert forall|i: int, j: int|
            0 <= i < j < marks.len() - 1 && kind_at(wire, #[trigger] marks[i])
                == 41 implies kind_at(wire, #[trigger] marks[j]) != 41 by {
            assert(marks[i] == before[i]);
            if j < n {
                assert(marks[j] == before[j]);
            } else {
                assert(kind_at(wire, before[i]) == 41);
                assert(scan.edns is Some);
            }
        }
        if next.edns is None {
            assert forall|j: int| 0 <= j < marks.len() - 1 implies kind_at(
                wire,
                #[trigger] marks[j],
            ) != 41 by {
                if j < n {
                    assert(marks[j] == before[j]);
                }
            }
        }
        section_marks(wire, section, (count - 1) as nat, next, marks)
    }
}

proof fn question_marks(wire: Seq<u8>, count: nat) -> (marks: Seq<int>)
    requires
        parser::questions_at(wire, 12, count) is Ok,
    ensures
        marks.len() == count + 1,
        marks[0] == 12,
        marks.last() == parser::questions_at(wire, 12, count)->Ok_0.1,
        forall|i: int|
            0 <= i < marks.len() - 1 ==> question_lies(wire, #[trigger] marks[i], marks[i + 1]),
    decreases count,
{
    if count == 0 {
        seq![12int]
    } else {
        let before = question_marks(wire, (count - 1) as nat);
        let marks = before.push(parser::questions_at(wire, 12, count)->Ok_0.1);
        assert forall|i: int| 0 <= i < marks.len() - 1 implies question_lies(
            wire,
            #[trigger] marks[i],
            marks[i + 1],
        ) by {
            if i < before.len() - 1 {
                assert(question_lies(wire, before[i], before[i + 1]));
            }
        }
        marks
    }
}

proof fn errors_end_a_section(wire: Seq<u8>, section: RecordSection, count: nat, scan: ScanView)
    ensures
        scan.error is Some ==> parser::scan_section(wire, section, count, scan) == scan,
{
}

proof fn record_marks(wire: Seq<u8>, counts: SectionCounts, at: int) -> (marks: Seq<int>)
    requires
        counts.answers == field(wire, 6),
        counts.authorities == field(wire, 8),
        parser::scan_records(wire, counts, at).error is None,
    ensures
        marked(wire, marks, parser::scan_records(wire, counts, at)),
        marks.len() == inner_records(wire) + counts.additionals + 1,
        marks[0] == at,
{
    let none = ScanView {
        cursor: at,
        edns: None,
        cookie: None,
        authenticated: false,
        error: None,
    };
    let one = parser::scan_section(wire, RecordSection::Answer, counts.answers as nat, none);
    let two = parser::scan_section(
        wire,
        RecordSection::Authority,
        counts.authorities as nat,
        one,
    );
    errors_end_a_section(wire, RecordSection::Authority, counts.authorities as nat, one);
    errors_end_a_section(wire, RecordSection::Additional, counts.additionals as nat, two);
    let start = seq![at];
    let first = section_marks(wire, RecordSection::Answer, counts.answers as nat, none, start);
    let second = section_marks(
        wire,
        RecordSection::Authority,
        counts.authorities as nat,
        one,
        first,
    );
    section_marks(wire, RecordSection::Additional, counts.additionals as nat, two, second)
}

/// Only bytes that are laid out as a message parse.
pub proof fn parsed_messages_are_laid_out(wire: Seq<u8>)
    requires
        parser::parsed(wire) is Ok,
    ensures
        exists|layout: Layout| laid_out(wire, layout),
{
    header_numbers(wire);
    let counts = Header::of(wire).counts;
    let questions = question_marks(wire, counts.questions as nat);
    let records = record_marks(wire, counts, questions.last());
    let layout = Layout { questions, records };
    assert(laid_out(wire, layout));
}

/// Counts are refused exactly where a query asks more than one question, or where not
/// even questions of five and records of eleven bytes, so many as are counted, would
/// fit behind the header.
pub proof fn only_impossible_counts_are_refused(wire: Seq<u8>)
    ensures
        parser::parsed(wire) == Err::<Message, ParseError>(ParseError::InvalidCount) <==> {
            &&& 12 <= wire.len() <= 65535
            &&& {
                ||| field(wire, 4) > 1 && wire[2] / 8 % 16 == 0
                ||| 12 + 5 * field(wire, 4) + 11 * (field(wire, 6) + field(wire, 8) + field(
                    wire,
                    10,
                )) > wire.len()
            }
        },
        parser::parsed(wire) == Err::<Message, ParseError>(ParseError::OversizedMessage)
            <==> wire.len() > 65535,
        wire.len() < 12 ==> parser::parsed(wire) == Err::<Message, ParseError>(
            ParseError::UnexpectedEnd,
        ),
{
    if 12 <= wire.len() <= 65535 {
        header_numbers(wire);
        let counts = Header::of(wire).counts;
        let count = counts.questions as nat;
        questions_have_no_count_error(wire, 12, count);
        match parser::questions_at(wire, 12, count) {
            Ok((_, at)) => {
                let none = ScanView {
                    cursor: at,
                    edns: None,
                    cookie: None,
                    authenticated: false,
                    error: None,
                };
                records_have_no_count_error(wire, RecordSection::Answer, counts.answers as nat, none);
                let one = parser::scan_section(
                    wire,
                    RecordSection::Answer,
                    counts.answers as nat,
                    none,
                );
                records_have_no_count_error(
                    wire,
                    RecordSection::Authority,
                    counts.authorities as nat,
                    one,
                );
                let two = parser::scan_section(
                    wire,
                    RecordSection::Authority,
                    counts.authorities as nat,
                    one,
                );
                records_have_no_count_error(
                    wire,
                    RecordSection::Additional,
                    counts.additionals as nat,
                    two,
                );
            },
            Err(_) => {},
        }
    }
}

spec fn no_count_error(error: ParseError) -> bool {
    error != ParseError::InvalidCount && error != ParseError::OversizedMessage
}

proof fn names_have_no_count_error(wire: Seq<u8>, at: int, expanded: int, visited: Seq<int>)
    ensures
        name::labels_at(wire, at, expanded, visited) matches Err(error) ==> no_count_error(error),
    decreases 255 - expanded, 128 - visited.len(),
{
    if 0 <= at < wire.len() {
        if wire[at] >= 192 {
            let target = (wire[at] - 192) * 256 + wire[at + 1];
            if visited.len() < 128 {
                names_have_no_count_error(wire, target, expanded, visited.push(target));
            }
        } else if 0 < wire[at] < 64 && expanded + wire[at] + 1 <= 255 {
            names_have_no_count_error(
                wire,
                at + 1 + wire[at],
                expanded + wire[at] + 1,
                visited,
            );
        }
    }
}

proof fn questions_have_no_count_error(wire: Seq<u8>, at: int, count: nat)
    ensures
        parser::questions_at(wire, at, count) matches Err(error) ==> no_count_error(error),
    decreases count,
{
    if count > 0 {
        questions_have_no_count_error(wire, at, (count - 1) as nat);
        match parser::questions_at(wire, at, (count - 1) as nat) {
            Ok((_, end)) => {
                names_have_no_count_error(wire, end, 1, Seq::empty());
            },
            Err(_) => {},
        }
    }
}

proof fn strings_have_no_count_error(wire: Seq<u8>, at: int, end: int)
    ensures
        parser::skip_strings(wire, at, end) matches Err(error) ==> no_count_error(error),
    decreases
            if at < end {
                end - at
            } else {
                0
            },
{
    if at < end {
        strings_have_no_count_error(wire, at + 1 + wire[at], end);
    }
}

proof fn record_has_no_count_error(wire: Seq<u8>, section: RecordSection, scan: ScanView)
    requires
        scan.error is None,
    ensures
        parser::scan_record(wire, section, scan).error matches Some(error) ==> no_count_error(error),
{
    names_have_no_count_error(wire, scan.cursor, 1, Seq::empty());
    match parser::record_at(wire, scan.cursor) {
        Ok(record) => {
            let from = record.start;
            names_have_no_count_error(wire, from, 1, Seq::empty());
            names_have_no_count_error(wire, from + 2, 1, Seq::empty());
            names_have_no_count_error(wire, from + 6, 1, Seq::empty());
            names_have_no_count_error(wire, name_end(wire, from), 1, Seq::empty());
            strings_have_no_count_error(wire, from, from + record.length);
        },
        Err(_) => {},
    }
}

proof fn records_have_no_count_error(
    wire: Seq<u8>,
    section: RecordSection,
    count: nat,
    scan: ScanView,
)
    requires
        scan.error matches Some(error) ==> no_count_error(error),
    ensures
        parser::scan_section(wire, section, count, scan).error matches Some(error)
            ==> no_count_error(error),
    decreases count,
{
    if count > 0 && scan.error is None {
        record_has_no_count_error(wire, section, scan);
        records_have_no_count_error(
            wire,
            section,
            (count - 1) as nat,
            parser::scan_record(wire, section, scan),
        );
    }
}

/// Of the EDNS options of a message the first COOKIE (code 10) counts. It is usable
/// where it has 8 bytes or 16 to 40, and malformed with any other length.
pub proof fn the_first_cookie_option_counts(
    wire: Seq<u8>,
    cuts: Seq<int>,
    from: int,
    to: int,
    n: int,
)
    requires
        options_cut(wire, cuts, from, to),
        2 <= from,
        to <= wire.len() <= 65535,
        0 <= n < cuts.len(),
        forall|i: int| 0 <= i < n ==> field(wire, #[trigger] cuts[i]) != 10,
        n == cuts.len() - 1 || field(wire, cuts[n]) == 10,
    ensures
        cookie::cookie_in(wire, from, from, to) == (if n == cuts.len() - 1 {
            None
        } else {
            let length = cuts[n + 1] - cuts[n] - 4;
            if length == 8 || 16 <= length <= 40 {
                Some(
                    CookieField::Present(
                        CookieSlot {
                            length_at: (cuts[n] + 2) as usize,
                            data_at: (cuts[n] + 4) as usize,
                            data_len: length as usize,
                            rdlength_at: (from - 2) as usize,
                        },
                    ),
                )
            } else {
                Some(CookieField::Malformed)
            }
        }),
{
    cookie_from_cut(wire, cuts, from, to, n, 0);
}

proof fn cookie_from_cut(wire: Seq<u8>, cuts: Seq<int>, from: int, to: int, n: int, k: int)
    requires
        options_cut(wire, cuts, from, to),
        2 <= from,
        to <= wire.len() <= 65535,
        0 <= k <= n < cuts.len(),
        forall|i: int| 0 <= i < n ==> field(wire, #[trigger] cuts[i]) != 10,
        n == cuts.len() - 1 || field(wire, cuts[n]) == 10,
    ensures
        cookie::cookie_in(wire, from, cuts[k], to) == (if n == cuts.len() - 1 {
            None
        } else {
            let length = cuts[n + 1] - cuts[n] - 4;
            if length == 8 || 16 <= length <= 40 {
                Some(
                    CookieField::Present(
                        CookieSlot {
                            length_at: (cuts[n] + 2) as usize,
                            data_at: (cuts[n] + 4) as usize,
                            data_len: length as usize,
                            rdlength_at: (from - 2) as usize,
                        },
                    ),
                )
            } else {
                Some(CookieField::Malformed)
            }
        }),
    decreases n - k,
{
    option_cuts_grow(wire, cuts, 0, k, from, to);
    if k < cuts.len() - 1 {
        assert(cuts[k + 1] == cuts[k] + 4 + field(wire, cuts[k] + 2));
        option_cuts_grow(wire, cuts, k + 1, cuts.len() - 1, from, to);
        assert(bytes::word_at(wire, cuts[k]) == field(wire, cuts[k]));
        assert(bytes::word_at(wire, cuts[k] + 2) == field(wire, cuts[k] + 2));
        if k < n {
            cookie_from_cut(wire, cuts, from, to, n, k + 1);
        }
    }
}

/// An OPT whose options are broken is known, though it is refused.
pub proof fn broken_opt_is_known(wire: Seq<u8>, at: int, scan: ScanView)
    requires
        scan.error is None,
        scan.edns is None,
        scan.cursor == at,
        name::name_at(wire, at) matches Ok((owner, _)) && owner.len() == 0,
        name_end(wire, at) + 10 <= wire.len(),
        kind_at(wire, at) == 41,
        ({
            let end = name_end(wire, at);
            let to = end + 10 + field(wire, end + 8);
            to > wire.len() || !options_lie(wire, end + 10, to)
        }),
    ensures
        ({
            let next = parser::scan_record(wire, RecordSection::Additional, scan);
            let end = name_end(wire, at);
            &&& next.error == Some(ParseError::InvalidEdns)
            &&& next.edns matches Some(opt) && {
                &&& opt.udp_size == field(wire, end + 2)
                &&& opt.extended_rcode == wire[end + 4]
                &&& opt.version == wire[end + 5]
                &&& opt.dnssec_ok == (wire[end + 6] >= 128)
            }
        }),
{
    envelope(wire, at);
    let record = parser::record_at(wire, at)->Ok_0;
    let end = name_end(wire, at);
    let to = end + 10 + field(wire, end + 8);
    edns_bytes(wire, end + 4, field(wire, end + 2) as u16, record.ttl);
    if to <= wire.len() && parser::options_framed(wire.subrange(end + 10, to), 0) {
        let cuts = framed_options(wire, end + 10, end + 10, to);
        assert(options_cut(wire, cuts, end + 10, to));
    }
}

} // verus!
