//! Minimal local replies using validated metadata and freshly encoded questions.
//!
//! Forwarded answers retain their original bytes. Only errors and TC replies
//! are built here, with no copied resource records or compression pointers.
use crate::bytes::{self, push_double_word, push_slice, push_word};
use crate::dns::cookie::{self, response_cookie, COOKIE_OPTION};
use crate::dns::message::{
    Edns, Header, Message, Packet, Query, Question, QuestionView, Response, SectionCounts, CD_MASK,
    DO_MASK, OPCODE_MASK, QR_MASK, RA_MASK, RCODE_MASK, RD_MASK, TC_MASK,
};
use crate::dns::types::{HeaderResponseCode, RecordType, ResponseCode};
use crate::dns::SERVER_UDP_LENGTH;
use vstd::prelude::*;
use vstd::slice::slice_to_vec;

verus! {

/// What a refused request still allows to say in a reply.
pub struct ContextView {
    pub header: Header,
    pub question: Option<QuestionView>,
    pub edns: Option<Edns>,
}

/// Only the DNS parser fills in partial context, from checked fields.
#[derive(Debug)]
pub struct ReplyContext {
    pub header: Header,
    pub question: Option<Question>,
    pub edns: Option<Edns>,
}

/// The question that may be held.
pub open spec fn question_view(question: Option<Question>) -> Option<QuestionView> {
    match question {
        Some(question) => Some(question@),
        None => None,
    }
}

impl View for ReplyContext {
    type V = ContextView;

    open spec fn view(&self) -> ContextView {
        ContextView {
            header: self.header,
            question: question_view(self.question),
            edns: self.edns,
        }
    }
}

/// The context that may be held.
pub open spec fn context_view(context: Option<ReplyContext>) -> Option<ContextView> {
    match context {
        Some(context) => Some(context@),
        None => None,
    }
}

/// OPT presence on a locally generated reply, including the client's DO bit.
///
/// Absence of OPT and an OPT with DO clear are different messages.
pub enum OptView {
    Absent,
    Present { dnssec_ok: bool, cookie: Option<Seq<u8>> },
}

/// OPT presence on a locally generated reply, including the client's DO bit.
#[derive(Debug)]
pub enum GeneratedOpt {
    Absent,
    Present { dnssec_ok: bool, cookie: Option<Vec<u8>> },
}

impl View for GeneratedOpt {
    type V = OptView;

    open spec fn view(&self) -> OptView {
        match self {
            GeneratedOpt::Absent => OptView::Absent,
            GeneratedOpt::Present { dnssec_ok, cookie } => OptView::Present {
                dnssec_ok: *dnssec_ok,
                cookie: match cookie {
                    Some(octets) => Some(octets@),
                    None => None,
                },
            },
        }
    }
}

/// OPT goes into a reply exactly where the request had it, with its DO bit.
pub open spec fn opt_for(edns: Option<Edns>) -> OptView {
    match edns {
        Some(opt) => OptView::Present { dnssec_ok: opt.dnssec_ok, cookie: None },
        None => OptView::Absent,
    }
}

pub fn generated_opt(edns: Option<Edns>) -> (r: GeneratedOpt)
    ensures
        r@ == opt_for(edns),
{
    match edns {
        Some(opt) => GeneratedOpt::Present { dnssec_ok: opt.dnssec_ok, cookie: None },
        None => GeneratedOpt::Absent,
    }
}

/// Flags of a local reply: QR and RA set, opcode, RD and CD echoed, the low bits
/// of the code, TC as asked; no authoritative or authenticated claim.
pub open spec fn reply_flags(flags: u16, code: ResponseCode, truncated: bool) -> u16 {
    let tc: int = if truncated {
        0x200
    } else {
        0
    };
    (0x8000 + flags / 0x800 % 16 * 0x800 + tc + flags / 0x100 % 2 * 0x100 + 0x80 + flags / 0x10 % 2
        * 0x10 + code.code() % 16) as u16
}

/// The OPT record of a local reply, of EDNS version zero.
///
/// The extended RCODE is one octet. Wider values cannot be represented.
pub open spec fn opt_form(code: ResponseCode, dnssec_ok: bool, cookie: Option<Seq<u8>>) -> Seq<u8> {
    let extended = code.code() / 16 % 256;
    let flag: int = if dnssec_ok {
        0x8000
    } else {
        0
    };
    let data = match cookie {
        Some(octets) => bytes::word_bytes(COOKIE_OPTION) + bytes::word_bytes(octets.len() as u16)
            + octets,
        None => Seq::empty(),
    };
    seq![0u8] + bytes::word_bytes(41) + bytes::word_bytes(1232) + bytes::double_word_bytes(
        (extended * 16777216 + flag) as u32,
    ) + bytes::word_bytes(data.len() as u16) + data
}

/// The header of a local reply.
pub open spec fn reply_header(
    header: Header,
    question: Option<QuestionView>,
    code: ResponseCode,
    truncated: bool,
    opt: OptView,
) -> Header {
    Header {
        id: header.id,
        flags: reply_flags(header.flags, code, truncated),
        counts: SectionCounts {
            questions: if question is Some {
                1
            } else {
                0
            },
            answers: 0,
            authorities: 0,
            additionals: if opt is Present {
                1
            } else {
                0
            },
        },
    }
}

/// A local reply: a header, at most one question, at most an OPT record.
pub open spec fn reply_form(
    header: Header,
    question: Option<QuestionView>,
    code: ResponseCode,
    truncated: bool,
    opt: OptView,
) -> Seq<u8> {
    reply_header(header, question, code, truncated, opt).form() + (match question {
        Some(asked) => asked.form(),
        None => Seq::empty(),
    }) + (match opt {
        OptView::Present { dnssec_ok, cookie } => opt_form(code, dnssec_ok, cookie),
        OptView::Absent => Seq::empty(),
    })
}

/// The reply to a broken query: the header alone, unless its OPT was read.
pub open spec fn format_error(context: ContextView) -> Seq<u8> {
    if context.edns is None {
        reply_form(context.header, None, ResponseCode::FormatError, false, OptView::Absent)
    } else {
        reply_form(
            context.header,
            context.question,
            ResponseCode::FormatError,
            false,
            opt_for(context.edns),
        )
    }
}

/// The first question of a message.
pub open spec fn first_question(message: Message) -> Option<QuestionView> {
    if message.questions.len() > 0 {
        Some(message.questions[0])
    } else {
        None
    }
}

/// The error reply to a parsed message.
pub open spec fn error_form(message: Message, code: ResponseCode) -> Seq<u8> {
    reply_form(message.header, first_question(message), code, false, opt_for(message.edns))
}

/// The truncated reply that stands for `response`, with its code and cookie.
pub open spec fn truncated_form(message: Message, response: Message) -> Seq<u8> {
    let opt = match message.edns {
        Some(opt) => OptView::Present {
            dnssec_ok: opt.dnssec_ok,
            cookie: cookie::cookie_data(response),
        },
        None => OptView::Absent,
    };
    reply_form(message.header, first_question(message), response.code(), true, opt)
}

/// Whether a message carries a server cookie, which no local reply can prove.
pub open spec fn has_server_cookie(message: Message) -> bool {
    cookie::cookie_data(message) matches Some(data) && data.len() > 8
}

impl ReplyContext {
    pub fn format_reply(&self) -> (r: Vec<u8>)
        ensures
            r@ == format_error(self@),
    {
        if self.edns.is_none() {
            return self.header.error_reply(HeaderResponseCode::FORMAT_ERROR);
        }
        make_reply(
            self.header,
            self.question.as_ref(),
            ResponseCode::FormatError,
            false,
            generated_opt(self.edns),
        )
    }
}

impl Header {
    /// Builds a header-only error when the rest of the request cannot be trusted.
    ///
    /// `HeaderResponseCode` keeps the RCODE inside the four header bits. An
    /// extended code needs an OPT record, which this reply cannot carry.
    pub fn error_reply(self, code: HeaderResponseCode) -> (r: Vec<u8>)
        ensures
            r@ == reply_form(self, None, code.response(), false, OptView::Absent),
    {
        make_reply(self, None, code.as_response(), false, GeneratedOpt::Absent)
    }
}

impl Packet {
    /// No local signing secret exists. A client supplying a Server Cookie may
    /// discard a cookie-less reply; never echo that unverified cookie as proof.
    pub fn local_error_reply(&self, code: ResponseCode) -> (r: Option<Vec<u8>>)
        ensures
            match r {
                Some(wire) => !has_server_cookie(self@) && wire@ == error_form(self@, code),
                None => has_server_cookie(self@),
            },
    {
        if let Some(data) = response_cookie(self) {
            if data.len() > 8 {
                return None;
            }
        }
        Some(self.error_reply(code))
    }

    /// Builds an error preserving a parsed question and valid OPT presence/DO bit.
    ///
    /// The generated OPT uses EDNS version zero, including when answering BADVERS.
    pub fn error_reply(&self, code: ResponseCode) -> (r: Vec<u8>)
        ensures
            r@ == error_form(self@, code),
    {
        let questions = self.questions();
        let first = if questions.len() > 0 {
            assert(self@.questions[0] == questions@[0]@);
            Some(&questions[0])
        } else {
            None
        };
        make_reply(self.header(), first, code, false, generated_opt(self.edns()))
    }

    /// A complete minimal response with TC, never a byte slice cutting an RR in half.
    pub fn truncated_reply(&self, response: &Response) -> (r: Vec<u8>)
        ensures
            r@ == truncated_form(self@, response@),
    {
        let opt = match self.edns() {
            Some(opt) => GeneratedOpt::Present {
                dnssec_ok: opt.dnssec_ok,
                cookie: match response_cookie(response.packet()) {
                    Some(data) => Some(slice_to_vec(data)),
                    None => None,
                },
            },
            None => GeneratedOpt::Absent,
        };
        let questions = self.questions();
        let first = if questions.len() > 0 {
            assert(self@.questions[0] == questions@[0]@);
            Some(&questions[0])
        } else {
            None
        };
        make_reply(self.header(), first, response.response_code(), true, opt)
    }
}

impl<'a> Query<'a> {
    pub fn error_reply(&self, code: ResponseCode) -> (r: Option<Vec<u8>>)
        ensures
            match r {
                Some(wire) => !has_server_cookie(self@) && wire@ == error_form(self@, code),
                None => has_server_cookie(self@),
            },
    {
        self.packet().local_error_reply(code)
    }

    pub fn truncated_reply(&self, response: &Response) -> (r: Vec<u8>)
        ensures
            r@ == truncated_form(self@, response@),
    {
        self.packet().truncated_reply(response)
    }
}

/// The question behind a reference that may be there.
pub open spec fn asked(question: Option<&Question>) -> Option<QuestionView> {
    match question {
        Some(question) => Some(question@),
        None => None,
    }
}

/// Flags of a local reply.
///
/// Opcode, RD and CD are echoed, but authoritative and authenticated claims are
/// cleared: locally synthesized replies contain no such answer.
fn echoed_flags(before: u16, code: ResponseCode, truncated: bool) -> (r: u16)
    ensures
        r == reply_flags(before, code, truncated),
{
    let wire_code: u16 = code.wire();
    let tc: u16 = if truncated {
        TC_MASK
    } else {
        0
    };
    assert(tc == 0 || tc == 0x200 ==> (before & (OPCODE_MASK | RD_MASK | CD_MASK)) | QR_MASK
        | RA_MASK | (wire_code & RCODE_MASK) | tc == 0x8000 + before / 0x800 % 16 * 0x800 + tc
        + before / 0x100 % 2 * 0x100 + 0x80 + before / 0x10 % 2 * 0x10 + wire_code % 16)
        by (bit_vector);
    (before & (OPCODE_MASK | RD_MASK | CD_MASK)) | QR_MASK | RA_MASK | (wire_code & RCODE_MASK)
        | tc
}

/// Appends the OPT record of a local reply.
fn push_opt(wire: &mut Vec<u8>, code: ResponseCode, dnssec_ok: bool, cookie: &Option<Vec<u8>>)
    requires
        cookie is Some ==> cookie->0@.len() + 4 <= usize::MAX,
    ensures
        final(wire)@ == old(wire)@ + opt_form(
            code,
            dnssec_ok,
            match cookie {
                Some(octets) => Some(octets@),
                None => None,
            },
        ),
{
    let ghost held = wire@;
    wire.push(0);  // OPT owner is the root name.
    push_word(wire, RecordType::Opt.wire());
    push_word(wire, SERVER_UDP_LENGTH as u16);
    let extended: u32 = (code.wire() / 16 % 256) as u32;
    let flag: u32 = if dnssec_ok {
        DO_MASK
    } else {
        0
    };
    push_double_word(wire, extended * 16777216 + flag);
    match cookie {
        Some(octets) => {
            push_word(wire, (4 + octets.len()) as u16);
            push_word(wire, COOKIE_OPTION);
            push_word(wire, octets.len() as u16);
            push_slice(wire, octets.as_slice());
            assert(wire@ =~= held + opt_form(code, dnssec_ok, Some(octets@)));
        },
        None => {
            push_word(wire, 0);
            assert(wire@ =~= held + opt_form(code, dnssec_ok, None));
        },
    }
}

/// Encodes a local response. `edns` carries OPT presence and the client's DO bit.
pub fn make_reply(
    header: Header,
    question: Option<&Question>,
    code: ResponseCode,
    truncated: bool,
    edns: GeneratedOpt,
) -> (r: Vec<u8>)
    requires
        edns@ matches OptView::Present { cookie: Some(octets), .. } ==> octets.len() + 4
            <= usize::MAX,
    ensures
        r@ == reply_form(header, asked(question), code, truncated, edns@),
{
    let present = match &edns {
        GeneratedOpt::Present { .. } => true,
        GeneratedOpt::Absent => false,
    };
    let counts = SectionCounts {
        questions: if question.is_some() {
            1
        } else {
            0
        },
        answers: 0,
        authorities: 0,
        additionals: if present {
            1
        } else {
            0
        },
    };
    let reply = Header {
        id: header.id,
        flags: echoed_flags(header.flags, code, truncated),
        counts,
    };
    let ghost form = reply.form();
    let mut wire: Vec<u8> = Vec::new();
    reply.encode(&mut wire);
    assert(wire@ =~= form);
    if let Some(question) = question {
        question.encode(&mut wire);
    } else {
        assert(wire@ =~= form + Seq::<u8>::empty());
    }
    let ghost held = wire@;
    match &edns {
        GeneratedOpt::Present { dnssec_ok, cookie } => {
            push_opt(&mut wire, code, *dnssec_ok, cookie);
        },
        GeneratedOpt::Absent => {
            assert(wire@ =~= held + Seq::<u8>::empty());
        },
    }
    wire
}

} // verus!
