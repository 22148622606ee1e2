//! Correlated resolver exchanges with bounded failover and TCP connection reuse.
//!
//! The caller chooses the eligible upstream group, performs the exchanges and
//! supplies clock readings. What is decided here: which server of the group is
//! tried next and how, which replies are accepted, and what becomes of the query.
//! A validated response keeps the upstream ID; the request handler restores the
//! client ID and applies size limits.
use crate::address::SocketAddress;
use crate::bytes;
use crate::dns::cookie::{self, RetryView, ServerCookieRetry};
use crate::dns::error::ParseError;
use crate::dns::message::{Message, Packet, Query, Response, SentQuery, SentView};
use crate::dns::parser;
use crate::dns::types::{ResponseCode, TransactionId};
use crate::routing::{UpstreamAddress, UpstreamGroup};
use crate::transport::{Deadline, IoErrorKind, IoFailure, Lapse, Transport};
use vstd::prelude::*;
use vstd::slice::slice_to_vec;

verus! {

/// How long one server is tried, over both transports and with all retries.
pub const ATTEMPT_TIMEOUT: u64 = 2_000_000_000;

/// How long a query is worked on: enough for one attempt at each server of the
/// largest group.
pub const REQUEST_BUDGET: u64 = 16_000_000_000;

pub const MAX_INVALID_RESPONSES: usize = 64;

pub const TCP_REUSE_IDLE: u64 = 2_000_000_000;

/// Exchange failures used for failover decisions and metadata-only diagnostics.
pub enum ForwardFault {
    Timeout,
    Cancelled,
    Io(Seq<char>),
    Parse(ParseError),
    InvalidResponse,
    ServerFailure,
    Refused,
}

impl ForwardFault {
    pub open spec fn text(self) -> Seq<char> {
        match self {
            ForwardFault::Timeout => "exchange timed out"@,
            ForwardFault::Cancelled => "shutdown requested"@,
            ForwardFault::Io(text) => text,
            ForwardFault::Parse(error) => error.text(),
            ForwardFault::InvalidResponse => "invalid or uncorrelated response"@,
            ForwardFault::ServerFailure => "upstream returned SERVFAIL"@,
            ForwardFault::Refused => "upstream returned REFUSED"@,
        }
    }

    /// The failure that a lapsed budget means.
    pub open spec fn of_lapse(lapse: Lapse) -> ForwardFault {
        match lapse {
            Lapse::Cancelled => ForwardFault::Cancelled,
            Lapse::Expired => ForwardFault::Timeout,
        }
    }

    /// The failure that a failed I/O operation means.
    ///
    /// Only a marked interruption is a cancellation; a call that the system
    /// interrupted is an ordinary failure.
    pub open spec fn of_io(failure: IoFailure) -> ForwardFault {
        if failure.cancelled {
            ForwardFault::Cancelled
        } else if failure.kind == IoErrorKind::TimedOut || failure.kind == IoErrorKind::WouldBlock {
            ForwardFault::Timeout
        } else {
            ForwardFault::Io(failure.message@)
        }
    }

    /// The failure that a soft response code means.
    pub open spec fn of_code(code: ResponseCode) -> ForwardFault {
        if code == ResponseCode::Refused {
            ForwardFault::Refused
        } else {
            ForwardFault::ServerFailure
        }
    }
}

/// Exchange failures used for failover decisions and metadata-only diagnostics.
#[derive(Debug)]
pub enum ForwardError {
    Timeout,
    Cancelled,
    Io(String),
    Parse(ParseError),
    InvalidResponse,
    ServerFailure,
    Refused,
}

impl View for ForwardError {
    type V = ForwardFault;

    open spec fn view(&self) -> ForwardFault {
        match self {
            ForwardError::Timeout => ForwardFault::Timeout,
            ForwardError::Cancelled => ForwardFault::Cancelled,
            ForwardError::Io(text) => ForwardFault::Io(text@),
            ForwardError::Parse(error) => ForwardFault::Parse(*error),
            ForwardError::InvalidResponse => ForwardFault::InvalidResponse,
            ForwardError::ServerFailure => ForwardFault::ServerFailure,
            ForwardError::Refused => ForwardFault::Refused,
        }
    }
}

impl From<IoFailure> for ForwardError {
    fn from(failure: IoFailure) -> (r: ForwardError) {
        if failure.cancelled {
            ForwardError::Cancelled
        } else if failure.kind == IoErrorKind::TimedOut || failure.kind == IoErrorKind::WouldBlock {
            ForwardError::Timeout
        } else {
            ForwardError::Io(failure.message)
        }
    }
}

impl vstd::std_specs::convert::FromSpecImpl<IoFailure> for ForwardError {
    open spec fn obeys_from_spec() -> bool {
        true
    }

    open spec fn from_spec(failure: IoFailure) -> ForwardError {
        if failure.cancelled {
            ForwardError::Cancelled
        } else if failure.kind == IoErrorKind::TimedOut || failure.kind == IoErrorKind::WouldBlock {
            ForwardError::Timeout
        } else {
            ForwardError::Io(failure.message)
        }
    }
}

impl ForwardError {
    pub fn message(&self) -> (r: String)
        ensures
            r@ == self@.text(),
    {
        match self {
            ForwardError::Timeout => String::from_str("exchange timed out"),
            ForwardError::Cancelled => String::from_str("shutdown requested"),
            ForwardError::Io(text) => text.clone(),
            ForwardError::Parse(error) => String::from_str(error.message()),
            ForwardError::InvalidResponse => String::from_str("invalid or uncorrelated response"),
            ForwardError::ServerFailure => String::from_str("upstream returned SERVFAIL"),
            ForwardError::Refused => String::from_str("upstream returned REFUSED"),
        }
    }

    pub fn from_rcode(code: ResponseCode) -> (r: ForwardError)
        ensures
            r@ == ForwardFault::of_code(code),
    {
        match code {
            ResponseCode::Refused => ForwardError::Refused,
            _ => ForwardError::ServerFailure,
        }
    }

    /// The failure that a failed I/O operation means.
    pub fn from_io(failure: IoFailure) -> (r: ForwardError)
        ensures
            r@ == ForwardFault::of_io(failure),
    {
        ForwardError::from(failure)
    }
}

/// Whether a code describes the server rather than the name.
pub open spec fn soft(code: ResponseCode) -> bool {
    code == ResponseCode::ServerFailure || code == ResponseCode::Refused
}

/// NOERROR and NXDOMAIN describe the name and stop the walk. SERVFAIL and
/// REFUSED describe this server and are tried against the next one.
pub fn retries_in_group(code: ResponseCode) -> (r: bool)
    ensures
        r == soft(code),
{
    match code {
        ResponseCode::ServerFailure => true,
        ResponseCode::Refused => true,
        _ => false,
    }
}

/// The part that an exchange plays at one server.
///
/// After a BADCOOKIE comes a retry with the new server cookie, and after another
/// one over UDP comes a last retry over TCP.
#[derive(Debug, Clone, Copy, PartialEq, Eq, Structural)]
pub enum Stage {
    First,
    Cookie,
    Last,
}

/// A query on its way through a group.
pub struct WalkView {
    pub query: Message,
    pub servers: Seq<SocketAddress>,
    pub transport: Transport,
    pub deadline: Deadline,
    /// The server that is being tried.
    pub place: int,
    pub last: ForwardFault,
    pub relayed: Option<Message>,
}

/// Which bytes go out once a transaction ID has been drawn.
pub enum PlanView {
    Fresh,
    Again { wire: Seq<u8>, over: Transport, stage: Stage },
}

/// What is needed next.
pub enum StepView {
    /// A fresh transaction ID.
    Draw { walk: WalkView, attempt: Deadline, plan: PlanView },
    /// An exchange with the server that is being tried.
    Exchange {
        walk: WalkView,
        attempt: Deadline,
        sent: SentView,
        over: Transport,
        stage: Stage,
    },
    Done(Result<Message, ForwardFault>),
}

/// What is needed next, and a diagnostic about the server that failed.
pub struct TurnView {
    pub step: StepView,
    pub warning: Option<(SocketAddress, Seq<char>)>,
}

impl TurnView {
    pub open spec fn quiet(step: StepView) -> TurnView {
        TurnView { step, warning: None }
    }
}

impl WalkView {
    /// Turns to the server at the current place, or ends the walk behind the last.
    ///
    /// The latest validated DNS failure is relayed; without one the last failure
    /// counts.
    pub open spec fn start(self, now: u64, stop: bool) -> StepView {
        if self.place >= self.servers.len() {
            match (self.deadline.lapse(now, stop), self.relayed) {
                (Some(lapse), _) => StepView::Done(Err(ForwardFault::of_lapse(lapse))),
                (None, Some(response)) => StepView::Done(Ok(response)),
                (None, None) => StepView::Done(Err(self.last)),
            }
        } else {
            let attempt = self.deadline.within(now, ATTEMPT_TIMEOUT);
            match attempt.lapse(now, stop) {
                Some(lapse) => StepView::Done(Err(ForwardFault::of_lapse(lapse))),
                None => StepView::Draw { walk: self, attempt, plan: PlanView::Fresh },
            }
        }
    }

    /// Gives the current server up; a cancellation gives the query up.
    pub open spec fn failed(self, fault: ForwardFault, now: u64, stop: bool) -> TurnView {
        if fault is Cancelled {
            TurnView::quiet(StepView::Done(Err(fault)))
        } else {
            TurnView {
                step: WalkView { last: fault, place: self.place + 1, ..self }.start(now, stop),
                warning: Some((self.servers[self.place], fault.text())),
            }
        }
    }

    /// Takes a response of the current server that no cookie retry follows.
    ///
    /// SERVFAIL and REFUSED advance; a BADCOOKIE here already finished the cookie
    /// retry and is final like every other code.
    pub open spec fn settled(self, response: Message, now: u64, stop: bool) -> TurnView {
        match self.deadline.lapse(now, stop) {
            Some(lapse) => TurnView::quiet(StepView::Done(Err(ForwardFault::of_lapse(lapse)))),
            None => if !soft(response.code()) {
                TurnView::quiet(StepView::Done(Ok(response)))
            } else {
                WalkView { relayed: Some(response), ..self }.failed(
                    ForwardFault::of_code(response.code()),
                    now,
                    stop,
                )
            },
        }
    }

    /// Tries the current server again within the same attempt.
    pub open spec fn again(
        self,
        attempt: Deadline,
        wire: Seq<u8>,
        over: Transport,
        stage: Stage,
        now: u64,
        stop: bool,
    ) -> TurnView {
        match attempt.lapse(now, stop) {
            Some(lapse) => self.failed(ForwardFault::of_lapse(lapse), now, stop),
            None => TurnView::quiet(
                StepView::Draw { walk: self, attempt, plan: PlanView::Again { wire, over, stage } },
            ),
        }
    }

    /// An ID was drawn, or could not be: then the query is given up.
    pub open spec fn drawn(
        self,
        attempt: Deadline,
        plan: PlanView,
        id: Result<TransactionId, ForwardFault>,
        now: u64,
        stop: bool,
    ) -> TurnView {
        match id {
            Err(fault) => TurnView::quiet(StepView::Done(Err(fault))),
            Ok(id) => match plan {
                PlanView::Fresh => TurnView::quiet(
                    StepView::Exchange {
                        walk: self,
                        attempt,
                        sent: SentView { message: self.query.renamed(id), cookie_required: false },
                        over: self.transport,
                        stage: Stage::First,
                    },
                ),
                PlanView::Again { wire, over, stage } => match parser::parsed(
                    bytes::with_word(wire, 0, id.0),
                ) {
                    Ok(message) => TurnView::quiet(
                        StepView::Exchange {
                            walk: self,
                            attempt,
                            sent: SentView { message, cookie_required: true },
                            over,
                            stage,
                        },
                    ),
                    Err(error) => self.failed(ForwardFault::Parse(error), now, stop),
                },
            },
        }
    }

    /// An exchange brought a response.
    pub open spec fn answered(
        self,
        attempt: Deadline,
        sent: SentView,
        stage: Stage,
        response: Message,
        now: u64,
        stop: bool,
    ) -> TurnView {
        let wire = sent.message.wire;
        let retry = cookie::retry_of(sent.message, wire, response);
        if response.code() != ResponseCode::BadCookie || stage == Stage::Last {
            self.settled(response, now, stop)
        } else if stage == Stage::First {
            match retry {
                RetryView::Absent => self.settled(response, now, stop),
                RetryView::Discard => self.failed(ForwardFault::InvalidResponse, now, stop),
                RetryView::Rewrite(fresh) => self.again(
                    attempt,
                    fresh,
                    self.transport,
                    Stage::Cookie,
                    now,
                    stop,
                ),
                _ => if self.transport == Transport::Tcp {
                    self.settled(response, now, stop)
                } else {
                    self.again(attempt, wire, Transport::Tcp, Stage::Last, now, stop)
                },
            }
        } else if self.transport == Transport::Tcp {
            self.settled(response, now, stop)
        } else {
            match retry {
                RetryView::Rewrite(fresh) => self.again(
                    attempt,
                    fresh,
                    Transport::Tcp,
                    Stage::Last,
                    now,
                    stop,
                ),
                RetryView::Absent => self.failed(ForwardFault::InvalidResponse, now, stop),
                RetryView::Discard => self.failed(ForwardFault::InvalidResponse, now, stop),
                _ => self.again(attempt, wire, Transport::Tcp, Stage::Last, now, stop),
            }
        }
    }

    /// An exchange ended.
    pub open spec fn replied(
        self,
        attempt: Deadline,
        sent: SentView,
        stage: Stage,
        reply: Result<Message, ForwardFault>,
        now: u64,
        stop: bool,
    ) -> TurnView {
        match reply {
            Ok(response) => self.answered(attempt, sent, stage, response, now, stop),
            Err(fault) => self.failed(fault, now, stop),
        }
    }
}

/// A message behind a response, or the failure in its place.
pub open spec fn reply_view(reply: Result<Response, ForwardError>) -> Result<
    Message,
    ForwardFault,
> {
    match reply {
        Ok(response) => Ok(response@),
        Err(error) => Err(error@),
    }
}

/// A drawn ID, or the failure in its place.
pub open spec fn id_view(id: Result<TransactionId, IoFailure>) -> Result<
    TransactionId,
    ForwardFault,
> {
    match id {
        Ok(id) => Ok(id),
        Err(failure) => Err(ForwardFault::of_io(failure)),
    }
}

/// The progress of one query through its group.
#[derive(Debug)]
struct Walk<'a> {
    query: &'a Query<'a>,
    group: &'a UpstreamGroup,
    transport: Transport,
    deadline: Deadline,
    place: usize,
    last: ForwardError,
    relayed: Option<Response>,
}

impl<'a> View for Walk<'a> {
    type V = WalkView;

    closed spec fn view(&self) -> WalkView {
        WalkView {
            query: self.query@,
            servers: self.group@,
            transport: self.transport,
            deadline: self.deadline,
            place: self.place as int,
            last: self.last@,
            relayed: match self.relayed {
                Some(response) => Some(response@),
                None => None,
            },
        }
    }
}

/// Which bytes go out once a transaction ID has been drawn.
#[derive(Debug)]
enum Plan {
    Fresh,
    Again { sent: SentQuery, wire: Vec<u8>, over: Transport, stage: Stage },
}

impl View for Plan {
    type V = PlanView;

    closed spec fn view(&self) -> PlanView {
        match self {
            Plan::Fresh => PlanView::Fresh,
            Plan::Again { sent, wire, over, stage } => PlanView::Again {
                wire: wire@,
                over: *over,
                stage: *stage,
            },
        }
    }
}

/// A walk that needs a fresh transaction ID.
#[derive(Debug)]
pub struct Draw<'a> {
    walk: Walk<'a>,
    attempt: Deadline,
    plan: Plan,
}

/// A walk that needs an exchange with the server it is trying.
///
/// One attempt keeps its deadline across UDP/TCP fallback and cookie retries.
#[derive(Debug)]
pub struct Exchange<'a> {
    walk: Walk<'a>,
    attempt: Deadline,
    sent: SentQuery,
    over: Transport,
    stage: Stage,
}

/// What is needed next.
#[derive(Debug)]
pub enum Step<'a> {
    Draw(Draw<'a>),
    Exchange(Exchange<'a>),
    Done(Result<Response, ForwardError>),
}

/// A diagnostic about a server that was given up.
#[derive(Debug)]
pub struct Warning {
    pub address: UpstreamAddress,
    pub text: String,
}

/// What is needed next, and a diagnostic about the server that failed.
#[derive(Debug)]
pub struct Turn<'a> {
    pub step: Step<'a>,
    pub warning: Option<Warning>,
}

impl<'a> View for Draw<'a> {
    type V = StepView;

    closed spec fn view(&self) -> StepView {
        StepView::Draw { walk: self.walk@, attempt: self.attempt, plan: self.plan@ }
    }
}

impl<'a> View for Exchange<'a> {
    type V = StepView;

    closed spec fn view(&self) -> StepView {
        StepView::Exchange {
            walk: self.walk@,
            attempt: self.attempt,
            sent: self.sent@,
            over: self.over,
            stage: self.stage,
        }
    }
}

impl<'a> View for Step<'a> {
    type V = StepView;

    open spec fn view(&self) -> StepView {
        match self {
            Step::Draw(draw) => draw@,
            Step::Exchange(exchange) => exchange@,
            Step::Done(reply) => StepView::Done(reply_view(*reply)),
        }
    }
}

impl<'a> View for Turn<'a> {
    type V = TurnView;

    open spec fn view(&self) -> TurnView {
        TurnView {
            step: self.step@,
            warning: match self.warning {
                Some(warning) => Some((warning.address@, warning.text@)),
                None => None,
            },
        }
    }
}

fn quiet<'a>(step: Step<'a>) -> (r: Turn<'a>)
    ensures
        r@ == TurnView::quiet(step@),
{
    Turn { step, warning: None }
}

/// The time left, or the failure that its end means.
fn check(deadline: Deadline, now: u64, stop: bool) -> (r: Result<(), ForwardError>)
    ensures
        match deadline.lapse(now, stop) {
            None => r is Ok,
            Some(lapse) => r is Err && r->Err_0@ == ForwardFault::of_lapse(lapse),
        },
{
    match deadline.remaining(now, stop) {
        Ok(_) => Ok(()),
        Err(failure) => Err(ForwardError::from_io(failure)),
    }
}

impl<'a> Walk<'a> {
    /// Turns to the server at the current place, or ends the walk behind the last.
    fn start(self, now: u64, stop: bool) -> (r: Step<'a>)
        ensures
            r@ == self@.start(now, stop),
    {
        let servers = self.group.servers();
        assert(servers@.len() == self@.servers.len());
        if self.place >= servers.len() {
            if let Err(error) = check(self.deadline, now, stop) {
                return Step::Done(Err(error));
            }
            return match self.relayed {
                Some(response) => Step::Done(Ok(response)),
                None => Step::Done(Err(self.last)),
            };
        }
        let attempt = self.deadline.capped(now, ATTEMPT_TIMEOUT);
        if let Err(error) = check(attempt, now, stop) {
            return Step::Done(Err(error));
        }
        Step::Draw(Draw { walk: self, attempt, plan: Plan::Fresh })
    }

    /// Gives the current server up; a cancellation gives the query up.
    fn failed(self, error: ForwardError, now: u64, stop: bool) -> (r: Turn<'a>)
        requires
            self@.place < self@.servers.len(),
        ensures
            r@ == self@.failed(error@, now, stop),
    {
        if let ForwardError::Cancelled = error {
            return quiet(Step::Done(Err(error)));
        }
        let servers = self.group.servers();
        assert(servers@.len() == self@.servers.len());
        assert(self@.servers[self.place as int] == servers@[self.place as int]@);
        let warning = Warning { address: servers[self.place], text: error.message() };
        let next = Walk {
            query: self.query,
            group: self.group,
            transport: self.transport,
            deadline: self.deadline,
            place: self.place + 1,
            last: error,
            relayed: self.relayed,
        };
        Turn { step: next.start(now, stop), warning: Some(warning) }
    }

    /// Takes a response of the current server that no cookie retry follows.
    fn settled(self, response: Response, now: u64, stop: bool) -> (r: Turn<'a>)
        requires
            self@.place < self@.servers.len(),
        ensures
            r@ == self@.settled(response@, now, stop),
    {
        if let Err(error) = check(self.deadline, now, stop) {
            return quiet(Step::Done(Err(error)));
        }
        let code = response.response_code();
        if code == ResponseCode::BadCookie || !retries_in_group(code) {
            return quiet(Step::Done(Ok(response)));
        }
        let kept = Walk {
            query: self.query,
            group: self.group,
            transport: self.transport,
            deadline: self.deadline,
            place: self.place,
            last: self.last,
            relayed: Some(response),
        };
        kept.failed(ForwardError::from_rcode(code), now, stop)
    }

    /// Tries the current server again within the same attempt.
    fn again(
        self,
        attempt: Deadline,
        sent: SentQuery,
        wire: Vec<u8>,
        over: Transport,
        stage: Stage,
        now: u64,
        stop: bool,
    ) -> (r: Turn<'a>)
        requires
            self@.place < self@.servers.len(),
            wire@.len() >= 2,
        ensures
            r@ == self@.again(attempt, wire@, over, stage, now, stop),
    {
        match check(attempt, now, stop) {
            Err(error) => self.failed(error, now, stop),
            Ok(()) => quiet(
                Step::Draw(Draw { walk: self, attempt, plan: Plan::Again { sent, wire, over, stage } }),
            ),
        }
    }
}

impl<'a> Draw<'a> {
    #[verifier::type_invariant]
    spec fn well_formed(self) -> bool {
        &&& self.walk@.place < self.walk@.servers.len()
        &&& self.plan@ matches PlanView::Again { wire, .. } ==> wire.len() >= 2
    }

    /// Goes on with a drawn ID. Without one the query is given up: no further
    /// server is tried.
    pub fn drawn(self, now: u64, stop: bool, id: Result<TransactionId, IoFailure>) -> (r: Turn<'a>)
        ensures
            self@ is Draw,
            r@ == self@->Draw_walk.drawn(
                self@->Draw_attempt,
                self@->plan,
                id_view(id),
                now,
                stop,
            ),
    {
        proof {
            use_type_invariant(&self);
        }
        let id = match id {
            Ok(id) => id,
            Err(failure) => {
                return quiet(Step::Done(Err(ForwardError::from_io(failure))));
            },
        };
        match self.plan {
            Plan::Fresh => {
                let sent = self.walk.query.sent(id);
                let over = self.walk.transport;
                quiet(
                    Step::Exchange(
                        Exchange {
                            walk: self.walk,
                            attempt: self.attempt,
                            sent,
                            over,
                            stage: Stage::First,
                        },
                    ),
                )
            },
            Plan::Again { sent, wire, over, stage } => match sent.retry(wire, id) {
                Ok(sent) => quiet(
                    Step::Exchange(
                        Exchange { walk: self.walk, attempt: self.attempt, sent, over, stage },
                    ),
                ),
                Err(error) => self.walk.failed(ForwardError::Parse(error), now, stop),
            },
        }
    }
}

impl<'a> Exchange<'a> {
    #[verifier::type_invariant]
    spec fn well_formed(self) -> bool {
        self.walk@.place < self.walk@.servers.len()
    }

    /// The server to exchange with.
    pub fn address(&self) -> (r: UpstreamAddress)
        ensures
            self@ is Exchange,
            0 <= self@->Exchange_walk.place < self@->Exchange_walk.servers.len(),
            r@ == self@->Exchange_walk.servers[self@->Exchange_walk.place],
    {
        proof {
            use_type_invariant(self);
        }
        let servers = self.walk.group.servers();
        assert(servers@.len() == self.walk@.servers.len());
        assert(self.walk@.servers[self.walk.place as int] == servers@[self.walk.place as int]@);
        servers[self.walk.place]
    }

    /// The transport to exchange over.
    pub fn over(&self) -> (r: Transport)
        ensures
            self@ is Exchange,
            r == self@->over,
    {
        self.over
    }

    /// The deadline of the attempt.
    pub fn deadline(&self) -> (r: Deadline)
        ensures
            self@ is Exchange,
            r == self@->Exchange_attempt,
    {
        self.attempt
    }

    /// The query to send.
    pub fn sent(&self) -> (r: &SentQuery)
        ensures
            self@ is Exchange,
            r@ == self@->sent,
    {
        &self.sent
    }

    /// Goes on with what an exchange brought.
    pub fn replied(self, now: u64, stop: bool, reply: Result<Response, ForwardError>) -> (r: Turn<
        'a,
    >)
        ensures
            self@ is Exchange,
            r@ == self@->Exchange_walk.replied(
                self@->Exchange_attempt,
                self@->sent,
                self@->Exchange_stage,
                reply_view(reply),
                now,
                stop,
            ),
    {
        proof {
            use_type_invariant(&self);
        }
        let response = match reply {
            Ok(response) => response,
            Err(error) => {
                return self.walk.failed(error, now, stop);
            },
        };
        if response.response_code() != ResponseCode::BadCookie || self.stage == Stage::Last {
            return self.walk.settled(response, now, stop);
        }
        let over_tcp = self.walk.transport == Transport::Tcp;
        if self.stage == Stage::Cookie && over_tcp {
            return self.walk.settled(response, now, stop);
        }
        match self.sent.server_cookie_retry(&response) {
            ServerCookieRetry::Absent => if self.stage == Stage::First {
                self.walk.settled(response, now, stop)
            } else {
                self.walk.failed(ForwardError::InvalidResponse, now, stop)
            },
            ServerCookieRetry::Discard => self.walk.failed(
                ForwardError::InvalidResponse,
                now,
                stop,
            ),
            ServerCookieRetry::Rewrite(wire) => {
                let (over, stage) = if self.stage == Stage::First {
                    (self.walk.transport, Stage::Cookie)
                } else {
                    (Transport::Tcp, Stage::Last)
                };
                self.walk.again(self.attempt, self.sent, wire, over, stage, now, stop)
            },
            _ => if over_tcp {
                self.walk.settled(response, now, stop)
            } else {
                let wire: Vec<u8> = slice_to_vec(self.sent.wire());
                self.walk.again(
                    self.attempt,
                    self.sent,
                    wire,
                    Transport::Tcp,
                    Stage::Last,
                    now,
                    stop,
                )
            },
        }
    }
}

/// Tries selected endpoints in order with fresh IDs and capped attempt budgets.
///
/// UDP truncation, a DNS Cookie retry, and one retry of a reused TCP stream share
/// the current endpoint's deadline. SERVFAIL, REFUSED and exchange errors permit
/// failover inside this group. BADCOOKIE retries the same server with its new
/// server cookie, then over TCP. NOERROR, NXDOMAIN and
/// every other correlated response are final.
///
/// The last failure counts when the group is exhausted. Cancellation or failure
/// to obtain a transaction ID aborts without trying further servers.
pub fn forward<'a>(
    query: &'a Query<'a>,
    upstreams: &'a UpstreamGroup,
    transport: Transport,
    request_deadline: Deadline,
    now: u64,
    stop: bool,
) -> (r: Step<'a>)
    ensures
        r@ == (WalkView {
            query: query@,
            servers: upstreams@,
            transport,
            deadline: request_deadline,
            place: 0,
            last: ForwardFault::Timeout,
            relayed: None,
        }).start(now, stop),
{
    let walk = Walk {
        query,
        group: upstreams,
        transport,
        deadline: request_deadline,
        place: 0,
        last: ForwardError::Timeout,
        relayed: None,
    };
    walk.start(now, stop)
}

/// What a datagram means to a waiting query.
pub enum DatagramView {
    /// A complete response.
    Answer(Message),
    /// The response did not fit: the same query goes over TCP.
    Truncated,
    /// Not a response to this query; the first of them deserves a diagnostic.
    Ignored { warn: bool },
    /// Too many datagrams that are no response.
    GiveUp,
}

/// Judges a datagram after `ignored` others were no response.
///
/// The complete header and question are checked before records: TC can
/// legitimately accompany a datagram cut in the middle of a record.
pub open spec fn datagram_of(sent: SentView, octets: Seq<u8>, ignored: int) -> DatagramView {
    if parser::truncation_of(sent.message, octets, sent.message.header.id) {
        DatagramView::Truncated
    } else {
        match parser::parsed(octets) {
            Ok(message) => if sent.accepts(message) {
                DatagramView::Answer(message)
            } else {
                DatagramView::ignored(ignored)
            },
            Err(_) => DatagramView::ignored(ignored),
        }
    }
}

impl DatagramView {
    pub open spec fn ignored(before: int) -> DatagramView {
        if before + 1 >= MAX_INVALID_RESPONSES {
            DatagramView::GiveUp
        } else {
            DatagramView::Ignored { warn: before == 0 }
        }
    }
}

/// What a datagram means to a waiting query.
#[derive(Debug)]
pub enum Datagram {
    Answer(Response),
    Truncated,
    Ignored { warn: bool },
    GiveUp,
}

impl View for Datagram {
    type V = DatagramView;

    open spec fn view(&self) -> DatagramView {
        match self {
            Datagram::Answer(response) => DatagramView::Answer(response@),
            Datagram::Truncated => DatagramView::Truncated,
            Datagram::Ignored { warn } => DatagramView::Ignored { warn: *warn },
            Datagram::GiveUp => DatagramView::GiveUp,
        }
    }
}

/// The response in a TCP frame, if the frame holds one to this query.
pub open spec fn framed_reply(sent: SentView, frame: Option<Seq<u8>>) -> Result<
    Message,
    ForwardFault,
> {
    match frame {
        None => Err(ForwardFault::InvalidResponse),
        Some(octets) => match parser::parsed(octets) {
            Err(error) => Err(ForwardFault::Parse(error)),
            Ok(message) => if sent.accepts(message) {
                Ok(message)
            } else {
                Err(ForwardFault::InvalidResponse)
            },
        },
    }
}

impl<'a> Exchange<'a> {
    /// Judges a datagram from the server, after `ignored` others were no response
    /// to this query.
    pub fn judge(&self, octets: &[u8], ignored: usize, now: u64, stop: bool) -> (r: Result<
        Datagram,
        ForwardError,
    >)
        ensures
            self@ is Exchange,
            match self@->Exchange_attempt.lapse(now, stop) {
                Some(lapse) => r is Err && r->Err_0@ == ForwardFault::of_lapse(lapse),
                None => r is Ok && r->Ok_0@ == datagram_of(self@->sent, octets@, ignored as int),
            },
    {
        check(self.attempt, now, stop)?;
        if self.sent.matches_truncated(octets) {
            return Ok(Datagram::Truncated);
        }
        if let Ok(packet) = Packet::parse(octets) {
            if let Some(response) = self.sent.validate_response(packet) {
                return Ok(Datagram::Answer(response));
            }
        }
        if ignored >= MAX_INVALID_RESPONSES - 1 {
            return Ok(Datagram::GiveUp);
        }
        Ok(Datagram::Ignored { warn: ignored == 0 })
    }

    /// Accepts exactly one complete, correlated TCP response.
    pub fn accept_frame(&self, frame: Option<&[u8]>, now: u64, stop: bool) -> (r: Result<
        Response,
        ForwardError,
    >)
        ensures
            self@ is Exchange,
            match (frame, self@->Exchange_attempt.lapse(now, stop)) {
                (Some(_), Some(lapse)) => r is Err && r->Err_0@ == ForwardFault::of_lapse(lapse),
                _ => reply_view(r) == framed_reply(
                    self@->sent,
                    match frame {
                        Some(octets) => Some(octets@),
                        None => None,
                    },
                ),
            },
    {
        let octets = match frame {
            None => {
                return Err(ForwardError::InvalidResponse);
            },
            Some(octets) => octets,
        };
        check(self.attempt, now, stop)?;
        match Packet::parse(octets) {
            Err(error) => Err(ForwardError::Parse(error)),
            Ok(packet) => match self.sent.validate_response(packet) {
                Some(response) => Ok(response),
                None => Err(ForwardError::InvalidResponse),
            },
        }
    }
}

/// What follows an exchange over a TCP stream.
#[derive(Debug)]
pub enum TcpNext {
    /// The peer may have closed an idle stream: connect once more.
    Reconnect,
    /// The stream may be used again.
    Keep(Response),
    /// The stream may be out of step and is dropped.
    Abandon(ForwardError),
}

/// A reused stream that fails is replaced once, within the same deadline; only a
/// successful exchange leaves a stream behind.
pub fn tcp_next(reused: bool, reply: Result<Response, ForwardError>) -> (r: TcpNext)
    ensures
        match (reply, r) {
            (Ok(response), TcpNext::Keep(kept)) => kept == response,
            (Err(error), TcpNext::Reconnect) => reused,
            (Err(error), TcpNext::Abandon(given)) => !reused && given == error,
            _ => false,
        },
{
    match reply {
        Ok(response) => TcpNext::Keep(response),
        Err(error) => if reused {
            TcpNext::Reconnect
        } else {
            TcpNext::Abandon(error)
        },
    }
}

/// A stream retained after a complete, correlated TCP exchange.
#[derive(Debug)]
struct CachedConnection<S> {
    address: UpstreamAddress,
    stream: S,
    last_used: u64,
}

/// A cached stream: its server, the stream, and when it was last used.
pub struct CachedView<S> {
    pub address: SocketAddress,
    pub stream: S,
    pub last_used: u64,
}

/// At most one reusable upstream stream.
#[derive(Debug)]
pub struct ConnectionCache<S> {
    entry: Option<CachedConnection<S>>,
}

/// What is left of a cached stream at a time.
pub open spec fn unexpired<S>(entry: Option<CachedView<S>>, now: u64) -> Option<CachedView<S>> {
    match entry {
        Some(cached) => if now - cached.last_used >= TCP_REUSE_IDLE {
            None
        } else {
            Some(cached)
        },
        None => None,
    }
}

impl<S> View for ConnectionCache<S> {
    type V = Option<CachedView<S>>;

    closed spec fn view(&self) -> Option<CachedView<S>> {
        match self.entry {
            Some(cached) => Some(
                CachedView {
                    address: cached.address@,
                    stream: cached.stream,
                    last_used: cached.last_used,
                },
            ),
            None => None,
        }
    }
}

impl<S> ConnectionCache<S> {
    pub fn new() -> (r: ConnectionCache<S>)
        ensures
            r@ is None,
    {
        ConnectionCache { entry: None }
    }

    /// Drops an expired cached stream when called; expiry has no background timer.
    pub fn expire_idle(&mut self, now: u64)
        ensures
            final(self)@ == unexpired(old(self)@, now),
    {
        let expired = match &self.entry {
            Some(cached) => now >= cached.last_used && now - cached.last_used >= TCP_REUSE_IDLE,
            None => false,
        };
        if expired {
            self.entry = None;
        }
    }

    /// Hands out a matching, unexpired stream.
    ///
    /// The cache is empty from then on. Failed, partial or mismatched exchanges
    /// therefore cannot leave a potentially desynchronized stream available to a
    /// later request.
    pub fn take(&mut self, address: UpstreamAddress, now: u64) -> (r: Option<S>)
        ensures
            final(self)@ is None,
            r == (match unexpired(old(self)@, now) {
                Some(cached) => if cached.address == address@ {
                    Some(cached.stream)
                } else {
                    None
                },
                None => None,
            }),
    {
        self.expire_idle(now);
        match self.entry.take() {
            Some(cached) => if cached.address.socket() == address.socket() {
                Some(cached.stream)
            } else {
                None
            },
            None => None,
        }
    }

    /// Keeps a stream after a successful exchange.
    pub fn keep(&mut self, address: UpstreamAddress, stream: S, now: u64)
        ensures
            final(self)@ == Some((CachedView { address: address@, stream, last_used: now })),
    {
        self.entry = Some(CachedConnection { address, stream, last_used: now });
    }
}

/// How far a walk is from its end: servers that are left, then what may still
/// happen at the current one.
pub open spec fn rank(step: StepView) -> int {
    match step {
        StepView::Draw { walk, plan: PlanView::Fresh, .. } => (walk.servers.len() - walk.place) * 8
            + 6,
        StepView::Exchange { walk, stage: Stage::First, .. } => (walk.servers.len() - walk.place)
            * 8 + 5,
        StepView::Draw { walk, plan: PlanView::Again { stage: Stage::Cookie, .. }, .. } => (
        walk.servers.len() - walk.place) * 8 + 4,
        StepView::Exchange { walk, stage: Stage::Cookie, .. } => (walk.servers.len() - walk.place)
            * 8 + 3,
        StepView::Draw { walk, .. } => (walk.servers.len() - walk.place) * 8 + 2,
        StepView::Exchange { walk, .. } => (walk.servers.len() - walk.place) * 8 + 1,
        StepView::Done(_) => 0,
    }
}

/// A step of a walk over the same query and group, with its attempt inside the
/// budget of the request and a server of the group under trial.
pub open spec fn step_of(step: StepView, walk: WalkView) -> bool {
    match step {
        StepView::Draw { walk: now, attempt, .. } => {
            &&& now.query == walk.query
            &&& now.servers == walk.servers
            &&& now.transport == walk.transport
            &&& now.deadline == walk.deadline
            &&& walk.place <= now.place < walk.servers.len()
            &&& attempt.at <= walk.deadline.at
        },
        StepView::Exchange { walk: now, attempt, .. } => {
            &&& now.query == walk.query
            &&& now.servers == walk.servers
            &&& now.transport == walk.transport
            &&& now.deadline == walk.deadline
            &&& walk.place <= now.place < walk.servers.len()
            &&& attempt.at <= walk.deadline.at
        },
        StepView::Done(_) => true,
    }
}

/// A walk begins, and turns to each further server, inside its group and its
/// budget.
pub proof fn starting_stays_in_the_group(walk: WalkView, now: u64, stop: bool)
    requires
        0 <= walk.place,
    ensures
        step_of(walk.start(now, stop), walk),
        walk.start(now, stop) matches StepView::Draw { walk: next, plan, .. } ==> next == walk
            && plan == PlanView::Fresh,
{
}

/// Every exchange goes out under the identifier that was drawn for it.
pub proof fn exchanges_use_the_drawn_id(
    walk: WalkView,
    attempt: Deadline,
    plan: PlanView,
    id: TransactionId,
    now: u64,
    stop: bool,
)
    requires
        plan matches PlanView::Again { wire, .. } ==> wire.len() >= 2,
    ensures
        walk.drawn(attempt, plan, Ok(id), now, stop).step matches StepView::Exchange {
            sent,
            ..
        } ==> sent.message.header.id == id,
{
    match plan {
        PlanView::Again { wire, .. } => {
            let renamed = bytes::with_word(wire, 0, id.0);
            assert(renamed[0] == (id.0 / 256) as u8);
            assert(renamed[1] == (id.0 % 256) as u8);
            assert(bytes::word_at(renamed, 0) == id.0);
        },
        PlanView::Fresh => {},
    }
}

/// A drawn ID keeps a walk inside its group and its budget, and brings it closer
/// to its end.
pub proof fn drawing_progresses(
    walk: WalkView,
    attempt: Deadline,
    plan: PlanView,
    id: Result<TransactionId, ForwardFault>,
    now: u64,
    stop: bool,
)
    requires
        step_of(StepView::Draw { walk, attempt, plan }, walk),
        plan matches PlanView::Again { stage, .. } ==> stage != Stage::First,
    ensures
        step_of(walk.drawn(attempt, plan, id, now, stop).step, walk),
        0 <= rank(walk.drawn(attempt, plan, id, now, stop).step) < rank(
            StepView::Draw { walk, attempt, plan },
        ),
{
}

/// The end of an exchange keeps a walk inside its group and its budget, and
/// brings it closer to its end: so every walk ends, after a bounded number of
/// exchanges with servers of its own group.
pub proof fn exchanging_progresses(
    walk: WalkView,
    attempt: Deadline,
    sent: SentView,
    over: Transport,
    stage: Stage,
    reply: Result<Message, ForwardFault>,
    now: u64,
    stop: bool,
)
    requires
        step_of(StepView::Exchange { walk, attempt, sent, over, stage }, walk),
    ensures
        step_of(walk.replied(attempt, sent, stage, reply, now, stop).step, walk),
        0 <= rank(walk.replied(attempt, sent, stage, reply, now, stop).step) < rank(
            StepView::Exchange { walk, attempt, sent, over, stage },
        ),
        walk.replied(attempt, sent, stage, reply, now, stop).step matches StepView::Draw {
            plan: PlanView::Again { stage: next, .. },
            ..
        } ==> next != Stage::First,
{
}

/// After a shutdown request no further server is contacted: whatever an exchange
/// brought, the walk ends as cancelled.
pub proof fn cancellation_ends_a_walk(
    walk: WalkView,
    attempt: Deadline,
    sent: SentView,
    stage: Stage,
    reply: Result<Message, ForwardFault>,
    now: u64,
)
    requires
        0 <= walk.place < walk.servers.len(),
    ensures
        walk.replied(attempt, sent, stage, reply, now, true).step == StepView::Done(
            Err(ForwardFault::Cancelled),
        ),
{
}

/// A response that says something of the name ends a walk that is in time:
/// NOERROR, NXDOMAIN and every code but SERVFAIL, REFUSED and BADCOOKIE.
pub proof fn hard_response_is_final(
    walk: WalkView,
    attempt: Deadline,
    sent: SentView,
    stage: Stage,
    response: Message,
    now: u64,
)
    requires
        walk.deadline.lapse(now, false) is None,
        !soft(response.code()),
        response.code() != ResponseCode::BadCookie,
    ensures
        walk.replied(attempt, sent, stage, Ok(response), now, false) == TurnView::quiet(
            StepView::Done(Ok(response)),
        ),
{
}

/// A group that is exhausted in time answers with the latest SERVFAIL or REFUSED
/// that any of its servers gave, whatever failed after it.
pub proof fn latest_dns_failure_is_relayed(
    walk: WalkView,
    attempt: Deadline,
    sent: SentView,
    stage: Stage,
    reply: Result<Message, ForwardFault>,
    now: u64,
)
    requires
        walk.place + 1 == walk.servers.len(),
        walk.deadline.lapse(now, false) is None,
        match reply {
            Ok(response) => soft(response.code()),
            Err(fault) => fault !is Cancelled,
        },
    ensures
        walk.replied(attempt, sent, stage, reply, now, false).step == StepView::Done(
            match (reply, walk.relayed) {
                (Ok(response), _) => Ok(response),
                (Err(_), Some(response)) => Ok(response),
                (Err(fault), None) => Err(fault),
            },
        ),
{
}

/// A walk holds on to the latest SERVFAIL or REFUSED until it ends; no later
/// failure replaces it.
pub proof fn latest_dns_failure_is_kept(
    walk: WalkView,
    attempt: Deadline,
    sent: SentView,
    stage: Stage,
    reply: Result<Message, ForwardFault>,
    now: u64,
    stop: bool,
)
    ensures
        walk.replied(attempt, sent, stage, reply, now, stop).step matches StepView::Draw {
            walk: next,
            ..
        } ==> next.relayed == (match reply {
            Ok(response) => if soft(response.code()) {
                Some(response)
            } else {
                walk.relayed
            },
            Err(_) => walk.relayed,
        }),
{
}

/// What the outside brings at one moment of a walk: an identifier to a walk that
/// draws one, a reply to a walk that waits for one.
pub struct Moment {
    pub id: Result<TransactionId, ForwardFault>,
    pub reply: Result<Message, ForwardFault>,
    pub now: u64,
    pub stop: bool,
}

/// The step that follows a step.
pub open spec fn advanced(step: StepView, moment: Moment) -> StepView {
    match step {
        StepView::Draw { walk, attempt, plan } => walk.drawn(
            attempt,
            plan,
            moment.id,
            moment.now,
            moment.stop,
        ).step,
        StepView::Exchange { walk, attempt, sent, stage, .. } => walk.replied(
            attempt,
            sent,
            stage,
            moment.reply,
            moment.now,
            moment.stop,
        ).step,
        StepView::Done(_) => step,
    }
}

/// The step that a walk is at after some moments.
pub open spec fn after(step: StepView, moments: Seq<Moment>) -> StepView
    decreases moments.len(),
{
    if moments.len() == 0 {
        step
    } else {
        after(advanced(step, moments[0]), moments.drop_first())
    }
}

/// The DNS failure that a step would relay.
spec fn held(step: StepView) -> Option<Message> {
    match step {
        StepView::Draw { walk, .. } => walk.relayed,
        StepView::Exchange { walk, .. } => walk.relayed,
        StepView::Done(reply) => match reply {
            Ok(response) => Some(response),
            Err(_) => None,
        },
    }
}

spec fn only_retries_again(step: StepView) -> bool {
    step matches StepView::Draw { plan: PlanView::Again { stage, .. }, .. } ==> stage
        != Stage::First
}

proof fn steps_stay_in_the_group(step: StepView, walk: WalkView, moments: Seq<Moment>)
    requires
        0 <= walk.place,
        step_of(step, walk),
        only_retries_again(step),
    ensures
        step_of(after(step, moments), walk),
        moments.len() >= rank(step) ==> after(step, moments) is Done,
    decreases moments.len(),
{
    if moments.len() > 0 {
        let moment = moments[0];
        match step {
            StepView::Draw { walk: now, attempt, plan } => {
                drawing_progresses(now, attempt, plan, moment.id, moment.now, moment.stop);
            },
            StepView::Exchange { walk: now, attempt, sent, over, stage } => {
                exchanging_progresses(
                    now,
                    attempt,
                    sent,
                    over,
                    stage,
                    moment.reply,
                    moment.now,
                    moment.stop,
                );
            },
            StepView::Done(_) => {},
        }
        steps_stay_in_the_group(advanced(step, moment), walk, moments.drop_first());
    }
}

proof fn held_responses_were_given(step: StepView, moments: Seq<Moment>)
    ensures
        held(after(step, moments)) matches Some(response) ==> held(step) == Some(response)
            || exists|i: int|
            0 <= i < moments.len() && (#[trigger] moments[i]).reply == Ok::<Message, ForwardFault>(
                response,
            ),
    decreases moments.len(),
{
    if moments.len() > 0 {
        let next = advanced(step, moments[0]);
        let rest = moments.drop_first();
        assert(held(next) matches Some(response) ==> held(step) == Some(response)
            || moments[0].reply == Ok::<Message, ForwardFault>(response));
        held_responses_were_given(next, rest);
        if let Some(response) = held(after(step, moments)) {
            if exists|i: int|
                0 <= i < rest.len() && (#[trigger] rest[i]).reply == Ok::<Message, ForwardFault>(
                    response,
                ) {
                let i = choose|i: int|
                    0 <= i < rest.len() && (#[trigger] rest[i]).reply == Ok::<
                        Message,
                        ForwardFault,
                    >(response);
                assert(moments[i + 1] == rest[i]);
            }
        }
    }
}

/// Whatever the outside brings, a walk contacts no server outside its group, keeps
/// every attempt inside the budget of the request, and ends after a number of
/// moments that the size of the group bounds.
pub proof fn every_walk_ends_inside_its_group(
    walk: WalkView,
    now: u64,
    stop: bool,
    moments: Seq<Moment>,
)
    requires
        walk.place == 0,
    ensures
        step_of(after(walk.start(now, stop), moments), walk),
        moments.len() >= walk.servers.len() * 8 + 6 ==> after(walk.start(now, stop), moments)
            is Done,
{
    starting_stays_in_the_group(walk, now, stop);
    steps_stay_in_the_group(walk.start(now, stop), walk, moments);
}

/// A walk answers only with a response that one of its exchanges brought.
pub proof fn answers_come_from_exchanges(
    walk: WalkView,
    now: u64,
    stop: bool,
    moments: Seq<Moment>,
    response: Message,
)
    requires
        walk.relayed is None,
        after(walk.start(now, stop), moments) == StepView::Done(Ok(response)),
    ensures
        exists|i: int|
            0 <= i < moments.len() && (#[trigger] moments[i]).reply == Ok::<Message, ForwardFault>(
                response,
            ),
{
    held_responses_were_given(walk.start(now, stop), moments);
}

/// Whether a request is neither cancelled nor out of time.
pub open spec fn in_time(walk: WalkView, now: u64, stop: bool) -> bool {
    !stop && now < walk.deadline.at
}

/// Whether an exchange leaves its server without a usable answer: it failed for
/// another reason than a shutdown, or brought SERVFAIL or REFUSED.
pub open spec fn unanswered(reply: Result<Message, ForwardFault>) -> bool {
    match reply {
        Ok(response) => response.code().code() == 2 || response.code().code() == 5,
        Err(fault) => fault !is Cancelled,
    }
}

/// A server without a usable answer is followed by the next one of the group, as
/// long as there is one and the request is in time: the next step draws a fresh
/// identifier for the same query at exactly the next place, over the transport of
/// the client and for two seconds at most.
pub proof fn the_next_server_follows(
    walk: WalkView,
    attempt: Deadline,
    sent: SentView,
    stage: Stage,
    reply: Result<Message, ForwardFault>,
    now: u64,
)
    requires
        0 <= walk.place,
        walk.place + 1 < walk.servers.len(),
        in_time(walk, now, false),
        unanswered(reply),
    ensures
        walk.replied(attempt, sent, stage, reply, now, false).step matches StepView::Draw {
            walk: next,
            attempt: fresh,
            plan,
        } && {
            &&& next.place == walk.place + 1
            &&& next.servers == walk.servers
            &&& next.query == walk.query
            &&& next.transport == walk.transport
            &&& next.deadline == walk.deadline
            &&& plan == PlanView::Fresh
            &&& fresh.at <= walk.deadline.at
            &&& fresh.at == walk.deadline.at || fresh.at - now == 2_000_000_000
        },
        walk.replied(attempt, sent, stage, reply, now, false).warning matches Some((server, _))
            && server == walk.servers[walk.place],
{
    match reply {
        Ok(response) => {
            codes_of_failure(response.code());
        },
        Err(_) => {},
    }
}

proof fn codes_of_failure(code: ResponseCode)
    requires
        code.code() == 2 || code.code() == 5,
        code == ResponseCode::of(code.code()),
    ensures
        soft(code),
{
}

/// A walk begins with the first server, in time, and sends the query there under
/// the identifier that is drawn for it, over the transport of the client.
pub proof fn the_first_server_is_first(walk: WalkView, now: u64, id: TransactionId, later: u64)
    requires
        walk.place == 0,
        walk.servers.len() > 0,
        in_time(walk, now, false),
    ensures
        walk.start(now, false) matches StepView::Draw { walk: same, attempt, plan } && {
            &&& same == walk
            &&& attempt.at == walk.deadline.at || attempt.at - now == 2_000_000_000
            &&& walk.drawn(attempt, plan, Ok(id), later, false).step matches StepView::Exchange {
                walk: there,
                attempt: kept,
                sent,
                over,
                stage,
            } && {
                &&& there == walk
                &&& kept == attempt
                &&& over == walk.transport
                &&& stage == Stage::First
                &&& sent.message.wire == bytes::with_word(walk.query.wire, 0, id.0)
                &&& !sent.cookie_required
            }
        },
{
}

/// After some moments and one more, a walk is one step further.
proof fn after_one_more(step: StepView, moments: Seq<Moment>, n: int)
    requires
        0 <= n < moments.len(),
    ensures
        after(step, moments.take(n + 1)) == advanced(after(step, moments.take(n)), moments[n]),
    decreases n,
{
    if n == 0 {
        assert(moments.take(1).drop_first() =~= Seq::<Moment>::empty());
        assert(after(advanced(step, moments[0]), moments.take(1).drop_first()) == advanced(
            step,
            moments[0],
        ));
    } else {
        let rest = moments.drop_first();
        let next = advanced(step, moments[0]);
        after_one_more(next, rest, n - 1);
        assert(moments.take(n + 1).drop_first() =~= rest.take(n));
        assert(moments.take(n).drop_first() =~= rest.take(n - 1));
        assert(rest[n - 1] == moments[n]);
    }
}

/// Whether a step exchanges with the server at a place of the group of a walk.
pub open spec fn exchanges_at(step: StepView, walk: WalkView, place: int) -> bool {
    step matches StepView::Exchange { walk: there, .. } && there.servers == walk.servers
        && there.place == place
}

/// Whether a record of contacts names, for each place from the first on, a moment
/// of the walk at which the server at that place was contacted, in order.
pub open spec fn contacts_in_order(
    walk: WalkView,
    now: u64,
    moments: Seq<Moment>,
    contacts: Seq<int>,
) -> bool {
    &&& forall|p: int|
        0 <= p < contacts.len() ==> 0 <= #[trigger] contacts[p] <= moments.len() && exchanges_at(
            after(walk.start(now, false), moments.take(contacts[p])),
            walk,
            p,
        )
    &&& forall|p: int, q: int| 0 <= p < q < contacts.len() ==> contacts[p] < contacts[q]
}

/// Whether nothing but the servers keeps a walk from its answer: every moment is in
/// time, and brings an identifier where one is drawn and no cancellation.
pub open spec fn undisturbed(walk: WalkView, moments: Seq<Moment>) -> bool {
    forall|i: int|
        0 <= i < moments.len() ==> {
            &&& in_time(walk, (#[trigger] moments[i]).now, moments[i].stop)
            &&& moments[i].id is Ok
            &&& moments[i].reply matches Err(fault) ==> fault !is Cancelled
        }
}

spec fn contacted_so_far(step: StepView, walk: WalkView, count: int) -> bool {
    match step {
        StepView::Draw { walk: there, plan, .. } => {
            &&& there.servers == walk.servers
            &&& there.deadline == walk.deadline
            &&& 0 <= there.place < walk.servers.len()
            &&& there.relayed matches Some(held) ==> soft(held.code())
            &&& count == there.place + (if plan is Fresh {
                0int
            } else {
                1int
            })
        },
        StepView::Exchange { walk: there, .. } => {
            &&& there.servers == walk.servers
            &&& there.deadline == walk.deadline
            &&& 0 <= there.place < walk.servers.len()
            &&& there.relayed matches Some(held) ==> soft(held.code())
            &&& count == there.place + 1
        },
        StepView::Done(outcome) => {
            ||| outcome matches Ok(response) && !soft(response.code())
            ||| count == walk.servers.len()
        },
    }
}

proof fn walks_contact_in_order(walk: WalkView, now: u64, moments: Seq<Moment>, n: int) -> (contacts:
    Seq<int>)
    requires
        walk.place == 0,
        walk.relayed is None,
        walk.servers.len() > 0,
        in_time(walk, now, false),
        undisturbed(walk, moments),
        0 <= n <= moments.len(),
    ensures
        contacts_in_order(walk, now, moments, contacts),
        forall|p: int| 0 <= p < contacts.len() ==> #[trigger] contacts[p] <= n,
        contacted_so_far(
            after(walk.start(now, false), moments.take(n)),
            walk,
            contacts.len() as int,
        ),
    decreases n,
{
    let first = walk.start(now, false);
    if n == 0 {
        assert(moments.take(0) =~= Seq::<Moment>::empty());
        assert(after(first, moments.take(0)) == first);
        Seq::empty()
    } else {
        let before = walks_contact_in_order(walk, now, moments, n - 1);
        let step = after(first, moments.take(n - 1));
        let moment = moments[n - 1];
        after_one_more(first, moments, n - 1);
        let next = advanced(step, moment);
        assert(in_time(walk, moment.now, moment.stop));
        match step {
            StepView::Draw { walk: there, attempt, plan } => {
                if plan is Fresh {
                    let contacts = before.push(n);
                    assert(exchanges_at(next, walk, there.place));
                    assert(moments.take(n) =~= moments.take(contacts[contacts.len() - 1]));
                    contacts
                } else if next is Exchange {
                    before
                } else {
                    before
                }
            },
            StepView::Exchange { walk: there, attempt, sent, stage, .. } => { before },
            StepView::Done(_) => { before },
        }
    }
}

/// A walk that ends without a usable answer, though it was not disturbed, has
/// contacted every server of its group, one after the other in the order of the
/// group.
pub proof fn exhausted_walks_contacted_every_server(
    walk: WalkView,
    now: u64,
    moments: Seq<Moment>,
)
    requires
        walk.place == 0,
        walk.relayed is None,
        walk.servers.len() > 0,
        in_time(walk, now, false),
        undisturbed(walk, moments),
        after(walk.start(now, false), moments) matches StepView::Done(outcome) && unanswered(
            outcome,
        ),
    ensures
        exists|contacts: Seq<int>|
            contacts.len() == walk.servers.len() && #[trigger] contacts_in_order(
                walk,
                now,
                moments,
                contacts,
            ),
{
    let n = moments.len() as int;
    let contacts = walks_contact_in_order(walk, now, moments, n);
    assert(moments.take(n) =~= moments);
    match after(walk.start(now, false), moments) {
        StepView::Done(Ok(response)) => {
            codes_of_failure(response.code());
        },
        _ => {},
    }
    assert(contacts_in_order(walk, now, moments, contacts));
}

/// Whether a turn tries the same server again, within the same attempt, with some bytes
/// over a transport.
pub open spec fn tries_again(
    turn: TurnView,
    walk: WalkView,
    attempt: Deadline,
    wire: Seq<u8>,
    over: Transport,
    stage: Stage,
) -> bool {
    turn == TurnView {
        step: StepView::Draw { walk, attempt, plan: PlanView::Again { wire, over, stage } },
        warning: None,
    }
}

/// Whether a turn gives the current server up for another reason than a shutdown.
pub open spec fn gives_up(turn: TurnView, walk: WalkView) -> bool {
    &&& turn.warning matches Some((server, _)) && server == walk.servers[walk.place]
    &&& match turn.step {
        StepView::Draw { walk: next, plan, .. } => next.place == walk.place + 1 && plan is Fresh,
        StepView::Exchange { .. } => false,
        StepView::Done(outcome) => walk.place + 1 == walk.servers.len() && (outcome is Err
            || outcome == Ok::<Message, ForwardFault>(walk.relayed->0)),
    }
}

/// A first BADCOOKIE (code 23) is followed by a retry at the same server. With a new
/// cookie the rewritten query goes over the transport of the client. Where the cookie
/// cannot be put in, or is already there, the same bytes go over TCP, unless they did
/// already. A client that sent no cookie gets the BADCOOKIE; an unusable cookie gives the
/// server up.
pub proof fn refused_cookies_are_retried(
    walk: WalkView,
    attempt: Deadline,
    sent: SentView,
    response: Message,
    now: u64,
)
    requires
        0 <= walk.place < walk.servers.len(),
        in_time(walk, now, false),
        now < attempt.at,
        response.code() == ResponseCode::of(23),
    ensures
        ({
            let turn = walk.replied(attempt, sent, Stage::First, Ok(response), now, false);
            let same = sent.message.wire;
            let tcp = walk.transport == Transport::Tcp;
            let relayed = turn.step == StepView::Done(Ok(response)) && turn.warning is None;
            match cookie::retry_of(sent.message, same, response) {
                RetryView::Absent => relayed,
                RetryView::Discard => gives_up(turn, walk),
                RetryView::Rewrite(wire) => tries_again(
                    turn,
                    walk,
                    attempt,
                    wire,
                    walk.transport,
                    Stage::Cookie,
                ),
                RetryView::Current => if tcp {
                    relayed
                } else {
                    tries_again(turn, walk, attempt, same, Transport::Tcp, Stage::Last)
                },
                RetryView::Leave => if tcp {
                    relayed
                } else {
                    tries_again(turn, walk, attempt, same, Transport::Tcp, Stage::Last)
                },
            }
        }),
{
}

/// A second BADCOOKIE over UDP is followed by one more retry over TCP, with the newest
/// cookie. Over TCP, and after that retry, it is the answer.
pub proof fn cookies_refused_twice_go_over_tcp(
    walk: WalkView,
    attempt: Deadline,
    sent: SentView,
    response: Message,
    now: u64,
)
    requires
        0 <= walk.place < walk.servers.len(),
        in_time(walk, now, false),
        now < attempt.at,
        response.code() == ResponseCode::of(23),
    ensures
        ({
            let turn = walk.replied(attempt, sent, Stage::Cookie, Ok(response), now, false);
            let same = sent.message.wire;
            if walk.transport == Transport::Tcp {
                turn.step == StepView::Done(Ok(response)) && turn.warning is None
            } else {
                match cookie::retry_of(sent.message, same, response) {
                    RetryView::Absent => gives_up(turn, walk),
                    RetryView::Discard => gives_up(turn, walk),
                    RetryView::Rewrite(wire) => tries_again(
                        turn,
                        walk,
                        attempt,
                        wire,
                        Transport::Tcp,
                        Stage::Last,
                    ),
                    _ => tries_again(turn, walk, attempt, same, Transport::Tcp, Stage::Last),
                }
            }
        }),
        walk.replied(attempt, sent, Stage::Last, Ok(response), now, false) == (TurnView {
            step: StepView::Done(Ok(response)),
            warning: None,
        }),
{
}

/// A retry sends its bytes under the drawn identifier, over its transport and within its
/// attempt, and needs a cookie in the response; bytes that do not parse give the server
/// up. Without an identifier the query is given up.
pub proof fn retries_send_what_was_planned(
    walk: WalkView,
    attempt: Deadline,
    wire: Seq<u8>,
    over: Transport,
    stage: Stage,
    id: TransactionId,
    fault: ForwardFault,
    now: u64,
)
    requires
        0 <= walk.place < walk.servers.len(),
        in_time(walk, now, false),
    ensures
        ({
            let plan = PlanView::Again { wire, over, stage };
            let turn = walk.drawn(attempt, plan, Ok(id), now, false);
            match parser::parsed(bytes::with_word(wire, 0, id.0)) {
                Ok(message) => turn == TurnView {
                    step: StepView::Exchange {
                        walk,
                        attempt,
                        sent: SentView { message, cookie_required: true },
                        over,
                        stage,
                    },
                    warning: None,
                },
                Err(_) => gives_up(turn, walk),
            }
        }),
        forall|plan: PlanView| #[trigger]
            walk.drawn(attempt, plan, Err(fault), now, false).step == StepView::Done(Err(fault)),
{
}

/// Whatever an exchange brought, a request whose time is up ends as timed out, unless the
/// exchange already failed for a shutdown; an attempt whose time is up gives its server up
/// where it would have been tried again.
pub proof fn late_requests_time_out(
    walk: WalkView,
    attempt: Deadline,
    sent: SentView,
    stage: Stage,
    reply: Result<Message, ForwardFault>,
    now: u64,
)
    requires
        0 <= walk.place < walk.servers.len(),
        attempt.at <= walk.deadline.at <= now,
        reply matches Err(fault) ==> fault !is Cancelled,
    ensures
        walk.replied(attempt, sent, stage, reply, now, false).step == StepView::Done(
            Err(ForwardFault::Timeout),
        ),
{
}

/// A datagram that neither says that the response did not fit nor is the answer is
/// ignored, with a diagnostic about the first, until the sixty-fourth gives the server up.
pub proof fn other_datagrams_are_ignored(sent: SentView, octets: Seq<u8>, ignored: int)
    requires
        0 <= ignored,
    ensures
        ({
            let cut = parser::truncation_of(sent.message, octets, sent.message.header.id);
            let answer = parser::parsed(octets) matches Ok(message) && sent.accepts(message);
            match datagram_of(sent, octets, ignored) {
                DatagramView::Truncated => cut,
                DatagramView::Answer(message) => !cut && answer && parser::parsed(octets) == Ok::<
                    Message,
                    ParseError,
                >(message),
                DatagramView::Ignored { warn } => !cut && !answer && ignored < 63 && warn == (
                ignored == 0),
                DatagramView::GiveUp => !cut && !answer && ignored >= 63,
            }
        }),
{
}

/// A frame is the answer exactly where it parses as a response that is taken for it.
pub proof fn frames_are_answers_or_failures(sent: SentView, octets: Seq<u8>)
    ensures
        framed_reply(sent, None) is Err,
        match framed_reply(sent, Some(octets)) {
            Ok(message) => parser::parsed(octets) == Ok::<Message, ParseError>(message)
                && sent.accepts(message),
            Err(fault) => fault !is Cancelled && (parser::parsed(octets) matches Ok(message)
                ==> !sent.accepts(message)),
        },
{
}

/// A cached stream is used again within two seconds of its last use, and not after.
pub proof fn cached_streams_last_two_seconds<S>(cached: CachedView<S>, now: u64)
    ensures
        unexpired(Some(cached), now) == (if now < cached.last_used + 2_000_000_000 {
            Some(cached)
        } else {
            None
        }),
{
}

/// A failed operation is a cancellation only where it is marked as one, and a timeout
/// where it timed out or would have blocked; anything else is told as it is.
pub proof fn failures_keep_their_meaning(failure: IoFailure)
    ensures
        ForwardFault::of_io(failure) is Cancelled <==> failure.cancelled,
        ForwardFault::of_io(failure) is Timeout <==> !failure.cancelled && (failure.kind
            == IoErrorKind::TimedOut || failure.kind == IoErrorKind::WouldBlock),
        ForwardFault::of_io(failure) matches ForwardFault::Io(text) ==> text == failure.message@,
        ForwardFault::of_io(failure) is Cancelled || ForwardFault::of_io(failure) is Timeout
            || ForwardFault::of_io(failure) is Io,
{
}

/// A response with any other code than SERVFAIL (2), REFUSED (5) and BADCOOKIE (23) is the
/// answer to a request that is in time, whichever exchange brought it.
pub proof fn other_codes_are_final(
    walk: WalkView,
    attempt: Deadline,
    sent: SentView,
    stage: Stage,
    response: Message,
    now: u64,
)
    requires
        in_time(walk, now, false),
        response.code().code() != 2,
        response.code().code() != 5,
        response.code().code() != 23,
    ensures
        walk.replied(attempt, sent, stage, Ok(response), now, false) == (TurnView {
            step: StepView::Done(Ok(response)),
            warning: None,
        }),
{
}

/// At the end of its group a request that is in time gets the SERVFAIL (2) or REFUSED (5)
/// that the last server gave, or else the latest of the others, or else the failure.
pub proof fn the_last_server_decides(
    walk: WalkView,
    attempt: Deadline,
    sent: SentView,
    stage: Stage,
    reply: Result<Message, ForwardFault>,
    now: u64,
)
    requires
        walk.place + 1 == walk.servers.len(),
        in_time(walk, now, false),
        unanswered(reply),
    ensures
        walk.replied(attempt, sent, stage, reply, now, false).step == StepView::Done(
            match (reply, walk.relayed) {
                (Ok(response), _) => Ok(response),
                (Err(_), Some(response)) => Ok(response),
                (Err(fault), None) => Err(fault),
            },
        ),
{
    match reply {
        Ok(response) => {
            codes_of_failure(response.code());
        },
        Err(_) => {},
    }
}

/// A SERVFAIL (2) or REFUSED (5) is held for the client while the next servers are tried,
/// and no failure of theirs takes its place.
pub proof fn the_latest_failure_is_held(
    walk: WalkView,
    attempt: Deadline,
    sent: SentView,
    stage: Stage,
    reply: Result<Message, ForwardFault>,
    now: u64,
)
    requires
        0 <= walk.place,
        walk.place + 1 < walk.servers.len(),
        in_time(walk, now, false),
        unanswered(reply),
    ensures
        walk.replied(attempt, sent, stage, reply, now, false).step matches StepView::Draw {
            walk: next,
            ..
        } && next.relayed == (match reply {
            Ok(response) => Some(response),
            Err(_) => walk.relayed,
        }),
{
    the_next_server_follows(walk, attempt, sent, stage, reply, now);
    match reply {
        Ok(response) => {
            codes_of_failure(response.code());
        },
        Err(_) => {},
    }
}

} // verus!
