//! The load balancer: its state, and the course of a client's connection.

use vstd::prelude::*;

use crate::limiter::{
    accepted, counts_after, counts_since_clear, lemma_limit_is_kept, requests_of, RequestCounter,
};
use crate::text::views;
use crate::upstreams::{
    all_places, check_targets, lemma_check_keeps_servers, lemma_failure_keeps_servers,
    lemma_flagged_places, lemma_own_check_decides, lemma_taken_out_by_place,
    lemma_taken_out_keeps_others, mark_failed, pick_upstream, split_by_health, taken_out,
    with_flag,
};

verus! {

/// How the load balancer is to run.
#[derive(Debug)]
pub struct CmdOptions {
    /// The address to listen on.
    pub bind: String,
    /// The servers to forward requests to.
    pub upstream: Vec<String>,
    /// The time between two active checks, in seconds.
    pub active_health_check_interval: usize,
    /// The path to ask for in an active check.
    pub active_health_check_path: String,
    /// The number of requests to accept from a client in a minute. Zero means
    /// any number.
    pub max_requests_per_minute: usize,
}

/// The state of the load balancer.
pub struct ProxyState {
    /// The time between two active checks, in seconds.
    pub active_health_check_interval: usize,
    /// The path to ask for in an active check.
    pub active_health_check_path: String,
    /// The number of requests to accept from a client in a minute. Zero means
    /// any number.
    pub max_requests_per_minute: usize,
    /// The servers that are taken to be alive.
    pub upstream_addresses: Vec<String>,
    /// The servers that have failed.
    pub failed_upstream_addresses: Vec<String>,
    /// The requests of the current minute.
    pub request_counter: RequestCounter,
}

/// How to go on connecting a client.
#[derive(Debug)]
pub enum ConnectStep {
    /// Try to connect to this server.
    Try(String),
    /// The client has its connection.
    Connected,
    /// All servers have failed.
    NoneLeft,
}

/// The state of the load balancer, in mathematical terms.
#[verifier::ext_equal]
pub ghost struct ProxyView {
    pub interval: usize,
    pub path: Seq<char>,
    pub max_requests: usize,
    pub alive: Seq<Seq<char>>,
    pub failed: Seq<Seq<char>>,
    pub counts: Map<Seq<char>, usize>,
}

impl View for ProxyState {
    type V = ProxyView;

    open spec fn view(&self) -> ProxyView {
        ProxyView {
            interval: self.active_health_check_interval,
            path: self.active_health_check_path@,
            max_requests: self.max_requests_per_minute,
            alive: views(self.upstream_addresses@),
            failed: views(self.failed_upstream_addresses@),
            counts: self.request_counter@,
        }
    }
}

impl ProxyView {
    /// Whether a server is known, alive or failed.
    pub open spec fn knows(self, ip: Seq<char>) -> bool {
        self.alive.contains(ip) || self.failed.contains(ip)
    }

    /// Whether two states have the same settings.
    pub open spec fn same_settings(self, other: ProxyView) -> bool {
        &&& self.interval == other.interval
        &&& self.path == other.path
        &&& self.max_requests == other.max_requests
    }

    /// Whether a server that could not be reached was moved to the failed
    /// ones.
    pub open spec fn failed_over(self, ip: Seq<char>, after: ProxyView) -> bool {
        &&& taken_out(self.alive, ip, after.alive)
        &&& after.failed == self.failed.push(ip)
        &&& after.counts == self.counts
        &&& self.same_settings(after)
    }

    /// Whether a step is the next attempt to connect: at a live server, if
    /// there is one.
    pub open spec fn next_attempt(self, step: ConnectStep) -> bool {
        match step {
            ConnectStep::Try(ip) => self.alive.contains(ip@),
            ConnectStep::NoneLeft => self.alive.len() == 0,
            ConnectStep::Connected => false,
        }
    }

    /// The state after a check of servers found these active.
    pub open spec fn checked(self, ips: Seq<Seq<char>>, active: Seq<bool>) -> ProxyView {
        ProxyView {
            alive: with_flag(ips, active, true),
            failed: with_flag(ips, active, false),
            ..self
        }
    }

    /// The state after a request of a client.
    pub open spec fn requested(self, client_ip: Seq<char>) -> ProxyView {
        ProxyView { counts: counts_after(self.counts, client_ip, self.max_requests), ..self }
    }

    /// Whether one more request of a client is accepted.
    pub open spec fn accepts_request(self, client_ip: Seq<char>) -> bool {
        accepted(self.counts, client_ip, self.max_requests)
    }
}

impl ProxyState {
    /// The state at the start: all servers are taken to be alive. There must
    /// be at least one.
    pub fn new(options: CmdOptions) -> (r: Option<ProxyState>)
        ensures
            r is Some <==> options.upstream@.len() > 0,
            r matches Some(state) ==> state@ == (ProxyView {
                interval: options.active_health_check_interval,
                path: options.active_health_check_path@,
                max_requests: options.max_requests_per_minute,
                alive: views(options.upstream@),
                failed: Seq::empty(),
                counts: Map::empty(),
            }),
    {
        if options.upstream.len() < 1 {
            return None;
        }
        let state = ProxyState {
            active_health_check_interval: options.active_health_check_interval,
            active_health_check_path: options.active_health_check_path,
            max_requests_per_minute: options.max_requests_per_minute,
            upstream_addresses: options.upstream,
            failed_upstream_addresses: Vec::new(),
            request_counter: RequestCounter::new(),
        };
        assert(state@.failed =~= Seq::empty());
        Some(state)
    }

    /// Forgets the requests of the minute that has passed.
    pub fn clear_counter(&mut self)
        ensures
            final(self)@ == (ProxyView { counts: Map::empty(), ..old(self)@ }),
    {
        self.request_counter.clear();
    }

    /// A live server to connect to, picked at random. There is none where all
    /// servers have failed.
    pub fn choose_upstream(&self) -> (r: Option<String>)
        ensures
            r is None <==> self@.alive.len() == 0,
            r matches Some(ip) ==> self@.alive.contains(ip@),
    {
        pick_upstream(&self.upstream_addresses)
    }

    /// Handles the end of an attempt to connect to a server. A server that
    /// could not be reached is moved to the failed ones.
    pub fn connect_to_upstream_once(&mut self, upstream_ip: String, connected: bool)
        ensures
            connected ==> final(self)@ == old(self)@,
            !connected ==> old(self)@.failed_over(upstream_ip@, final(self)@),
    {
        if !connected {
            mark_failed(
                &mut self.upstream_addresses,
                &mut self.failed_upstream_addresses,
                upstream_ip,
            );
        }
    }

    /// Decides how to go on connecting a client, given the last attempt: the
    /// server and whether it was reached. Attempts are made at live servers
    /// until one is reached or none is left.
    pub fn connect_to_upstream(&mut self, attempt: Option<(String, bool)>) -> (r: ConnectStep)
        ensures
            match attempt {
                Some((ip, true)) => r is Connected && final(self)@ == old(self)@,
                Some((ip, false)) => {
                    &&& old(self)@.failed_over(ip@, final(self)@)
                    &&& final(self)@.next_attempt(r)
                },
                None => final(self)@ == old(self)@ && final(self)@.next_attempt(r),
            },
    {
        if let Some((upstream_ip, connected)) = attempt {
            self.connect_to_upstream_once(upstream_ip, connected);
            if connected {
                return ConnectStep::Connected;
            }
        }
        match self.choose_upstream() {
            Some(upstream_ip) => ConnectStep::Try(upstream_ip),
            None => ConnectStep::NoneLeft,
        }
    }

    /// The servers to check: the live ones, then the failed ones.
    pub fn start_active_check(&self) -> (r: Vec<String>)
        ensures
            views(r@) == self@.alive + self@.failed,
    {
        check_targets(&self.upstream_addresses, &self.failed_upstream_addresses)
    }

    /// Takes over what a check of servers found: the active ones are alive,
    /// all others have failed.
    pub fn finish_active_check(&mut self, ips: Vec<String>, active: &Vec<bool>)
        requires
            active@.len() == ips@.len(),
        ensures
            final(self)@ == old(self)@.checked(views(ips@), active@),
    {
        let (new_alive, new_failed) = split_by_health(ips, active);
        self.upstream_addresses = new_alive;
        self.failed_upstream_addresses = new_failed;
    }

    /// Counts one more request of a client, if it is to be accepted.
    pub fn count_request(&mut self, client_ip: &String) -> (r: bool)
        ensures
            r == old(self)@.accepts_request(client_ip@),
            final(self)@ == old(self)@.requested(client_ip@),
    {
        self.request_counter.count_request(client_ip, self.max_requests_per_minute)
    }
}

/// A failed attempt at a known server forgets no server and makes none up.
pub proof fn lemma_failure_keeps_known_servers(
    state: ProxyView,
    ip: Seq<char>,
    after: ProxyView,
    any: Seq<char>,
)
    requires
        state.knows(ip),
        state.failed_over(ip, after),
    ensures
        after.knows(any) <==> state.knows(any),
{
    assert(state.failed.push(ip).contains(any) <==> state.failed.contains(any) || any == ip) by {
        broadcast use vstd::seq_lib::group_seq_properties;

    }
    lemma_taken_out_keeps_others(state.alive, ip, after.alive, any);
}

/// A check of the servers that were known at its start forgets no server and
/// makes none up, whatever attempts have failed in the meantime.
pub proof fn lemma_check_keeps_known_servers(
    start: ProxyView,
    state: ProxyView,
    active: Seq<bool>,
    any: Seq<char>,
)
    requires
        start.knows(any) <==> state.knows(any),
        active.len() == start.alive.len() + start.failed.len(),
    ensures
        state.checked(start.alive + start.failed, active).knows(any) <==> state.knows(any),
{
    let ips = start.alive + start.failed;
    lemma_check_keeps_servers(ips, active);
    assert(ips.contains(any) <==> start.knows(any)) by {
        broadcast use vstd::seq_lib::group_seq_properties;

    }
}

/// A failed attempt at a live server leaves one live server fewer, and every
/// server in one of the two lists as often as before.
pub proof fn lemma_failures_use_up_live_servers(
    state: ProxyView,
    ip: Seq<char>,
    after: ProxyView,
)
    requires
        state.alive.contains(ip),
        state.failed_over(ip, after),
    ensures
        after.alive.len() == state.alive.len() - 1,
        after.alive.to_multiset().add(after.failed.to_multiset()) == state.alive.to_multiset().add(
            state.failed.to_multiset(),
        ),
{
    lemma_failure_keeps_servers(state.alive, state.failed, ip, after.alive);
}

/// Whether one of these servers accepts connections.
pub open spec fn some_accepts(servers: Seq<Seq<char>>, accepting: Set<Seq<char>>) -> bool {
    exists|ip: Seq<char>| #[trigger] servers.contains(ip) && accepting.contains(ip)
}

/// Whether an attempt leads from one state and step to the next, where a
/// server is reached exactly if it is an accepting one.
pub open spec fn attempted(
    state: ProxyView,
    step: ConnectStep,
    after: ProxyView,
    next: ConnectStep,
    accepting: Set<Seq<char>>,
) -> bool {
    match step {
        ConnectStep::Try(ip) => if accepting.contains(ip@) {
            next is Connected && after == state
        } else {
            state.failed_over(ip@, after) && after.next_attempt(next)
        },
        _ => false,
    }
}

/// Whether a client is being connected through these states and steps, with
/// nothing else done to the state in between, and with servers of which the
/// accepting ones always accept and all others always refuse.
pub open spec fn connecting(
    states: Seq<ProxyView>,
    steps: Seq<ConnectStep>,
    accepting: Set<Seq<char>>,
) -> bool {
    &&& states.len() == steps.len()
    &&& steps.len() > 0
    &&& states[0].next_attempt(steps[0])
    &&& forall|i: int|
        0 <= i < steps.len() - 1 ==> #[trigger] attempted(
            states[i],
            steps[i],
            states[i + 1],
            steps[i + 1],
            accepting,
        )
}

/// The number of attempts that have failed: each but the one that has
/// succeeded has led to one more step.
pub open spec fn failures(steps: Seq<ConnectStep>) -> int {
    if steps.last() is Connected {
        steps.len() - 2
    } else {
        steps.len() - 1
    }
}

/// While a client is being connected, live servers that accept stay alive, no
/// server becomes alive, and each failure uses up one live server. Attempts are
/// made at live servers only.
pub proof fn lemma_connecting_keeps_accepting_servers(
    states: Seq<ProxyView>,
    steps: Seq<ConnectStep>,
    accepting: Set<Seq<char>>,
)
    requires
        connecting(states, steps, accepting),
    ensures
        forall|ip: Seq<char>| #[trigger]
            states[0].alive.contains(ip) && accepting.contains(ip)
                ==> states.last().alive.contains(ip),
        forall|ip: Seq<char>| #[trigger]
            states.last().alive.contains(ip) ==> states[0].alive.contains(ip),
        states.last().alive.len() == states[0].alive.len() - failures(steps),
        match steps.last() {
            ConnectStep::Try(ip) => states.last().alive.contains(ip@),
            ConnectStep::NoneLeft => states.last().alive.len() == 0,
            ConnectStep::Connected => some_accepts(states.last().alive, accepting),
        },
    decreases steps.len(),
{
    if steps.len() > 1 {
        let before = states.drop_last();
        let earlier = steps.drop_last();
        assert forall|i: int| 0 <= i < earlier.len() - 1 implies #[trigger] attempted(
            before[i],
            earlier[i],
            before[i + 1],
            earlier[i + 1],
            accepting,
        ) by {
            assert(attempted(states[i], steps[i], states[i + 1], steps[i + 1], accepting));
        }
        lemma_connecting_keeps_accepting_servers(before, earlier, accepting);
        let last = steps.len() - 2;
        assert(attempted(
            states[last],
            steps[last],
            states[last + 1],
            steps[last + 1],
            accepting,
        ));
        let tried = (steps[last]->Try_0)@;
        let state = before.last();
        let after = states.last();
        if !accepting.contains(tried) {
            lemma_failures_use_up_live_servers(state, tried, after);
            assert forall|ip: Seq<char>| #[trigger] after.alive.contains(
                ip,
            ) implies states[0].alive.contains(ip) by {
                lemma_taken_out_keeps_others(state.alive, tried, after.alive, ip);
            }
            assert forall|ip: Seq<char>| #[trigger]
                states[0].alive.contains(ip) && accepting.contains(
                    ip,
                ) implies after.alive.contains(ip) by {
                lemma_taken_out_keeps_others(state.alive, tried, after.alive, ip);
            }
        }
    }
}

/// Connecting a client ends, after no more failures than there are live
/// servers. Where a live server accepts, it ends connected, after fewer
/// failures than that. No live server is left exactly if none accepts, and
/// then each has been tried.
pub proof fn lemma_connecting_ends(
    states: Seq<ProxyView>,
    steps: Seq<ConnectStep>,
    accepting: Set<Seq<char>>,
)
    requires
        connecting(states, steps, accepting),
    ensures
        failures(steps) <= states[0].alive.len(),
        steps.len() <= states[0].alive.len() + 1,
        some_accepts(states[0].alive, accepting) ==> {
            &&& steps.last() !is NoneLeft
            &&& failures(steps) <= states[0].alive.len() - 1
        },
        !some_accepts(states[0].alive, accepting) ==> steps.last() !is Connected,
        steps.last() is NoneLeft ==> failures(steps) == states[0].alive.len(),
        steps.len() == states[0].alive.len() + 1 ==> steps.last() !is Try,
{
    lemma_connecting_keeps_accepting_servers(states, steps, accepting);
    if some_accepts(states[0].alive, accepting) {
        let ip = choose|ip: Seq<char>| #[trigger]
            states[0].alive.contains(ip) && accepting.contains(ip);
        assert(states.last().alive.contains(ip));
    }
    if steps.last() is Connected {
        let ip = choose|ip: Seq<char>| #[trigger]
            states.last().alive.contains(ip) && accepting.contains(ip);
        assert(states[0].alive.contains(ip));
    }
}

/// Why a client's request could not be read.
#[derive(Clone, Copy, Debug, PartialEq, Eq, Structural)]
pub enum RequestError {
    /// The client stopped after this many bytes.
    IncompleteRequest(usize),
    /// The request is not well-formed.
    MalformedRequest,
    /// The length of the body is not a number.
    InvalidContentLength,
    /// The body is not as long as was said.
    ContentLengthMismatch,
    /// The body is too large.
    RequestBodyTooLarge,
    /// The connection broke.
    ConnectionError,
}

/// `400 Bad Request`.
pub const BAD_REQUEST: u16 = 400;

/// `413 Payload Too Large`.
pub const PAYLOAD_TOO_LARGE: u16 = 413;

/// `429 Too Many Requests`.
pub const TOO_MANY_REQUESTS: u16 = 429;

/// `502 Bad Gateway`.
pub const BAD_GATEWAY: u16 = 502;

/// `503 Service Unavailable`.
pub const SERVICE_UNAVAILABLE: u16 = 503;

/// The status that answers a request that could not be read.
pub open spec fn status_of(error: RequestError) -> u16 {
    match error {
        RequestError::IncompleteRequest(_) => BAD_REQUEST,
        RequestError::MalformedRequest => BAD_REQUEST,
        RequestError::InvalidContentLength => BAD_REQUEST,
        RequestError::ContentLengthMismatch => BAD_REQUEST,
        RequestError::RequestBodyTooLarge => PAYLOAD_TOO_LARGE,
        RequestError::ConnectionError => SERVICE_UNAVAILABLE,
    }
}

/// The status that answers a request that could not be read.
pub fn error_status(error: RequestError) -> (r: u16)
    ensures
        r == status_of(error),
{
    match error {
        RequestError::IncompleteRequest(_) => BAD_REQUEST,
        RequestError::MalformedRequest => BAD_REQUEST,
        RequestError::InvalidContentLength => BAD_REQUEST,
        RequestError::ContentLengthMismatch => BAD_REQUEST,
        RequestError::RequestBodyTooLarge => PAYLOAD_TOO_LARGE,
        RequestError::ConnectionError => SERVICE_UNAVAILABLE,
    }
}

/// What a connection waits for.
#[derive(Clone, Copy, Debug, PartialEq, Eq, Structural)]
pub enum ConnectionPhase {
    /// A connection to a server.
    Connecting,
    /// A request of the client.
    Reading,
    /// The forwarding of a request to the server.
    Forwarding,
    /// The response of the server.
    Awaiting,
    /// Nothing: the connection is over.
    Closed,
}

/// What happens to a connection.
#[derive(Clone, Copy, Debug, PartialEq, Eq, Structural)]
pub enum ConnectionEvent {
    /// The server was connected, or not.
    Connected(bool),
    /// A request of the client was read.
    RequestRead,
    /// A request of the client could not be read.
    RequestFailed(RequestError),
    /// The request was forwarded to the server, or not.
    Forwarded(bool),
    /// The response of the server was read, or not.
    ResponseRead(bool),
}

/// What is to be done for a connection.
#[derive(Clone, Copy, Debug, PartialEq, Eq, Structural)]
pub enum ConnectionAction {
    /// Read the next request of the client.
    ReadRequest,
    /// Answer the client with this status, then read its next request.
    Refuse(u16),
    /// Answer the client with this status, then close the connection.
    GiveUp(u16),
    /// Add the client's address to the request's header, then forward the
    /// request to the server.
    Forward,
    /// Read the response of the server.
    ReadResponse,
    /// Send the response to the client, then read its next request.
    Relay,
    /// Close the connection.
    Close,
}

/// The connection of a client.
#[derive(Debug)]
pub struct Connection {
    /// The address of the client.
    pub client_ip: String,
    /// What the connection waits for.
    pub phase: ConnectionPhase,
}

/// Whether an event is one that a phase waits for.
pub open spec fn awaits(phase: ConnectionPhase, event: ConnectionEvent) -> bool {
    match event {
        ConnectionEvent::Connected(_) => phase == ConnectionPhase::Connecting,
        ConnectionEvent::RequestRead => phase == ConnectionPhase::Reading,
        ConnectionEvent::RequestFailed(_) => phase == ConnectionPhase::Reading,
        ConnectionEvent::Forwarded(_) => phase == ConnectionPhase::Forwarding,
        ConnectionEvent::ResponseRead(_) => phase == ConnectionPhase::Awaiting,
    }
}

/// What is to be done after an event. A request is judged by whether the
/// limiter has let it pass.
pub open spec fn reaction(event: ConnectionEvent, passed: bool) -> ConnectionAction {
    match event {
        ConnectionEvent::Connected(true) => ConnectionAction::ReadRequest,
        ConnectionEvent::Connected(false) => ConnectionAction::GiveUp(BAD_GATEWAY),
        ConnectionEvent::RequestRead => if passed {
            ConnectionAction::Forward
        } else {
            ConnectionAction::Refuse(TOO_MANY_REQUESTS)
        },
        ConnectionEvent::RequestFailed(RequestError::IncompleteRequest(0)) =>
            ConnectionAction::Close,
        ConnectionEvent::RequestFailed(RequestError::ConnectionError) => ConnectionAction::Close,
        ConnectionEvent::RequestFailed(error) => ConnectionAction::Refuse(status_of(error)),
        ConnectionEvent::Forwarded(true) => ConnectionAction::ReadResponse,
        ConnectionEvent::Forwarded(false) => ConnectionAction::GiveUp(BAD_GATEWAY),
        ConnectionEvent::ResponseRead(true) => ConnectionAction::Relay,
        ConnectionEvent::ResponseRead(false) => ConnectionAction::GiveUp(BAD_GATEWAY),
    }
}

/// The phase that follows an action.
pub open spec fn phase_after(action: ConnectionAction) -> ConnectionPhase {
    match action {
        ConnectionAction::ReadRequest => ConnectionPhase::Reading,
        ConnectionAction::Refuse(_) => ConnectionPhase::Reading,
        ConnectionAction::Relay => ConnectionPhase::Reading,
        ConnectionAction::Forward => ConnectionPhase::Forwarding,
        ConnectionAction::ReadResponse => ConnectionPhase::Awaiting,
        ConnectionAction::GiveUp(_) => ConnectionPhase::Closed,
        ConnectionAction::Close => ConnectionPhase::Closed,
    }
}

impl Connection {
    /// A new connection of a client. It waits for a server.
    pub fn new(client_ip: String) -> (r: Connection)
        ensures
            r.client_ip == client_ip,
            r.phase == ConnectionPhase::Connecting,
    {
        Connection { client_ip, phase: ConnectionPhase::Connecting }
    }

    /// Whether an event is one that the connection waits for.
    pub fn awaits(&self, event: ConnectionEvent) -> (r: bool)
        ensures
            r == awaits(self.phase, event),
    {
        match event {
            ConnectionEvent::Connected(_) => self.phase == ConnectionPhase::Connecting,
            ConnectionEvent::RequestRead => self.phase == ConnectionPhase::Reading,
            ConnectionEvent::RequestFailed(_) => self.phase == ConnectionPhase::Reading,
            ConnectionEvent::Forwarded(_) => self.phase == ConnectionPhase::Forwarding,
            ConnectionEvent::ResponseRead(_) => self.phase == ConnectionPhase::Awaiting,
        }
    }

    /// The header to extend in a forwarded request, and the value to extend it
    /// by: the client's address.
    pub fn forwarded_for(&self) -> (r: (String, String))
        ensures
            r.0@ == "x-forwarded-for"@,
            r.1@ == self.client_ip@,
    {
        ("x-forwarded-for".to_owned(), self.client_ip.clone())
    }

    /// Handles an event of the connection. A request that was read is counted
    /// for the client.
    pub fn handle_connection(
        &mut self,
        event: ConnectionEvent,
        state: &mut ProxyState,
    ) -> (r: ConnectionAction)
        requires
            awaits(old(self).phase, event),
        ensures
            r == reaction(event, old(state)@.accepts_request(old(self).client_ip@)),
            final(self).client_ip == old(self).client_ip,
            final(self).phase == phase_after(r),
            event == ConnectionEvent::RequestRead ==> final(state)@ == old(state)@.requested(
                old(self).client_ip@,
            ),
            event != ConnectionEvent::RequestRead ==> final(state)@ == old(state)@,
    {
        let action = match event {
            ConnectionEvent::Connected(true) => ConnectionAction::ReadRequest,
            ConnectionEvent::Connected(false) => ConnectionAction::GiveUp(BAD_GATEWAY),
            ConnectionEvent::RequestRead => if state.count_request(&self.client_ip) {
                ConnectionAction::Forward
            } else {
                ConnectionAction::Refuse(TOO_MANY_REQUESTS)
            },
            ConnectionEvent::RequestFailed(RequestError::IncompleteRequest(0)) =>
                ConnectionAction::Close,
            ConnectionEvent::RequestFailed(RequestError::ConnectionError) =>
                ConnectionAction::Close,
            ConnectionEvent::RequestFailed(error) => ConnectionAction::Refuse(error_status(error)),
            ConnectionEvent::Forwarded(true) => ConnectionAction::ReadResponse,
            ConnectionEvent::Forwarded(false) => ConnectionAction::GiveUp(BAD_GATEWAY),
            ConnectionEvent::ResponseRead(true) => ConnectionAction::Relay,
            ConnectionEvent::ResponseRead(false) => ConnectionAction::GiveUp(BAD_GATEWAY),
        };
        self.phase = match action {
            ConnectionAction::ReadRequest => ConnectionPhase::Reading,
            ConnectionAction::Refuse(_) => ConnectionPhase::Reading,
            ConnectionAction::Relay => ConnectionPhase::Reading,
            ConnectionAction::Forward => ConnectionPhase::Forwarding,
            ConnectionAction::ReadResponse => ConnectionPhase::Awaiting,
            ConnectionAction::GiveUp(_) => ConnectionPhase::Closed,
            ConnectionAction::Close => ConnectionPhase::Closed,
        };
        action
    }
}

/// A request beyond the limit is answered with `429 Too Many Requests`. It
/// changes nothing, and the connection goes on with the client's next request.
pub proof fn lemma_refused_request(state: ProxyView, client_ip: Seq<char>)
    requires
        !state.accepts_request(client_ip),
    ensures
        reaction(ConnectionEvent::RequestRead, state.accepts_request(client_ip))
            == ConnectionAction::Refuse(TOO_MANY_REQUESTS),
        state.requested(client_ip) == state,
        phase_after(ConnectionAction::Refuse(TOO_MANY_REQUESTS)) == ConnectionPhase::Reading,
{
}

/// Only requests that were read and let pass are forwarded, and only forwarded
/// requests are answered by a server's response.
pub proof fn lemma_only_accepted_requests_are_forwarded(
    phase: ConnectionPhase,
    event: ConnectionEvent,
    passed: bool,
)
    requires
        awaits(phase, event),
    ensures
        reaction(event, passed) == ConnectionAction::Forward <==> event
            == ConnectionEvent::RequestRead && passed,
        reaction(event, passed) == ConnectionAction::ReadResponse ==> phase
            == ConnectionPhase::Forwarding,
        reaction(event, passed) == ConnectionAction::Relay ==> phase == ConnectionPhase::Awaiting,
        phase_after(reaction(event, passed)) == ConnectionPhase::Forwarding <==> reaction(
            event,
            passed,
        ) == ConnectionAction::Forward,
        phase_after(reaction(event, passed)) == ConnectionPhase::Awaiting <==> reaction(
            event,
            passed,
        ) == ConnectionAction::ReadResponse,
{
}

/// A failed attempt leaves every live server in its place, but for the one
/// that was tried, whose place the last one takes. The one that was tried is
/// the last of the failed ones. All else stays as it was.
pub proof fn lemma_failure_by_place(state: ProxyView, ip: Seq<char>, after: ProxyView, place: int)
    requires
        state.failed_over(ip, after),
        0 <= place <= state.alive.len(),
        forall|j: int| 0 <= j < place ==> state.alive[j] != ip,
        place < state.alive.len() ==> state.alive[place] == ip,
    ensures
        place == state.alive.len() ==> after.alive == state.alive,
        place < state.alive.len() ==> {
            &&& after.alive.len() == state.alive.len() - 1
            &&& forall|j: int|
                0 <= j < after.alive.len() ==> #[trigger] after.alive[j] == if j == place {
                    state.alive[state.alive.len() - 1]
                } else {
                    state.alive[j]
                }
        },
        after.failed == state.failed + seq![ip],
        after.counts == state.counts,
        after.interval == state.interval,
        after.path == state.path,
        after.max_requests == state.max_requests,
{
    lemma_taken_out_by_place(state.alive, ip, after.alive, place);
    assert(after.failed =~= state.failed + seq![ip]);
}

/// After a check the live servers are those whose own check was good, and the
/// failed ones are those whose own check was not. All else stays as it was.
pub proof fn lemma_check_decides(
    state: ProxyView,
    ips: Seq<Seq<char>>,
    active: Seq<bool>,
    ip: Seq<char>,
)
    requires
        active.len() == ips.len(),
    ensures
        ({
            let after = state.checked(ips, active);
            &&& after.alive.contains(ip) <==> exists|i: int|
                0 <= i < ips.len() && #[trigger] ips[i] == ip && active[i]
            &&& after.failed.contains(ip) <==> exists|i: int|
                0 <= i < ips.len() && #[trigger] ips[i] == ip && !active[i]
            &&& after.alive.len() + after.failed.len() == ips.len()
            &&& after.counts == state.counts
            &&& after.interval == state.interval
            &&& after.path == state.path
            &&& after.max_requests == state.max_requests
        }),
{
    lemma_own_check_decides(ips, active, true, ip);
    lemma_own_check_decides(ips, active, false, ip);
    lemma_check_keeps_servers(ips, active);
    let after = state.checked(ips, active);
    after.alive.to_multiset_ensures();
    after.failed.to_multiset_ensures();
    ips.to_multiset_ensures();
    assert(after.alive.to_multiset().add(after.failed.to_multiset()).len() == ips.len()) by {
        broadcast use vstd::multiset::group_multiset_axioms;

    }
}

/// A check keeps the servers in the order in which they were checked: the live
/// ones are at all places whose check was good, and the failed ones at all
/// others.
pub proof fn lemma_check_keeps_order(
    state: ProxyView,
    ips: Seq<Seq<char>>,
    active: Seq<bool>,
) -> (places: (Seq<int>, Seq<int>))
    requires
        active.len() == ips.len(),
    ensures
        all_places(active, true, places.0),
        all_places(active, false, places.1),
        state.checked(ips, active).alive == places.0.map_values(|i: int| ips[i]),
        state.checked(ips, active).failed == places.1.map_values(|i: int| ips[i]),
{
    let alive = lemma_flagged_places(ips, active, true);
    let failed = lemma_flagged_places(ips, active, false);
    assert(state.checked(ips, active).alive =~= alive.map_values(|i: int| ips[i]));
    assert(state.checked(ips, active).failed =~= failed.map_values(|i: int| ips[i]));
    (alive, failed)
}

/// The state after the requests of these clients, in this order.
pub open spec fn after_requests(state: ProxyView, clients: Seq<Seq<char>>) -> ProxyView
    decreases clients.len(),
{
    if clients.len() == 0 {
        state
    } else {
        after_requests(state, clients.drop_last()).requested(clients.last())
    }
}

/// The law of the limit: whatever others ask, each client has as many requests
/// accepted as the limit allows since the counts were cleared, and no more. A
/// limit of zero is none. Requests change nothing but the counts.
pub proof fn lemma_requests_are_limited(
    state: ProxyView,
    clients: Seq<Seq<char>>,
    client_ip: Seq<char>,
)
    requires
        state.counts == Map::<Seq<char>, usize>::empty(),
    ensures
        after_requests(state, clients).accepts_request(client_ip) <==> state.max_requests == 0
            || requests_of(clients, client_ip) < state.max_requests,
        after_requests(state, clients).alive == state.alive,
        after_requests(state, clients).failed == state.failed,
        after_requests(state, clients).interval == state.interval,
        after_requests(state, clients).path == state.path,
        after_requests(state, clients).max_requests == state.max_requests,
        after_requests(state, clients).counts == counts_since_clear(clients, state.max_requests),
    decreases clients.len(),
{
    lemma_limit_is_kept(clients, client_ip, state.max_requests);
    if clients.len() > 0 {
        lemma_requests_are_limited(state, clients.drop_last(), client_ip);
    }
}

/// A client that has gone, before a request or in the middle of a connection
/// that broke, is not answered. Every other request that could not be read is
/// answered: one whose body is too large so, and all others as bad ones. The
/// connection then goes on with the next request.
pub proof fn lemma_unreadable_requests(error: RequestError, passed: bool)
    ensures
        ({
            let action = reaction(ConnectionEvent::RequestFailed(error), passed);
            let gone = error == RequestError::IncompleteRequest(0) || error
                == RequestError::ConnectionError;
            &&& gone ==> action == ConnectionAction::Close
            &&& !gone && error == RequestError::RequestBodyTooLarge ==> action
                == ConnectionAction::Refuse(413)
            &&& !gone && error != RequestError::RequestBodyTooLarge ==> action
                == ConnectionAction::Refuse(400)
            &&& phase_after(action) == if gone {
                ConnectionPhase::Closed
            } else {
                ConnectionPhase::Reading
            }
        }),
{
}

/// The status for a request that could not be read is that of a bad request,
/// unless the body was too large or the connection broke.
pub proof fn lemma_error_status(error: RequestError, status: u16)
    requires
        call_ensures(error_status, (error,), status),
    ensures
        status == 413 <==> error == RequestError::RequestBodyTooLarge,
        status == 503 <==> error == RequestError::ConnectionError,
        status == 400 || status == 413 || status == 503,
{
}

/// A server that cannot be reached, does not take a request or does not answer
/// it is a bad gateway, and ends the connection. What goes well goes on: from
/// the server to the first request, from a forwarded request to its response,
/// and from the response to the client.
pub proof fn lemma_server_events(well: bool, passed: bool)
    ensures
        reaction(ConnectionEvent::Connected(well), passed) == if well {
            ConnectionAction::ReadRequest
        } else {
            ConnectionAction::GiveUp(502)
        },
        reaction(ConnectionEvent::Forwarded(well), passed) == if well {
            ConnectionAction::ReadResponse
        } else {
            ConnectionAction::GiveUp(502)
        },
        reaction(ConnectionEvent::ResponseRead(well), passed) == if well {
            ConnectionAction::Relay
        } else {
            ConnectionAction::GiveUp(502)
        },
        phase_after(ConnectionAction::GiveUp(502)) == ConnectionPhase::Closed,
        reaction(ConnectionEvent::RequestRead, true) == ConnectionAction::Forward,
        reaction(ConnectionEvent::RequestRead, false) == ConnectionAction::Refuse(429),
{
}

/// What a connection waits for after an action is what answers the action: a
/// request after those that ask for one, whatever status was sent, and nothing
/// after the end.
pub proof fn lemma_actions_are_answered(
    action: ConnectionAction,
    event: ConnectionEvent,
    status: u16,
)
    ensures
        awaits(ConnectionPhase::Connecting, event) <==> event is Connected,
        action == ConnectionAction::ReadRequest || action == ConnectionAction::Relay || action
            == ConnectionAction::Refuse(status) ==> (awaits(phase_after(action), event)
            <==> event is RequestRead || event is RequestFailed),
        action == ConnectionAction::Forward ==> (awaits(phase_after(action), event)
            <==> event is Forwarded),
        action == ConnectionAction::ReadResponse ==> (awaits(phase_after(action), event)
            <==> event is ResponseRead),
        action == ConnectionAction::Close || action == ConnectionAction::GiveUp(status)
            ==> !awaits(phase_after(action), event),
{
}

/// The server learns of the client by its address, under one name.
pub proof fn lemma_forwarded_for(connection: Connection, header: (String, String))
    requires
        call_ensures(Connection::forwarded_for, (&connection,), header),
    ensures
        header.0@ == "x-forwarded-for"@,
        header.1@ == connection.client_ip@,
{
}

/// A state at the start has the settings and the servers of its options, each
/// server alive and in its place. There is one exactly if there is a server.
pub proof fn lemma_state_at_the_start(options: CmdOptions, r: Option<ProxyState>)
    requires
        call_ensures(ProxyState::new, (options,), r),
    ensures
        r is Some <==> options.upstream@.len() > 0,
        r matches Some(state) ==> {
            &&& state.active_health_check_interval == options.active_health_check_interval
            &&& state.active_health_check_path@ == options.active_health_check_path@
            &&& state.max_requests_per_minute == options.max_requests_per_minute
            &&& state.upstream_addresses@.len() == options.upstream@.len()
            &&& forall|i: int|
                0 <= i < options.upstream@.len() ==> (#[trigger] state.upstream_addresses@[i])@
                    == options.upstream@[i]@
            &&& state.failed_upstream_addresses@.len() == 0
            &&& forall|client_ip: Seq<char>| !#[trigger] state.request_counter@.contains_key(
                client_ip,
            )
        },
{
    if let Some(state) = r {
        assert(state@.alive.len() == state.upstream_addresses@.len());
        assert(state@.failed.len() == state.failed_upstream_addresses@.len());
        assert forall|i: int| 0 <= i < options.upstream@.len() implies (
        #[trigger] state.upstream_addresses@[i])@ == options.upstream@[i]@ by {
            assert(state@.alive[i] == state.upstream_addresses@[i]@);
            assert(views(options.upstream@)[i] == options.upstream@[i]@);
        }
    }
}

/// A state shows its fields as they are, and its servers one by one.
pub proof fn lemma_state_view(state: ProxyState)
    ensures
        state@.interval == state.active_health_check_interval,
        state@.path == state.active_health_check_path@,
        state@.max_requests == state.max_requests_per_minute,
        state@.alive.len() == state.upstream_addresses@.len(),
        forall|i: int|
            0 <= i < state@.alive.len() ==> #[trigger] state@.alive[i]
                == state.upstream_addresses@[i]@,
        state@.failed.len() == state.failed_upstream_addresses@.len(),
        forall|i: int|
            0 <= i < state@.failed.len() ==> #[trigger] state@.failed[i]
                == state.failed_upstream_addresses@[i]@,
        state@.counts == state.request_counter@,
{
}

} // verus!
