use cs110l::health::{health_check_request, is_active, CheckOutcome, InvalidRequest};
use cs110l::limiter::RequestCounter;
use cs110l::proxy::{
    error_status, CmdOptions, ConnectStep, Connection, ConnectionAction, ConnectionEvent,
    ConnectionPhase, ProxyState, RequestError, BAD_GATEWAY, BAD_REQUEST, PAYLOAD_TOO_LARGE,
    SERVICE_UNAVAILABLE, TOO_MANY_REQUESTS,
};
use cs110l::upstreams::{check_targets, mark_failed, pick_upstream, split_by_health, upstream_at};

fn strings(texts: &[&str]) -> Vec<String> {
    texts.iter().map(|s| s.to_string()).collect()
}

fn options(upstream: &[&str], max_requests_per_minute: usize) -> CmdOptions {
    CmdOptions {
        bind: "0.0.0.0:1100".to_string(),
        upstream: strings(upstream),
        active_health_check_interval: 2000,
        active_health_check_path: "/".to_string(),
        max_requests_per_minute,
    }
}

fn state(upstream: &[&str], max: usize) -> ProxyState {
    ProxyState::new(options(upstream, max)).unwrap()
}

#[test]
fn statuses_are_those_of_http() {
    assert_eq!(BAD_REQUEST, http::StatusCode::BAD_REQUEST.as_u16());
    assert_eq!(PAYLOAD_TOO_LARGE, http::StatusCode::PAYLOAD_TOO_LARGE.as_u16());
    assert_eq!(TOO_MANY_REQUESTS, http::StatusCode::TOO_MANY_REQUESTS.as_u16());
    assert_eq!(BAD_GATEWAY, http::StatusCode::BAD_GATEWAY.as_u16());
    assert_eq!(SERVICE_UNAVAILABLE, http::StatusCode::SERVICE_UNAVAILABLE.as_u16());
}

#[test]
fn at_least_one_server_is_needed() {
    assert!(ProxyState::new(options(&[], 100)).is_none());
    let state = state(&["a", "b"], 100);
    assert_eq!(state.upstream_addresses, strings(&["a", "b"]));
    assert!(state.failed_upstream_addresses.is_empty());
    assert_eq!(state.active_health_check_interval, 2000);
    assert_eq!(state.active_health_check_path, "/");
    assert_eq!(state.max_requests_per_minute, 100);
}

#[test]
fn the_limit_is_per_client_and_until_the_counts_are_cleared() {
    let mut counter = RequestCounter::new();
    let (a, b) = ("10.0.0.1".to_string(), "10.0.0.2".to_string());
    assert!(counter.count_request(&a, 2));
    assert!(counter.count_request(&b, 2));
    assert!(counter.count_request(&a, 2));
    assert!(!counter.count_request(&a, 2));
    assert!(!counter.count_request(&a, 2));
    assert!(counter.count_request(&b, 2));
    assert!(!counter.count_request(&b, 2));
    counter.clear();
    assert!(counter.count_request(&a, 2));
}

#[test]
fn a_limit_of_zero_is_no_limit() {
    let mut counter = RequestCounter::new();
    let client = "10.0.0.1".to_string();
    for _ in 0..1000 {
        assert!(counter.count_request(&client, 0));
    }
}

#[test]
fn a_live_server_is_picked() {
    let upstreams = strings(&["a", "b", "c"]);
    let mut seen = [false; 3];
    for _ in 0..500 {
        let picked = pick_upstream(&upstreams).unwrap();
        seen[upstreams.iter().position(|ip| *ip == picked).unwrap()] = true;
    }
    assert_eq!(seen, [true; 3]);
    assert_eq!(pick_upstream(&vec![]), None);
    assert_eq!(upstream_at(&upstreams, 1), Some("b".to_string()));
    assert_eq!(upstream_at(&upstreams, 3), None);
}

#[test]
fn a_server_that_fails_is_moved() {
    let (mut alive, mut failed) = (strings(&["a", "b", "c", "a"]), strings(&["x"]));
    mark_failed(&mut alive, &mut failed, "a".to_string());
    assert_eq!(alive, strings(&["a", "b", "c"]));
    mark_failed(&mut alive, &mut failed, "a".to_string());
    assert_eq!(alive, strings(&["c", "b"]));
    mark_failed(&mut alive, &mut failed, "b".to_string());
    assert_eq!(alive, strings(&["c"]));
    assert_eq!(failed, strings(&["x", "a", "a", "b"]));
}

#[test]
fn a_server_that_is_gone_is_still_marked() {
    let (mut alive, mut failed) = (strings(&["a"]), vec![]);
    mark_failed(&mut alive, &mut failed, "b".to_string());
    assert_eq!(alive, strings(&["a"]));
    assert_eq!(failed, strings(&["b"]));
}

#[test]
fn a_check_splits_the_servers() {
    let ips = check_targets(&strings(&["a", "b"]), &strings(&["c", "d"]));
    assert_eq!(ips, strings(&["a", "b", "c", "d"]));
    let (alive, failed) = split_by_health(ips, &vec![true, false, false, true]);
    assert_eq!(alive, strings(&["a", "d"]));
    assert_eq!(failed, strings(&["b", "c"]));
}

#[test]
fn attempts_end_when_no_server_is_left() {
    let mut state = state(&["a", "b"], 100);
    let mut step = state.connect_to_upstream(None);
    let mut tried = vec![];
    while let ConnectStep::Try(ip) = step {
        tried.push(ip.clone());
        step = state.connect_to_upstream(Some((ip, false)));
    }
    assert!(matches!(step, ConnectStep::NoneLeft));
    tried.sort();
    assert_eq!(tried, strings(&["a", "b"]));
    assert!(state.upstream_addresses.is_empty());
    state.failed_upstream_addresses.sort();
    assert_eq!(state.failed_upstream_addresses, strings(&["a", "b"]));
}

#[test]
fn attempts_end_at_a_server_that_accepts() {
    for _ in 0..20 {
        let mut state = state(&["a", "b", "c", "d"], 100);
        let mut step = state.connect_to_upstream(None);
        let mut failures = 0;
        while let ConnectStep::Try(ip) = step {
            let connected = ip == "c";
            if !connected {
                failures += 1;
            }
            step = state.connect_to_upstream(Some((ip, connected)));
        }
        assert!(matches!(step, ConnectStep::Connected));
        assert!(failures <= 3);
        assert!(state.upstream_addresses.contains(&"c".to_string()));
        assert_eq!(state.upstream_addresses.len(), 4 - failures);
        assert_eq!(state.failed_upstream_addresses.len(), failures);
    }
}

#[test]
fn an_attempt_that_succeeds_changes_nothing() {
    let mut state = state(&["a", "b"], 100);
    let step = state.connect_to_upstream(Some(("a".to_string(), true)));
    assert!(matches!(step, ConnectStep::Connected));
    assert_eq!(state.upstream_addresses, strings(&["a", "b"]));
    assert!(state.failed_upstream_addresses.is_empty());
}

#[test]
fn checks_and_failures_forget_no_server() {
    let mut state = state(&["a", "b", "c"], 100);
    state.connect_to_upstream_once("b".to_string(), false);
    let ips = state.start_active_check();
    assert_eq!(ips, strings(&["a", "c", "b"]));
    state.connect_to_upstream_once("a".to_string(), false);
    state.finish_active_check(ips, &vec![false, true, true]);
    assert_eq!(state.upstream_addresses, strings(&["c", "b"]));
    assert_eq!(state.failed_upstream_addresses, strings(&["a"]));
}

#[test]
fn a_check_asks_for_the_path() {
    let request = health_check_request(&"127.0.0.1:80".to_string(), &"/health?x=1".to_string());
    let request = request.unwrap();
    assert_eq!(request.method, "GET");
    assert_eq!(request.uri, "/health?x=1");
    assert_eq!(request.header_name, "host");
    assert_eq!(request.header_value, b"127.0.0.1:80".to_vec());
    assert!(request.body.is_empty());
}

#[test]
fn a_check_keeps_the_bytes_of_its_host_and_drops_a_fragment() {
    let request = health_check_request(&"é".to_string(), &"/a#b".to_string()).unwrap();
    assert_eq!(request.header_value, "é".as_bytes().to_vec());
    assert_eq!(request.uri, "/a");
}

#[test]
fn a_check_that_cannot_be_asked_is_an_error() {
    let host = "127.0.0.1:80".to_string();
    assert_eq!(health_check_request(&host, &"/a b".to_string()).err(), Some(InvalidRequest));
    assert_eq!(health_check_request(&host, &"".to_string()).err(), Some(InvalidRequest));
    assert_eq!(
        health_check_request(&"a\nb".to_string(), &"/".to_string()).err(),
        Some(InvalidRequest)
    );
}

#[test]
fn only_a_good_answer_is_a_sign_of_life() {
    assert!(is_active(CheckOutcome::Answered(200)));
    for outcome in [
        CheckOutcome::Answered(204),
        CheckOutcome::Answered(500),
        CheckOutcome::Unreachable,
        CheckOutcome::NotSent,
        CheckOutcome::NoResponse,
    ] {
        assert!(!is_active(outcome));
    }
}

#[test]
fn unreadable_requests_have_their_statuses() {
    assert_eq!(error_status(RequestError::IncompleteRequest(5)), 400);
    assert_eq!(error_status(RequestError::MalformedRequest), 400);
    assert_eq!(error_status(RequestError::InvalidContentLength), 400);
    assert_eq!(error_status(RequestError::ContentLengthMismatch), 400);
    assert_eq!(error_status(RequestError::RequestBodyTooLarge), 413);
    assert_eq!(error_status(RequestError::ConnectionError), 503);
}

#[test]
fn a_request_goes_to_the_server_and_back() {
    let mut state = state(&["a"], 1);
    let mut connection = Connection::new("10.0.0.1".to_string());
    assert_eq!(connection.phase, ConnectionPhase::Connecting);
    let events = [
        (ConnectionEvent::Connected(true), ConnectionAction::ReadRequest),
        (ConnectionEvent::RequestRead, ConnectionAction::Forward),
        (ConnectionEvent::Forwarded(true), ConnectionAction::ReadResponse),
        (ConnectionEvent::ResponseRead(true), ConnectionAction::Relay),
        (ConnectionEvent::RequestRead, ConnectionAction::Refuse(429)),
        (
            ConnectionEvent::RequestFailed(RequestError::MalformedRequest),
            ConnectionAction::Refuse(400),
        ),
        (
            ConnectionEvent::RequestFailed(RequestError::IncompleteRequest(0)),
            ConnectionAction::Close,
        ),
    ];
    for (event, action) in events {
        assert!(connection.awaits(event));
        assert_eq!(connection.handle_connection(event, &mut state), action);
    }
    assert_eq!(connection.phase, ConnectionPhase::Closed);
    assert!(!connection.awaits(ConnectionEvent::RequestRead));
}

#[test]
fn a_refused_client_is_served_again_after_a_minute() {
    let mut state = state(&["a"], 1);
    let mut connection = Connection::new("10.0.0.1".to_string());
    connection.handle_connection(ConnectionEvent::Connected(true), &mut state);
    assert!(state.count_request(&"10.0.0.1".to_string()));
    let refused = connection.handle_connection(ConnectionEvent::RequestRead, &mut state);
    assert_eq!(refused, ConnectionAction::Refuse(429));
    state.clear_counter();
    let served = connection.handle_connection(ConnectionEvent::RequestRead, &mut state);
    assert_eq!(served, ConnectionAction::Forward);
}

#[test]
fn a_server_that_breaks_is_a_bad_gateway() {
    for (setup, event) in [
        (vec![], ConnectionEvent::Connected(false)),
        (
            vec![ConnectionEvent::Connected(true), ConnectionEvent::RequestRead],
            ConnectionEvent::Forwarded(false),
        ),
        (
            vec![
                ConnectionEvent::Connected(true),
                ConnectionEvent::RequestRead,
                ConnectionEvent::Forwarded(true),
            ],
            ConnectionEvent::ResponseRead(false),
        ),
    ] {
        let mut state = state(&["a"], 100);
        let mut connection = Connection::new("10.0.0.1".to_string());
        for earlier in setup {
            connection.handle_connection(earlier, &mut state);
        }
        let action = connection.handle_connection(event, &mut state);
        assert_eq!(action, ConnectionAction::GiveUp(502));
        assert_eq!(connection.phase, ConnectionPhase::Closed);
    }
}

#[test]
fn a_broken_client_is_dropped() {
    let mut state = state(&["a"], 100);
    let mut connection = Connection::new("10.0.0.1".to_string());
    connection.handle_connection(ConnectionEvent::Connected(true), &mut state);
    let event = ConnectionEvent::RequestFailed(RequestError::ConnectionError);
    assert_eq!(connection.handle_connection(event, &mut state), ConnectionAction::Close);
}

#[test]
fn the_server_learns_of_the_client() {
    let connection = Connection::new("10.0.0.1".to_string());
    let expected = ("x-forwarded-for".to_string(), "10.0.0.1".to_string());
    assert_eq!(connection.forwarded_for(), expected);
}
