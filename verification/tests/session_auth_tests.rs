//! Session expiry, the login state machine and the session-file line.

use ygege::auth::{
    add_bypass_headers, is_challenge_cookie, login_step, FlowState, LoginAction, LoginEvent,
};
use ygege::session::{check_session_expired, format_cookies, parse_cookies};
use ygege::YggError;

#[test]
fn expiry_on_redirect_status() {
    assert!(check_session_expired(307, "https://example.org/"));
}

#[test]
fn expiry_on_login_url() {
    assert!(check_session_expired(200, "https://example.org/auth/login"));
}

#[test]
fn no_expiry_on_ordinary_response() {
    assert!(!check_session_expired(200, "https://example.org/engine/search?name=a"));
    assert!(!check_session_expired(404, "https://example.org/nowhere"));
}

#[test]
fn login_happy_path_without_session() {
    let (s, a) = login_step(FlowState::Idle, false, &LoginEvent::Start {
        has_stored_session: false,
    });
    assert_eq!(s, FlowState::FetchingLoginPage);
    assert_eq!(a, LoginAction::ClearAndFetchLoginPage);
    let (s, a) = login_step(s, false, &LoginEvent::LoginPageResult {
        status: 200,
        has_challenge_cookie: true,
    });
    assert_eq!(s, FlowState::Submitting);
    assert_eq!(a, LoginAction::SubmitCredentials);
    let (s, a) = login_step(s, false, &LoginEvent::SubmitResult { status: 200 });
    assert_eq!(s, FlowState::Finalizing);
    assert_eq!(a, LoginAction::FetchRoot);
    let (s, a) = login_step(s, false, &LoginEvent::RootResult { status: 200 });
    assert_eq!(s, FlowState::Done);
    assert_eq!(a, LoginAction::Finish);
}

#[test]
fn login_persists_when_asked() {
    let (s, _) = login_step(FlowState::Finalizing, true, &LoginEvent::RootResult {
        status: 200,
    });
    assert_eq!(s, FlowState::Persisting);
    let (s, a) = login_step(s, true, &LoginEvent::Persisted);
    assert_eq!(s, FlowState::Done);
    assert_eq!(a, LoginAction::Finish);
}

#[test]
fn login_fast_path_restores_session() {
    let (s, a) = login_step(FlowState::Idle, true, &LoginEvent::Start {
        has_stored_session: true,
    });
    assert_eq!(s, FlowState::Restoring);
    assert_eq!(a, LoginAction::RestoreSession);
    let (s, a) = login_step(s, true, &LoginEvent::ProbeResult { status: 200 });
    assert_eq!(s, FlowState::Done);
    assert_eq!(a, LoginAction::Finish);
}

#[test]
fn login_falls_back_when_restore_fails() {
    let (s, a) = login_step(FlowState::Restoring, true, &LoginEvent::ProbeResult {
        status: 307,
    });
    assert_eq!(s, FlowState::FetchingLoginPage);
    assert_eq!(a, LoginAction::ClearAndFetchLoginPage);
}

#[test]
fn missing_challenge_cookie_is_blocked() {
    let (s, a) = login_step(FlowState::FetchingLoginPage, false, &LoginEvent::LoginPageResult {
        status: 200,
        has_challenge_cookie: false,
    });
    assert_eq!(s, FlowState::Failed(YggError::Blocked));
    assert_eq!(a, LoginAction::Fail(YggError::Blocked));
}

#[test]
fn unauthorized_submit_is_invalid_credentials() {
    let (s, a) = login_step(FlowState::Submitting, false, &LoginEvent::SubmitResult {
        status: 401,
    });
    assert_eq!(s, FlowState::Failed(YggError::InvalidCredentials));
    assert_eq!(a, LoginAction::Fail(YggError::InvalidCredentials));
}

#[test]
fn other_submit_failures_are_transport_errors() {
    let (s, _) = login_step(FlowState::Submitting, false, &LoginEvent::SubmitResult {
        status: 503,
    });
    assert_eq!(s, FlowState::Failed(YggError::Transport));
}

#[test]
fn challenge_cookie_name_matches_exactly() {
    assert!(is_challenge_cookie("ygg_"));
    assert!(!is_challenge_cookie("ygg"));
    assert!(!is_challenge_cookie("session"));
}

#[test]
fn bypass_headers_carry_own_address() {
    let hs = add_bypass_headers(Some("203.0.113.7"));
    assert_eq!(hs.len(), 2);
    assert_eq!(hs[0].0, "CF-Connecting-IP");
    assert_eq!(hs[0].1, "203.0.113.7");
    assert_eq!(hs[1].0, "X-Forwarded-For");
    assert_eq!(hs[1].1, "203.0.113.7");
    assert!(add_bypass_headers(None).is_empty());
}

#[test]
fn cookie_line_round_trips() {
    let pairs = vec![
        ("session".to_string(), "abc123".to_string()),
        ("ygg_".to_string(), "tok".to_string()),
    ];
    let line = format_cookies(&pairs);
    assert_eq!(line, "session=abc123; ygg_=tok");
    let back = parse_cookies(line.as_str());
    assert_eq!(back, pairs);
}

#[test]
fn cookie_line_parse_skips_malformed_segments() {
    let back = parse_cookies("  a=1 ;; b ; c=2=3 ; d = 4 ");
    assert_eq!(back, vec![
        ("a".to_string(), "1".to_string()),
        ("d".to_string(), "4".to_string()),
    ]);
}
