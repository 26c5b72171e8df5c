//! The authentication engine: the login flow as a state machine from
//! state and event to next state and action. The runtime around the
//! library performs each action — restoring a stored session, fetching
//! the login page, submitting credentials — and hands the outcome back
//! as the next event.

use vstd::prelude::*;
use crate::errors::YggError;

verus! {

/// Where the login flow stands.
#[derive(Clone, Copy, Debug, PartialEq, Eq, Structural)]
pub enum FlowState {
    /// Logged out; nothing attempted yet.
    Idle,
    /// A stored session was restored and the site root is being probed.
    Restoring,
    /// Cookies cleared, marker cookie injected, login page requested.
    FetchingLoginPage,
    /// Credentials submitted to the login-processing endpoint.
    Submitting,
    /// Fetching the site root to finalize cookies.
    Finalizing,
    /// Writing the cookie jar to the session store.
    Persisting,
    /// Authenticated.
    Done,
    /// The flow failed; the error says how.
    Failed(YggError),
}

/// What the runtime must do next.
#[derive(Clone, Copy, Debug, PartialEq, Eq, Structural)]
pub enum LoginAction {
    /// Load the stored cookies and probe the site root.
    RestoreSession,
    /// Clear cookies, inject the marker cookie, fetch the login page.
    ClearAndFetchLoginPage,
    /// Submit the credentials as form data.
    SubmitCredentials,
    /// Fetch the site root to finalize cookies.
    FetchRoot,
    /// Write the cookie jar to the session store.
    PersistSession,
    /// Nothing: the flow is over.
    Finish,
    /// Nothing: the flow failed with this error.
    Fail(YggError),
}

/// What the runtime observed.
pub enum LoginEvent {
    /// The flow starts; whether a stored session file exists.
    Start { has_stored_session: bool },
    /// The restore probe of the site root came back with this status.
    ProbeResult { status: u16 },
    /// The login page came back: its status, and whether the
    /// anti-automation cookie was present in the response.
    LoginPageResult { status: u16, has_challenge_cookie: bool },
    /// The credential submission came back with this status.
    SubmitResult { status: u16 },
    /// The final fetch of the site root came back with this status.
    RootResult { status: u16 },
    /// The session store write finished.
    Persisted,
}

/// A status code in the success range.
pub open spec fn spec_is_success(status: u16) -> bool {
    200 <= status < 300
}

/// The explicit unauthorized status: wrong credentials, never retried.
pub const UNAUTHORIZED_STATUS: u16 = 401;

/// The whole transition table of the login flow.
///
/// With a stored session the flow first restores it and probes the
/// site root; success authenticates outright. Otherwise it clears
/// cookies, fetches the login page — where the anti-automation cookie
/// must appear, its absence a hard blocked error — submits the
/// credentials — an explicit unauthorized status is an invalid
/// credentials error, never retried, and any other failure a transport
/// error — fetches the site root, and finally persists the cookie jar
/// when the caller asked for that. An event that does not belong to
/// the current state fails the flow with a transport error.
pub open spec fn spec_login_step(state: FlowState, persist: bool, event: LoginEvent) -> (
    FlowState,
    LoginAction,
) {
    match (state, event) {
        (FlowState::Idle, LoginEvent::Start { has_stored_session }) => {
            if persist && has_stored_session {
                (FlowState::Restoring, LoginAction::RestoreSession)
            } else {
                (FlowState::FetchingLoginPage, LoginAction::ClearAndFetchLoginPage)
            }
        },
        (FlowState::Restoring, LoginEvent::ProbeResult { status }) => {
            if spec_is_success(status) {
                (FlowState::Done, LoginAction::Finish)
            } else {
                (FlowState::FetchingLoginPage, LoginAction::ClearAndFetchLoginPage)
            }
        },
        (
            FlowState::FetchingLoginPage,
            LoginEvent::LoginPageResult { status, has_challenge_cookie },
        ) => {
            if !spec_is_success(status) {
                (FlowState::Failed(YggError::Transport), LoginAction::Fail(YggError::Transport))
            } else if !has_challenge_cookie {
                (FlowState::Failed(YggError::Blocked), LoginAction::Fail(YggError::Blocked))
            } else {
                (FlowState::Submitting, LoginAction::SubmitCredentials)
            }
        },
        (FlowState::Submitting, LoginEvent::SubmitResult { status }) => {
            if spec_is_success(status) {
                (FlowState::Finalizing, LoginAction::FetchRoot)
            } else if status == UNAUTHORIZED_STATUS {
                (
                    FlowState::Failed(YggError::InvalidCredentials),
                    LoginAction::Fail(YggError::InvalidCredentials),
                )
            } else {
                (FlowState::Failed(YggError::Transport), LoginAction::Fail(YggError::Transport))
            }
        },
        (FlowState::Finalizing, LoginEvent::RootResult { status }) => {
            if !spec_is_success(status) {
                (FlowState::Failed(YggError::Transport), LoginAction::Fail(YggError::Transport))
            } else if persist {
                (FlowState::Persisting, LoginAction::PersistSession)
            } else {
                (FlowState::Done, LoginAction::Finish)
            }
        },
        (FlowState::Persisting, LoginEvent::Persisted) => (FlowState::Done, LoginAction::Finish),
        _ => (FlowState::Failed(YggError::Transport), LoginAction::Fail(YggError::Transport)),
    }
}

/// Drive the login flow one step: from the current state and the event
/// the runtime observed to the next state and the action to perform.
pub fn login_step(state: FlowState, persist: bool, event: &LoginEvent) -> (r: (
    FlowState,
    LoginAction,
))
    ensures
        r == spec_login_step(state, persist, *event),
{
    match (state, event) {
        (FlowState::Idle, LoginEvent::Start { has_stored_session }) => {
            if persist && *has_stored_session {
                (FlowState::Restoring, LoginAction::RestoreSession)
            } else {
                (FlowState::FetchingLoginPage, LoginAction::ClearAndFetchLoginPage)
            }
        },
        (FlowState::Restoring, LoginEvent::ProbeResult { status }) => {
            if 200 <= *status && *status < 300 {
                (FlowState::Done, LoginAction::Finish)
            } else {
                (FlowState::FetchingLoginPage, LoginAction::ClearAndFetchLoginPage)
            }
        },
        (
            FlowState::FetchingLoginPage,
            LoginEvent::LoginPageResult { status, has_challenge_cookie },
        ) => {
            if !(200 <= *status && *status < 300) {
                (FlowState::Failed(YggError::Transport), LoginAction::Fail(YggError::Transport))
            } else if !*has_challenge_cookie {
                (FlowState::Failed(YggError::Blocked), LoginAction::Fail(YggError::Blocked))
            } else {
                (FlowState::Submitting, LoginAction::SubmitCredentials)
            }
        },
        (FlowState::Submitting, LoginEvent::SubmitResult { status }) => {
            if 200 <= *status && *status < 300 {
                (FlowState::Finalizing, LoginAction::FetchRoot)
            } else if *status == UNAUTHORIZED_STATUS {
                (
                    FlowState::Failed(YggError::InvalidCredentials),
                    LoginAction::Fail(YggError::InvalidCredentials),
                )
            } else {
                (FlowState::Failed(YggError::Transport), LoginAction::Fail(YggError::Transport))
            }
        },
        (FlowState::Finalizing, LoginEvent::RootResult { status }) => {
            if !(200 <= *status && *status < 300) {
                (FlowState::Failed(YggError::Transport), LoginAction::Fail(YggError::Transport))
            } else if persist {
                (FlowState::Persisting, LoginAction::PersistSession)
            } else {
                (FlowState::Done, LoginAction::Finish)
            }
        },
        (FlowState::Persisting, LoginEvent::Persisted) => (FlowState::Done, LoginAction::Finish),
        _ => (FlowState::Failed(YggError::Transport), LoginAction::Fail(YggError::Transport)),
    }
}

/// No event leads out of a terminal state back into the flow: once the
/// flow has failed or finished, every further event fails. The engine
/// itself performs no retry loop; callers re-invoke the whole flow at
/// most once, on session expiry.
pub proof fn lemma_terminal_states_absorb(state: FlowState, persist: bool, event: LoginEvent)
    requires
        state is Failed || state is Done,
    ensures
        spec_login_step(state, persist, event).0 is Failed,
{
}

/// The header pairs that ease anti-automation friction: the caller's
/// own address as the forwarded-for headers, when it is known.
pub fn add_bypass_headers(own_ip: Option<&str>) -> (r: Vec<(String, String)>)
    ensures
        match own_ip {
            Some(ip) => r@.len() == 2 && r@[0].0@ == "CF-Connecting-IP"@ && r@[0].1@ == ip@
                && r@[1].0@ == "X-Forwarded-For"@ && r@[1].1@ == ip@,
            None => r@.len() == 0,
        },
{
    let mut r: Vec<(String, String)> = Vec::new();
    match own_ip {
        Some(ip) => {
            r.push((String::from_str("CF-Connecting-IP"), String::from_str(ip)));
            r.push((String::from_str("X-Forwarded-For"), String::from_str(ip)));
        },
        None => {},
    }
    r
}

/// The name of the marker cookie injected before fetching the login
/// page, which reduces bot-detection friction.
pub const MARKER_COOKIE_NAME: &'static str = "account_created";

/// The value the marker cookie carries.
pub const MARKER_COOKIE_VALUE: &'static str = "true";

/// The name of the anti-automation cookie that must appear in the
/// login page's response.
pub const CHALLENGE_COOKIE_NAME: &'static str = "ygg_";

/// A cookie name from a response matches the challenge cookie exactly.
pub fn is_challenge_cookie(name: &str) -> (r: bool)
    ensures
        r == (name@ == CHALLENGE_COOKIE_NAME@),
{
    crate::search::str_eq(name, CHALLENGE_COOKIE_NAME)
}

} // verus!
