//! The rate limiter's window decisions and the mirror-domain race.

use ygege::domain::{host_of_location, resolve_from_outcomes, ProbeOutcome};
use ygege::ratelimit::{Decision, RateWindow};
use ygege::YggError;

#[test]
fn rate_window_admits_up_to_the_bound() {
    let mut w = RateWindow::new(5, 10_000);
    for _ in 0..5 {
        match w.try_admit(0) {
            Decision::Admit => {},
            Decision::Wait(_) => panic!("the first five must be admitted"),
        }
    }
    assert_eq!(w.times.len(), 5);
}

#[test]
fn sixth_acquire_waits_out_the_window() {
    // five requests fill the window at time zero; the sixth must wait
    // exactly the remaining window
    let mut w = RateWindow::new(5, 10_000);
    for _ in 0..5 {
        match w.try_admit(0) {
            Decision::Admit => {},
            Decision::Wait(_) => panic!("unexpected wait"),
        }
    }
    match w.try_admit(0) {
        Decision::Wait(d) => assert_eq!(d, 10_000),
        Decision::Admit => panic!("the sixth must wait"),
    }
    match w.try_admit(3_000) {
        Decision::Wait(d) => assert_eq!(d, 7_000),
        Decision::Admit => panic!("still inside the window"),
    }
    // at the window's edge the oldest start gives way
    match w.try_admit(10_000) {
        Decision::Admit => {},
        Decision::Wait(_) => panic!("the oldest start is a full window old"),
    }
    assert_eq!(w.times.len(), 5);
}

#[test]
fn aged_out_starts_leave_the_window() {
    let mut w = RateWindow::new(2, 1_000);
    match w.try_admit(0) {
        Decision::Admit => {},
        _ => panic!("admit"),
    }
    match w.try_admit(100) {
        Decision::Admit => {},
        _ => panic!("admit"),
    }
    // far past the window both entries age out
    match w.try_admit(5_000) {
        Decision::Admit => {},
        _ => panic!("the window is long empty"),
    }
    assert_eq!(w.times.len(), 1);
}

#[test]
fn domain_race_takes_redirect_target() {
    // three candidates fail, one succeeds with a redirect
    let candidates = vec![
        "mirror-one.example".to_string(),
        "mirror-two.example".to_string(),
        "mirror-three.example".to_string(),
        "mirror-four.example".to_string(),
    ];
    let outcomes = vec![
        ProbeOutcome::Failed,
        ProbeOutcome::Failed,
        ProbeOutcome::Failed,
        ProbeOutcome::Redirect("https://example.org/index".to_string()),
    ];
    let d = resolve_from_outcomes(&candidates, outcomes).expect("resolved");
    assert_eq!(d, "example.org");
}

#[test]
fn domain_race_keeps_candidate_without_redirect() {
    let candidates = vec!["alpha.example".to_string(), "beta.example".to_string()];
    let outcomes = vec![ProbeOutcome::Failed, ProbeOutcome::NoRedirect];
    let d = resolve_from_outcomes(&candidates, outcomes).expect("resolved");
    assert_eq!(d, "beta.example");
}

#[test]
fn domain_race_first_success_wins() {
    let candidates = vec!["alpha.example".to_string(), "beta.example".to_string()];
    let outcomes = vec![
        ProbeOutcome::NoRedirect,
        ProbeOutcome::Redirect("https://other.example/".to_string()),
    ];
    let d = resolve_from_outcomes(&candidates, outcomes).expect("resolved");
    assert_eq!(d, "alpha.example");
}

#[test]
fn domain_race_fails_when_every_candidate_does() {
    let candidates = vec!["alpha.example".to_string(), "beta.example".to_string()];
    let outcomes = vec![ProbeOutcome::Failed, ProbeOutcome::Failed];
    assert_eq!(
        resolve_from_outcomes(&candidates, outcomes),
        Err(YggError::DomainResolution)
    );
}

#[test]
fn host_extraction_from_locations() {
    assert_eq!(host_of_location("https://example.org/path"), Some("example.org".to_string()));
    assert_eq!(host_of_location("https://example.org"), Some("example.org".to_string()));
    assert_eq!(host_of_location("no-slashes-here"), None);
    assert_eq!(host_of_location("one/slash-only"), None);
    // split on slashes counts empty leading parts, as the third part
    // of a protocol-relative location shows
    assert_eq!(host_of_location("//host.example/x"), Some("host.example".to_string()));
}
