use grimorio::client::{status_report, status_reply, ReplyAction};
use grimorio::crypto::generate_key;
use grimorio::daemon::{handle_command, handle_command_at, DaemonState};
use grimorio::password::{FailingReader, PasswordReader};
use grimorio::protocol::{Command, DaemonStatus, Response};

const SEC: u128 = 1_000_000_000;

fn fresh_state() -> DaemonState {
    DaemonState::new(generate_key(), 300)
}

fn store(state: &mut DaemonState, key: &str, secret: &str, now: u128) {
    let r = handle_command_at(
        state,
        Command::Store { key: key.to_string(), secret: secret.to_string() },
        now,
    );
    assert!(matches!(r, Response::Done));
}

fn get(state: &mut DaemonState, key: &str, now: u128) -> Response {
    handle_command_at(state, Command::Get { key: key.to_string() }, now)
}

fn secret_of(r: Response) -> String {
    match r {
        Response::Secret(s) => s,
        other => panic!("unexpected response: {other:?}"),
    }
}

fn status(state: &mut DaemonState, now: u128) -> DaemonStatus {
    match handle_command_at(state, Command::Status, now) {
        Response::Status(st) => st,
        other => panic!("unexpected response: {other:?}"),
    }
}

fn status_text(state: &mut DaemonState, now: u128) -> String {
    status_report(&status(state, now)).join("\n")
}

#[test]
fn status_empty_daemon() {
    let mut state = fresh_state();
    let text = status_text(&mut state, 0);
    assert!(text.contains("has_secret: false"));
    let st = status(&mut state, 0);
    assert_eq!(st.count, 0);
    assert!(st.keys.is_empty());
    assert_eq!(st.last_accessed_secs_ago, 0);
    assert_eq!(st.timeout_secs, 300);
}

#[test]
fn set_and_get_secret() {
    let mut state = fresh_state();
    let secret = "my-super-secret";
    store(&mut state, "db", secret, 0);
    assert_eq!(secret_of(get(&mut state, "db", SEC)), secret);
}

#[test]
fn get_of_missing_key_reports_no_secret() {
    let mut state = fresh_state();
    assert!(matches!(get(&mut state, "api", 0), Response::NoSecret));
    // Nothing was created by the failed read.
    assert_eq!(status(&mut state, 0).count, 0);
}

#[test]
fn unicode_secrets_round_trip() {
    let mut state = fresh_state();
    store(&mut state, "clé", "pässwörd 🔑", 0);
    store(&mut state, "empty", "", 0);
    assert_eq!(secret_of(get(&mut state, "clé", 0)), "pässwörd 🔑");
    assert_eq!(secret_of(get(&mut state, "empty", 0)), "");
}

#[test]
fn purge_secret() {
    let mut state = fresh_state();
    store(&mut state, "db", "to-be-purged", 0);
    let r = handle_command_at(&mut state, Command::Purge { key: Some("db".to_string()) }, 0);
    assert!(matches!(r, Response::Done));
    assert!(status_text(&mut state, 0).contains("has_secret: false"));
    assert!(matches!(get(&mut state, "db", 0), Response::NoSecret));
}

#[test]
fn purge_missing_key_reports_no_secret() {
    let mut state = fresh_state();
    store(&mut state, "db", "x", 0);
    let r = handle_command_at(&mut state, Command::Purge { key: Some("api".to_string()) }, 0);
    assert!(matches!(r, Response::NoSecret));
    assert_eq!(status(&mut state, 0).count, 1);
}

#[test]
fn purge_all_clears_everything() {
    let mut state = fresh_state();
    store(&mut state, "db", "1", 0);
    store(&mut state, "api", "2", 0);
    let r = handle_command_at(&mut state, Command::Purge { key: None }, 0);
    assert!(matches!(r, Response::Done));
    let st = status(&mut state, 0);
    assert!(!st.has_secret);
    assert_eq!(st.count, 0);
    assert!(matches!(get(&mut state, "db", 0), Response::NoSecret));
    // Purging everything again still succeeds.
    assert!(matches!(handle_command_at(&mut state, Command::Purge { key: None }, 0), Response::Done));
}

#[test]
fn status_reflects_secret_state() {
    let mut state = fresh_state();
    assert!(status_text(&mut state, 0).contains("has_secret: false"));
    store(&mut state, "db", "s3cret", 0);
    let text = status_text(&mut state, 0);
    assert!(text.contains("has_secret: true"));
    assert!(text.contains("count: 1"));
    assert!(text.contains("keys: db"));
    assert!(text.contains("last_accessed_secs_ago: 0"));
    assert!(text.contains("timeout_secs: 300"));
}

#[test]
fn status_reports_least_idle_time() {
    let mut state = fresh_state();
    store(&mut state, "old", "1", 0);
    store(&mut state, "new", "2", 10 * SEC);
    let st = status(&mut state, 15 * SEC + SEC / 2);
    assert_eq!(st.last_accessed_secs_ago, 5);
    // Reading refreshes the access time.
    assert_eq!(secret_of(get(&mut state, "old", 14 * SEC)), "1");
    assert_eq!(status(&mut state, 16 * SEC).last_accessed_secs_ago, 2);
}

#[test]
fn status_keys_are_sorted() {
    let mut state = fresh_state();
    for k in ["zeta", "alpha", "mid", "Beta", "alpha2"] {
        store(&mut state, k, "v", 0);
    }
    let st = status(&mut state, 0);
    assert_eq!(st.keys, vec!["Beta", "alpha", "alpha2", "mid", "zeta"]);
    assert_eq!(st.count, 5);
    assert!(status_text(&mut state, 0).contains("keys: Beta, alpha, alpha2, mid, zeta"));
}

#[test]
fn secret_survives_multiple_gets() {
    let mut state = fresh_state();
    store(&mut state, "db", "persistent", 0);
    for i in 0..3 {
        assert_eq!(secret_of(get(&mut state, "db", i * SEC)), "persistent");
    }
}

#[test]
fn multiple_keys_are_independent() {
    let mut state = fresh_state();
    store(&mut state, "db", "db-secret", 0);
    store(&mut state, "api", "api-secret", 0);
    assert_eq!(secret_of(get(&mut state, "db", 0)), "db-secret");
    assert_eq!(secret_of(get(&mut state, "api", 0)), "api-secret");
    assert!(status_text(&mut state, 0).contains("count: 2"));

    handle_command_at(&mut state, Command::Purge { key: Some("db".to_string()) }, 0);
    let text = status_text(&mut state, 0);
    assert!(text.contains("count: 1"));
    assert!(text.contains("keys: api"));
    assert_eq!(secret_of(get(&mut state, "api", 0)), "api-secret");
}

#[test]
fn storing_again_replaces_the_secret() {
    let mut state = fresh_state();
    store(&mut state, "db", "first", 0);
    store(&mut state, "db", "second", 0);
    assert_eq!(secret_of(get(&mut state, "db", 0)), "second");
    assert_eq!(status(&mut state, 0).count, 1);
}

#[test]
fn idle_secrets_expire_after_the_timeout() {
    let mut state = fresh_state();
    store(&mut state, "db", "x", 0);
    store(&mut state, "api", "y", 100 * SEC);
    // Exactly the timeout: not yet outlived.
    assert_eq!(state.purge_expired_at(300 * SEC), 0);
    assert_eq!(state.purge_expired_at(300 * SEC + 1), 1);
    assert!(matches!(get(&mut state, "db", 300 * SEC + 1), Response::NoSecret));
    assert_eq!(state.purge_expired_at(300 * SEC + 1), 0);
    assert_eq!(secret_of(get(&mut state, "api", 300 * SEC + 1)), "y");
}

#[test]
fn reading_postpones_expiry() {
    let mut state = fresh_state();
    store(&mut state, "db", "x", 0);
    assert_eq!(secret_of(get(&mut state, "db", 250 * SEC)), "x");
    assert_eq!(state.purge_expired_at(400 * SEC), 0);
    assert_eq!(state.purge_expired_at(551 * SEC), 1);
}

#[test]
fn purge_all_method_and_clock() {
    let mut state = fresh_state();
    let now = state.now();
    store(&mut state, "db", "x", now);
    assert!(state.status().has_secret);
    assert_eq!(state.purge_expired(), 0);
    state.purge_all();
    assert!(!state.status().has_secret);
}

#[test]
fn handle_command_reads_the_clock() {
    let mut state = fresh_state();
    let reader = FailingReader;
    let r = handle_command(
        &mut state,
        Command::Store { key: "db".to_string(), secret: "s".to_string() },
        &reader,
    );
    assert!(matches!(r, Response::Done));
    let r = handle_command(&mut state, Command::Get { key: "db".to_string() }, &reader);
    assert_eq!(secret_of(r), "s");
    let r = handle_command(&mut state, Command::Status, &reader);
    match status_reply(r) {
        ReplyAction::Report(lines) => assert_eq!(lines[1], "count: 1"),
        other => panic!("unexpected: {other:?}"),
    }
}

#[test]
fn failing_reader_never_yields() {
    let reader = FailingReader;
    assert!(reader.read_password("prompt: ").is_err());
}

#[test]
fn no_secret_status() {
    let st = DaemonStatus::no_secret(42);
    assert!(!st.has_secret);
    assert_eq!(st.count, 0);
    assert!(st.keys.is_empty());
    assert_eq!(st.last_accessed_secs_ago, 0);
    assert_eq!(st.timeout_secs, 42);
}
