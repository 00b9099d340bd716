use grimorio::client::{
    get_reply, purge_reply, secret_prompt, status_reply, status_report, store_reply, trim_line_ending, trim_secret,
    GetAction, ReplyAction,
};
use grimorio::protocol::{request_text, DaemonStatus, Response};

#[test]
fn trims_trailing_newlines_then_carriage_returns() {
    assert_eq!(trim_secret("abc"), "abc");
    assert_eq!(trim_secret("abc\n"), "abc");
    assert_eq!(trim_secret("abc\n\n\n"), "abc");
    assert_eq!(trim_secret("abc\r\n"), "abc");
    assert_eq!(trim_secret("abc\n\r"), "abc\n");
    assert_eq!(trim_secret("a\nb\n"), "a\nb");
    assert_eq!(trim_secret("  spaced  \n"), "  spaced  ");
    assert_eq!(trim_secret("\n\r\n"), "\n");
    assert_eq!(trim_secret(""), "");
    assert_eq!(trim_secret("héllo🔑\n"), "héllo🔑");
}

#[test]
fn status_report_lines() {
    let st = DaemonStatus {
        has_secret: true,
        count: 12,
        keys: vec!["api".to_string(), "db".to_string()],
        last_accessed_secs_ago: 7,
        timeout_secs: 300,
    };
    assert_eq!(
        status_report(&st),
        vec![
            "has_secret: true",
            "count: 12",
            "keys: api, db",
            "last_accessed_secs_ago: 7",
            "timeout_secs: 300"
        ]
    );
    let empty = DaemonStatus::no_secret(18446744073709551615);
    assert_eq!(
        status_report(&empty),
        vec![
            "has_secret: false",
            "count: 0",
            "keys: ",
            "last_accessed_secs_ago: 0",
            "timeout_secs: 18446744073709551615"
        ]
    );
}

#[test]
fn store_replies() {
    assert!(matches!(store_reply(Response::Done), ReplyAction::Done));
    match store_reply(Response::Error("boom".to_string())) {
        ReplyAction::Fail(m) => assert_eq!(m, "boom"),
        other => panic!("unexpected: {other:?}"),
    }
    assert!(matches!(
        store_reply(Response::NoSecret),
        ReplyAction::Unexpected(Response::NoSecret)
    ));
}

#[test]
fn get_source_ignored_when_secret_present() {
    match get_reply(Response::Secret("stored-secret".to_string())) {
        GetAction::Print(s) => assert_eq!(s, "stored-secret"),
        other => panic!("unexpected: {other:?}"),
    }
}

#[test]
fn get_when_no_secret_acquires() {
    assert!(matches!(get_reply(Response::NoSecret), GetAction::Acquire));
    match get_reply(Response::Error("decryption failed: decryption failed".to_string())) {
        GetAction::Fail(m) => assert_eq!(m, "decryption failed: decryption failed"),
        other => panic!("unexpected: {other:?}"),
    }
    assert!(matches!(get_reply(Response::Done), GetAction::Unexpected(Response::Done)));
}

#[test]
fn purge_replies() {
    assert!(matches!(purge_reply(Response::Done, Some("db".to_string())), ReplyAction::Done));
    match purge_reply(Response::NoSecret, Some("db".to_string())) {
        ReplyAction::Fail(m) => assert_eq!(m, "no secret stored for 'db'"),
        other => panic!("unexpected: {other:?}"),
    }
    match purge_reply(Response::NoSecret, None) {
        ReplyAction::Fail(m) => assert_eq!(m, "no secret stored"),
        other => panic!("unexpected: {other:?}"),
    }
    assert!(matches!(
        purge_reply(Response::Secret("x".to_string()), None),
        ReplyAction::Unexpected(Response::Secret(_))
    ));
}

#[test]
fn status_replies() {
    match status_reply(Response::Status(DaemonStatus::no_secret(300))) {
        ReplyAction::Report(lines) => assert_eq!(lines[0], "has_secret: false"),
        other => panic!("unexpected: {other:?}"),
    }
    match status_reply(Response::Error("bad".to_string())) {
        ReplyAction::Fail(m) => assert_eq!(m, "bad"),
        other => panic!("unexpected: {other:?}"),
    }
}

#[test]
fn prompt_names_the_key() {
    assert_eq!(secret_prompt("api"), "No secret stored for 'api'. Enter secret: ");
}

#[test]
fn request_lines_are_trimmed_and_blank_ones_skipped() {
    assert_eq!(request_text("  {\"cmd\":\"status\"}  \r"), Some("{\"cmd\":\"status\"}".to_string()));
    assert_eq!(request_text("\t{\"cmd\":\"get\",\"key\":\"db\"}"), Some("{\"cmd\":\"get\",\"key\":\"db\"}".to_string()));
    assert_eq!(request_text("   "), None);
    assert_eq!(request_text(""), None);
    assert_eq!(request_text("\u{3000}x\u{3000}"), Some("x".to_string()));
}

#[test]
fn line_endings_are_removed() {
    assert_eq!(trim_line_ending("secret\r\n"), "secret");
    assert_eq!(trim_line_ending("secret\n\r\n"), "secret");
    assert_eq!(trim_line_ending("sec\nret"), "sec\nret");
    assert_eq!(trim_line_ending("\r\n"), "");
    assert_eq!(trim_line_ending("pw "), "pw ");
}
