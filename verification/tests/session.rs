use server_status::command::CommandMessage;
use server_status::server_config::{ServerConfig, ServerConfigJSON};
use server_status::session::{parse_credentials, reply_text, Reply, Session};

fn entry(username: &str, password: &str) -> ServerConfig {
    ServerConfig {
        username: username.to_string(),
        name: "n".to_string(),
        server_type: "t".to_string(),
        host: "h".to_string(),
        location: "l".to_string(),
        password: password.to_string(),
    }
}

fn config() -> ServerConfigJSON {
    ServerConfigJSON { servers: vec![entry("alice", "one"), entry("bob", "two")] }
}

/// A read buffer as the agent port fills it: the message, then zeros.
fn buffer(message: &[u8]) -> Vec<u8> {
    let mut buf = vec![0u8; 1024];
    buf[..message.len()].copy_from_slice(message);
    buf
}

fn pair(user: &str, pass: &str) -> Option<(String, String)> {
    Some((user.to_string(), pass.to_string()))
}

#[test]
fn credentials_are_split_at_colon() {
    assert_eq!(parse_credentials(&buffer(b"bob:two")), pair("bob", "two"));
}

#[test]
fn credentials_trailing_newlines_and_nuls_are_cut() {
    assert_eq!(parse_credentials(&buffer(b"bob:two\n")), pair("bob", "two"));
    assert_eq!(parse_credentials(b"bob:two\n\0\n\0"), pair("bob", "two"));
}

#[test]
fn credentials_inner_newline_is_kept() {
    assert_eq!(parse_credentials(&buffer(b"bob:t\nwo\n")), pair("bob", "t\nwo"));
}

#[test]
fn credentials_only_second_field_is_password() {
    assert_eq!(parse_credentials(&buffer(b"a:b:c")), pair("a", "b"));
    assert_eq!(parse_credentials(&buffer(b"a:")), pair("a", ""));
    assert_eq!(parse_credentials(&buffer(b":b")), pair("", "b"));
}

#[test]
fn credentials_need_a_colon() {
    assert_eq!(parse_credentials(&buffer(b"bobtwo")), None);
    assert_eq!(parse_credentials(&buffer(b"")), None);
}

#[test]
fn credentials_need_utf8() {
    assert_eq!(parse_credentials(&buffer(b"b\xffb:two")), None);
}

#[test]
fn credentials_decode_multibyte_text() {
    assert_eq!(parse_credentials(&buffer("zoë:pä:x".as_bytes())), pair("zoë", "pä"));
}

#[test]
fn reply_texts() {
    assert_eq!(reply_text(&Reply::AuthenticationRequired, "1.2.3.4:5"), "Authentication required");
    assert_eq!(
        reply_text(&Reply::AuthenticationSucceeded(0), "x"),
        "Authentication successful. Index is 0"
    );
    assert_eq!(
        reply_text(&Reply::AuthenticationSucceeded(1207), "x"),
        "Authentication successful. Index is 1207"
    );
    assert_eq!(
        reply_text(&Reply::ConnectedVia, "127.0.0.1:50000"),
        "You are connecting via IPv4 127.0.0.1:50000"
    );
}

#[test]
fn new_session_prompts() {
    let s = Session::new();
    assert_eq!(s, Session { first_count: 0, auth_success: false, config_index: -1 });
    assert_eq!(s.prompt(), Some(Reply::AuthenticationRequired));
}

#[test]
fn successful_login_then_reports_are_published() {
    let cfg = config();
    let mut s = Session::new();
    let login = buffer(b"bob:two\n");
    assert!(s.accepts_read(&login));
    let out = s.on_read(&cfg, &login, 8);
    assert_eq!(out.replies, vec![Reply::AuthenticationSucceeded(1), Reply::ConnectedVia]);
    assert!(out.restarted);
    assert!(!out.close);
    assert_eq!(out.broadcast, None);
    assert_eq!(s, Session { first_count: 0, auth_success: true, config_index: 1 });
    // Nothing was counted yet, so the prompt comes again.
    assert_eq!(s.prompt(), Some(Reply::AuthenticationRequired));

    let report = buffer(b"update{\"load\":1}");
    assert!(s.accepts_read(&report));
    let out = s.on_read(&cfg, &report, 17);
    assert_eq!(out.replies, vec![]);
    assert!(!out.restarted);
    assert!(!out.close);
    assert_eq!(
        out.broadcast,
        Some(CommandMessage::SetValue { config_index: 1, key: "received".to_string(), val: report.clone() })
    );
    assert_eq!(s.first_count, 1);
    assert_eq!(s.prompt(), None);

    // Reads in the login window after the second repeat the peer address.
    let out = s.on_read(&cfg, &report, 17);
    assert_eq!(out.replies, vec![]);
    let out = s.on_read(&cfg, &report, 17);
    assert_eq!(out.replies, vec![Reply::ConnectedVia]);
    assert_eq!(s.first_count, 3);
    let out = s.on_read(&cfg, &report, 17);
    assert_eq!(out.replies, vec![]);
    assert_eq!(s.first_count, 3);
    assert!(out.broadcast.is_some());
}

#[test]
fn failed_logins_publish_nothing() {
    let cfg = config();
    let mut s = Session::new();
    let wrong = buffer(b"bob:one");
    let out = s.on_read(&cfg, &wrong, 7);
    assert_eq!(out.replies, vec![]);
    assert_eq!(out.broadcast, None);
    assert!(!out.restarted);
    assert_eq!(s, Session { first_count: 1, auth_success: false, config_index: -1 });
    assert_eq!(s.prompt(), None);
    let out = s.on_read(&cfg, &wrong, 7);
    assert_eq!(out.replies, vec![]);
    let out = s.on_read(&cfg, &wrong, 7);
    assert_eq!(out.replies, vec![Reply::ConnectedVia]);
    assert_eq!(s.first_count, 3);
}

#[test]
fn at_most_three_login_attempts() {
    let cfg = config();
    let mut s = Session::new();
    let wrong = buffer(b"alice:two");
    for _ in 0..3 {
        s.on_read(&cfg, &wrong, 9);
    }
    // The fourth read is not a login attempt any more, even with good credentials.
    let good = buffer(b"alice:one");
    assert!(s.accepts_read(&buffer(b"no colon here")));
    let out = s.on_read(&cfg, &good, 9);
    assert!(!out.restarted);
    assert_eq!(out.broadcast, None);
    assert!(!s.auth_success);
}

#[test]
fn login_on_second_attempt() {
    let cfg = config();
    let mut s = Session::new();
    s.on_read(&cfg, &buffer(b"alice:two"), 9);
    let out = s.on_read(&cfg, &buffer(b"alice:one"), 9);
    assert_eq!(out.replies, vec![Reply::AuthenticationSucceeded(0), Reply::ConnectedVia]);
    assert_eq!(s, Session { first_count: 1, auth_success: true, config_index: 0 });
}

#[test]
fn malformed_login_is_not_accepted() {
    let s = Session::new();
    assert!(!s.accepts_read(&buffer(b"no colon")));
    assert!(!s.accepts_read(&buffer(b"")));
    assert!(!s.accepts_read(&buffer(b"\xfe:x")));
}

#[test]
fn empty_read_closes_after_login() {
    let cfg = config();
    let mut s = Session::new();
    s.on_read(&cfg, &buffer(b"alice:one"), 9);
    let empty = buffer(b"");
    assert!(s.accepts_read(&empty));
    let out = s.on_read(&cfg, &empty, 0);
    assert!(out.close);
    assert_eq!(
        out.broadcast,
        Some(CommandMessage::SetValue { config_index: 0, key: "received".to_string(), val: empty.clone() })
    );
}
