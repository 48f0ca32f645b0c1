use server_status::server_config::{ServerConfig, ServerConfigJSON};

fn entry(username: &str, password: &str, name: &str) -> ServerConfig {
    ServerConfig {
        username: username.to_string(),
        name: name.to_string(),
        server_type: "kvm".to_string(),
        host: "host".to_string(),
        location: "here".to_string(),
        password: password.to_string(),
    }
}

fn config() -> ServerConfigJSON {
    ServerConfigJSON {
        servers: vec![
            entry("alice", "one", "a"),
            entry("bob", "two", "b"),
            entry("bob", "two", "b-again"),
            entry("carol", "", "c"),
        ],
    }
}

#[test]
fn check_name_pass_finds_matching_entry() {
    assert_eq!(config().check_name_pass("alice", "one"), Some(0));
    assert_eq!(config().check_name_pass("carol", ""), Some(3));
}

#[test]
fn check_name_pass_takes_first_of_duplicates() {
    assert_eq!(config().check_name_pass("bob", "two"), Some(1));
}

#[test]
fn check_name_pass_rejects_wrong_password() {
    assert_eq!(config().check_name_pass("alice", "two"), None);
    assert_eq!(config().check_name_pass("alice", "one "), None);
}

#[test]
fn check_name_pass_rejects_unknown_user() {
    assert_eq!(config().check_name_pass("dave", "one"), None);
    assert_eq!(config().check_name_pass("", ""), None);
}

#[test]
fn check_name_pass_on_empty_list() {
    let empty = ServerConfigJSON { servers: vec![] };
    assert_eq!(empty.check_name_pass("alice", "one"), None);
}

#[test]
fn check_name_pass_compares_whole_unicode_text() {
    let c = ServerConfigJSON { servers: vec![entry("zoë", "pässword", "z")] };
    assert_eq!(c.check_name_pass("zoë", "pässword"), Some(0));
    assert_eq!(c.check_name_pass("zoe", "pässword"), None);
}
