use server_status::command::CommandMessage;
use server_status::serverstatus::{status_event_data, status_event_is_text};

fn set(index: i32, val: &[u8]) -> Option<CommandMessage> {
    Some(CommandMessage::SetValue { config_index: index, key: "received".to_string(), val: val.to_vec() })
}

#[test]
fn get_event_names_the_key() {
    let s = Some(CommandMessage::Get { key: "cpu".to_string() });
    assert!(status_event_is_text(&s));
    assert_eq!(status_event_data(&s), "received data cpu");
}

#[test]
fn failed_receive_event() {
    assert!(status_event_is_text(&None));
    assert_eq!(status_event_data(&None), "None");
}

#[test]
fn set_event_publishes_text_after_update() {
    let mut val = b"xx update{\"load\":1}".to_vec();
    val.extend_from_slice(&[0u8; 20]);
    let s = set(2, &val);
    assert!(status_event_is_text(&s));
    assert_eq!(status_event_data(&s), "received data {\"index\":2,\"data\":{\"load\":1} }");
}

#[test]
fn set_event_uses_first_update() {
    let s = set(0, b"updateAupdateB");
    assert_eq!(status_event_data(&s), "received data {\"index\":0,\"data\":AupdateB }");
}

#[test]
fn set_event_without_update_publishes_whole_text() {
    let s = set(12, b"hello\n\0\0");
    assert_eq!(status_event_data(&s), "received data {\"index\":12,\"data\":hello\n }");
}

#[test]
fn set_event_negative_and_extreme_index() {
    assert_eq!(status_event_data(&set(-1, b"x")), "received data {\"index\":-1,\"data\":x }");
    assert_eq!(
        status_event_data(&set(i32::MIN, b"x")),
        "received data {\"index\":-2147483648,\"data\":x }"
    );
    assert_eq!(
        status_event_data(&set(i32::MAX, b"")),
        "received data {\"index\":2147483647,\"data\": }"
    );
}

#[test]
fn set_event_with_multibyte_text() {
    let s = set(3, "é update€".as_bytes());
    assert_eq!(status_event_data(&s), "received data {\"index\":3,\"data\":€ }");
}

#[test]
fn set_event_needs_utf8() {
    assert!(!status_event_is_text(&set(1, b"\xffupdate1")));
    assert!(status_event_is_text(&set(1, b"update1\0\0")));
}
