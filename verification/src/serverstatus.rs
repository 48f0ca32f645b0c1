//! The data of the server-sent events that browsers receive from the status
//! stream, one event per message of the status channel.
use vstd::prelude::*;
use vstd::utf8::*;

use crate::command::CommandMessage;
use crate::text::{
    chars_of, find, find_chars, is_padding, lemma_find_from, lemma_find_is_first_occurrence,
    lemma_trim_padding_append, law_trimmed_encoding_is_text, occurs_at, push_chars,
    push_signed_decimal, push_str, signed_decimal, trim_padding, trim_padding_bytes, utf8_to_string,
};

verus! {

/// The word after which a reported value carries its payload.
pub open spec fn update_marker() -> Seq<char> {
    "update"@
}

/// The reported value of a `SetValue` message as text: trailing NUL bytes
/// are cut off and the rest is decoded as UTF-8.
pub open spec fn value_text(val: Seq<u8>) -> Seq<char> {
    decode_utf8(trim_padding(val, false))
}

/// The part of a reported value that is published: what follows the first
/// `update`, or the whole text when it holds no `update`.
pub open spec fn payload_of(text: Seq<char>) -> Seq<char> {
    match find(text, update_marker()) {
        Some(p) => text.skip(p + update_marker().len()),
        None => text,
    }
}

/// A received message can be shown: a `SetValue` value, once its trailing
/// NUL bytes are cut off, is UTF-8 text.
pub open spec fn event_is_text(signal: Option<CommandMessage>) -> bool {
    match signal {
        Some(CommandMessage::SetValue { val, .. }) => valid_utf8(trim_padding(val@, false)),
        _ => true,
    }
}

/// The data of the event sent for a received message; `None` stands for a
/// failed receive (the stream lagged or closed).
pub open spec fn event_data(signal: Option<CommandMessage>) -> Seq<char> {
    match signal {
        None => "None"@,
        Some(CommandMessage::Get { key }) => "received data "@ + key@,
        Some(CommandMessage::SetValue { config_index, val, .. }) => "received data {\"index\":"@
            + signed_decimal(config_index as int) + ",\"data\":"@ + payload_of(value_text(val@))
            + " }"@,
    }
}

/// Whether the event for `signal` can be built (see [`event_is_text`]).
pub fn status_event_is_text(signal: &Option<CommandMessage>) -> (r: bool)
    ensures
        r == event_is_text(*signal),
{
    match signal {
        Some(CommandMessage::SetValue { val, .. }) => {
            let bytes = trim_padding_bytes(val.as_slice(), false);
            utf8_to_string(bytes).is_some()
        },
        _ => true,
    }
}

/// The data of the event sent for `signal` (see [`event_data`]).
pub fn status_event_data(signal: &Option<CommandMessage>) -> (s: String)
    requires
        event_is_text(*signal),
    ensures
        s@ == event_data(*signal),
{
    match signal {
        None => String::from_str("None"),
        Some(CommandMessage::Get { key }) => {
            let mut s = String::from_str("received data ");
            push_str(&mut s, key.as_str());
            s
        },
        Some(CommandMessage::SetValue { config_index, val, .. }) => {
            let bytes = trim_padding_bytes(val.as_slice(), false);
            let text = match utf8_to_string(bytes) {
                Some(t) => t,
                None => {
                    return String::new();
                },
            };
            let chars = chars_of(text.as_str());
            let len = chars.len();
            let marker = chars_of("update");
            let start: usize = match find_chars(&chars, &marker) {
                Some(p) => {
                    proof {
                        crate::text::lemma_find_from(chars@, marker@, 0);
                    }
                    p + marker.len()
                },
                None => 0,
            };
            let mut s = String::from_str("received data {\"index\":");
            push_signed_decimal(&mut s, *config_index as i64);
            push_str(&mut s, ",\"data\":");
            push_chars(&mut s, &chars, start, len);
            push_str(&mut s, " }");
            proof {
                assert(chars@.subrange(start as int, chars@.len() as int) =~= payload_of(
                    value_text(val@),
                ));
            }
            s
        },
    }
}

/// The published payload is everything after the first `update`: in
/// `a + "update" + b`, where `update` does not start anywhere inside `a`,
/// it is `b`, whatever characters `b` holds.
pub proof fn law_payload_is_rest_after_first_update(a: Seq<char>, b: Seq<char>)
    requires
        forall|j: int| 0 <= j < a.len() ==> #[trigger] (a + "update"@ + b).subrange(j, j + 6) != "update"@,
    ensures
        payload_of(a + "update"@ + b) == b,
{
    reveal_strlit("update");
    let m = update_marker();
    let t = a + m + b;
    let k = a.len() as int;
    assert(t.subrange(k, k + 6) =~= m);
    assert forall|j: int| 0 <= j < k implies !occurs_at(t, m, j) by {}
    lemma_find_is_first_occurrence(t, m, k);
    assert(t.skip(k + 6) =~= b);
}

/// A text in which `update` occurs nowhere is published whole.
pub proof fn law_payload_without_update_is_whole_text(t: Seq<char>)
    requires
        forall|j: int| 0 <= j && j + 6 <= t.len() ==> #[trigger] t.subrange(j, j + 6) != "update"@,
    ensures
        payload_of(t) == t,
{
    reveal_strlit("update");
    lemma_find_from(t, update_marker(), 0);
}

/// Every reported value that is UTF-8 text followed by NUL bytes can be
/// shown, whatever characters the text holds (line feeds included).
pub proof fn law_every_text_report_is_shown(
    t: Seq<char>,
    padding: Seq<u8>,
    config_index: i32,
    key: String,
    val: Vec<u8>,
)
    requires
        forall|i: int| 0 <= i < padding.len() ==> padding[i] == 0,
        val@ == encode_utf8(t) + padding,
    ensures
        event_is_text(Some(CommandMessage::SetValue { config_index, key, val })),
{
    assert forall|i: int| 0 <= i < padding.len() implies is_padding(padding[i], false) by {}
    lemma_trim_padding_append(encode_utf8(t), padding, false);
    law_trimmed_encoding_is_text(t, false);
}

/// A report `a + "update" + b` (UTF-8, followed by NUL bytes, with `update`
/// not starting inside `a` and `b` not ending in NUL) is published as
/// `received data {"index":<config_index>,"data":<b> }`.
pub proof fn law_report_event_publishes_rest_after_update(
    a: Seq<char>,
    b: Seq<char>,
    padding: Seq<u8>,
    config_index: i32,
    key: String,
    val: Vec<u8>,
)
    requires
        forall|j: int| 0 <= j < a.len() ==> #[trigger] (a + "update"@ + b).subrange(j, j + 6) != "update"@,
        b.len() > 0 ==> b.last() != '\0',
        forall|i: int| 0 <= i < padding.len() ==> padding[i] == 0,
        val@ == encode_utf8(a + "update"@ + b) + padding,
    ensures
        event_is_text(Some(CommandMessage::SetValue { config_index, key, val })),
        event_data(Some(CommandMessage::SetValue { config_index, key, val })) == "received data {\"index\":"@
            + signed_decimal(config_index as int) + ",\"data\":"@ + b + " }"@,
{
    reveal_strlit("update");
    let t = a + "update"@ + b;
    law_every_text_report_is_shown(t, padding, config_index, key, val);
    assert forall|i: int| 0 <= i < padding.len() implies is_padding(padding[i], false) by {}
    lemma_trim_padding_append(encode_utf8(t), padding, false);
    if b.len() > 0 {
        assert(t.last() == b.last());
    } else {
        assert(t.last() == 'e');
    }
    law_trimmed_encoding_is_text(t, false);
    encode_utf8_decode_utf8(t);
    law_payload_is_rest_after_first_update(a, b);
}

} // verus!
