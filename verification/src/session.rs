//! The per-connection protocol of the agent port. A server agent connects,
//! is asked to authenticate, sends `username:password`, and from then on
//! every buffer it sends is published on the status channel under the
//! index of its server entry.
//!
//! The caller owns the socket: it writes the replies, reads a buffer,
//! hands it to [`Session::on_read`], and acts on the outcome.
use vstd::prelude::*;
use vstd::utf8::*;

use crate::command::CommandMessage;
use crate::server_config::{login_index, ServerConfig, ServerConfigJSON};
use crate::text::{
    chars_of, find, find_char, is_padding, lemma_encode_utf8_last_byte, lemma_find_char_absent,
    lemma_find_char_after_prefix, lemma_trim_padding_append, push_decimal, push_str,
    string_from_chars, trim_padding, trim_padding_bytes, utf8_to_string,
};

verus! {

/// Number of reads during which credentials are accepted or the peer
/// address is repeated.
pub const MAX_LOGIN_READS: u32 = 3;

/// The username and password in a received buffer: trailing NUL and line
/// feed bytes are cut off, the rest must be UTF-8 text, the username is the
/// text before the first `:` and the password the text after it, up to the
/// next `:` if there is one. `None` when the text is not UTF-8 or holds no `:`.
pub open spec fn credentials(buf: Seq<u8>) -> Option<(Seq<char>, Seq<char>)> {
    let bytes = trim_padding(buf, true);
    if !valid_utf8(bytes) {
        None
    } else {
        let text = decode_utf8(bytes);
        match find(text, seq![':']) {
            None => None,
            Some(i) => {
                let rest = text.skip(i + 1);
                let j = match find(rest, seq![':']) {
                    Some(j) => j,
                    None => rest.len() as int,
                };
                Some((text.take(i), rest.take(j)))
            },
        }
    }
}

/// The bytes an agent sends to log in: `username:password` in UTF-8.
pub open spec fn login_message(username: Seq<char>, password: Seq<char>) -> Seq<u8> {
    encode_utf8(username + seq![':'] + password)
}

/// A login message, followed by any NUL and line-feed bytes, is read back
/// as the username and password it was made of, provided that neither holds
/// a `:` and the password does not itself end in NUL or line feed.
pub proof fn law_login_message_is_understood(username: Seq<char>, password: Seq<char>, padding: Seq<u8>)
    requires
        !username.contains(':'),
        !password.contains(':'),
        password.len() > 0 ==> password.last() != '\0' && password.last() != '\n',
        forall|i: int| 0 <= i < padding.len() ==> is_padding(padding[i], true),
    ensures
        credentials(login_message(username, password) + padding) == Some((username, password)),
{
    let text = username + seq![':'] + password;
    let bytes = encode_utf8(text);
    lemma_trim_padding_append(bytes, padding, true);
    assert(text.last() != '\0' && text.last() != '\n') by {
        if password.len() > 0 {
            assert(text.last() == password.last());
        } else {
            assert(text.last() == ':');
        }
    }
    lemma_encode_utf8_last_byte(text);
    assert(trim_padding(bytes, true) == bytes);
    encode_utf8_valid_utf8(text);
    encode_utf8_decode_utf8(text);
    lemma_find_char_after_prefix(username, ':', password);
    let i = username.len() as int;
    assert(text.take(i) =~= username);
    assert(text.skip(i + 1) =~= password);
    lemma_find_char_absent(password, ':');
    assert(password.take(password.len() as int) =~= password);
}

/// The password ends at a second `:`: `username:password:rest` (followed by
/// any NUL and line-feed bytes) is read as `username` and `password`,
/// whatever `rest` holds, provided that neither holds a `:` and `rest` does
/// not itself end in NUL or line feed.
pub proof fn law_password_ends_at_second_colon(
    username: Seq<char>,
    password: Seq<char>,
    rest: Seq<char>,
    padding: Seq<u8>,
)
    requires
        !username.contains(':'),
        !password.contains(':'),
        rest.len() > 0 ==> rest.last() != '\0' && rest.last() != '\n',
        forall|i: int| 0 <= i < padding.len() ==> is_padding(padding[i], true),
    ensures
        credentials(encode_utf8(username + seq![':'] + password + seq![':'] + rest) + padding) == Some(
            (username, password),
        ),
{
    let text = username + seq![':'] + password + seq![':'] + rest;
    let bytes = encode_utf8(text);
    lemma_trim_padding_append(bytes, padding, true);
    assert(text.last() != '\0' && text.last() != '\n') by {
        if rest.len() > 0 {
            assert(text.last() == rest.last());
        } else {
            assert(text.last() == ':');
        }
    }
    lemma_encode_utf8_last_byte(text);
    encode_utf8_valid_utf8(text);
    encode_utf8_decode_utf8(text);
    let tail = password + seq![':'] + rest;
    assert(text =~= username + seq![':'] + tail);
    lemma_find_char_after_prefix(username, ':', tail);
    let i = username.len() as int;
    assert(text.take(i) =~= username);
    assert(text.skip(i + 1) =~= tail);
    lemma_find_char_after_prefix(password, ':', rest);
    assert(tail.take(password.len() as int) =~= password);
}

/// Copies `chars[from..to]` into a new vector.
fn copy_chars(chars: &Vec<char>, from: usize, to: usize) -> (out: Vec<char>)
    requires
        from <= to <= chars@.len(),
    ensures
        out@ == chars@.subrange(from as int, to as int),
{
    let mut out: Vec<char> = Vec::new();
    let mut i: usize = from;
    while i < to
        invariant
            from <= i <= to <= chars@.len(),
            out@ =~= chars@.subrange(from as int, i as int),
        decreases to - i,
    {
        out.push(chars[i]);
        i = i + 1;
    }
    out
}

/// Reads the username and password out of a received buffer, as
/// [`credentials`] describes.
pub fn parse_credentials(buf: &[u8]) -> (r: Option<(String, String)>)
    ensures
        match r {
            Some((user, pass)) => credentials(buf@) == Some((user@, pass@)),
            None => credentials(buf@) is None,
        },
{
    let bytes = trim_padding_bytes(buf, true);
    let text = match utf8_to_string(bytes) {
        Some(t) => t,
        None => return None,
    };
    let chars = chars_of(text.as_str());
    let i = match find_char(&chars, ':') {
        Some(i) => i,
        None => return None,
    };
    proof {
        crate::text::lemma_find_from(chars@, seq![':'], 0);
    }
    let user = string_from_chars(&chars, 0, i);
    let len = chars.len();
    let rest = copy_chars(&chars, i + 1, len);
    let j = match find_char(&rest, ':') {
        Some(j) => j,
        None => rest.len(),
    };
    proof {
        crate::text::lemma_find_from(rest@, seq![':'], 0);
    }
    let pass = string_from_chars(&rest, 0, j);
    Some((user, pass))
}

/// What the server writes back to a connected agent.
#[derive(Clone, Copy, Debug, PartialEq, Eq, Structural)]
pub enum Reply {
    /// "Authentication required"
    AuthenticationRequired,
    /// "Authentication successful. Index is <index>"
    AuthenticationSucceeded(usize),
    /// "You are connecting via IPv4 <peer address>"
    ConnectedVia,
}

/// The text of a reply, given the text of the peer's socket address.
pub open spec fn reply_text_spec(reply: Reply, peer: Seq<char>) -> Seq<char> {
    match reply {
        Reply::AuthenticationRequired => "Authentication required"@,
        Reply::AuthenticationSucceeded(i) => "Authentication successful. Index is "@ + crate::text::decimal(
            i as nat,
        ),
        Reply::ConnectedVia => "You are connecting via IPv4 "@ + peer,
    }
}

/// Renders a reply, given the text of the peer's socket address.
pub fn reply_text(reply: &Reply, peer: &str) -> (s: String)
    ensures
        s@ == reply_text_spec(*reply, peer@),
{
    match reply {
        Reply::AuthenticationRequired => String::from_str("Authentication required"),
        Reply::AuthenticationSucceeded(i) => {
            let mut s = String::from_str("Authentication successful. Index is ");
            push_decimal(&mut s, *i as u64);
            s
        },
        Reply::ConnectedVia => {
            let mut s = String::from_str("You are connecting via IPv4 ");
            push_str(&mut s, peer);
            s
        },
    }
}

/// The state of one agent connection.
#[derive(Clone, Copy, Debug, PartialEq, Eq, Structural)]
pub struct Session {
    /// Reads counted so far towards the login window (at most 3).
    pub first_count: u32,
    /// Whether the agent has logged in.
    pub auth_success: bool,
    /// The server entry the agent logged in as; -1 before that.
    pub config_index: i32,
}

/// What the caller does after a read.
#[derive(Debug)]
pub struct ReadOutcome {
    /// Texts to write back, in order (see [`reply_text`]).
    pub replies: Vec<Reply>,
    /// The message to publish on the status channel, if any.
    pub broadcast: Option<CommandMessage>,
    /// The read completed a login: the caller goes straight back to the top
    /// of its loop, without logging the buffer.
    pub restarted: bool,
    /// The peer closed the connection (the read returned 0 bytes).
    pub close: bool,
}

impl Session {
    /// A fresh connection: nothing read, not logged in.
    pub open spec fn initial() -> Session {
        Session { first_count: 0, auth_success: false, config_index: -1i32 }
    }

    /// The next read is taken as a login attempt.
    pub open spec fn checks_credentials(self) -> bool {
        self.first_count < MAX_LOGIN_READS && !self.auth_success
    }

    /// `buf` can be handled in this state: when it is a login attempt, it
    /// must hold credentials (otherwise the connection is dropped).
    pub open spec fn can_read(self, buf: Seq<u8>) -> bool {
        self.checks_credentials() ==> credentials(buf) is Some
    }

    /// The server entry that the read `buf` logs in as, if it is a login
    /// attempt that succeeds.
    pub open spec fn login(self, servers: Seq<ServerConfig>, buf: Seq<u8>) -> Option<int> {
        if self.checks_credentials() {
            match credentials(buf) {
                Some((user, pass)) => login_index(servers, user, pass),
                None => None,
            }
        } else {
            None
        }
    }

    /// The state after reading `buf`.
    pub open spec fn next(self, servers: Seq<ServerConfig>, buf: Seq<u8>) -> Session {
        match self.login(servers, buf) {
            Some(i) => Session {
                auth_success: true,
                config_index: (i as usize) as i32,
                ..self
            },
            None => if self.first_count < MAX_LOGIN_READS {
                Session { first_count: (self.first_count + 1) as u32, ..self }
            } else {
                self
            },
        }
    }

    /// The replies written after reading `buf`.
    pub open spec fn replies(self, servers: Seq<ServerConfig>, buf: Seq<u8>) -> Seq<Reply> {
        match self.login(servers, buf) {
            Some(i) => seq![Reply::AuthenticationSucceeded(i as usize), Reply::ConnectedVia],
            None => if 1 < self.first_count < MAX_LOGIN_READS {
                seq![Reply::ConnectedVia]
            } else {
                seq![]
            },
        }
    }

    /// A fresh session.
    pub fn new() -> (s: Session)
        ensures
            s == Session::initial(),
    {
        Session { first_count: 0, auth_success: false, config_index: -1 }
    }

    /// The prompt written before each read: "Authentication required" as
    /// long as no read has been counted.
    pub fn prompt(&self) -> (r: Option<Reply>)
        ensures
            r == (if self.first_count == 0 {
                Some(Reply::AuthenticationRequired)
            } else {
                None
            }),
    {
        if self.first_count == 0 {
            Some(Reply::AuthenticationRequired)
        } else {
            None
        }
    }

    /// Whether `buf` can be handled in this state (see [`Session::can_read`]).
    pub fn accepts_read(&self, buf: &[u8]) -> (r: bool)
        ensures
            r == self.can_read(buf@),
    {
        if self.first_count < MAX_LOGIN_READS && !self.auth_success {
            parse_credentials(buf).is_some()
        } else {
            true
        }
    }

    /// Handles the buffer of one read, of which the first `n` bytes were
    /// received (the rest is zero).
    pub fn on_read(&mut self, config: &ServerConfigJSON, buf: &[u8], n: usize) -> (out: ReadOutcome)
        requires
            old(self).can_read(buf@),
        ensures
            *final(self) == old(self).next(config.servers@, buf@),
            out.replies@ == old(self).replies(config.servers@, buf@),
            out.restarted == old(self).login(config.servers@, buf@) is Some,
            out.close == (!out.restarted && n == 0),
            out.broadcast is Some <==> old(self).auth_success,
            out.broadcast matches Some(cmd) ==> {
                &&& cmd matches CommandMessage::SetValue { config_index, key, val }
                &&& config_index == old(self).config_index
                &&& key@ == "received"@
                &&& val@ == buf@
            },
    {
        let mut replies: Vec<Reply> = Vec::new();
        if self.first_count < MAX_LOGIN_READS {
            if !self.auth_success {
                if let Some((user, pass)) = parse_credentials(buf) {
                    if let Some(found) = config.check_name_pass(user.as_str(), pass.as_str()) {
                        self.config_index = found as i32;
                        replies.push(Reply::AuthenticationSucceeded(found));
                        replies.push(Reply::ConnectedVia);
                        self.auth_success = true;
                        proof {
                            assert(replies@ =~= seq![
                                Reply::AuthenticationSucceeded(found),
                                Reply::ConnectedVia,
                            ]);
                        }
                        return ReadOutcome {
                            replies,
                            broadcast: None,
                            restarted: true,
                            close: false,
                        };
                    }
                }
            }
            if self.first_count > 1 {
                replies.push(Reply::ConnectedVia);
            }
            self.first_count = self.first_count + 1;
        }
        proof {
            if 1 < old(self).first_count < MAX_LOGIN_READS {
                assert(replies@ =~= seq![Reply::ConnectedVia]);
            } else {
                assert(replies@ =~= Seq::<Reply>::empty());
            }
        }
        let broadcast = if self.auth_success {
            Some(
                CommandMessage::SetValue {
                    config_index: self.config_index,
                    key: String::from_str("received"),
                    val: vstd::slice::slice_to_vec(buf),
                },
            )
        } else {
            None
        };
        ReadOutcome { replies, broadcast, restarted: false, close: n == 0 }
    }
}

/// The number of login attempts made while reading `reads` in order from
/// state `s`. A read that cannot be handled ends the connection, so the
/// reads after it are not counted.
pub open spec fn login_attempts(s: Session, servers: Seq<ServerConfig>, reads: Seq<Seq<u8>>) -> nat
    decreases reads.len(),
{
    if reads.len() == 0 || !s.can_read(reads[0]) {
        0
    } else {
        (if s.checks_credentials() {
            1nat
        } else {
            0nat
        }) + login_attempts(s.next(servers, reads[0]), servers, reads.drop_first())
    }
}

/// The login attempts still open to a session.
pub open spec fn attempts_left(s: Session) -> nat {
    if s.auth_success || s.first_count >= MAX_LOGIN_READS {
        0
    } else {
        (MAX_LOGIN_READS - s.first_count) as nat
    }
}

/// No sequence of reads makes more login attempts than the session has left.
pub proof fn lemma_login_attempts_bounded(s: Session, servers: Seq<ServerConfig>, reads: Seq<Seq<u8>>)
    ensures
        login_attempts(s, servers, reads) <= attempts_left(s),
    decreases reads.len(),
{
    if reads.len() > 0 && s.can_read(reads[0]) {
        lemma_login_attempts_bounded(s.next(servers, reads[0]), servers, reads.drop_first());
    }
}

/// A connection makes at most three login attempts, whatever it sends.
pub proof fn law_at_most_three_login_attempts(servers: Seq<ServerConfig>, reads: Seq<Seq<u8>>)
    ensures
        login_attempts(Session::initial(), servers, reads) <= 3,
{
    lemma_login_attempts_bounded(Session::initial(), servers, reads);
}

/// Once a session has logged in, it stays logged in as the same server
/// entry, whatever it reads next.
pub proof fn law_login_is_permanent(s: Session, servers: Seq<ServerConfig>, buf: Seq<u8>)
    requires
        s.auth_success,
    ensures
        s.next(servers, buf).auth_success,
        s.next(servers, buf).config_index == s.config_index,
{
}

/// A read logs a session in exactly when it is a login attempt whose
/// credentials are those of a server entry, and the session is then logged
/// in as the first such entry.
pub proof fn law_login_takes_first_matching_entry(s: Session, servers: Seq<ServerConfig>, buf: Seq<u8>)
    requires
        s.checks_credentials(),
        credentials(buf) matches Some((user, pass)),
    ensures
        ({
            let (user, pass) = credentials(buf).unwrap();
            &&& (s.login(servers, buf) is Some <==> exists|k: int|
                0 <= k < servers.len() && servers[k].accepts(user, pass))
            &&& (s.login(servers, buf) matches Some(i) ==> {
                &&& 0 <= i < servers.len()
                &&& servers[i].accepts(user, pass)
                &&& forall|j: int| 0 <= j < i ==> !servers[j].accepts(user, pass)
            })
        }),
{
    let (user, pass) = credentials(buf).unwrap();
    crate::server_config::lemma_login_index_from(servers, user, pass, 0);
}

/// An agent whose first reads are its configured `username:password` (with
/// any trailing NUL and line-feed bytes) is logged in by that read as the
/// first server entry with those credentials.
pub proof fn law_configured_agent_logs_in(
    s: Session,
    servers: Seq<ServerConfig>,
    username: Seq<char>,
    password: Seq<char>,
    padding: Seq<u8>,
    k: int,
)
    requires
        s.checks_credentials(),
        !username.contains(':'),
        !password.contains(':'),
        password.len() > 0 ==> password.last() != '\0' && password.last() != '\n',
        forall|i: int| 0 <= i < padding.len() ==> is_padding(padding[i], true),
        0 <= k < servers.len(),
        servers[k].accepts(username, password),
        forall|j: int| 0 <= j < k ==> !servers[j].accepts(username, password),
    ensures
        s.can_read(login_message(username, password) + padding),
        s.next(servers, login_message(username, password) + padding).auth_success,
        s.next(servers, login_message(username, password) + padding).config_index == (k as usize) as i32,
        s.replies(servers, login_message(username, password) + padding) == seq![
            Reply::AuthenticationSucceeded(k as usize),
            Reply::ConnectedVia,
        ],
{
    law_login_message_is_understood(username, password, padding);
    crate::server_config::lemma_login_index_from(servers, username, password, 0);
    let found = login_index(servers, username, password);
    if let Some(i) = found {
        if i < k {
        } else if i > k {
        }
    }
}

/// Outside the login window (three counted reads) a read writes nothing
/// back and leaves the session as it is.
pub proof fn law_nothing_written_after_login_window(s: Session, servers: Seq<ServerConfig>, buf: Seq<u8>)
    requires
        s.first_count >= MAX_LOGIN_READS,
    ensures
        s.replies(servers, buf) == Seq::<Reply>::empty(),
        s.next(servers, buf) == s,
{
}

/// A read never answers with the login prompt: that is written only before
/// a read, while no read has been counted. What a read writes is, in order,
/// the login confirmation (only when the read logs in) and the peer address.
pub proof fn law_read_replies(s: Session, servers: Seq<ServerConfig>, buf: Seq<u8>)
    ensures
        !s.replies(servers, buf).contains(Reply::AuthenticationRequired),
        s.replies(servers, buf).len() <= 2,
        s.replies(servers, buf).len() > 0 ==> s.first_count < MAX_LOGIN_READS,
        s.replies(servers, buf).len() > 0 ==> s.replies(servers, buf).last() == Reply::ConnectedVia,
        s.replies(servers, buf).len() == 2 <==> s.login(servers, buf) is Some,
        s.login(servers, buf) is None ==> (s.replies(servers, buf).len() > 0 <==> s.first_count == 2),
{
    let r = s.replies(servers, buf);
    if r.contains(Reply::AuthenticationRequired) {
        let k = choose|k: int| 0 <= k < r.len() && r[k] == Reply::AuthenticationRequired;
        assert(r[k] == Reply::AuthenticationRequired);
    }
}

/// A text without `:` (followed by any NUL and line-feed bytes) holds no
/// credentials, and neither does a buffer whose trimmed bytes are not UTF-8;
/// during the login window such a read is not accepted.
pub proof fn law_credentials_need_text_and_colon(s: Session, t: Seq<char>, padding: Seq<u8>, buf: Seq<u8>)
    requires
        forall|i: int| 0 <= i < padding.len() ==> is_padding(padding[i], true),
    ensures
        !t.contains(':') ==> credentials(encode_utf8(t) + padding) is None,
        !t.contains(':') && s.checks_credentials() ==> !s.can_read(encode_utf8(t) + padding),
        !valid_utf8(trim_padding(buf, true)) ==> credentials(buf) is None,
{
    if !t.contains(':') {
        lemma_trim_padding_append(encode_utf8(t), padding, true);
        crate::text::law_trimmed_encoding_is_text(t, true);
        let bytes = trim_padding(encode_utf8(t), true);
        let text = decode_utf8(bytes);
        // The trimmed bytes encode `t` without its trailing padding characters,
        // which is a prefix of `t` and so holds no `:` either.
        lemma_trimmed_text_is_prefix(t);
        lemma_find_char_absent(text, ':');
    }
}

/// Trimming the encoding of `t` leaves the encoding of a prefix of `t`.
proof fn lemma_trimmed_text_is_prefix(t: Seq<char>)
    ensures
        exists|k: int|
            0 <= k <= t.len() && #[trigger] decode_utf8(trim_padding(encode_utf8(t), true)) == t.take(k),
    decreases t.len(),
{
    crate::text::law_trimmed_encoding_is_text(t, true);
    if t.len() > 0 && crate::text::is_padding_char(t.last(), true) {
        crate::text::lemma_encode_utf8_last(t, true);
        lemma_trimmed_text_is_prefix(t.drop_last());
        let k = choose|k: int|
            0 <= k <= t.drop_last().len() && #[trigger] decode_utf8(
                trim_padding(encode_utf8(t.drop_last()), true),
            ) == t.drop_last().take(k);
        assert(t.drop_last().take(k) =~= t.take(k));
        assert(trim_padding(encode_utf8(t), true) == trim_padding(encode_utf8(t.drop_last()), true));
    } else {
        encode_utf8_decode_utf8(t);
        assert(t.take(t.len() as int) =~= t);
    }
}

/// After a read, the session is logged in exactly when it was before or the
/// read logged it in; a read that does not log in counts towards the login
/// window until three reads are counted, and a login read is not counted.
pub proof fn law_read_updates_login_state(s: Session, servers: Seq<ServerConfig>, buf: Seq<u8>)
    ensures
        s.next(servers, buf).auth_success <==> (s.auth_success || s.login(servers, buf) is Some),
        s.login(servers, buf) is Some ==> s.next(servers, buf).first_count == s.first_count,
        s.login(servers, buf) is None && s.first_count < MAX_LOGIN_READS ==> s.next(servers, buf).first_count
            == s.first_count + 1,
        s.login(servers, buf) is None ==> s.next(servers, buf).config_index == s.config_index,
        s.login(servers, buf) is Some ==> !s.auth_success,
{
}

} // verus!
