//! Byte and character helpers shared by the protocol code: trimming of
//! padded read buffers, UTF-8 decoding, substring search and decimal
//! rendering of integers.
use vstd::prelude::*;
use vstd::utf8::*;

verus! {

// ---------------------------------------------------------------------
// Padding at the end of a read buffer
// ---------------------------------------------------------------------

/// A byte that counts as padding at the end of a buffer: a NUL byte, and,
/// when `newline` is set, also a line feed (byte 10).
pub open spec fn is_padding(x: u8, newline: bool) -> bool {
    x == 0 || (newline && x == 10)
}

/// `bytes` without its trailing padding bytes.
pub open spec fn trim_padding(bytes: Seq<u8>, newline: bool) -> Seq<u8>
    decreases bytes.len(),
{
    if bytes.len() > 0 && is_padding(bytes.last(), newline) {
        trim_padding(bytes.drop_last(), newline)
    } else {
        bytes
    }
}

/// What trimming leaves: a prefix of the input, followed in the input only
/// by padding bytes, and not itself ending in a padding byte.
pub proof fn law_trim_padding_cuts_only_trailing_padding(bytes: Seq<u8>, newline: bool)
    ensures
        trim_padding(bytes, newline).len() <= bytes.len(),
        trim_padding(bytes, newline) == bytes.take(trim_padding(bytes, newline).len() as int),
        forall|i: int|
            trim_padding(bytes, newline).len() <= i < bytes.len() ==> is_padding(bytes[i], newline),
        trim_padding(bytes, newline).len() > 0 ==> !is_padding(trim_padding(bytes, newline).last(), newline),
    decreases bytes.len(),
{
    if bytes.len() > 0 && is_padding(bytes.last(), newline) {
        let d = bytes.drop_last();
        law_trim_padding_cuts_only_trailing_padding(d, newline);
        let t = trim_padding(d, newline);
        assert(d.take(t.len() as int) =~= bytes.take(t.len() as int));
        assert forall|i: int| t.len() <= i < bytes.len() implies is_padding(bytes[i], newline) by {
            if i < d.len() {
                assert(bytes[i] == d[i]);
            }
        }
    } else {
        assert(bytes.take(bytes.len() as int) =~= bytes);
    }
}

/// Padding appended to a buffer is cut off again by trimming.
pub proof fn lemma_trim_padding_append(bytes: Seq<u8>, padding: Seq<u8>, newline: bool)
    requires
        forall|i: int| 0 <= i < padding.len() ==> is_padding(padding[i], newline),
    ensures
        trim_padding(bytes + padding, newline) == trim_padding(bytes, newline),
    decreases padding.len(),
{
    if padding.len() == 0 {
        assert(bytes + padding =~= bytes);
    } else {
        assert((bytes + padding).last() == padding.last());
        assert((bytes + padding).drop_last() =~= bytes + padding.drop_last());
        lemma_trim_padding_append(bytes, padding.drop_last(), newline);
    }
}

/// The length of `bytes` once its trailing padding is cut off: the position
/// just after the last byte that is not padding, or 0 when there is none.
pub fn trimmed_len(bytes: &[u8], newline: bool) -> (n: usize)
    ensures
        n <= bytes@.len(),
        bytes@.take(n as int) == trim_padding(bytes@, newline),
{
    let mut i: usize = bytes.len();
    proof {
        assert(bytes@.take(i as int) =~= bytes@);
    }
    while i > 0 && (bytes[i - 1] == 0 || (newline && bytes[i - 1] == 10))
        invariant
            i <= bytes@.len(),
            trim_padding(bytes@.take(i as int), newline) == trim_padding(bytes@, newline),
        decreases i,
    {
        proof {
            assert(bytes@.take(i as int).drop_last() =~= bytes@.take(i - 1));
        }
        i = i - 1;
    }
    i
}

/// A copy of `bytes` without its trailing padding.
pub fn trim_padding_bytes(bytes: &[u8], newline: bool) -> (out: Vec<u8>)
    ensures
        out@ == trim_padding(bytes@, newline),
{
    let n = trimmed_len(bytes, newline);
    let mut out: Vec<u8> = Vec::new();
    let mut i: usize = 0;
    while i < n
        invariant
            n <= bytes@.len(),
            i <= n,
            out@ =~= bytes@.take(i as int),
        decreases n - i,
    {
        out.push(bytes[i]);
        i = i + 1;
    }
    out
}

// ---------------------------------------------------------------------
// Calls into std for text
// ---------------------------------------------------------------------

/// Decodes bytes with `std::string::String::from_utf8`. As std documents,
/// the call succeeds exactly when the bytes are valid UTF-8, and the
/// string then holds the characters that the bytes encode.
#[verifier::external_body]
pub(crate) fn utf8_to_string(bytes: Vec<u8>) -> (res: Option<String>)
    ensures
        res is Some <==> valid_utf8(bytes@),
        res matches Some(s) ==> s@ == decode_utf8(bytes@),
{
    match String::from_utf8(bytes) {
        Ok(s) => Some(s),
        Err(_) => None,
    }
}

/// The characters of `s`, in order.
pub fn chars_of(s: &str) -> (out: Vec<char>)
    ensures
        out@ == s@,
{
    broadcast use vstd::string::group_string_axioms;

    let mut out: Vec<char> = Vec::new();
    for c in it: s.chars()
        invariant
            out@.len() == it.index(),
            forall|i: int| 0 <= i < out@.len() ==> out@[i] == it.seq()[i],
    {
        out.push(c);
    }
    assert(out@ =~= s@);
    out
}

/// Appends one character with `String::push`.
#[verifier::external_body]
pub(crate) fn push_char(s: &mut String, c: char)
    ensures
        final(s)@ == old(s)@.push(c),
{
    s.push(c)
}

/// Appends the characters `chars[from..to]` to `s`.
pub fn push_chars(s: &mut String, chars: &Vec<char>, from: usize, to: usize)
    requires
        from <= to <= chars@.len(),
    ensures
        final(s)@ == old(s)@ + chars@.subrange(from as int, to as int),
{
    let mut i: usize = from;
    while i < to
        invariant
            from <= i <= to <= chars@.len(),
            s@ =~= old(s)@ + chars@.subrange(from as int, i as int),
        decreases to - i,
    {
        push_char(s, chars[i]);
        i = i + 1;
    }
}

/// A fresh string holding `chars[from..to]`.
pub fn string_from_chars(chars: &Vec<char>, from: usize, to: usize) -> (s: String)
    requires
        from <= to <= chars@.len(),
    ensures
        s@ == chars@.subrange(from as int, to as int),
{
    let mut s = String::new();
    push_chars(&mut s, chars, from, to);
    proof {
        assert(Seq::<char>::empty() + chars@.subrange(from as int, to as int)
            =~= chars@.subrange(from as int, to as int));
    }
    s
}

// ---------------------------------------------------------------------
// Searching
// ---------------------------------------------------------------------

/// `pattern` occurs in `text` starting at position `i`.
pub open spec fn occurs_at(text: Seq<char>, pattern: Seq<char>, i: int) -> bool {
    0 <= i && i + pattern.len() <= text.len() && text.subrange(i, i + pattern.len()) == pattern
}

/// The first position at or after `i` where `pattern` occurs in `text`.
pub open spec fn find_from(text: Seq<char>, pattern: Seq<char>, i: int) -> Option<int>
    decreases text.len() + 1 - i,
{
    if i < 0 || i + pattern.len() > text.len() {
        None
    } else if occurs_at(text, pattern, i) {
        Some(i)
    } else {
        find_from(text, pattern, i + 1)
    }
}

/// The first position where `pattern` occurs in `text`, if it occurs.
pub open spec fn find(text: Seq<char>, pattern: Seq<char>) -> Option<int> {
    find_from(text, pattern, 0)
}

/// What `find_from` returns: the least position from `i` on where the
/// pattern occurs, and `None` when it occurs nowhere from `i` on.
pub proof fn lemma_find_from(text: Seq<char>, pattern: Seq<char>, i: int)
    requires
        0 <= i,
    ensures
        find_from(text, pattern, i) matches Some(k) ==> {
            &&& i <= k
            &&& occurs_at(text, pattern, k)
            &&& forall|j: int| i <= j < k ==> !occurs_at(text, pattern, j)
        },
        find_from(text, pattern, i) is None ==> forall|j: int|
            i <= j ==> !occurs_at(text, pattern, j),
    decreases text.len() + 1 - i,
{
    if i + pattern.len() > text.len() {
    } else if occurs_at(text, pattern, i) {
    } else {
        lemma_find_from(text, pattern, i + 1);
    }
}

/// A position where the pattern occurs, with no occurrence before it, is
/// what `find` returns.
pub proof fn lemma_find_is_first_occurrence(text: Seq<char>, pattern: Seq<char>, k: int)
    requires
        occurs_at(text, pattern, k),
        forall|j: int| 0 <= j < k ==> !occurs_at(text, pattern, j),
    ensures
        find(text, pattern) == Some(k),
{
    lemma_find_from(text, pattern, 0);
    if let Some(k2) = find(text, pattern) {
        if k2 < k {
        } else if k2 > k {
        }
    }
}

/// A single character occurs at `j` exactly when it is the character there.
pub proof fn lemma_occurs_at_char(text: Seq<char>, c: char, j: int)
    ensures
        occurs_at(text, seq![c], j) <==> (0 <= j < text.len() && text[j] == c),
{
    if 0 <= j < text.len() {
        if text[j] == c {
            assert(text.subrange(j, j + 1) =~= seq![c]);
        }
        if occurs_at(text, seq![c], j) {
            assert(text.subrange(j, j + 1)[0] == c);
        }
    }
}

/// Where a text holds no `c`, `find` finds none.
pub proof fn lemma_find_char_absent(text: Seq<char>, c: char)
    requires
        !text.contains(c),
    ensures
        find(text, seq![c]) is None,
{
    lemma_find_from(text, seq![c], 0);
    if let Some(k) = find(text, seq![c]) {
        lemma_occurs_at_char(text, c, k);
        assert(text[k] == c);
    }
}

/// In `prefix + [c] + suffix` with no `c` in `prefix`, the first `c` is the
/// one after the prefix.
pub proof fn lemma_find_char_after_prefix(prefix: Seq<char>, c: char, suffix: Seq<char>)
    requires
        !prefix.contains(c),
    ensures
        find(prefix + seq![c] + suffix, seq![c]) == Some(prefix.len() as int),
{
    let text = prefix + seq![c] + suffix;
    lemma_occurs_at_char(text, c, prefix.len() as int);
    assert forall|j: int| 0 <= j < prefix.len() implies !occurs_at(text, seq![c], j) by {
        lemma_occurs_at_char(text, c, j);
        assert(text[j] == prefix[j]);
    }
    lemma_find_is_first_occurrence(text, seq![c], prefix.len() as int);
}

/// Whether `pattern` occurs in `text` at position `i`, compared character
/// by character.
fn matches_at(text: &Vec<char>, pattern: &Vec<char>, i: usize) -> (r: bool)
    requires
        i + pattern@.len() <= text@.len(),
    ensures
        r == occurs_at(text@, pattern@, i as int),
{
    let n = text.len();
    let mut j: usize = 0;
    while j < pattern.len()
        invariant
            n == text@.len(),
            i + pattern@.len() <= text@.len(),
            j <= pattern@.len(),
            forall|k: int| 0 <= k < j ==> text@[i + k] == pattern@[k],
        decreases pattern@.len() - j,
    {
        if text[i + j] != pattern[j] {
            proof {
                assert(text@.subrange(i as int, i + pattern@.len())[j as int] != pattern@[j as int]);
            }
            return false;
        }
        j = j + 1;
    }
    proof {
        assert(text@.subrange(i as int, i + pattern@.len()) =~= pattern@);
    }
    true
}

/// The first position where `pattern` occurs in `text`.
pub fn find_chars(text: &Vec<char>, pattern: &Vec<char>) -> (r: Option<usize>)
    ensures
        match r {
            Some(k) => find(text@, pattern@) == Some(k as int),
            None => find(text@, pattern@) is None,
        },
{
    let mut i: usize = 0;
    if pattern.len() > text.len() {
        return None;
    }
    if pattern.len() == 0 {
        proof {
            assert(text@.subrange(0, 0) =~= pattern@);
        }
        return Some(0);
    }
    let n = text.len();
    let last = n - pattern.len();
    while i <= last
        invariant
            n == text@.len(),
            last + pattern@.len() == text@.len(),
            pattern@.len() >= 1,
            i <= last + 1,
            find_from(text@, pattern@, 0) == find_from(text@, pattern@, i as int),
        decreases last + 1 - i,
    {
        if matches_at(text, pattern, i) {
            return Some(i);
        }
        i = i + 1;
    }
    None
}

/// The first position of the character `c` in `text`.
pub fn find_char(text: &Vec<char>, c: char) -> (r: Option<usize>)
    ensures
        match r {
            Some(k) => find(text@, seq![c]) == Some(k as int),
            None => find(text@, seq![c]) is None,
        },
{
    let mut pattern: Vec<char> = Vec::new();
    pattern.push(c);
    proof {
        assert(pattern@ =~= seq![c]);
    }
    find_chars(text, &pattern)
}

// ---------------------------------------------------------------------
// UTF-8 encoding
// ---------------------------------------------------------------------

/// Encoding distributes over concatenation.
pub proof fn lemma_encode_utf8_concat(a: Seq<char>, b: Seq<char>)
    ensures
        encode_utf8(a + b) == encode_utf8(a) + encode_utf8(b),
    decreases a.len(),
{
    if a.len() == 0 {
        assert(a + b =~= b);
        assert(encode_utf8(a) + encode_utf8(b) =~= encode_utf8(b));
    } else {
        assert((a + b)[0] == a[0]);
        assert((a + b).drop_first() =~= a.drop_first() + b);
        lemma_encode_utf8_concat(a.drop_first(), b);
        assert(encode_scalar(a[0] as u32) + (encode_utf8(a.drop_first()) + encode_utf8(b))
            =~= (encode_scalar(a[0] as u32) + encode_utf8(a.drop_first())) + encode_utf8(b));
    }
}

/// A character that is encoded as a padding byte: NUL, and, when `newline`
/// is set, line feed.
pub open spec fn is_padding_char(c: char, newline: bool) -> bool {
    c == '\0' || (newline && c == '\n')
}

/// The encoding of a non-empty text ends in a padding byte exactly when the
/// text ends in a padding character, which is then encoded as that one byte.
pub proof fn lemma_encode_utf8_last(s: Seq<char>, newline: bool)
    requires
        s.len() > 0,
    ensures
        encode_utf8(s).len() > 0,
        is_padding(encode_utf8(s).last(), newline) <==> is_padding_char(s.last(), newline),
        is_padding_char(s.last(), newline) ==> encode_utf8(s).drop_last() == encode_utf8(s.drop_last()),
{
    let c = s.last();
    assert(s =~= s.drop_last() + seq![c]);
    lemma_encode_utf8_concat(s.drop_last(), seq![c]);
    assert(seq![c].drop_first() =~= Seq::<char>::empty());
    let e = encode_scalar(c as u32);
    assert(encode_utf8(seq![c]) =~= e + encode_utf8(Seq::<char>::empty()));
    assert(encode_utf8(seq![c]) =~= e);
    let v: u32 = c as u32;
    char_is_scalar(c);
    char_u32_cast(c, v);
    char_u32_cast('\0', 0u32);
    char_u32_cast('\n', 10u32);
    if has_width_1_encoding(v) {
        assert(v <= 0x7f ==> (v & 0x7f) == v) by (bit_vector);
        assert(e.last() == v as u8);
        assert(e.len() == 1);
    } else {
        let x: u8 = (v & 0x3f) as u8;
        assert((0x80u8 | x) >= 0x80) by (bit_vector);
        assert(e.last() == last_continuation_byte(v));
        assert(v != 0 && v != 10);
    }
    assert(encode_utf8(s) =~= encode_utf8(s.drop_last()) + e);
    if is_padding_char(c, newline) {
        assert(encode_utf8(s).drop_last() =~= encode_utf8(s.drop_last()));
    }
}

/// The encoding of a non-empty text ends in a NUL or line-feed byte only
/// when the text ends in the character NUL or line feed.
pub proof fn lemma_encode_utf8_last_byte(s: Seq<char>)
    requires
        s.len() > 0,
        s.last() != '\0',
        s.last() != '\n',
    ensures
        encode_utf8(s).len() > 0,
        !is_padding(encode_utf8(s).last(), true),
{
    lemma_encode_utf8_last(s, true);
}

/// Cutting the padding off the encoding of any text leaves valid UTF-8:
/// exactly the encoding of the text without its trailing padding characters.
pub proof fn law_trimmed_encoding_is_text(t: Seq<char>, newline: bool)
    ensures
        valid_utf8(trim_padding(encode_utf8(t), newline)),
        t.len() == 0 || !is_padding_char(t.last(), newline) ==> trim_padding(encode_utf8(t), newline)
            == encode_utf8(t),
    decreases t.len(),
{
    encode_utf8_valid_utf8(t);
    if t.len() > 0 {
        lemma_encode_utf8_last(t, newline);
        if is_padding_char(t.last(), newline) {
            law_trimmed_encoding_is_text(t.drop_last(), newline);
        }
    } else {
        assert(encode_utf8(t) =~= Seq::<u8>::empty());
    }
}

// ---------------------------------------------------------------------
// Decimal rendering
// ---------------------------------------------------------------------

/// The character of the decimal digit `d` (0 to 9).
pub open spec fn digit_char(d: nat) -> char {
    (d + 48) as char
}

/// The decimal digits of `n`, most significant first, without leading zeros.
pub open spec fn decimal(n: nat) -> Seq<char>
    decreases n,
{
    if n < 10 {
        seq![digit_char(n)]
    } else {
        decimal(n / 10).push(digit_char(n % 10))
    }
}

/// The decimal text of `i`, with a leading `-` for negative numbers.
pub open spec fn signed_decimal(i: int) -> Seq<char> {
    if i < 0 {
        seq!['-'] + decimal((-i) as nat)
    } else {
        decimal(i as nat)
    }
}

/// The number that a string of decimal digits denotes.
pub open spec fn digits_value(digits: Seq<char>) -> int
    decreases digits.len(),
{
    if digits.len() == 0 {
        0
    } else {
        digits_value(digits.drop_last()) * 10 + (digits.last() as int - 48)
    }
}

/// `decimal(n)` is a non-empty string of the digits `0` to `9` that denotes
/// `n` and has no leading zero.
pub proof fn law_decimal_denotes_its_number(n: nat)
    ensures
        decimal(n).len() > 0,
        forall|i: int| 0 <= i < decimal(n).len() ==> '0' <= #[trigger] decimal(n)[i] <= '9',
        digits_value(decimal(n)) == n,
        decimal(n).len() > 1 ==> decimal(n)[0] != '0',
    decreases n,
{
    if n >= 10 {
        law_decimal_denotes_its_number(n / 10);
        let d = decimal(n / 10);
        let e = d.push(digit_char(n % 10));
        assert(e.drop_last() =~= d);
        assert(forall|i: int| 0 <= i < d.len() ==> e[i] == d[i]);
        assert((digit_char(n % 10) as int) == n % 10 + 48);
        assert(decimal(n) == e);
        assert(e.last() == digit_char(n % 10));
        assert(n == (n / 10) * 10 + n % 10);
        assert(digits_value(e) == digits_value(d) * 10 + (n % 10));
        assert(e[0] == d[0]);
        if n / 10 < 10 {
            assert(d[0] == digit_char(n / 10));
            assert((digit_char(n / 10) as int) == n / 10 + 48);
        } else {
            law_decimal_denotes_its_number(n / 10 / 10);
        }
    } else {
        assert((digit_char(n) as int) == n + 48);
        assert(seq![digit_char(n)].drop_last() =~= Seq::<char>::empty());
        assert(seq![digit_char(n)].last() == digit_char(n));
        assert(digits_value(Seq::<char>::empty()) == 0);
    }
}

/// `signed_decimal(i)` is `-` followed by the digits of `-i` for negative
/// `i`, and the digits of `i` otherwise.
pub proof fn law_signed_decimal_denotes_its_number(i: int)
    ensures
        i < 0 ==> signed_decimal(i)[0] == '-' && digits_value(signed_decimal(i).drop_first()) == -i,
        i >= 0 ==> digits_value(signed_decimal(i)) == i && signed_decimal(i)[0] != '-',
{
    if i < 0 {
        law_decimal_denotes_its_number((-i) as nat);
        assert(signed_decimal(i).drop_first() =~= decimal((-i) as nat));
    } else {
        law_decimal_denotes_its_number(i as nat);
        assert('0' <= decimal(i as nat)[0] <= '9');
    }
}

/// Appends the decimal digits of `n` to `s`.
pub fn push_decimal(s: &mut String, n: u64)
    ensures
        final(s)@ == old(s)@ + decimal(n as nat),
    decreases n,
{
    if n >= 10 {
        push_decimal(s, n / 10);
    }
    let d: u8 = (n % 10) as u8;
    let c: char = (d + 48) as char;
    push_char(s, c);
    proof {
        if n < 10 {
            assert(old(s)@.push(c) =~= old(s)@ + seq![c]);
        } else {
            assert(decimal(n as nat) == decimal((n / 10) as nat).push(digit_char((n % 10) as nat)));
            assert((old(s)@ + decimal((n / 10) as nat)).push(c) =~= old(s)@ + decimal((n / 10) as nat).push(c));
        }
    }
}

/// Appends the decimal text of `i` to `s`, with a `-` sign when negative.
pub fn push_signed_decimal(s: &mut String, i: i64)
    requires
        i > i64::MIN,
    ensures
        final(s)@ == old(s)@ + signed_decimal(i as int),
{
    if i < 0 {
        push_char(s, '-');
        let m: u64 = (-i) as u64;
        push_decimal(s, m);
        proof {
            assert(old(s)@.push('-') + decimal(m as nat) =~= old(s)@ + (seq!['-'] + decimal(m as nat)));
        }
    } else {
        push_decimal(s, i as u64);
    }
}

/// Appends the text of `t` to `s`.
pub fn push_str(s: &mut String, t: &str)
    ensures
        final(s)@ == old(s)@ + t@,
{
    s.append(t);
}

} // verus!
