//! Which file under `static/` answers a request that no route handles.
//!
//! The request URI is mapped to `static<uri>`; its query string is dropped,
//! and the path is tried as it is and then with `.html` appended. The first
//! candidate that is a file is served.
use vstd::prelude::*;

use crate::text::{
    chars_of, find, find_char, lemma_find_char_absent, lemma_find_char_after_prefix, push_str,
    string_from_chars,
};

verus! {

/// The path of the file under `static/` that a request URI names, query included.
pub open spec fn static_path(uri: Seq<char>) -> Seq<char> {
    "static"@ + uri
}

/// `path` without its query string: the text before the first `?`.
pub open spec fn without_query(path: Seq<char>) -> Seq<char> {
    match find(path, seq!['?']) {
        Some(i) => path.take(i),
        None => path,
    }
}

/// The files tried for `path`, in order: the path without its query, then
/// the same with `.html` appended.
pub open spec fn candidate_paths(path: Seq<char>) -> Seq<Seq<char>> {
    seq![without_query(path), without_query(path) + ".html"@]
}

/// The first position, from `i` on, where `flags` holds `true`.
pub open spec fn first_true_from(flags: Seq<bool>, i: int) -> Option<int>
    decreases flags.len() - i,
{
    if i < 0 || i >= flags.len() {
        None
    } else if flags[i] {
        Some(i)
    } else {
        first_true_from(flags, i + 1)
    }
}

/// The first position where `flags` holds `true`.
pub open spec fn first_true(flags: Seq<bool>) -> Option<int> {
    first_true_from(flags, 0)
}

/// Why no static file answers a request.
#[derive(Clone, Copy, Debug, PartialEq, Eq, Structural)]
pub enum StaticFileError {
    /// None of the candidate paths is a file.
    NotFound,
}

impl StaticFileError {
    /// The text of the error.
    pub fn describe(&self) -> (s: String)
        ensures
            s@ == "NOT_FOUND"@,
    {
        String::from_str("NOT_FOUND")
    }
}

/// The path under `static/` for a request URI: `static` followed by the URI.
pub fn static_file_path(uri: &str) -> (s: String)
    ensures
        s@ == static_path(uri@),
{
    let mut s = String::from_str("static");
    push_str(&mut s, uri);
    s
}

/// The candidate files for `path` (see [`candidate_paths`]).
pub fn possible_paths(path: &str) -> (paths: Vec<String>)
    ensures
        paths@.len() == 2,
        paths@[0]@ == candidate_paths(path@)[0],
        paths@[1]@ == candidate_paths(path@)[1],
{
    let chars = chars_of(path);
    let len = chars.len();
    let end: usize = match find_char(&chars, '?') {
        Some(i) => {
            proof {
                crate::text::lemma_find_from(chars@, seq!['?'], 0);
            }
            i
        },
        None => len,
    };
    let plain = string_from_chars(&chars, 0, end);
    let mut html = string_from_chars(&chars, 0, end);
    push_str(&mut html, ".html");
    proof {
        assert(chars@.subrange(0, len as int) =~= chars@);
    }
    let mut paths: Vec<String> = Vec::new();
    paths.push(plain);
    paths.push(html);
    paths
}

/// The first candidate that is a file, given for each candidate whether it
/// is one; `NotFound` when none is.
pub fn first_existing_path(candidates: Vec<String>, is_file: &Vec<bool>) -> (r: Result<String, StaticFileError>)
    requires
        candidates@.len() == is_file@.len(),
    ensures
        match r {
            Ok(path) => first_true(is_file@) matches Some(k) && path@ == candidates@[k]@,
            Err(e) => first_true(is_file@) is None && e == StaticFileError::NotFound,
        },
{
    let n = candidates.len();
    let mut remaining = candidates;
    let ghost all = remaining@;
    let mut i: usize = 0;
    while i < n
        invariant
            n == all.len() == is_file@.len(),
            i <= n,
            remaining@ == all,
            all == candidates@,
            first_true(is_file@) == first_true_from(is_file@, i as int),
        decreases n - i,
    {
        if is_file[i] {
            let path = remaining.swap_remove(i);
            return Ok(path);
        }
        i = i + 1;
    }
    Err(StaticFileError::NotFound)
}

/// Only a `?` starts the query: a path without `?` is kept whole (so its
/// candidates are the path and the path with `.html`), and `a?q` with no `?`
/// in `a` is cut to `a`, whatever other characters (such as `.`) `a` holds.
pub proof fn law_only_the_query_is_dropped(path: Seq<char>, a: Seq<char>, q: Seq<char>)
    ensures
        !path.contains('?') ==> without_query(path) == path,
        !path.contains('?') ==> candidate_paths(path) == seq![path, path + ".html"@],
        !a.contains('?') ==> without_query(a + seq!['?'] + q) == a,
{
    if !path.contains('?') {
        lemma_find_char_absent(path, '?');
    }
    if !a.contains('?') {
        lemma_find_char_after_prefix(a, '?', q);
        assert((a + seq!['?'] + q).take(a.len() as int) =~= a);
    }
}

/// `first_true` is the least position holding `true`, and `None` exactly
/// when no position holds `true`.
pub proof fn law_first_true_is_least_true_position(flags: Seq<bool>)
    ensures
        first_true(flags) is None <==> forall|k: int| 0 <= k < flags.len() ==> !flags[k],
        forall|k: int|
            first_true(flags) == Some(k) <==> (0 <= k < flags.len() && flags[k] && forall|j: int|
                0 <= j < k ==> !flags[j]),
        flags.len() > 0 && flags[0] ==> first_true(flags) == Some(0int),
{
    lemma_first_true_from(flags, 0);
}

/// `first_true_from` finds the least `true` position from `i` on.
proof fn lemma_first_true_from(flags: Seq<bool>, i: int)
    requires
        0 <= i,
    ensures
        first_true_from(flags, i) matches Some(k) ==> i <= k < flags.len() && flags[k] && forall|j: int|
            i <= j < k ==> !flags[j],
        first_true_from(flags, i) is None ==> forall|k: int| i <= k < flags.len() ==> !flags[k],
    decreases flags.len() - i,
{
    if i < flags.len() && !flags[i] {
        lemma_first_true_from(flags, i + 1);
    }
}

} // verus!
