//! Path and command patterns: a glob, a substring, or a regular expression
//! written between slashes (`/.../`).
use crate::text::{contains_seq, contains_str};
use vstd::prelude::*;
use vstd::string::*;

verus! {

/// What `regex::Regex::new(pattern)` followed by `is_match(text)` gives:
/// `None` when the pattern does not compile, else whether it matches.
pub uninterp spec fn regex_accepts(pattern: Seq<char>, text: Seq<char>) -> Option<bool>;

/// What `glob::Pattern::new(pattern)` followed by `matches(path)` gives:
/// `None` when the pattern does not parse, else whether it matches.
pub uninterp spec fn glob_accepts(pattern: Seq<char>, path: Seq<char>) -> Option<bool>;

/// Compiles `pattern` with `regex::Regex::new` and, when that succeeds,
/// tests `text` with `Regex::is_match`. The contract claims only that the
/// outcome is a function of the two strings (`regex_accepts`); the regex
/// semantics themselves are not stated.
#[verifier::external_body]
pub(crate) fn regex_is_match(pattern: &str, text: &str) -> (r: Option<bool>)
    ensures
        r == regex_accepts(pattern@, text@),
{
    match regex::Regex::new(pattern) {
        Ok(re) => Some(re.is_match(text)),
        Err(_) => None,
    }
}

/// Parses `pattern` with `glob::Pattern::new` and, when that succeeds, tests
/// `path` with `Pattern::matches`. The contract claims only that the outcome
/// is a function of the two strings (`glob_accepts`); glob semantics are not
/// stated.
#[verifier::external_body]
pub(crate) fn glob_is_match(pattern: &str, path: &str) -> (r: Option<bool>)
    ensures
        r == glob_accepts(pattern@, path@),
{
    match glob::Pattern::new(pattern) {
        Ok(p) => Some(p.matches(path)),
        Err(_) => None,
    }
}

/// The regular expression of a `/.../` pattern: what stands between the
/// leading and the trailing slash.
pub open spec fn regex_form(p: Seq<char>) -> Option<Seq<char>> {
    if p.len() >= 2 && p[0] == '/' && p[p.len() - 1] == '/' {
        Some(p.subrange(1, p.len() - 1))
    } else {
        None
    }
}

/// A path pattern accepts `path`: a `/regex/` that compiles and matches, or
/// a glob that parses and matches.
pub open spec fn pattern_matches(p: Seq<char>, path: Seq<char>) -> bool {
    match regex_form(p) {
        Some(inner) => regex_accepts(inner, path) == Some(true),
        None => glob_accepts(p, path) == Some(true),
    }
}

/// A command pattern accepts `command`: a `/regex/` that compiles and
/// matches, or a plain string that occurs in the command.
pub open spec fn command_pattern_matches(p: Seq<char>, command: Seq<char>) -> bool {
    match regex_form(p) {
        Some(inner) => regex_accepts(inner, command) == Some(true),
        None => contains_seq(command, p),
    }
}

/// The inner expression of a `/.../` pattern, if it has that form.
pub fn regex_inner(pattern: &str) -> (r: Option<&str>)
    ensures
        r matches Some(i) ==> regex_form(pattern@) == Some(i@),
        r is None <==> regex_form(pattern@) is None,
{
    let n = pattern.unicode_len();
    if n >= 2 && pattern.get_char(0) == '/' && pattern.get_char(n - 1) == '/' {
        Some(pattern.substring_char(1, n - 1))
    } else {
        None
    }
}

/// Checks whether a single path string matches a pattern (glob or /regex/).
/// A pattern that does not compile matches nothing.
pub fn matches_pattern(pattern: &str, path: &str) -> (r: bool)
    ensures
        r == pattern_matches(pattern@, path@),
{
    match regex_inner(pattern) {
        Some(inner) => match regex_is_match(inner, path) {
            Some(b) => b,
            None => false,
        },
        None => match glob_is_match(pattern, path) {
            Some(b) => b,
            None => false,
        },
    }
}

/// Matches a shell command against a deny pattern: `/regex/` patterns match
/// by regular expression, plain strings by substring.
pub fn matches_command_pattern(pattern: &str, command: &str) -> (r: bool)
    ensures
        r == command_pattern_matches(pattern@, command@),
{
    match regex_inner(pattern) {
        Some(inner) => match regex_is_match(inner, command) {
            Some(b) => b,
            None => false,
        },
        None => contains_str(command, pattern),
    }
}

} // verus!
