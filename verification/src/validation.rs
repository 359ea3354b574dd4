//! Validation of project names for the scaffolder.
//!
//! A name is used as a fresh directory name, so it may not carry path
//! separators or a `..` traversal sequence, may not be blank, and is limited
//! to letters, numbers, `_` and `-`.

use vstd::prelude::*;

use crate::rules::contains_char;
use crate::rules::contains_substring;
use crate::rules::has_substring;

verus! {

/// What `char::is_alphanumeric` returns: whether the character is a Unicode
/// letter or number. The result depends on the character alone.
pub uninterp spec fn is_unicode_alphanumeric(c: char) -> bool;

/// Relies on char::is_alphanumeric of std: a fixed classification of each
/// character as a Unicode letter or number.
pub assume_specification[ char::is_alphanumeric ](c: char) -> (r: bool)
    ensures
        r == is_unicode_alphanumeric(c),
;

/// What `char::is_whitespace` returns: whether the character counts as
/// Unicode whitespace. The result depends on the character alone.
pub uninterp spec fn is_unicode_whitespace(c: char) -> bool;

/// Relies on char::is_whitespace of std: a fixed classification of each
/// character as Unicode whitespace.
pub assume_specification[ char::is_whitespace ](c: char) -> (r: bool)
    ensures
        r == is_unicode_whitespace(c),
;

/// An allowed project-name character: a Unicode letter or number, `_`, or
/// `-`.
pub open spec fn allowed_name_char(c: char) -> bool {
    is_unicode_alphanumeric(c) || c == '_' || c == '-'
}

/// Every character of `s` is whitespace — exactly when trimming `s` leaves
/// nothing. True in particular of the empty string.
pub open spec fn all_whitespace(s: Seq<char>) -> bool {
    forall|i: int| 0 <= i < s.len() ==> is_unicode_whitespace(s[i])
}

/// A valid project name: no path separator, no `..` traversal sequence,
/// not blank, and only letters, numbers, `_` and `-`.
pub open spec fn spec_name_valid(s: Seq<char>) -> bool {
    &&& !s.contains('/')
    &&& !s.contains('\\')
    &&& !has_substring(s, seq!['.', '.'])
    &&& !all_whitespace(s)
    &&& (forall|i: int| 0 <= i < s.len() ==> allowed_name_char(s[i]))
}

/// Whether trimming would leave nothing of `s`.
fn is_blank(s: &str) -> (r: bool)
    ensures
        r == all_whitespace(s@),
{
    let n = s.unicode_len();
    let mut i: usize = 0;
    while i < n
        invariant
            n == s@.len(),
            i <= n,
            forall|j: int| 0 <= j < i ==> is_unicode_whitespace(s@[j]),
        decreases n - i,
    {
        if !s.get_char(i).is_whitespace() {
            return false;
        }
        i += 1;
    }
    true
}

/// Whether every character of `s` is allowed in a project name.
fn all_chars_allowed(s: &str) -> (r: bool)
    ensures
        r == (forall|i: int| 0 <= i < s@.len() ==> allowed_name_char(s@[i])),
{
    let n = s.unicode_len();
    let mut i: usize = 0;
    while i < n
        invariant
            n == s@.len(),
            i <= n,
            forall|j: int| 0 <= j < i ==> allowed_name_char(s@[j]),
        decreases n - i,
    {
        let c = s.get_char(i);
        if !(c.is_alphanumeric() || c == '_' || c == '-') {
            return false;
        }
        i += 1;
    }
    true
}

/// Decides whether a project name may be used for scaffolding.
pub fn is_project_name_valid(name: &str) -> (r: bool)
    ensures
        r == spec_name_valid(name@),
{
    // Must not contain path separators
    if contains_char(name, '/') || contains_char(name, '\\') {
        return false;
    }
    // Must not contain a traversal sequence
    proof {
        reveal_strlit("..");
        assert(".."@ =~= seq!['.', '.']);
    }
    if contains_substring(name, "..") {
        return false;
    }
    // Must not be blank
    if is_blank(name) {
        return false;
    }
    // Allowed characters only
    all_chars_allowed(name)
}

} // verus!
