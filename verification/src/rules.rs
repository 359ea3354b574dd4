//! The blocked-file pattern matcher and the staged-file gate.
//!
//! A pattern falls in one of three syntactic classes, decided by its own
//! surface form alone:
//! - *directory* pattern (ends with `/`): matches when the name before the
//!   slash appears as a whole segment of the path;
//! - *hidden-file* pattern (starts with `.`, no trailing `/`): matches when
//!   the basename of the path equals the pattern exactly;
//! - *substring* pattern (anything else): matches when the pattern occurs
//!   anywhere in the path.

use vstd::prelude::*;

verus! {

/// `s` occurs in `p` starting at index `i`.
pub open spec fn substring_at(p: Seq<char>, s: Seq<char>, i: int) -> bool {
    &&& 0 <= i
    &&& i + s.len() <= p.len()
    &&& p.subrange(i, i + s.len()) == s
}

/// `s` occurs somewhere in `p` as a contiguous substring.
pub open spec fn has_substring(p: Seq<char>, s: Seq<char>) -> bool {
    exists|i: int| substring_at(p, s, i)
}

/// Compares the characters of `p` at `i..i + s.len()` with `s`.
pub(crate) fn window_eq(p: &str, i: usize, s: &str) -> (r: bool)
    requires
        i + s@.len() <= p@.len(),
        p@.len() <= usize::MAX,
    ensures
        r == (p@.subrange(i as int, i + s@.len()) == s@),
{
    let m = s.unicode_len();
    let mut k: usize = 0;
    while k < m
        invariant
            m == s@.len(),
            i + m <= p@.len(),
            p@.len() <= usize::MAX,
            k <= m,
            forall|j: int| 0 <= j < k ==> p@[i + j] == s@[j],
        decreases m - k,
    {
        if p.get_char(i + k) != s.get_char(k) {
            proof {
                assert(p@.subrange(i as int, i + s@.len())[k as int] != s@[k as int]);
            }
            return false;
        }
        k += 1;
    }
    proof {
        assert(p@.subrange(i as int, i + s@.len()) =~= s@);
    }
    true
}

/// Whether `pat` occurs anywhere in `path`.
pub(crate) fn contains_substring(path: &str, pat: &str) -> (r: bool)
    ensures
        r == has_substring(path@, pat@),
{
    let n = path.unicode_len();
    let m = pat.unicode_len();
    if m > n {
        proof {
            assert(forall|i: int| !substring_at(path@, pat@, i));
        }
        return false;
    }
    let mut i: usize = 0;
    loop
        invariant
            n == path@.len(),
            m == pat@.len(),
            m <= n,
            i <= n - m,
            forall|j: int| 0 <= j < i ==> !substring_at(path@, pat@, j),
        decreases n - m - i,
    {
        if window_eq(path, i, pat) {
            proof {
                assert(substring_at(path@, pat@, i as int));
            }
            return true;
        }
        if i == n - m {
            proof {
                assert(forall|j: int| j > i ==> !substring_at(path@, pat@, j));
            }
            return false;
        }
        i += 1;
    }
}

/// `d` stands as a whole segment of `p` beginning at `i`: bounded by `/` (or
/// an end of the path) on both sides, and slash-free itself.
pub open spec fn segment_at(p: Seq<char>, d: Seq<char>, i: int) -> bool {
    &&& 0 <= i
    &&& i + d.len() <= p.len()
    &&& (i == 0 || p[i - 1] == '/')
    &&& (i + d.len() == p.len() || p[i + d.len()] == '/')
    &&& p.subrange(i, i + d.len()) == d
    &&& (forall|k: int| 0 <= k < d.len() ==> d[k] != '/')
}

/// `d` appears as a whole path segment of `p`, i.e. as one of the pieces of
/// `p` split on `/`.
pub open spec fn has_segment(p: Seq<char>, d: Seq<char>) -> bool {
    exists|i: int| segment_at(p, d, i)
}

/// Index of the first `/` of `p`, or `p.len()` when there is none.
pub open spec fn first_slash(p: Seq<char>) -> int
    decreases p.len(),
{
    if p.len() == 0 {
        0
    } else if p[0] == '/' {
        0
    } else {
        1 + first_slash(p.drop_first())
    }
}

/// `first_slash` points at the first slash: nothing before it is one, and
/// it is one itself unless the path has none.
proof fn lemma_first_slash(p: Seq<char>)
    ensures
        0 <= first_slash(p) <= p.len(),
        first_slash(p) < p.len() ==> p[first_slash(p)] == '/',
        forall|k: int| 0 <= k < first_slash(p) ==> p[k] != '/',
    decreases p.len(),
{
    if p.len() > 0 && p[0] != '/' {
        lemma_first_slash(p.drop_first());
        assert forall|k: int| 0 <= k < first_slash(p) implies p[k] != '/' by {
            if k > 0 {
                assert(p.drop_first()[k - 1] != '/');
            }
        }
    }
}

/// The pieces of `p` split on `/`, empty pieces kept: the path's segments.
pub open spec fn split_slash(p: Seq<char>) -> Seq<Seq<char>>
    decreases p.len(),
    via split_slash_decreases
{
    let i = first_slash(p);
    if i == p.len() {
        seq![p]
    } else {
        seq![p.subrange(0, i)] + split_slash(p.subrange(i + 1, p.len() as int))
    }
}

#[via_fn]
proof fn split_slash_decreases(p: Seq<char>) {
    lemma_first_slash(p);
}

/// `d` stands somewhere in `p` as a whole segment exactly when splitting
/// `p` on `/` yields `d` as one of its pieces.
pub proof fn lemma_segment_is_split_piece(p: Seq<char>, d: Seq<char>)
    ensures
        has_segment(p, d) == split_slash(p).contains(d),
    decreases p.len(),
{
    lemma_first_slash(p);
    let f = first_slash(p);
    if f == p.len() {
        // p is slash-free and its only piece is p itself
        if has_segment(p, d) {
            let i = choose|i: int| segment_at(p, d, i);
            assert(i == 0);
            assert(i + d.len() == p.len());
            assert(d =~= p);
            assert(split_slash(p)[0] == d);
        }
        if split_slash(p).contains(d) {
            assert(d == split_slash(p)[0]);
            assert(p.subrange(0, p.len() as int) =~= p);
            assert(segment_at(p, d, 0));
        }
    } else {
        let head = p.subrange(0, f);
        let rest = p.subrange(f + 1, p.len() as int);
        lemma_segment_is_split_piece(rest, d);
        let pieces = seq![head] + split_slash(rest);
        assert(split_slash(p) == pieces);
        if has_segment(p, d) {
            let i = choose|i: int| segment_at(p, d, i);
            if i <= f {
                // a slash-free window left of the first slash: it is `head`
                assert forall|k: int| i <= k < i + d.len() implies p[k] != '/' by {
                    assert(p.subrange(i, i + d.len())[k - i] == d[k - i]);
                }
                assert(i + d.len() <= f);
                assert(i + d.len() == f);
                assert(i == 0);
                assert(d =~= head);
                assert(pieces[0] == d);
                assert(split_slash(p).contains(d));
            } else {
                // the window lies wholly in `rest`
                assert(rest.subrange(i - (f + 1), i - (f + 1) + d.len()) =~= p.subrange(
                    i,
                    i + d.len(),
                ));
                assert(segment_at(rest, d, i - (f + 1)));
                assert(has_segment(rest, d));
                let j = choose|j: int|
                    0 <= j < split_slash(rest).len() && split_slash(rest)[j] == d;
                assert(pieces[j + 1] == d);
                assert(split_slash(p).contains(d));
            }
        }
        if split_slash(p).contains(d) {
            let j = choose|j: int| 0 <= j < pieces.len() && pieces[j] == d;
            if j == 0 {
                assert(d == head);
                assert(p.subrange(0, f) =~= d);
                assert(segment_at(p, d, 0));
                assert(has_segment(p, d));
            } else {
                assert(split_slash(rest)[j - 1] == d);
                assert(split_slash(rest).contains(d));
                let i2 = choose|i2: int| segment_at(rest, d, i2);
                assert(p.subrange(f + 1 + i2, f + 1 + i2 + d.len()) =~= rest.subrange(
                    i2,
                    i2 + d.len(),
                ));
                assert(segment_at(p, d, f + 1 + i2));
                assert(has_segment(p, d));
            }
        }
    }
}

/// Whether `s` holds the character `c`.
pub(crate) fn contains_char(s: &str, c: char) -> (r: bool)
    ensures
        r == s@.contains(c),
{
    let n = s.unicode_len();
    let mut i: usize = 0;
    while i < n
        invariant
            n == s@.len(),
            i <= n,
            forall|j: int| 0 <= j < i ==> s@[j] != c,
        decreases n - i,
    {
        if s.get_char(i) == c {
            return true;
        }
        i += 1;
    }
    false
}

/// Whether `dir` appears as a whole segment of `path`.
fn path_has_segment(path: &str, dir: &str) -> (r: bool)
    ensures
        r == has_segment(path@, dir@),
{
    if contains_char(dir, '/') {
        proof {
            assert(forall|i: int| !segment_at(path@, dir@, i));
        }
        return false;
    }
    let n = path.unicode_len();
    let m = dir.unicode_len();
    if m > n {
        proof {
            assert(forall|i: int| !segment_at(path@, dir@, i));
        }
        return false;
    }
    let mut i: usize = 0;
    loop
        invariant
            n == path@.len(),
            m == dir@.len(),
            m <= n,
            i <= n - m,
            !dir@.contains('/'),
            forall|j: int| 0 <= j < i ==> !segment_at(path@, dir@, j),
        decreases n - m - i,
    {
        let left_ok = i == 0 || path.get_char(i - 1) == '/';
        let right_ok = i + m == n || path.get_char(i + m) == '/';
        if left_ok && right_ok && window_eq(path, i, dir) {
            proof {
                assert(segment_at(path@, dir@, i as int));
            }
            return true;
        }
        if i == n - m {
            proof {
                assert(forall|j: int| j > i ==> !segment_at(path@, dir@, j));
            }
            return false;
        }
        i += 1;
    }
}

/// The basename of a path: the characters after the last `/`, or the whole
/// path when it has no `/`.
pub open spec fn basename(p: Seq<char>) -> Seq<char>
    decreases p.len(),
{
    if p.len() == 0 {
        p
    } else if p[p.len() - 1] == '/' {
        Seq::empty()
    } else {
        basename(p.drop_last()).push(p[p.len() - 1])
    }
}

/// A position that starts the final slash-free run of `p` marks off exactly
/// the basename.
proof fn lemma_basename_at(p: Seq<char>, b: int)
    requires
        0 <= b <= p.len(),
        b == 0 || p[b - 1] == '/',
        forall|k: int| b <= k < p.len() ==> p[k] != '/',
    ensures
        basename(p) == p.subrange(b, p.len() as int),
    decreases p.len(),
{
    if p.len() == 0 {
        assert(basename(p) =~= p.subrange(0, 0));
    } else if b == p.len() {
        assert(p[p.len() - 1] == '/');
        assert(basename(p) =~= p.subrange(b, p.len() as int));
    } else {
        assert(p[p.len() - 1] != '/');
        lemma_basename_at(p.drop_last(), b);
        assert(basename(p) =~= p.subrange(b, p.len() as int));
    }
}

/// The index at which the basename of `path` starts.
fn basename_start(path: &str) -> (b: usize)
    ensures
        b <= path@.len(),
        basename(path@) == path@.subrange(b as int, path@.len() as int),
{
    let n = path.unicode_len();
    let mut b: usize = n;
    loop
        invariant
            n == path@.len(),
            b <= n,
            forall|k: int| b <= k < n ==> path@[k] != '/',
        decreases b,
    {
        if b == 0 {
            proof {
                lemma_basename_at(path@, 0);
            }
            return 0;
        }
        if path.get_char(b - 1) == '/' {
            proof {
                lemma_basename_at(path@, b as int);
            }
            return b;
        }
        b -= 1;
    }
}

/// Whether `path` matches `pattern`, decided by the pattern's own syntax:
/// a trailing `/` makes it a directory pattern, else a leading `.` makes it
/// a hidden-file pattern, else it is a plain substring pattern.
pub open spec fn spec_matches(path: Seq<char>, pattern: Seq<char>) -> bool {
    if pattern.len() > 0 && pattern.last() == '/' {
        has_segment(path, pattern.drop_last())
    } else if pattern.len() > 0 && pattern.first() == '.' {
        basename(path) == pattern
    } else {
        has_substring(path, pattern)
    }
}

/// Check if a file path matches a specific pattern.
pub fn matches_pattern(file_path: &str, pattern: &str) -> (r: bool)
    ensures
        r == spec_matches(file_path@, pattern@),
{
    let plen = pattern.unicode_len();
    if plen > 0 && pattern.get_char(plen - 1) == '/' {
        let dir = pattern.substring_char(0, plen - 1);
        proof {
            assert(dir@ =~= pattern@.drop_last());
        }
        path_has_segment(file_path, dir)
    } else if plen > 0 && pattern.get_char(0) == '.' {
        let n = file_path.unicode_len();
        let b = basename_start(file_path);
        if n - b != plen {
            proof {
                assert(basename(file_path@).len() != pattern@.len());
            }
            false
        } else {
            let r = window_eq(file_path, b, pattern);
            proof {
                assert(file_path@.subrange(b as int, b + pattern@.len()) =~= basename(
                    file_path@,
                ));
            }
            r
        }
    } else {
        contains_substring(file_path, pattern)
    }
}

/// The fixed table of blocked patterns, in precedence order.
pub open spec fn default_patterns() -> Seq<Seq<char>> {
    seq![".idea/"@, "node_modules/"@, "target/"@, ".env"@, ".DS_Store"@, ".vscode/"@]
}

/// Default blocked file patterns.
pub fn default_blocked_patterns() -> (r: Vec<String>)
    ensures
        r.deep_view() == default_patterns(),
{
    let mut r: Vec<String> = Vec::new();
    r.push(String::from_str(".idea/"));
    r.push(String::from_str("node_modules/"));
    r.push(String::from_str("target/"));
    r.push(String::from_str(".env"));
    r.push(String::from_str(".DS_Store"));
    r.push(String::from_str(".vscode/"));
    proof {
        assert(r.deep_view() =~= default_patterns());
    }
    r
}

/// `p` matches at least one pattern of `pats`.
pub open spec fn matches_any(p: Seq<char>, pats: Seq<Seq<char>>) -> bool {
    exists|k: int| 0 <= k < pats.len() && spec_matches(p, pats[k])
}

/// `p` matches at least one of the default blocked patterns.
pub open spec fn is_blocked(p: Seq<char>) -> bool {
    matches_any(p, default_patterns())
}

/// Check if a file path matches any blocked pattern.
pub fn is_file_blocked(file_path: &str) -> (r: bool)
    ensures
        r == is_blocked(file_path@),
{
    let patterns = default_blocked_patterns();
    let mut k: usize = 0;
    while k < patterns.len()
        invariant
            patterns.deep_view() == default_patterns(),
            patterns@.len() == default_patterns().len(),
            k <= patterns@.len(),
            forall|j: int| 0 <= j < k ==> !spec_matches(file_path@, default_patterns()[j]),
        decreases patterns@.len() - k,
    {
        if matches_pattern(file_path, patterns[k].as_str()) {
            proof {
                assert(spec_matches(file_path@, default_patterns()[k as int]));
            }
            return true;
        }
        k += 1;
    }
    false
}

/// The subsequence of `paths` whose elements match at least one default
/// pattern, in the order of `paths`.
pub open spec fn blocked_of(paths: Seq<Seq<char>>) -> Seq<Seq<char>>
    decreases paths.len(),
{
    if paths.len() == 0 {
        Seq::empty()
    } else if is_blocked(paths.first()) {
        seq![paths.first()] + blocked_of(paths.drop_first())
    } else {
        blocked_of(paths.drop_first())
    }
}

/// Get all blocked files from a list of staged files.
pub fn get_blocked_files(staged_files: &[String]) -> (r: Vec<String>)
    ensures
        r.deep_view() == blocked_of(staged_files.deep_view()),
{
    let ghost all = staged_files.deep_view();
    let mut r: Vec<String> = Vec::new();
    let mut i: usize = 0;
    proof {
        assert(all.skip(0) =~= all);
        assert(blocked_of(all) =~= r.deep_view() + blocked_of(all.skip(0)));
    }
    while i < staged_files.len()
        invariant
            all == staged_files.deep_view(),
            i <= staged_files@.len(),
            blocked_of(all) == r.deep_view() + blocked_of(all.skip(i as int)),
        decreases staged_files@.len() - i,
    {
        let ghost rest = all.skip(i as int);
        proof {
            assert(rest.first() == staged_files@[i as int]@);
            assert(rest.drop_first() =~= all.skip(i + 1));
        }
        let ghost r0 = r.deep_view();
        if is_file_blocked(staged_files[i].as_str()) {
            r.push(staged_files[i].clone());
            proof {
                assert(r.deep_view() =~= r0 + seq![rest.first()]);
                assert(r0 + seq![rest.first()] + blocked_of(rest.drop_first()) =~= r0 + (
                seq![rest.first()] + blocked_of(rest.drop_first())));
            }
        }
        i += 1;
    }
    proof {
        assert(all.skip(i as int) =~= Seq::<Seq<char>>::empty());
        assert(r.deep_view() =~= blocked_of(all));
    }
    r
}

/// The first pattern of `pats`, in table order, that `p` matches; the empty
/// string when none matches.
pub open spec fn first_match(p: Seq<char>, pats: Seq<Seq<char>>) -> Seq<char>
    decreases pats.len(),
{
    if pats.len() == 0 {
        Seq::empty()
    } else if spec_matches(p, pats.first()) {
        pats.first()
    } else {
        first_match(p, pats.drop_first())
    }
}

/// When `p` matches `pats[k]` and nothing before it, `pats[k]` is the first
/// match.
proof fn lemma_first_match_at(p: Seq<char>, pats: Seq<Seq<char>>, k: int)
    requires
        0 <= k < pats.len(),
        spec_matches(p, pats[k]),
        forall|j: int| 0 <= j < k ==> !spec_matches(p, pats[j]),
    ensures
        first_match(p, pats) == pats[k],
    decreases k,
{
    if k > 0 {
        lemma_first_match_at(p, pats.drop_first(), k - 1);
    }
}

/// The first default pattern that `file_path` matches, if any.
fn find_first_pattern(file_path: &str) -> (r: Option<String>)
    ensures
        r is Some == is_blocked(file_path@),
        r matches Some(s) ==> s@ == first_match(file_path@, default_patterns()),
{
    let patterns = default_blocked_patterns();
    let mut k: usize = 0;
    while k < patterns.len()
        invariant
            patterns.deep_view() == default_patterns(),
            patterns@.len() == default_patterns().len(),
            k <= patterns@.len(),
            forall|j: int| 0 <= j < k ==> !spec_matches(file_path@, default_patterns()[j]),
        decreases patterns@.len() - k,
    {
        if matches_pattern(file_path, patterns[k].as_str()) {
            proof {
                assert(spec_matches(file_path@, default_patterns()[k as int]));
                lemma_first_match_at(file_path@, default_patterns(), k as int);
            }
            return Some(patterns[k].clone());
        }
        k += 1;
    }
    None
}

/// Blocked paths, each paired with the first pattern (in table order) that
/// matched it.
pub open spec fn blocked_with_patterns_of(paths: Seq<Seq<char>>) -> Seq<(Seq<char>, Seq<char>)>
    decreases paths.len(),
{
    if paths.len() == 0 {
        Seq::empty()
    } else if is_blocked(paths.first()) {
        seq![(paths.first(), first_match(paths.first(), default_patterns()))]
            + blocked_with_patterns_of(paths.drop_first())
    } else {
        blocked_with_patterns_of(paths.drop_first())
    }
}

/// Get a formatted list of blocked files with their patterns.
pub fn get_blocked_files_with_patterns(staged_files: &[String]) -> (r: Vec<(String, String)>)
    ensures
        r.deep_view() == blocked_with_patterns_of(staged_files.deep_view()),
{
    let ghost all = staged_files.deep_view();
    let mut r: Vec<(String, String)> = Vec::new();
    let mut i: usize = 0;
    proof {
        assert(all.skip(0) =~= all);
        assert(blocked_with_patterns_of(all) =~= r.deep_view() + blocked_with_patterns_of(
            all.skip(0),
        ));
    }
    while i < staged_files.len()
        invariant
            all == staged_files.deep_view(),
            i <= staged_files@.len(),
            blocked_with_patterns_of(all) == r.deep_view() + blocked_with_patterns_of(
                all.skip(i as int),
            ),
        decreases staged_files@.len() - i,
    {
        let ghost rest = all.skip(i as int);
        proof {
            assert(rest.first() == staged_files@[i as int]@);
            assert(rest.drop_first() =~= all.skip(i + 1));
        }
        let ghost r0 = r.deep_view();
        match find_first_pattern(staged_files[i].as_str()) {
            Some(pattern) => {
                r.push((staged_files[i].clone(), pattern));
                proof {
                    let pair = (rest.first(), first_match(rest.first(), default_patterns()));
                    assert(r.deep_view() =~= r0 + seq![pair]);
                    assert(r0 + seq![pair] + blocked_with_patterns_of(rest.drop_first()) =~= r0 + (
                    seq![pair] + blocked_with_patterns_of(rest.drop_first())));
                }
            },
            None => {
            },
        }
        i += 1;
    }
    proof {
        assert(all.skip(i as int) =~= Seq::<Seq<char>>::empty());
        assert(r.deep_view() =~= blocked_with_patterns_of(all));
    }
    r
}

/// A directory pattern `d/` matches exactly the paths in which `d` appears
/// as a whole path segment — one of the pieces of the path split on `/`.
pub proof fn lemma_directory_pattern(p: Seq<char>, pattern: Seq<char>)
    requires
        pattern.len() > 0,
        pattern.last() == '/',
    ensures
        spec_matches(p, pattern) == has_segment(p, pattern.drop_last()),
        spec_matches(p, pattern) == split_slash(p).contains(pattern.drop_last()),
{
    lemma_segment_is_split_piece(p, pattern.drop_last());
}

/// A hidden-file pattern `.x` matches exactly the paths whose basename is
/// `.x`, character for character.
pub proof fn lemma_hidden_pattern(p: Seq<char>, pattern: Seq<char>)
    requires
        pattern.len() > 0,
        pattern.first() == '.',
        pattern.last() != '/',
    ensures
        spec_matches(p, pattern) == (basename(p) == pattern),
{
}

/// A pattern with no leading `.` and no trailing `/` matches exactly the
/// paths that contain it as a contiguous substring.
pub proof fn lemma_substring_pattern(p: Seq<char>, pattern: Seq<char>)
    requires
        pattern.len() > 0 ==> pattern.first() != '.' && pattern.last() != '/',
    ensures
        spec_matches(p, pattern) == has_substring(p, pattern),
{
}

/// Sieving twice sieves once.
pub proof fn lemma_blocked_twice(paths: Seq<Seq<char>>)
    ensures
        blocked_of(blocked_of(paths)) == blocked_of(paths),
    decreases paths.len(),
{
    if paths.len() > 0 {
        lemma_blocked_twice(paths.drop_first());
        if is_blocked(paths.first()) {
            let b = seq![paths.first()] + blocked_of(paths.drop_first());
            assert(b.first() == paths.first());
            assert(b.drop_first() =~= blocked_of(paths.drop_first()));
            if b.len() > 0 {
                assert(blocked_of(b) =~= blocked_of(paths));
            }
        }
    }
}

/// `a` can be obtained from `b` by deleting elements, without reordering.
pub open spec fn is_subseq_of<T>(a: Seq<T>, b: Seq<T>) -> bool
    decreases a.len() + b.len(),
{
    if a.len() == 0 {
        true
    } else if b.len() == 0 {
        false
    } else if a.first() == b.first() {
        is_subseq_of(a.drop_first(), b.drop_first())
    } else {
        is_subseq_of(a, b.drop_first())
    }
}

/// A subsequence of the tail of `b` is a subsequence of `b`.
proof fn lemma_subseq_widen(a: Seq<Seq<char>>, b: Seq<Seq<char>>)
    requires
        b.len() > 0,
        is_subseq_of(a, b.drop_first()),
    ensures
        is_subseq_of(a, b),
    decreases a.len() + b.len(),
{
    if a.len() > 0 && a.first() == b.first() {
        lemma_subseq_drop_first(a, b.drop_first());
    }
}

/// Dropping the head of a subsequence keeps it a subsequence.
proof fn lemma_subseq_drop_first(a: Seq<Seq<char>>, b: Seq<Seq<char>>)
    requires
        a.len() > 0,
        is_subseq_of(a, b),
    ensures
        is_subseq_of(a.drop_first(), b),
    decreases a.len() + b.len(),
{
    if a.first() == b.first() {
        lemma_subseq_widen(a.drop_first(), b);
    } else {
        lemma_subseq_drop_first(a, b.drop_first());
        lemma_subseq_widen(a.drop_first(), b);
    }
}

/// The blocked set is a subsequence of its input: membership filters, order
/// is preserved.
pub proof fn lemma_blocked_subsequence(paths: Seq<Seq<char>>)
    ensures
        is_subseq_of(blocked_of(paths), paths),
    decreases paths.len(),
{
    if paths.len() > 0 {
        lemma_blocked_subsequence(paths.drop_first());
        if is_blocked(paths.first()) {
            let b = seq![paths.first()] + blocked_of(paths.drop_first());
            assert(b.first() == paths.first());
            assert(b.drop_first() =~= blocked_of(paths.drop_first()));
        } else {
            lemma_subseq_widen(blocked_of(paths), paths);
        }
    }
}

/// Dropping the matched patterns from the detailed report gives back exactly
/// the plain blocked set: the pairing is for diagnostics only.
pub proof fn lemma_with_patterns_same_filter(paths: Seq<Seq<char>>)
    ensures
        blocked_with_patterns_of(paths).len() == blocked_of(paths).len(),
        forall|i: int|
            0 <= i < blocked_of(paths).len() ==> #[trigger] blocked_with_patterns_of(paths)[i].0
                == blocked_of(paths)[i],
    decreases paths.len(),
{
    if paths.len() > 0 {
        lemma_with_patterns_same_filter(paths.drop_first());
    }
}

} // verus!
