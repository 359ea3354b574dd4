//! Reading a porcelain-style git status report: which paths are staged.
//!
//! The report is newline-delimited text; each well-formed line carries a
//! two-character index/worktree status code, one space, then the path.
//! A path counts as staged when the index column (the first character) is
//! not a space. Lines shorter than three characters are skipped: the parse
//! is lenient and never fails.

use vstd::prelude::*;

use crate::rules::window_eq;

verus! {

/// Index of the first `\n` of `s`, or `s.len()` when there is none.
pub open spec fn first_newline(s: Seq<char>) -> int
    decreases s.len(),
{
    if s.len() == 0 {
        0
    } else if s[0] == '\n' {
        0
    } else {
        1 + first_newline(s.drop_first())
    }
}

/// `first_newline` points at the first newline: nothing before it is one,
/// and it is one itself unless the string has none.
proof fn lemma_first_newline(s: Seq<char>)
    ensures
        0 <= first_newline(s) <= s.len(),
        first_newline(s) < s.len() ==> s[first_newline(s)] == '\n',
        forall|k: int| 0 <= k < first_newline(s) ==> s[k] != '\n',
    decreases s.len(),
{
    if s.len() > 0 && s[0] != '\n' {
        lemma_first_newline(s.drop_first());
        assert forall|k: int| 0 <= k < first_newline(s) implies s[k] != '\n' by {
            if k > 0 {
                assert(s.drop_first()[k - 1] != '\n');
            }
        }
    }
}

/// Any position with the properties of `first_newline` is `first_newline`.
proof fn lemma_first_newline_unique(s: Seq<char>, i: int)
    requires
        0 <= i <= s.len(),
        forall|k: int| 0 <= k < i ==> s[k] != '\n',
        i < s.len() ==> s[i] == '\n',
    ensures
        first_newline(s) == i,
{
    lemma_first_newline(s);
    let f = first_newline(s);
    if f < i {
        assert(s[f] == '\n');
        assert(s[f] != '\n');
    }
    if f > i {
        assert(s[i] == '\n');
        assert(s[i] != '\n');
    }
}

/// `s` split at `\n`, the way the lines of a text report are read: the
/// final line break, if any, opens no further line.
pub open spec fn split_lines(s: Seq<char>) -> Seq<Seq<char>>
    decreases s.len(),
    via split_lines_decreases
{
    if s.len() == 0 {
        Seq::empty()
    } else {
        let i = first_newline(s);
        if i == s.len() {
            seq![s]
        } else {
            seq![s.subrange(0, i)] + split_lines(s.subrange(i + 1, s.len() as int))
        }
    }
}

#[via_fn]
proof fn split_lines_decreases(s: Seq<char>) {
    lemma_first_newline(s);
}

/// Drops one trailing carriage return, so that reports with `\r\n` line
/// endings read the same as plain ones.
pub open spec fn chomp(l: Seq<char>) -> Seq<char> {
    if l.len() > 0 && l.last() == '\r' {
        l.drop_last()
    } else {
        l
    }
}

/// A status line reporting a staged path: at least three characters, and an
/// index status (first column) that is not a space.
pub open spec fn is_staged_line(l: Seq<char>) -> bool {
    l.len() >= 3 && l.first() != ' '
}

/// The path part of a status line: everything after the two status columns
/// and the separating space.
pub open spec fn path_of_line(l: Seq<char>) -> Seq<char> {
    l.subrange(3, l.len() as int)
}

/// The staged paths reported by the given status lines, in report order.
pub open spec fn staged_of_lines(lines: Seq<Seq<char>>) -> Seq<Seq<char>>
    decreases lines.len(),
{
    if lines.len() == 0 {
        Seq::empty()
    } else {
        let l = chomp(lines.first());
        let rest = staged_of_lines(lines.drop_first());
        if is_staged_line(l) {
            seq![path_of_line(l)] + rest
        } else {
            rest
        }
    }
}

/// The staged paths of a whole porcelain status report.
pub open spec fn staged_paths(s: Seq<char>) -> Seq<Seq<char>> {
    staged_of_lines(split_lines(s))
}

/// The first newline of `s` at or after `from`, or the end of `s`.
fn find_newline(s: &str, from: usize) -> (e: usize)
    requires
        from <= s@.len(),
    ensures
        from <= e <= s@.len(),
        forall|k: int| from <= k < e ==> s@[k] != '\n',
        e < s@.len() ==> s@[e as int] == '\n',
{
    let n = s.unicode_len();
    let mut e: usize = from;
    while e < n
        invariant
            n == s@.len(),
            from <= e <= n,
            forall|k: int| from <= k < e ==> s@[k] != '\n',
        decreases n - e,
    {
        if s.get_char(e) == '\n' {
            return e;
        }
        e += 1;
    }
    e
}

/// Parse git status porcelain output to get staged files.
pub fn get_staged_files(status_output: &str) -> (r: Vec<String>)
    ensures
        r.deep_view() == staged_paths(status_output@),
{
    let ghost s = status_output@;
    let n = status_output.unicode_len();
    let mut r: Vec<String> = Vec::new();
    let mut pos: usize = 0;
    proof {
        assert(s.subrange(0, n as int) =~= s);
        assert(staged_paths(s) =~= r.deep_view() + staged_of_lines(
            split_lines(s.subrange(0, n as int)),
        ));
    }
    while pos < n
        invariant
            s == status_output@,
            n == s.len(),
            pos <= n,
            staged_paths(s) == r.deep_view() + staged_of_lines(
                split_lines(s.subrange(pos as int, n as int)),
            ),
        decreases n - pos,
    {
        let ghost suffix = s.subrange(pos as int, n as int);
        let e = find_newline(status_output, pos);
        proof {
            assert forall|k: int| 0 <= k < e - pos implies suffix[k] != '\n' by {
                assert(s[pos + k] != '\n');
            }
            lemma_first_newline_unique(suffix, e - pos);
        }
        // The line runs from `pos` to `e`; a trailing carriage return is
        // not part of it.
        let line_end = if e > pos && status_output.get_char(e - 1) == '\r' {
            e - 1
        } else {
            e
        };
        let ghost line = if e < n {
            suffix.subrange(0, e - pos)
        } else {
            suffix
        };
        proof {
            assert(line =~= s.subrange(pos as int, e as int));
            assert(chomp(line) =~= s.subrange(pos as int, line_end as int));
        }
        let ghost r0 = r.deep_view();
        let staged = line_end - pos >= 3 && status_output.get_char(pos) != ' ';
        if staged {
            let path = status_output.substring_char(pos + 3, line_end).to_owned();
            proof {
                assert(path@ =~= path_of_line(chomp(line)));
            }
            r.push(path);
            proof {
                assert(r.deep_view() =~= r0 + seq![path_of_line(chomp(line))]);
            }
        }
        let new_pos = if e < n {
            e + 1
        } else {
            n
        };
        proof {
            let tail = split_lines(s.subrange(new_pos as int, n as int));
            if e < n {
                assert(suffix.subrange(e - pos + 1, suffix.len() as int) =~= s.subrange(
                    new_pos as int,
                    n as int,
                ));
                assert(split_lines(suffix) == seq![line] + tail);
            } else {
                assert(s.subrange(new_pos as int, n as int) =~= Seq::<char>::empty());
                assert(tail =~= Seq::<Seq<char>>::empty());
                assert(seq![line] + tail =~= seq![suffix]);
                assert(split_lines(suffix) == seq![line] + tail);
            }
            let lines = seq![line] + tail;
            assert(lines.first() == line);
            assert(lines.drop_first() =~= tail);
            assert(chomp(line).len() == line_end - pos);
            if staged {
                assert(chomp(line)[0] == s[pos as int]);
                assert(is_staged_line(chomp(line)));
                assert(staged_of_lines(lines) == seq![path_of_line(chomp(line))]
                    + staged_of_lines(tail));
                assert(r.deep_view() + staged_of_lines(tail) =~= r0 + staged_of_lines(lines));
            } else {
                if chomp(line).len() >= 3 {
                    assert(chomp(line).first() == s[pos as int]);
                }
                assert(!is_staged_line(chomp(line)));
                assert(staged_of_lines(lines) == staged_of_lines(tail));
            }
            assert(staged_paths(s) == r.deep_view() + staged_of_lines(tail));
        }
        pos = new_pos;
    }
    proof {
        assert(s.subrange(pos as int, n as int) =~= Seq::<char>::empty());
        assert(r.deep_view() =~= staged_paths(s));
    }
    r
}

/// `u` begins with the scheme `https://`.
pub open spec fn starts_with_https(u: Seq<char>) -> bool {
    u.len() >= 8 && u.subrange(0, 8) == "https://"@
}

/// Check if a remote URL uses HTTPS.
pub fn is_https_remote(url: &str) -> (r: bool)
    ensures
        r == starts_with_https(url@),
{
    proof {
        reveal_strlit("https://");
    }
    let n = url.unicode_len();
    if n < 8 {
        return false;
    }
    window_eq(url, 0, "https://")
}

} // verus!
