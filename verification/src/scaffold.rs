//! The pure side of the project scaffolder: the sample configuration
//! values, the directory and file tree a fresh Go project gets, the Go
//! module path, and the reading of a reported git username. The filesystem
//! and process work around these values is the front end's business.

use vstd::prelude::*;

use crate::validation::all_whitespace;
use crate::validation::is_unicode_whitespace;

verus! {

/// A sample application configuration, as written into the generated
/// project's JSON config files.
pub struct Config {
    pub environment: String,
    pub server: Server,
}

/// The server part of a sample configuration.
pub struct Server {
    pub host: String,
    pub port: u16,
}

/// The sample configuration emitted for one environment: a local server on
/// port 8000.
pub fn default_config(environment: &str) -> (r: Config)
    ensures
        r.environment@ == environment@,
        r.server.host@ == "localhost"@,
        r.server.port == 8000,
{
    Config {
        environment: environment.to_owned(),
        server: Server { host: String::from_str("localhost"), port: 8000 },
    }
}

/// `project` with `tail` appended.
fn joined(project: &str, tail: &str) -> (r: String)
    ensures
        r@ == project@ + tail@,
{
    let mut s = project.to_owned();
    s.append(tail);
    s
}

/// The directories a fresh Go project tree needs, in creation order.
pub open spec fn scaffold_dirs_of(project: Seq<char>) -> Seq<Seq<char>> {
    seq![
        project,
        project + "/cmd"@,
        project + "/config"@,
        project + "/internal/config"@,
    ]
}

/// The directories to create for a project, the root first.
pub fn scaffold_dirs(project: &str) -> (r: Vec<String>)
    ensures
        r.deep_view() == scaffold_dirs_of(project@),
{
    let mut r: Vec<String> = Vec::new();
    r.push(project.to_owned());
    r.push(joined(project, "/cmd"));
    r.push(joined(project, "/config"));
    r.push(joined(project, "/internal/config"));
    proof {
        assert(r.deep_view() =~= scaffold_dirs_of(project@));
    }
    r
}

/// The files a fresh Go project tree gets: two sample configs, the server
/// entry point, and the config reader.
pub open spec fn scaffold_files_of(project: Seq<char>) -> Seq<Seq<char>> {
    seq![
        project + "/config/config.development.json"@,
        project + "/config/config.production.json"@,
        project + "/cmd/main.go"@,
        project + "/internal/config/config.go"@,
    ]
}

/// The paths of the files to write for a project, in emission order.
pub fn scaffold_files(project: &str) -> (r: Vec<String>)
    ensures
        r.deep_view() == scaffold_files_of(project@),
{
    let mut r: Vec<String> = Vec::new();
    r.push(joined(project, "/config/config.development.json"));
    r.push(joined(project, "/config/config.production.json"));
    r.push(joined(project, "/cmd/main.go"));
    r.push(joined(project, "/internal/config/config.go"));
    proof {
        assert(r.deep_view() =~= scaffold_files_of(project@));
    }
    r
}

/// The Go module path handed to `go mod init`: `github.com/<user>/<project>`
/// when a git username is known, the project name alone otherwise.
pub open spec fn module_name_of(username: Option<Seq<char>>, project: Seq<char>) -> Seq<char> {
    match username {
        Some(u) => "github.com/"@ + u + "/"@ + project,
        None => project,
    }
}

/// Builds the Go module path for `go mod init`.
pub fn module_name(username: Option<&str>, project: &str) -> (r: String)
    ensures
        r@ == module_name_of(username.deep_view(), project@),
{
    match username {
        Some(u) => {
            let mut s = String::from_str("github.com/");
            s.append(u);
            s.append("/");
            s.append(project);
            s
        },
        None => project.to_owned(),
    }
}

/// `s` without its leading whitespace.
pub open spec fn trim_start_of(s: Seq<char>) -> Seq<char>
    decreases s.len(),
{
    if s.len() > 0 && is_unicode_whitespace(s.first()) {
        trim_start_of(s.drop_first())
    } else {
        s
    }
}

/// `s` without its trailing whitespace.
pub open spec fn trim_end_of(s: Seq<char>) -> Seq<char>
    decreases s.len(),
{
    if s.len() > 0 && is_unicode_whitespace(s.last()) {
        trim_end_of(s.drop_last())
    } else {
        s
    }
}

/// `s` without leading and trailing whitespace.
pub open spec fn trimmed_of(s: Seq<char>) -> Seq<char> {
    trim_end_of(trim_start_of(s))
}

/// The position after the leading whitespace marks off `trim_start_of`.
proof fn lemma_trim_start_at(s: Seq<char>, a: int)
    requires
        0 <= a <= s.len(),
        forall|k: int| 0 <= k < a ==> is_unicode_whitespace(s[k]),
        a < s.len() ==> !is_unicode_whitespace(s[a]),
    ensures
        trim_start_of(s) == s.subrange(a, s.len() as int),
    decreases a,
{
    if a == 0 {
        assert(trim_start_of(s) =~= s.subrange(0, s.len() as int));
    } else {
        lemma_trim_start_at(s.drop_first(), a - 1);
        assert(s.drop_first().subrange(a - 1, s.drop_first().len() as int) =~= s.subrange(
            a,
            s.len() as int,
        ));
    }
}

/// The position before the trailing whitespace marks off `trim_end_of`.
proof fn lemma_trim_end_at(s: Seq<char>, b: int)
    requires
        0 <= b <= s.len(),
        forall|k: int| b <= k < s.len() ==> is_unicode_whitespace(s[k]),
        b > 0 ==> !is_unicode_whitespace(s[b - 1]),
    ensures
        trim_end_of(s) == s.subrange(0, b),
    decreases s.len(),
{
    if b == s.len() {
        assert(trim_end_of(s) =~= s.subrange(0, b));
    } else {
        lemma_trim_end_at(s.drop_last(), b);
        assert(s.drop_last().subrange(0, b) =~= s.subrange(0, b));
    }
}

/// `s` with leading and trailing whitespace removed.
pub fn trimmed(s: &str) -> (r: String)
    ensures
        r@ == trimmed_of(s@),
{
    let n = s.unicode_len();
    let mut a: usize = 0;
    while a < n && s.get_char(a).is_whitespace()
        invariant
            n == s@.len(),
            a <= n,
            forall|k: int| 0 <= k < a ==> is_unicode_whitespace(s@[k]),
        decreases n - a,
    {
        a += 1;
    }
    let mut b: usize = n;
    while b > a && s.get_char(b - 1).is_whitespace()
        invariant
            n == s@.len(),
            a <= b <= n,
            forall|k: int| b <= k < n ==> is_unicode_whitespace(s@[k]),
        decreases b,
    {
        b -= 1;
    }
    proof {
        lemma_trim_start_at(s@, a as int);
        let t = s@.subrange(a as int, n as int);
        lemma_trim_end_at(t, b - a);
        assert(t.subrange(0, b - a) =~= s@.subrange(a as int, b as int));
    }
    s.substring_char(a, b).to_owned()
}

/// Trimming keeps the head of a string that does not start with whitespace.
proof fn lemma_trim_end_keeps_head(t: Seq<char>)
    requires
        t.len() > 0,
        !is_unicode_whitespace(t.first()),
    ensures
        trim_end_of(t).len() > 0,
    decreases t.len(),
{
    if is_unicode_whitespace(t.last()) {
        lemma_trim_end_keeps_head(t.drop_last());
    }
}

/// A string trims away to nothing exactly when every character of it is
/// whitespace: a blank name and an empty trim are one test.
pub proof fn lemma_blank_iff_trims_away(s: Seq<char>)
    ensures
        all_whitespace(s) <==> trimmed_of(s).len() == 0,
    decreases s.len(),
{
    if all_whitespace(s) {
        lemma_trim_start_at(s, s.len() as int);
        assert(s.subrange(s.len() as int, s.len() as int) =~= Seq::<char>::empty());
    } else if s.len() > 0 {
        if is_unicode_whitespace(s.first()) {
            lemma_blank_iff_trims_away(s.drop_first());
            assert(!all_whitespace(s.drop_first())) by {
                let i = choose|i: int| 0 <= i < s.len() && !is_unicode_whitespace(s[i]);
                assert(i > 0);
                assert(!is_unicode_whitespace(s.drop_first()[i - 1]));
            }
        } else {
            lemma_trim_end_keeps_head(s);
        }
    }
}

/// Reads the output of a `git config user.name` call: the trimmed text when
/// something is left of it, nothing otherwise.
pub fn cleaned_username(raw: &str) -> (r: Option<String>)
    ensures
        r is Some == (trimmed_of(raw@).len() > 0),
        r matches Some(u) ==> u@ == trimmed_of(raw@),
{
    let t = trimmed(raw);
    if t.as_str().is_empty() {
        None
    } else {
        Some(t)
    }
}

} // verus!
