//! Reading the output of Git into branch and commit completions.
//!
//! Running Git is left to the caller; this module turns the text that
//! `git for-each-ref --format='%(objecttype) %(refname:strip=2)'` and
//! `git log --format=%h%x09%ad%x09%an%x09%s` print into completion data.
use itertools::Itertools;
use vstd::prelude::*;

use crate::completion::Completion;
use crate::model::string_push;
use crate::scoring::{char_is_whitespace, is_space};

verus! {

// ---------------------------------------------------------------------
// Splitting text

/// The separators at which text is split.
#[derive(Clone, Copy, PartialEq, Eq, Structural)]
pub enum Separator {
    /// A line feed.
    Newline,
    /// A horizontal tab.
    Tab,
    /// Any whitespace character.
    Whitespace,
}

/// Whether `c` is a `sep`.
pub open spec fn separates(sep: Separator, c: char) -> bool {
    match sep {
        Separator::Newline => c == '\n',
        Separator::Tab => c == '\t',
        Separator::Whitespace => is_space(c),
    }
}

fn is_separator(sep: Separator, c: char) -> (r: bool)
    ensures
        r == separates(sep, c),
{
    match sep {
        Separator::Newline => c == '\n',
        Separator::Tab => c == '\t',
        Separator::Whitespace => char_is_whitespace(c),
    }
}

/// The pieces of `s` between `sep`s, empty ones included: one more than
/// there are separators.
pub open spec fn pieces(s: Seq<char>, sep: Separator) -> Seq<Seq<char>>
    decreases s.len(),
{
    if s.len() == 0 {
        seq![Seq::empty()]
    } else {
        let p = pieces(s.drop_last(), sep);
        if separates(sep, s.last()) {
            p.push(Seq::empty())
        } else {
            p.update(p.len() - 1, p.last().push(s.last()))
        }
    }
}

proof fn lemma_pieces_nonempty(s: Seq<char>, sep: Separator)
    ensures
        pieces(s, sep).len() >= 1,
    decreases s.len(),
{
    if s.len() > 0 {
        lemma_pieces_nonempty(s.drop_last(), sep);
    }
}

/// The non-empty strings among `p`, in order.
pub open spec fn non_empty(p: Seq<Seq<char>>) -> Seq<Seq<char>>
    decreases p.len(),
{
    if p.len() == 0 {
        Seq::empty()
    } else {
        let r = non_empty(p.drop_last());
        if p.last().len() > 0 {
            r.push(p.last())
        } else {
            r
        }
    }
}

/// The words of `s`: its maximal runs of non-whitespace characters.
pub open spec fn words(s: Seq<char>) -> Seq<Seq<char>> {
    non_empty(pieces(s, Separator::Whitespace))
}

/// `s` without one carriage return at its end.
pub open spec fn strip_cr(s: Seq<char>) -> Seq<char> {
    if s.len() > 0 && s.last() == '\r' {
        s.drop_last()
    } else {
        s
    }
}

/// The lines of `s`: split at line feeds, each without a carriage return
/// at its end, and without an empty last line.
pub open spec fn lines(s: Seq<char>) -> Seq<Seq<char>> {
    let p = pieces(s, Separator::Newline);
    let kept = if p.last().len() == 0 {
        p.drop_last()
    } else {
        p
    };
    kept.map_values(|l: Seq<char>| strip_cr(l))
}

/// The views of a vector of strings.
pub open spec fn string_views(v: Seq<String>) -> Seq<Seq<char>> {
    v.map_values(|s: String| s@)
}

/// Returns the pieces of `s` between `sep`s; with `keep_empty` false, only
/// the non-empty ones.
fn split(s: &str, sep: Separator, keep_empty: bool) -> (r: Vec<String>)
    ensures
        keep_empty ==> string_views(r@) == pieces(s@, sep),
        !keep_empty ==> string_views(r@) == non_empty(pieces(s@, sep)),
{
    let n = s.unicode_len();
    let mut done: Vec<String> = Vec::new();
    let mut current = String::new();
    let mut current_len: usize = 0;
    for c in it: s.chars()
        invariant
            it.seq() == s@,
            n == s@.len(),
            current_len == current@.len(),
            current_len <= it.index(),
            ({
                let p = pieces(s@.take(it.index() as int), sep);
                &&& p.len() >= 1
                &&& current@ == p.last()
                &&& keep_empty ==> string_views(done@) == p.drop_last()
                &&& !keep_empty ==> string_views(done@) == non_empty(p.drop_last())
            }),
    {
        let ghost t = s@.take(it.index() as int);
        let ghost t1 = s@.take(it.index() + 1);
        proof {
            assert(t1.drop_last() == t);
            assert(t1.last() == c);
            lemma_pieces_nonempty(t, sep);
        }
        if is_separator(sep, c) {
            let mut piece = String::new();
            std::mem::swap(&mut piece, &mut current);
            if keep_empty || current_len > 0 {
                done.push(piece);
            }
            current_len = 0;
            proof {
                let p = pieces(t, sep);
                let p1 = pieces(t1, sep);
                assert(p1.drop_last() =~= p);
                assert(p.drop_last().push(p.last()) =~= p);
                if keep_empty {
                    assert(string_views(done@) =~= p);
                } else {
                    assert(non_empty(p) == if p.last().len() > 0 {
                        non_empty(p.drop_last()).push(p.last())
                    } else {
                        non_empty(p.drop_last())
                    });
                    assert(string_views(done@) =~= non_empty(p));
                }
            }
        } else {
            string_push(&mut current, c);
            current_len = current_len + 1;
            proof {
                let p = pieces(t, sep);
                let p1 = pieces(t1, sep);
                assert(p1.drop_last() =~= p.drop_last());
            }
        }
    }
    proof {
        assert(s@.take(s@.len() as int) == s@);
    }
    let ghost p = pieces(s@, sep);
    if keep_empty || current_len > 0 {
        done.push(current);
        proof {
            assert(p.drop_last().push(p.last()) =~= p);
            assert(string_views(done@) =~= string_views(done@.drop_last()).push(p.last()));
        }
    }
    proof {
        if !keep_empty {
            assert(p.drop_last().push(p.last()) =~= p);
        }
    }
    done
}

/// Returns `s` without one carriage return at its end.
fn without_cr(s: String) -> (r: String)
    ensures
        r@ == strip_cr(s@),
{
    let n = s.as_str().unicode_len();
    if n > 0 && s.as_str().get_char(n - 1) == '\r' {
        let mut r = String::new();
        let mut i: usize = 0;
        for c in it: s.as_str().chars()
            invariant
                it.seq() == s@,
                n == s@.len(),
                i == it.index(),
                r@ == s@.take(if i < n - 1 { i as int } else { n - 1 }),
        {
            proof {
                assert(s@.take(i + 1) == s@.take(i as int).push(c));
            }
            if i < n - 1 {
                string_push(&mut r, c);
            }
            i = i + 1;
        }
        proof {
            assert(s@.take(n - 1) =~= s@.drop_last());
        }
        r
    } else {
        s
    }
}

/// Returns the lines of `s`.
fn split_lines(s: &str) -> (r: Vec<String>)
    ensures
        string_views(r@) == lines(s@),
{
    let mut p = split(s, Separator::Newline, true);
    proof {
        lemma_pieces_nonempty(s@, Separator::Newline);
    }
    let last = p.len() - 1;
    if p[last].as_str().unicode_len() == 0 {
        p.pop();
    }
    let ghost kept = string_views(p@);
    let mut r: Vec<String> = Vec::new();
    for i in 0..p.len()
        invariant
            kept == string_views(p@),
            string_views(r@) == kept.take(i as int).map_values(|l: Seq<char>| strip_cr(l)),
    {
        let line = p[i].clone();
        assert(line@ == kept[i as int]);
        let stripped = without_cr(line);
        let ghost prev = r@;
        r.push(stripped);
        proof {
            assert(r@.drop_last() =~= prev);
            assert(string_views(r@) =~= string_views(prev).push(stripped@));
            assert(kept.take(i + 1).map_values(|l: Seq<char>| strip_cr(l)) =~= kept.take(i as int).map_values(|l: Seq<char>| strip_cr(l)).push(strip_cr(kept[i as int])));
            assert(kept.take(i + 1) == kept.take(i as int).push(kept[i as int]));
            assert(string_views(r@) =~= kept.take(i + 1).map_values(|l: Seq<char>| strip_cr(l)));
        }
    }
    proof {
        assert(kept.take(p.len() as int) == kept);
        let q = pieces(s@, Separator::Newline);
        if q.last().len() == 0 {
            assert(kept =~= q.drop_last());
        } else {
            assert(kept =~= q);
        }
    }
    r
}

// ---------------------------------------------------------------------
// Fields

/// Relies on `itertools::Itertools::next_tuple`: the first two items, or
/// `None` where there are fewer.
#[verifier::external_body]
fn first_two(fields: Vec<String>) -> (r: Option<(String, String)>)
    ensures
        fields.len() >= 2 ==> r == Some((fields[0], fields[1])),
        fields.len() < 2 ==> r is None,
{
    fields.into_iter().next_tuple()
}

/// Relies on `itertools::Itertools::next_tuple`: the first four items, or
/// `None` where there are fewer.
#[verifier::external_body]
fn first_four(fields: Vec<String>) -> (r: Option<(String, String, String, String)>)
    ensures
        fields.len() >= 4 ==> r == Some((fields[0], fields[1], fields[2], fields[3])),
        fields.len() < 4 ==> r is None,
{
    fields.into_iter().next_tuple()
}

/// Whether `s` holds a slash.
pub open spec fn has_slash(s: Seq<char>) -> bool {
    exists|i: int| 0 <= i < s.len() && s[i] == '/'
}

fn contains_slash(s: &str) -> (r: bool)
    ensures
        r == has_slash(s@),
{
    for c in it: s.chars()
        invariant
            it.seq() == s@,
            forall|k: int| 0 <= k < it.index() ==> s@[k] != '/',
    {
        if c == '/' {
            return true;
        }
    }
    false
}

// ---------------------------------------------------------------------
// Branches

/// The kinds of refs.
#[derive(Clone, Copy, Debug, PartialEq, Eq, Structural)]
pub enum GitBranchCompletionType {
    /// The current commit.
    Head,
    /// A local branch.
    Branch,
    /// A branch of a remote.
    RemoteBranch,
    /// A tag.
    Tag,
}

/// The kind of a ref named `name` whose object has type `object_type`: a
/// commit is a branch, of a remote where the name holds a slash; anything
/// else is a tag.
pub open spec fn ref_kind(object_type: Seq<char>, name: Seq<char>) -> GitBranchCompletionType {
    if object_type == seq!['c', 'o', 'm', 'm', 'i', 't'] {
        if has_slash(name) {
            GitBranchCompletionType::RemoteBranch
        } else {
            GitBranchCompletionType::Branch
        }
    } else {
        GitBranchCompletionType::Tag
    }
}

/// A ref, as a completion.
pub struct GitBranchCompletion {
    /// What kind of ref it is.
    pub kind: GitBranchCompletionType,
    /// The name of the ref.
    pub branch_name: String,
}

impl Completion for GitBranchCompletion {
    open spec fn result_view(&self) -> Seq<char> {
        self.branch_name@
    }

    open spec fn search_view(&self) -> Seq<char> {
        self.branch_name@
    }

    fn result_string(&self) -> (r: String) {
        let r = self.branch_name.clone();
        assert(r@ == self.result_view());
        r
    }

    fn search_string(&self) -> (r: String) {
        let r = self.branch_name.clone();
        assert(r@ == self.search_view());
        r
    }
}

/// The kind and the name of a ref completion.
pub open spec fn branch_view(c: GitBranchCompletion) -> (GitBranchCompletionType, Seq<char>) {
    (c.kind, c.branch_name@)
}

/// The ref that a line of `git for-each-ref` output describes, where it
/// has at least two words: the object type, then the name.
pub open spec fn ref_of_line(line: Seq<char>) -> Option<(GitBranchCompletionType, Seq<char>)> {
    let w = words(line);
    if w.len() >= 2 {
        Some((ref_kind(w[0], w[1]), w[1]))
    } else {
        None
    }
}

/// The refs that `lines` describe, in order.
pub open spec fn refs_of_lines(lines: Seq<Seq<char>>) -> Seq<(GitBranchCompletionType, Seq<char>)>
    decreases lines.len(),
{
    if lines.len() == 0 {
        Seq::empty()
    } else {
        let r = refs_of_lines(lines.drop_last());
        match ref_of_line(lines.last()) {
            Some(e) => r.push(e),
            None => r,
        }
    }
}

/// Reads one line of `git for-each-ref` output.
pub fn parse_ref_line(line: &str) -> (r: Option<GitBranchCompletion>)
    ensures
        r is Some <==> ref_of_line(line@) is Some,
        r is Some ==> branch_view(r->0) == ref_of_line(line@)->0,
{
    let fields = split(line, Separator::Whitespace, false);
    let ghost w = string_views(fields@);
    match first_two(fields) {
        Some((ref_type, ref_name)) => {
            let commit = "commit".to_owned();
            proof {
                reveal_strlit("commit");
                assert(commit@ =~= seq!['c', 'o', 'm', 'm', 'i', 't']);
                assert(ref_type@ == w[0]);
                assert(ref_name@ == w[1]);
            }
            let kind = if ref_type == commit {
                if contains_slash(ref_name.as_str()) {
                    GitBranchCompletionType::RemoteBranch
                } else {
                    GitBranchCompletionType::Branch
                }
            } else {
                GitBranchCompletionType::Tag
            };
            Some(GitBranchCompletion { kind: kind, branch_name: ref_name })
        },
        None => None,
    }
}

/// A completer of the refs of the Git repository at hand.
pub struct GitBranchCompleter {}

impl GitBranchCompleter {
    /// Creates the completer.
    pub fn new() -> (r: Self) {
        GitBranchCompleter {  }
    }

    /// Returns the completions for the output of `git for-each-ref`: none
    /// where Git failed; else `HEAD`, then the refs of the output's lines.
    pub fn completions_from(&self, succeeded: bool, output: &str) -> (r: Vec<GitBranchCompletion>)
        ensures
            !succeeded ==> r.len() == 0,
            succeeded ==> r.len() >= 1,
            succeeded ==> branch_view(r[0]) == (GitBranchCompletionType::Head, seq!['H', 'E', 'A', 'D']),
            succeeded ==> r@.drop_first().map_values(|c: GitBranchCompletion| branch_view(c))
                == refs_of_lines(lines(output@)),
    {
        let mut fetched: Vec<GitBranchCompletion> = Vec::new();
        if !succeeded {
            return fetched;
        }
        let head = "HEAD".to_owned();
        proof {
            reveal_strlit("HEAD");
        }
        fetched.push(GitBranchCompletion { kind: GitBranchCompletionType::Head, branch_name: head });
        let all = split_lines(output);
        let ghost ls = string_views(all@);
        for i in 0..all.len()
            invariant
                ls == string_views(all@),
                fetched.len() >= 1,
                branch_view(fetched[0]) == (GitBranchCompletionType::Head, seq!['H', 'E', 'A', 'D']),
                fetched@.drop_first().map_values(|c: GitBranchCompletion| branch_view(c))
                    == refs_of_lines(ls.take(i as int)),
        {
            proof {
                assert(ls.take(i + 1).drop_last() == ls.take(i as int));
            }
            let ghost prev = fetched@;
            match parse_ref_line(all[i].as_str()) {
                Some(c) => {
                    fetched.push(c);
                    proof {
                        assert(fetched@.drop_first() =~= prev.drop_first().push(c));
                        assert(fetched@.drop_first().map_values(|c: GitBranchCompletion| branch_view(c))
                            =~= prev.drop_first().map_values(|c: GitBranchCompletion| branch_view(c)).push(branch_view(c)));
                    }
                },
                None => {},
            }
        }
        proof {
            assert(ls.take(all.len() as int) == ls);
        }
        fetched
    }

    /// Returns the completer of the commits of the branch of `completion`.
    pub fn descend(&self, completion: &GitBranchCompletion) -> (r: GitCommitCompleter)
        ensures
            r.branch_view() == completion.branch_name@,
    {
        GitCommitCompleter::new(completion.branch_name.as_str())
    }
}

// ---------------------------------------------------------------------
// Commits

/// A commit, as a completion: chosen as its hash, searched by its subject.
pub struct GitCommitCompletion {
    /// The abbreviated hash.
    pub hash: String,
    /// The date, as `git log --date=short` prints it.
    pub date: String,
    /// The author's name.
    pub author: String,
    /// The subject line.
    pub subject: String,
}

/// `s` followed by spaces up to `width` characters.
pub open spec fn pad(s: Seq<char>, width: nat) -> Seq<char> {
    if s.len() >= width {
        s
    } else {
        s + Seq::new((width - s.len()) as nat, |i: int| ' ')
    }
}

/// Returns `s` followed by spaces up to `width` characters.
fn padded(s: &str, width: usize) -> (r: String)
    ensures
        r@ == pad(s@, width as nat),
{
    let len = s.unicode_len();
    let mut r = String::new();
    let mut n: usize = 0;
    for c in it: s.chars()
        invariant
            it.seq() == s@,
            len == s@.len(),
            n == it.index(),
            r@ == s@.take(n as int),
    {
        assert(n < len);
        proof {
            assert(s@.take(n + 1) == s@.take(n as int).push(c));
        }
        string_push(&mut r, c);
        n = n + 1;
    }
    proof {
        assert(n == s@.len());
        assert(s@.take(n as int) == s@);
        assert(r@ =~= s@ + Seq::new((n - s@.len()) as nat, |i: int| ' '));
    }
    while n < width
        invariant
            n >= s@.len(),
            n <= width || n == s@.len(),
            r@ == s@ + Seq::new((n - s@.len()) as nat, |i: int| ' '),
        decreases width - n,
    {
        string_push(&mut r, ' ');
        n = n + 1;
        proof {
            assert(r@ =~= s@ + Seq::new((n - s@.len()) as nat, |i: int| ' '));
        }
    }
    proof {
        if s@.len() >= width {
            assert(n == s@.len());
            assert(r@ =~= s@);
        }
    }
    r
}

/// Returns `a` followed by `b`.
pub(crate) fn joined(a: String, b: &str) -> (r: String)
    ensures
        r@ == a@ + b@,
{
    let mut r = a;
    let mut n: usize = 0;
    for c in it: b.chars()
        invariant
            it.seq() == b@,
            r@ == a@ + b@.take(it.index() as int),
    {
        proof {
            assert(b@.take(it.index() + 1) == b@.take(it.index() as int).push(c));
        }
        string_push(&mut r, c);
        proof {
            assert(r@ =~= a@ + b@.take(it.index() + 1));
        }
    }
    proof {
        assert(b@.take(b@.len() as int) == b@);
    }
    r
}

/// How a commit is shown: hash, date and author in columns of 10, 12 and
/// 25 characters, then the subject, separated by spaces.
pub open spec fn commit_line(c: GitCommitCompletion) -> Seq<char> {
    pad(c.hash@, 10) + seq![' '] + pad(c.date@, 12) + seq![' '] + pad(c.author@, 25) + seq![' ']
        + c.subject@
}

impl GitCommitCompletion {
    /// Returns how this commit is shown.
    pub fn line(&self) -> (r: String)
        ensures
            r@ == commit_line(*self),
    {
        let r = padded(self.hash.as_str(), 10);
        let r = joined(r, " ");
        let r = joined(r, padded(self.date.as_str(), 12).as_str());
        let r = joined(r, " ");
        let r = joined(r, padded(self.author.as_str(), 25).as_str());
        let r = joined(r, " ");
        let r = joined(r, self.subject.as_str());
        proof {
            reveal_strlit(" ");
            assert(r@ =~= commit_line(*self));
        }
        r
    }
}

impl Completion for GitCommitCompletion {
    open spec fn result_view(&self) -> Seq<char> {
        self.hash@
    }

    open spec fn search_view(&self) -> Seq<char> {
        self.subject@
    }

    fn result_string(&self) -> (r: String) {
        let r = self.hash.clone();
        assert(r@ == self.result_view());
        r
    }

    fn display_string(&self) -> String {
        self.line()
    }

    fn search_string(&self) -> (r: String) {
        let r = self.subject.clone();
        assert(r@ == self.search_view());
        r
    }
}

/// The commit that a line of `git log` output describes, where it has at
/// least four tab-separated fields: hash, date, author and subject.
pub open spec fn commit_of_line(line: Seq<char>) -> Option<(Seq<char>, Seq<char>, Seq<char>, Seq<char>)> {
    let f = pieces(line, Separator::Tab);
    if f.len() >= 4 {
        Some((f[0], f[1], f[2], f[3]))
    } else {
        None
    }
}

/// The hash, date, author and subject of a commit completion.
pub open spec fn commit_view(c: GitCommitCompletion) -> (Seq<char>, Seq<char>, Seq<char>, Seq<char>) {
    (c.hash@, c.date@, c.author@, c.subject@)
}

/// The commits that `lines` describe, in order.
pub open spec fn commits_of_lines(lines: Seq<Seq<char>>) -> Seq<(Seq<char>, Seq<char>, Seq<char>, Seq<char>)>
    decreases lines.len(),
{
    if lines.len() == 0 {
        Seq::empty()
    } else {
        let r = commits_of_lines(lines.drop_last());
        match commit_of_line(lines.last()) {
            Some(e) => r.push(e),
            None => r,
        }
    }
}

/// Reads one line of `git log` output.
pub fn parse_log_line(line: &str) -> (r: Option<GitCommitCompletion>)
    ensures
        r is Some <==> commit_of_line(line@) is Some,
        r is Some ==> commit_view(r->0) == commit_of_line(line@)->0,
{
    let fields = split(line, Separator::Tab, true);
    let ghost f = string_views(fields@);
    match first_four(fields) {
        Some((hash, date, author, subject)) => {
            assert(hash@ == f[0] && date@ == f[1] && author@ == f[2] && subject@ == f[3]);
            Some(GitCommitCompletion { hash: hash, date: date, author: author, subject: subject })
        },
        None => None,
    }
}

/// A completer of the commits of one branch.
pub struct GitCommitCompleter {
    branch_name: String,
}

impl GitCommitCompleter {
    /// The branch whose commits are completed.
    pub closed spec fn branch_view(&self) -> Seq<char> {
        self.branch_name@
    }

    /// Creates the completer of the commits of `branch_name`.
    pub fn new(branch_name: &str) -> (r: Self)
        ensures
            r.branch_view() == branch_name@,
    {
        GitCommitCompleter { branch_name: branch_name.to_owned() }
    }

    /// Returns the branch whose commits are completed.
    pub fn branch_name(&self) -> (r: &str)
        ensures
            r@ == self.branch_view(),
    {
        self.branch_name.as_str()
    }

    /// Returns the completions for the output of `git log`: none where Git
    /// failed; else the commits of the output's lines.
    pub fn completions_from(&self, succeeded: bool, output: &str) -> (r: Vec<GitCommitCompletion>)
        ensures
            !succeeded ==> r.len() == 0,
            succeeded ==> r@.map_values(|c: GitCommitCompletion| commit_view(c)) == commits_of_lines(
                lines(output@),
            ),
    {
        let mut fetched: Vec<GitCommitCompletion> = Vec::new();
        if !succeeded {
            return fetched;
        }
        let all = split_lines(output);
        let ghost ls = string_views(all@);
        for i in 0..all.len()
            invariant
                ls == string_views(all@),
                fetched@.map_values(|c: GitCommitCompletion| commit_view(c)) == commits_of_lines(
                    ls.take(i as int),
                ),
        {
            proof {
                assert(ls.take(i + 1).drop_last() == ls.take(i as int));
            }
            let ghost prev = fetched@;
            match parse_log_line(all[i].as_str()) {
                Some(c) => {
                    fetched.push(c);
                    proof {
                        assert(fetched@.map_values(|c: GitCommitCompletion| commit_view(c))
                            =~= prev.map_values(|c: GitCommitCompletion| commit_view(c)).push(commit_view(c)));
                    }
                },
                None => {},
            }
        }
        proof {
            assert(ls.take(all.len() as int) == ls);
        }
        fetched
    }
}

} // verus!
