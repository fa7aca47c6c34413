//! Matching and scoring of completion candidates against a query.
//!
//! Both the candidate and the query are compared after ASCII case
//! folding; whitespace in the query is ignored.
use array2d::Array2D;
use vstd::prelude::*;
use vstd::utf8::encode_utf8;

verus! {

/// A relevance score: higher is better.
pub type Score = u64;

// ---------------------------------------------------------------------
// Characters

/// Whether `c` has Unicode's White_Space property: the controls from tab
/// to carriage return, space, next line, no-break space, ogham space mark,
/// the spaces from en quad to hair space, the line and paragraph
/// separators, narrow no-break space, medium mathematical space and
/// ideographic space.
pub open spec fn is_space(c: char) -> bool {
    ||| '\u{9}' <= c && c <= '\u{d}'
    ||| c == ' '
    ||| c == '\u{85}'
    ||| c == '\u{a0}'
    ||| c == '\u{1680}'
    ||| '\u{2000}' <= c && c <= '\u{200a}'
    ||| c == '\u{2028}'
    ||| c == '\u{2029}'
    ||| c == '\u{202f}'
    ||| c == '\u{205f}'
    ||| c == '\u{3000}'
}

/// Whether `c` is alphabetic or numeric in Unicode's sense.
pub uninterp spec fn is_alnum(c: char) -> bool;

/// Whether `c` is whitespace, as `char::is_whitespace` decides.
pub(crate) fn char_is_whitespace(c: char) -> (r: bool)
    ensures
        r == is_space(c),
{
    ('\u{9}' <= c && c <= '\u{d}') || c == ' ' || c == '\u{85}' || c == '\u{a0}' || c
        == '\u{1680}' || ('\u{2000}' <= c && c <= '\u{200a}') || c == '\u{2028}' || c
        == '\u{2029}' || c == '\u{202f}' || c == '\u{205f}' || c == '\u{3000}'
}

/// Relies on `char::is_alphanumeric`, whose result depends on the character alone.
#[verifier::external_body]
fn char_is_alphanumeric(c: char) -> (r: bool)
    ensures
        r == is_alnum(c),
{
    c.is_alphanumeric()
}

/// ASCII lower-casing of one character; other characters are kept.
pub open spec fn fold_char(c: char) -> char {
    if 'A' <= c && c <= 'Z' {
        ((c as u32) + 32) as char
    } else {
        c
    }
}

/// ASCII lower-casing of a whole string.
pub open spec fn fold_seq(s: Seq<char>) -> Seq<char> {
    s.map_values(|c: char| fold_char(c))
}

/// The characters of a query that take part in matching: the
/// non-whitespace ones, case-folded, in order.
pub open spec fn query_key(q: Seq<char>) -> Seq<char>
    decreases q.len(),
{
    if q.len() == 0 {
        Seq::empty()
    } else {
        let rest = query_key(q.drop_last());
        if is_space(q.last()) {
            rest
        } else {
            rest.push(fold_char(q.last()))
        }
    }
}

/// Whether `a` occurs in `b` as a (not necessarily contiguous) subsequence.
pub open spec fn is_subseq(a: Seq<char>, b: Seq<char>) -> bool
    decreases b.len(),
{
    if a.len() == 0 {
        true
    } else if b.len() == 0 {
        false
    } else if a.last() == b.last() {
        is_subseq(a.drop_last(), b.drop_last())
    } else {
        is_subseq(a, b.drop_last())
    }
}

/// What `subsequence_match(query, candidate)` decides.
pub open spec fn query_matches(query: Seq<char>, candidate: Seq<char>) -> bool {
    is_subseq(query_key(query), fold_seq(candidate))
}

fn fold_ascii(c: char) -> (r: char)
    ensures
        r == fold_char(c),
{
    if 'A' <= c && c <= 'Z' {
        ((c as u8) + 32) as char
    } else {
        c
    }
}

/// The characters of `s`, case-folded.
fn folded_chars(s: &str) -> (r: Vec<char>)
    ensures
        r@ == fold_seq(s@),
{
    let mut r: Vec<char> = Vec::new();
    for c in it: s.chars()
        invariant
            it.seq() == s@,
            r@ == fold_seq(s@.take(it.index() as int)),
    {
        proof {
            assert(s@.take(it.index() + 1) == s@.take(it.index() as int).push(c));
        }
        r.push(fold_ascii(c));
    }
    proof {
        assert(s@.take(s@.len() as int) == s@);
    }
    r
}

/// The characters of query `q` that take part in matching.
fn query_chars(q: &str) -> (r: Vec<char>)
    ensures
        r@ == query_key(q@),
{
    let mut r: Vec<char> = Vec::new();
    for c in it: q.chars()
        invariant
            it.seq() == q@,
            r@ == query_key(q@.take(it.index() as int)),
    {
        proof {
            let t = q@.take(it.index() + 1);
            assert(t.drop_last() == q@.take(it.index() as int));
            assert(t.last() == c);
        }
        if !char_is_whitespace(c) {
            r.push(fold_ascii(c));
        }
    }
    proof {
        assert(q@.take(q@.len() as int) == q@);
    }
    r
}

/// Whether `a` is a subsequence of `b`; with the query key as `a` and the
/// folded candidate as `b`, whether the candidate matches.
pub fn is_subsequence(a: &Vec<char>, b: &Vec<char>) -> (r: bool)
    ensures
        r == is_subseq(a@, b@),
{
    let mut i: usize = a.len();
    let mut j: usize = b.len();
    proof {
        assert(a@.take(i as int) == a@);
        assert(b@.take(j as int) == b@);
    }
    while i > 0 && j > 0
        invariant
            i <= a.len(),
            j <= b.len(),
            is_subseq(a@, b@) == is_subseq(a@.take(i as int), b@.take(j as int)),
        decreases j,
    {
        proof {
            assert(a@.take(i as int).drop_last() == a@.take(i - 1));
            assert(b@.take(j as int).drop_last() == b@.take(j - 1));
        }
        if a[i - 1] == b[j - 1] {
            i = i - 1;
        }
        j = j - 1;
    }
    i == 0
}

/// Indicates whether `string` matches `query`: the non-whitespace
/// characters of `query` occur in `string` in order, ignoring ASCII case.
pub fn subsequence_match(query: &str, string: &str) -> (r: bool)
    ensures
        r == query_matches(query@, string@),
{
    let s = folded_chars(string);
    let q = query_chars(query);
    is_subsequence(&q, &s)
}

// ---------------------------------------------------------------------
// Laws of matching

proof fn lemma_subseq_extend(a: Seq<char>, b: Seq<char>, y: char)
    requires
        is_subseq(a, b),
    ensures
        is_subseq(a, b.push(y)),
    decreases b.len(), 1int,
{
    let b2 = b.push(y);
    assert(b2.drop_last() == b);
    if a.len() > 0 && a.last() == y {
        lemma_subseq_drop_last(a, b);
    }
}

proof fn lemma_subseq_drop_last(a: Seq<char>, b: Seq<char>)
    requires
        a.len() > 0,
        is_subseq(a, b),
    ensures
        is_subseq(a.drop_last(), b),
    decreases b.len(), 0int,
{
    if b.len() > 0 {
        let b1 = b.drop_last();
        assert(b1.push(b.last()) == b);
        if a.last() == b.last() {
            lemma_subseq_extend(a.drop_last(), b1, b.last());
        } else {
            lemma_subseq_drop_last(a, b1);
            lemma_subseq_extend(a.drop_last(), b1, b.last());
        }
    }
}

/// Every string matches itself, the empty query matches every string,
/// and no query with a non-whitespace character matches the empty string.
pub proof fn lemma_match_basics(q: Seq<char>, c: Seq<char>)
    ensures
        query_matches(q, q),
        query_matches(Seq::empty(), c),
        query_key(q).len() > 0 ==> !query_matches(q, Seq::empty()),
    decreases q.len(),
{
    assert(query_key(Seq::<char>::empty()) == Seq::<char>::empty());
    assert(fold_seq(Seq::<char>::empty()).len() == 0);
    if q.len() > 0 {
        let q1 = q.drop_last();
        lemma_match_basics(q1, c);
        let k1 = query_key(q1);
        let f1 = fold_seq(q1);
        assert(fold_seq(q) == f1.push(fold_char(q.last())));
        if is_space(q.last()) {
            lemma_subseq_extend(k1, f1, fold_char(q.last()));
        } else {
            let k = query_key(q);
            assert(k.drop_last() == k1);
            assert(fold_seq(q).drop_last() == f1);
        }
    }
}

// ---------------------------------------------------------------------
// Word starts

/// Whether position `j` of `c` starts a word: an alphanumeric character
/// at the start of the string or right after a non-alphanumeric one.
pub open spec fn is_word_start(c: Seq<char>, j: int) -> bool {
    &&& 0 <= j < c.len()
    &&& is_alnum(c[j])
    &&& (j == 0 || !is_alnum(c[j - 1]))
}

/// The indices of the word starts of `c`, in increasing order.
pub open spec fn word_start_list(c: Seq<char>) -> Seq<usize>
    decreases c.len(),
{
    if c.len() == 0 {
        Seq::empty()
    } else {
        let r = word_start_list(c.drop_last());
        if is_word_start(c, c.len() - 1) {
            r.push((c.len() - 1) as usize)
        } else {
            r
        }
    }
}

/// Returns the indices of the word start characters in `chars`, in
/// increasing order.
pub fn word_start_indices(chars: &[char]) -> (r: Vec<usize>)
    ensures
        r@ == word_start_list(chars@),
{
    let mut previous_char_is_letter = false;
    let mut result: Vec<usize> = Vec::with_capacity(10);
    let n = chars.len();
    for i in 0..n
        invariant
            n == chars@.len(),
            previous_char_is_letter == (i > 0 && is_alnum(chars@[i - 1])),
            result@ == word_start_list(chars@.take(i as int)),
    {
        proof {
            let t = chars@.take(i + 1);
            assert(t.drop_last() == chars@.take(i as int));
            assert(is_word_start(t, i as int) == is_word_start(chars@, i as int));
        }
        let alnum = char_is_alphanumeric(chars[i]);
        if !previous_char_is_letter && alnum {
            previous_char_is_letter = true;
            result.push(i);
        } else if !alnum {
            previous_char_is_letter = false;
        }
    }
    proof {
        assert(chars@.take(n as int) == chars@);
    }
    result
}

// ---------------------------------------------------------------------
// Scores

/// Weights of the three ways in which a matched character earns credit.
pub struct ScoringSettings {
    /// Credit for every matched character.
    pub letter_match: Score,
    /// Extra credit for a matched character right after the previous one.
    pub subsequent_bonus: Score,
    /// Extra credit for a matched character at the start of a word.
    pub word_start_bonus: Score,
}

/// `x`, saturated at the largest score.
pub open spec fn sat(x: int) -> int {
    if x > u64::MAX {
        u64::MAX as int
    } else {
        x
    }
}

pub open spec fn max_int(a: int, b: int) -> int {
    if a >= b {
        a
    } else {
        b
    }
}

/// The word start bonus that candidate position `j` earns, where `starts`
/// are the word starts of the candidate.
pub open spec fn start_bonus(starts: Seq<usize>, st: ScoringSettings, j: int) -> int {
    if starts.contains(j as usize) {
        st.word_start_bonus as int
    } else {
        0
    }
}

/// One cell of the scoring table, as a pair (take, leave), for the query
/// prefix `q[..=i]` and the candidate prefix `c[..=j]`, where `starts` are
/// the word starts of `c`.
///
/// `take` is the best score if `c[j]` is matched with `q[i]` (0 when they
/// differ); `leave` is the best score if `c[j]` is not used.
pub open spec fn cell(
    q: Seq<char>,
    c: Seq<char>,
    starts: Seq<usize>,
    st: ScoringSettings,
    i: int,
    j: int,
) -> (int, int)
    decreases i + j,
{
    if i < 0 || j < 0 || i >= q.len() || j >= c.len() {
        (0, 0)
    } else {
        let take = if q[i] != c[j] {
            0
        } else {
            let from_prev = if i > 0 && j > 0 {
                let p = cell(q, c, starts, st, i - 1, j - 1);
                let carry = if p.0 > 0 {
                    sat(p.0 + st.subsequent_bonus)
                } else {
                    0
                };
                max_int(carry, p.1)
            } else {
                0
            };
            sat(sat(from_prev + st.letter_match) + start_bonus(starts, st, j))
        };
        let leave = if j > 0 {
            let p = cell(q, c, starts, st, i, j - 1);
            max_int(p.0, p.1)
        } else {
            0
        };
        (take, leave)
    }
}

/// The score of query key `q` against folded candidate `c`, whose word
/// starts are `starts`.
pub open spec fn table_score(q: Seq<char>, c: Seq<char>, starts: Seq<usize>, st: ScoringSettings) -> int {
    if q.len() == 0 || c.len() == 0 {
        0
    } else {
        let e = cell(q, c, starts, st, q.len() - 1, c.len() - 1);
        max_int(e.0, e.1)
    }
}

/// The length in bytes of the UTF-8 encoding of `s`, as `str::len` gives it.
pub open spec fn byte_len(s: Seq<char>) -> usize {
    encode_utf8(s).len() as usize
}

/// The score of `query` against `candidate` under `st`: 0 where the query
/// is longer in bytes than the candidate.
pub open spec fn score_of(candidate: Seq<char>, query: Seq<char>, st: ScoringSettings) -> int {
    if byte_len(query) > byte_len(candidate) {
        0
    } else {
        let c = fold_seq(candidate);
        table_score(query_key(query), c, word_start_list(c), st)
    }
}

// ---------------------------------------------------------------------
// The scoring table

#[verifier::external_type_specification]
#[verifier::external_body]
#[verifier::reject_recursive_types(T)]
pub struct ExArray2D<T>(Array2D<T>);

#[verifier::external_type_specification]
#[verifier::external_body]
pub struct ExArray2DError(array2d::Error);

/// The rows of a table of (take, leave) pairs.
pub uninterp spec fn table_rows(a: Array2D<(u64, u64)>) -> Seq<Seq<(u64, u64)>>;

/// Relies on `array2d::Array2D::filled_with`: `num_rows` rows, each of
/// `num_columns` copies of `element`; the table must fit in `isize::MAX`
/// bytes, as a vector must.
#[verifier::external_body]
fn table_filled_with(element: (u64, u64), num_rows: usize, num_columns: usize) -> (r: Array2D<
    (u64, u64),
>)
    requires
        num_rows * num_columns * 16 <= isize::MAX,
    ensures
        table_rows(r).len() == num_rows,
        forall|i: int|
            0 <= i < num_rows ==> #[trigger] table_rows(r)[i] == Seq::new(
                num_columns as nat,
                |k: int| element,
            ),
{
    Array2D::filled_with(element, num_rows, num_columns)
}

/// Relies on `array2d::Array2D::get`: the element at (`row`, `column`),
/// or `None` out of bounds.
#[verifier::external_body]
fn table_get(a: &Array2D<(u64, u64)>, row: usize, column: usize) -> (r: Option<(u64, u64)>)
    ensures
        r == (if row < table_rows(*a).len() && column < table_rows(*a)[row as int].len() {
            Some(table_rows(*a)[row as int][column as int])
        } else {
            None
        }),
{
    a.get(row, column).copied()
}

/// Relies on `array2d::Array2D::set`: replaces the element at (`row`,
/// `column`), or fails out of bounds and changes nothing.
#[verifier::external_body]
fn table_set(a: &mut Array2D<(u64, u64)>, row: usize, column: usize, element: (u64, u64)) -> (r:
    Result<(), array2d::Error>)
    ensures
        row < table_rows(*old(a)).len() && column < table_rows(*old(a))[row as int].len() ==> {
            &&& r is Ok
            &&& table_rows(*final(a)) == table_rows(*old(a)).update(
                row as int,
                table_rows(*old(a))[row as int].update(column as int, element),
            )
        },
        !(row < table_rows(*old(a)).len() && column < table_rows(*old(a))[row as int].len()) ==> {
            &&& r is Err
            &&& table_rows(*final(a)) == table_rows(*old(a))
        },
{
    a.set(row, column, element)
}

/// Whether a table entry holds the given (take, leave) values.
pub open spec fn holds(e: (u64, u64), v: (int, int)) -> bool {
    e.0 as int == v.0 && e.1 as int == v.1
}

/// The table of the dynamic programme that scores one query against one
/// candidate.
///
/// Entry (i, j) holds `cell(query, candidate, settings, i, j)`; see `cell`.
struct ScoringArray {
    candidate_chars: Vec<char>,
    query_chars: Vec<char>,
    word_start_indices: Vec<usize>,
    settings: ScoringSettings,
    array: Array2D<(u64, u64)>,
}

impl ScoringArray {
    spec fn rows(&self) -> Seq<Seq<(u64, u64)>> {
        table_rows(self.array)
    }

    /// The table has one row per query character and one column per
    /// candidate character.
    spec fn wf(&self) -> bool {
        &&& self.rows().len() == self.query_chars.len()
        &&& forall|i: int|
            0 <= i < self.rows().len() ==> #[trigger] self.rows()[i].len()
                == self.candidate_chars.len()
    }

    /// The entries before (`qi`, `ci`) in row-major order are computed.
    spec fn filled(&self, qi: int, ci: int) -> bool {
        forall|i: int, j: int|
            0 <= i && 0 <= j && j < self.candidate_chars.len() && (i < qi || (i == qi && j < ci))
                ==> holds(
                #[trigger] self.rows()[i][j],
                cell(self.query_chars@, self.candidate_chars@, self.word_start_indices@, self.settings, i, j),
            )
    }

    fn new(
        candidate_chars: Vec<char>,
        query_chars: Vec<char>,
        word_start_indices: Vec<usize>,
        scoring_settings: &ScoringSettings,
    ) -> (r: ScoringArray)
        requires
            query_chars.len() * candidate_chars.len() * 16 <= isize::MAX,
        ensures
            r.wf(),
            r.candidate_chars@ == candidate_chars@,
            r.query_chars@ == query_chars@,
            r.word_start_indices@ == word_start_indices@,
            r.settings == *scoring_settings,
    {
        let query_len = query_chars.len();
        let candidate_len = candidate_chars.len();
        ScoringArray {
            candidate_chars: candidate_chars,
            query_chars: query_chars,
            word_start_indices: word_start_indices,
            settings: ScoringSettings {
                letter_match: scoring_settings.letter_match,
                subsequent_bonus: scoring_settings.subsequent_bonus,
                word_start_bonus: scoring_settings.word_start_bonus,
            },
            array: table_filled_with((0, 0), query_len, candidate_len),
        }
    }

    /// Returns the word start bonus for the given index into the candidate.
    fn word_start_bonus(&self, candidate_index: usize) -> (r: Score)
        requires
            self.wf(),
        ensures
            r as int == start_bonus(self.word_start_indices@, self.settings, candidate_index as int),
    {
        let mut k: usize = 0;
        while k < self.word_start_indices.len()
            invariant
                self.wf(),
                forall|m: int| 0 <= m < k ==> self.word_start_indices[m] != candidate_index,
            decreases self.word_start_indices.len() - k,
        {
            if self.word_start_indices[k] == candidate_index {
                return self.settings.word_start_bonus;
            }
            k = k + 1;
        }
        0
    }

    /// The score for the given prefixes if the candidate character is
    /// matched with the query character.
    fn take_score(&self, query_index: usize, candidate_index: usize) -> (r: Score)
        requires
            self.wf(),
            query_index < self.query_chars.len(),
            candidate_index < self.candidate_chars.len(),
            self.filled(query_index as int, candidate_index as int),
        ensures
            r as int == cell(
                self.query_chars@,
                self.candidate_chars@,
                self.word_start_indices@,
                self.settings,
                query_index as int,
                candidate_index as int,
            ).0,
    {
        if self.query_chars[query_index] != self.candidate_chars[candidate_index] {
            return 0;
        }
        let score_from_prev = if query_index > 0 && candidate_index > 0 {
            let prev = table_get(&self.array, query_index - 1, candidate_index - 1).unwrap();
            assert(self.rows()[query_index - 1][candidate_index - 1] == prev);
            let take_prev_score = if prev.0 > 0 {
                prev.0.saturating_add(self.settings.subsequent_bonus)
            } else {
                0
            };
            if take_prev_score >= prev.1 {
                take_prev_score
            } else {
                prev.1
            }
        } else {
            0
        };
        score_from_prev.saturating_add(self.settings.letter_match).saturating_add(
            self.word_start_bonus(candidate_index),
        )
    }

    /// The score for the given prefixes if the candidate character is not
    /// used.
    fn leave_score(&self, query_index: usize, candidate_index: usize) -> (r: Score)
        requires
            self.wf(),
            query_index < self.query_chars.len(),
            candidate_index < self.candidate_chars.len(),
            self.filled(query_index as int, candidate_index as int),
        ensures
            r as int == cell(
                self.query_chars@,
                self.candidate_chars@,
                self.word_start_indices@,
                self.settings,
                query_index as int,
                candidate_index as int,
            ).1,
    {
        if candidate_index > 0 {
            let prev = table_get(&self.array, query_index, candidate_index - 1).unwrap();
            assert(self.rows()[query_index as int][candidate_index - 1] == prev);
            if prev.0 >= prev.1 {
                prev.0
            } else {
                prev.1
            }
        } else {
            0
        }
    }

    /// Computes a single entry of the table.
    fn compute_entry(&self, query_index: usize, candidate_index: usize) -> (r: (u64, u64))
        requires
            self.wf(),
            query_index < self.query_chars.len(),
            candidate_index < self.candidate_chars.len(),
            self.filled(query_index as int, candidate_index as int),
        ensures
            holds(
                r,
                cell(
                    self.query_chars@,
                    self.candidate_chars@,
                    self.word_start_indices@,
                    self.settings,
                    query_index as int,
                    candidate_index as int,
                ),
            ),
    {
        (self.take_score(query_index, candidate_index), self.leave_score(query_index, candidate_index))
    }

    /// Computes all entries of the table.
    fn compute(&mut self)
        requires
            old(self).wf(),
        ensures
            final(self).wf(),
            final(self).candidate_chars@ == old(self).candidate_chars@,
            final(self).query_chars@ == old(self).query_chars@,
            final(self).word_start_indices@ == old(self).word_start_indices@,
            final(self).settings == old(self).settings,
            final(self).filled(final(self).query_chars.len() as int, 0),
    {
        let m = self.query_chars.len();
        let n = self.candidate_chars.len();
        for qi in 0..m
            invariant
                self.wf(),
                m == self.query_chars.len(),
                n == self.candidate_chars.len(),
                self.candidate_chars@ == old(self).candidate_chars@,
                self.query_chars@ == old(self).query_chars@,
                self.word_start_indices@ == old(self).word_start_indices@,
                self.settings == old(self).settings,
                self.filled(qi as int, 0),
        {
            for ci in 0..n
                invariant
                    self.wf(),
                    qi < m,
                    m == self.query_chars.len(),
                    n == self.candidate_chars.len(),
                    self.candidate_chars@ == old(self).candidate_chars@,
                    self.query_chars@ == old(self).query_chars@,
                    self.word_start_indices@ == old(self).word_start_indices@,
                    self.settings == old(self).settings,
                    self.filled(qi as int, ci as int),
            {
                let e = self.compute_entry(qi, ci);
                let ghost before = self.rows();
                let _ = table_set(&mut self.array, qi, ci, e);
                proof {
                    assert forall|i: int| 0 <= i < self.rows().len() implies #[trigger] self.rows()[i].len()
                        == self.candidate_chars.len() by {
                        if i != qi {
                            assert(self.rows()[i] == before[i]);
                        }
                    }
                    assert forall|i: int, j: int|
                        0 <= i && 0 <= j && j < self.candidate_chars.len() && (i < qi || (i == qi
                            && j < ci + 1)) implies holds(
                        #[trigger] self.rows()[i][j],
                        cell(self.query_chars@, self.candidate_chars@, self.word_start_indices@, self.settings, i, j),
                    ) by {
                        if i != qi || j != ci {
                            assert(self.rows()[i][j] == before[i][j]);
                        }
                    }
                }
            }
        }
    }

    /// Returns the score held in the table: the better of the two values
    /// in its last entry.
    fn score(&self) -> (r: Score)
        requires
            self.wf(),
            self.filled(self.query_chars.len() as int, 0),
        ensures
            r as int == table_score(
                self.query_chars@,
                self.candidate_chars@,
                self.word_start_indices@,
                self.settings,
            ),
    {
        if self.query_chars.len() > 0 && self.candidate_chars.len() > 0 {
            let last_entry = table_get(
                &self.array,
                self.query_chars.len() - 1,
                self.candidate_chars.len() - 1,
            ).unwrap();
            assert(self.rows()[self.query_chars.len() - 1][self.candidate_chars.len() - 1]
                == last_entry);
            if last_entry.0 >= last_entry.1 {
                last_entry.0
            } else {
                last_entry.1
            }
        } else {
            0
        }
    }
}

/// Whether the scoring table for `query` against `candidate` fits in
/// memory: its (take, leave) pairs of two 8-byte scores may not exceed
/// `isize::MAX` bytes.
pub open spec fn fits_table(query: Seq<char>, candidate: Seq<char>) -> bool {
    query.len() * candidate.len() * 16 <= isize::MAX
}

/// Whether the scoring table of `query` against `candidate` fits in memory.
pub fn table_fits(query: &str, candidate: &str) -> (r: bool)
    ensures
        r == fits_table(query@, candidate@),
{
    let query_len = query.unicode_len();
    let candidate_len = candidate.unicode_len();
    match query_len.checked_mul(candidate_len) {
        Some(cells) => match cells.checked_mul(16) {
            Some(bytes) => bytes <= isize::MAX as usize,
            None => false,
        },
        None => false,
    }
}

proof fn lemma_query_key_len(q: Seq<char>)
    ensures
        query_key(q).len() <= q.len(),
    decreases q.len(),
{
    if q.len() > 0 {
        lemma_query_key_len(q.drop_last());
    }
}

/// Returns the score of query key `query_chars` against the folded
/// candidate `candidate_chars`, whose word starts are `word_starts`: the
/// result of the dynamic programme that `cell` describes.
pub fn score_chars(
    candidate_chars: Vec<char>,
    query_chars: Vec<char>,
    word_starts: Vec<usize>,
    settings: &ScoringSettings,
) -> (r: Score)
    requires
        query_chars.len() * candidate_chars.len() * 16 <= isize::MAX,
    ensures
        r as int == table_score(query_chars@, candidate_chars@, word_starts@, *settings),
{
    let mut scoring_array = ScoringArray::new(candidate_chars, query_chars, word_starts, settings);
    scoring_array.compute();
    scoring_array.score()
}

/// Returns the score of `candidate` for `query`: 0 if the query is longer
/// in bytes than the candidate, else the result of the dynamic programme that
/// `cell` describes, over the folded candidate and the query key.
pub fn score(candidate: &str, query: &str, settings: &ScoringSettings) -> (r: Score)
    requires
        fits_table(query@, candidate@),
    ensures
        r as int == score_of(candidate@, query@, *settings),
{
    let candidate_chars = folded_chars(candidate);
    let query_chars = query_chars(query);
    if query.len() > candidate.len() {
        return 0;
    }
    proof {
        lemma_query_key_len(query@);
        let m = query_chars.len() as int;
        let n = candidate_chars.len() as int;
        let ql = query@.len() as int;
        assert(m * n * 16 <= ql * n * 16) by (nonlinear_arith)
            requires
                m <= ql,
                0 <= n,
        ;
    }
    let word_starts = word_start_indices(candidate_chars.as_slice());
    score_chars(candidate_chars, query_chars, word_starts, settings)
}

// ---------------------------------------------------------------------
// Laws of scoring

/// Every weight of `a` is at most the same weight of `b`.
pub open spec fn weights_le(a: ScoringSettings, b: ScoringSettings) -> bool {
    &&& a.letter_match <= b.letter_match
    &&& a.subsequent_bonus <= b.subsequent_bonus
    &&& a.word_start_bonus <= b.word_start_bonus
}

proof fn lemma_cell_range(
    q: Seq<char>,
    c: Seq<char>,
    starts: Seq<usize>,
    st: ScoringSettings,
    i: int,
    j: int,
)
    ensures
        0 <= cell(q, c, starts, st, i, j).0 <= u64::MAX,
        0 <= cell(q, c, starts, st, i, j).1 <= u64::MAX,
    decreases i + j,
{
    if 0 <= i < q.len() && 0 <= j < c.len() {
        if i > 0 && j > 0 {
            lemma_cell_range(q, c, starts, st, i - 1, j - 1);
        }
        if j > 0 {
            lemma_cell_range(q, c, starts, st, i, j - 1);
        }
    }
}

proof fn lemma_cell_monotone(
    q: Seq<char>,
    c: Seq<char>,
    starts: Seq<usize>,
    a: ScoringSettings,
    b: ScoringSettings,
    i: int,
    j: int,
)
    requires
        weights_le(a, b),
    ensures
        cell(q, c, starts, a, i, j).0 <= cell(q, c, starts, b, i, j).0,
        cell(q, c, starts, a, i, j).1 <= cell(q, c, starts, b, i, j).1,
    decreases i + j,
{
    if 0 <= i < q.len() && 0 <= j < c.len() {
        if i > 0 && j > 0 {
            lemma_cell_monotone(q, c, starts, a, b, i - 1, j - 1);
            lemma_cell_range(q, c, starts, a, i - 1, j - 1);
            lemma_cell_range(q, c, starts, b, i - 1, j - 1);
        }
        if j > 0 {
            lemma_cell_monotone(q, c, starts, a, b, i, j - 1);
        }
    }
}

/// Raising any of the weights, the others held fixed, never lowers a score.
pub proof fn lemma_score_monotone(
    candidate: Seq<char>,
    query: Seq<char>,
    a: ScoringSettings,
    b: ScoringSettings,
)
    requires
        weights_le(a, b),
    ensures
        score_of(candidate, query, a) <= score_of(candidate, query, b),
{
    let q = query_key(query);
    let c = fold_seq(candidate);
    lemma_cell_monotone(q, c, word_start_list(c), a, b, q.len() - 1, c.len() - 1);
}

/// A query longer in bytes than the candidate scores 0.
pub proof fn lemma_longer_query_scores_zero(
    candidate: Seq<char>,
    query: Seq<char>,
    st: ScoringSettings,
)
    requires
        byte_len(query) > byte_len(candidate),
    ensures
        score_of(candidate, query, st) == 0,
{
}

} // verus!
