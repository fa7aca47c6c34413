//! The state of a completion session: views of completers, stacks of
//! views (one per tab), and the model over all tabs.
use itertools::Itertools;
use vstd::prelude::*;

use crate::completion::{Completer, Completion};
use crate::scoring::{
    fits_table, query_matches, score, score_of, subsequence_match, table_fits, Score, ScoringSettings,
};

verus! {

/// The number of completions shown at once.
pub const CHOOSER_HEIGHT: usize = 10;

/// A completion's place in the list of all completions of a view, with
/// its score for the view's query.
#[derive(Clone, Copy)]
pub struct CompletionScore {
    /// The index of the completion among all completions of the view.
    pub index: usize,
    /// The score of that completion.
    pub score: Score,
}

/// The weights with which views score their completions.
pub open spec fn view_settings() -> ScoringSettings {
    ScoringSettings { letter_match: 1, subsequent_bonus: 3, word_start_bonus: 2 }
}

fn make_view_settings() -> (r: ScoringSettings)
    ensures
        r == view_settings(),
{
    ScoringSettings { letter_match: 1, subsequent_bonus: 3, word_start_bonus: 2 }
}

/// Whether a completion searched as `search` is listed for `query`: it
/// matches, and its scoring table fits in memory.
pub open spec fn rankable(search: Seq<char>, query: Seq<char>) -> bool {
    query_matches(query, search) && fits_table(query, search)
}

/// Whether `x` is listed before `y`: a higher score first, and among
/// equal scores the completion that arrived first.
pub open spec fn ranks_before(x: CompletionScore, y: CompletionScore) -> bool {
    x.score > y.score || (x.score == y.score && x.index < y.index)
}

/// Whether `r` is in listing order.
pub open spec fn is_sorted_ranking(r: Seq<CompletionScore>) -> bool {
    forall|a: int, b: int| 0 <= a < b < r.len() ==> ranks_before(#[trigger] r[a], #[trigger] r[b])
}

/// Whether `e` is the entry of a listed completion among those with an
/// index in `[lo, hi)`.
pub open spec fn entry_ok(
    e: CompletionScore,
    searches: Seq<Seq<char>>,
    query: Seq<char>,
    lo: int,
    hi: int,
) -> bool {
    &&& lo <= e.index < hi
    &&& e.index < searches.len()
    &&& rankable(searches[e.index as int], query)
    &&& e.score == score_of(searches[e.index as int], query, view_settings())
}

/// Whether `r` is the listing, for `query`, of the completions searched as
/// `searches` with an index in `[lo, hi)`: every listed one once, with its
/// score, in listing order.
pub open spec fn ranks_range(
    r: Seq<CompletionScore>,
    searches: Seq<Seq<char>>,
    query: Seq<char>,
    lo: int,
    hi: int,
) -> bool {
    &&& is_sorted_ranking(r)
    &&& forall|k: int| 0 <= k < r.len() ==> entry_ok(#[trigger] r[k], searches, query, lo, hi)
    &&& forall|i: int|
        lo <= i < hi && i < searches.len() && rankable(#[trigger] searches[i], query) ==> exists|
            k: int,
        |
            0 <= k < r.len() && (#[trigger] r[k]).index == i
}

/// The merge of two listings, taking from `a` while its head scores at
/// least as high as the head of `b`.
pub open spec fn merge_ranked(a: Seq<CompletionScore>, b: Seq<CompletionScore>) -> Seq<
    CompletionScore,
>
    decreases a.len() + b.len(),
{
    if a.len() == 0 {
        b
    } else if b.len() == 0 {
        a
    } else if a[0].score >= b[0].score {
        seq![a[0]].add(merge_ranked(a.drop_first(), b))
    } else {
        seq![b[0]].add(merge_ranked(a, b.drop_first()))
    }
}

/// Whether `a` goes before `b` in a merge: its score is at least as high.
fn ranks_first(a: &CompletionScore, b: &CompletionScore) -> (r: bool)
    ensures
        r == (a.score >= b.score),
{
    a.score >= b.score
}

/// Relies on `itertools::Itertools::merge_by`: it yields the head of the
/// left iterator while the predicate holds of the two heads, else the
/// head of the right one, and the rest of the other once one runs out.
#[verifier::external_body]
fn merge_by_score(left: Vec<CompletionScore>, right: Vec<CompletionScore>) -> (r: Vec<
    CompletionScore,
>)
    ensures
        r@ == merge_ranked(left@, right@),
{
    left.into_iter().merge_by(right.into_iter(), |a, b| ranks_first(a, b)).collect()
}

#[verifier::rlimit(60)]
#[verifier::spinoff_prover]
proof fn lemma_merge_sorted(a: Seq<CompletionScore>, b: Seq<CompletionScore>, mid: int)
    requires
        is_sorted_ranking(a),
        is_sorted_ranking(b),
        forall|k: int| 0 <= k < a.len() ==> (#[trigger] a[k]).index < mid,
        forall|k: int| 0 <= k < b.len() ==> (#[trigger] b[k]).index >= mid,
    ensures
        is_sorted_ranking(merge_ranked(a, b)),
        merge_ranked(a, b).len() == a.len() + b.len(),
        forall|k: int|
            0 <= k < merge_ranked(a, b).len() ==> a.contains(#[trigger] merge_ranked(a, b)[k])
                || b.contains(merge_ranked(a, b)[k]),
        forall|k: int| 0 <= k < a.len() ==> merge_ranked(a, b).contains(#[trigger] a[k]),
        forall|k: int| 0 <= k < b.len() ==> merge_ranked(a, b).contains(#[trigger] b[k]),
    decreases a.len() + b.len(),
{
    let m = merge_ranked(a, b);
    if a.len() == 0 {
    } else if b.len() == 0 {
    } else if a[0].score >= b[0].score {
        let a1 = a.drop_first();
        lemma_merge_sorted(a1, b, mid);
        let rest = merge_ranked(a1, b);
        assert(m == seq![a[0]].add(rest));
        assert forall|k: int| 0 <= k < rest.len() implies ranks_before(a[0], #[trigger] rest[k]) by {
            if a1.contains(rest[k]) {
                let j = choose|j: int| 0 <= j < a1.len() && a1[j] == rest[k];
                assert(a[j + 1] == rest[k]);
            } else {
                let j = choose|j: int| 0 <= j < b.len() && b[j] == rest[k];
                if j > 0 {
                    assert(ranks_before(b[0], b[j]));
                }
            }
        }
        assert forall|x: int, y: int| 0 <= x < y < m.len() implies ranks_before(
            #[trigger] m[x],
            #[trigger] m[y],
        ) by {
            if x > 0 {
                assert(m[x] == rest[x - 1]);
                assert(m[y] == rest[y - 1]);
            } else {
                assert(m[y] == rest[y - 1]);
            }
        }
        assert forall|k: int| 0 <= k < m.len() implies a.contains(#[trigger] m[k]) || b.contains(
            m[k],
        ) by {
            if k > 0 {
                assert(m[k] == rest[k - 1]);
                if a1.contains(rest[k - 1]) {
                    let j = choose|j: int| 0 <= j < a1.len() && a1[j] == rest[k - 1];
                    assert(a[j + 1] == rest[k - 1]);
                }
            } else {
                assert(a[0] == m[0]);
            }
        }
        assert forall|k: int| 0 <= k < a.len() implies m.contains(#[trigger] a[k]) by {
            if k > 0 {
                assert(a1[k - 1] == a[k]);
                let j = choose|j: int| 0 <= j < rest.len() && rest[j] == a1[k - 1];
                assert(m[j + 1] == a[k]);
            } else {
                assert(m[0] == a[0]);
            }
        }
        assert forall|k: int| 0 <= k < b.len() implies m.contains(#[trigger] b[k]) by {
            let j = choose|j: int| 0 <= j < rest.len() && rest[j] == b[k];
            assert(m[j + 1] == b[k]);
        }
    } else {
        let b1 = b.drop_first();
        lemma_merge_sorted(a, b1, mid);
        let rest = merge_ranked(a, b1);
        assert(m == seq![b[0]].add(rest));
        assert forall|k: int| 0 <= k < rest.len() implies ranks_before(b[0], #[trigger] rest[k]) by {
            if b1.contains(rest[k]) {
                let j = choose|j: int| 0 <= j < b1.len() && b1[j] == rest[k];
                assert(b[j + 1] == rest[k]);
            } else {
                let j = choose|j: int| 0 <= j < a.len() && a[j] == rest[k];
                if j > 0 {
                    assert(ranks_before(a[0], a[j]));
                }
            }
        }
        assert forall|x: int, y: int| 0 <= x < y < m.len() implies ranks_before(
            #[trigger] m[x],
            #[trigger] m[y],
        ) by {
            if x > 0 {
                assert(m[x] == rest[x - 1]);
                assert(m[y] == rest[y - 1]);
            } else {
                assert(m[y] == rest[y - 1]);
            }
        }
        assert forall|k: int| 0 <= k < m.len() implies a.contains(#[trigger] m[k]) || b.contains(
            m[k],
        ) by {
            if k > 0 {
                assert(m[k] == rest[k - 1]);
                if b1.contains(rest[k - 1]) {
                    let j = choose|j: int| 0 <= j < b1.len() && b1[j] == rest[k - 1];
                    assert(b[j + 1] == rest[k - 1]);
                }
            } else {
                assert(b[0] == m[0]);
            }
        }
        assert forall|k: int| 0 <= k < b.len() implies m.contains(#[trigger] b[k]) by {
            if k > 0 {
                assert(b1[k - 1] == b[k]);
                let j = choose|j: int| 0 <= j < rest.len() && rest[j] == b1[k - 1];
                assert(m[j + 1] == b[k]);
            } else {
                assert(m[0] == b[0]);
            }
        }
        assert forall|k: int| 0 <= k < a.len() implies m.contains(#[trigger] a[k]) by {
            let j = choose|j: int| 0 <= j < rest.len() && rest[j] == a[k];
            assert(m[j + 1] == a[k]);
        }
    }
}

/// A listing stays one when completions are appended after its range.
proof fn lemma_ranks_extend(
    r: Seq<CompletionScore>,
    s1: Seq<Seq<char>>,
    s2: Seq<Seq<char>>,
    query: Seq<char>,
    lo: int,
    hi: int,
)
    requires
        0 <= lo,
        ranks_range(r, s1, query, lo, hi),
        hi == s1.len(),
        hi <= s2.len(),
        s2.take(hi) == s1,
    ensures
        ranks_range(r, s2, query, lo, hi),
{
    assert forall|k: int| 0 <= k < r.len() implies entry_ok(#[trigger] r[k], s2, query, lo, hi) by {
        assert(entry_ok(r[k], s1, query, lo, hi));
        assert(s1[r[k].index as int] == s2[r[k].index as int]);
    }
    assert forall|i: int|
        lo <= i < hi && i < s2.len() && rankable(#[trigger] s2[i], query) implies exists|k: int|
        0 <= k < r.len() && (#[trigger] r[k]).index == i by {
        assert(s1[i] == s2[i]);
    }
}

/// Merging the listing of `[lo, mid)` with that of `[mid, hi)` gives the
/// listing of `[lo, hi)`.
proof fn lemma_merge_ranges(
    a: Seq<CompletionScore>,
    b: Seq<CompletionScore>,
    searches: Seq<Seq<char>>,
    query: Seq<char>,
    lo: int,
    mid: int,
    hi: int,
)
    requires
        lo <= mid <= hi,
        ranks_range(a, searches, query, lo, mid),
        ranks_range(b, searches, query, mid, hi),
    ensures
        ranks_range(merge_ranked(a, b), searches, query, lo, hi),
        merge_ranked(a, b).len() == a.len() + b.len(),
{
    assert forall|k: int| 0 <= k < a.len() implies (#[trigger] a[k]).index < mid by {
        assert(entry_ok(a[k], searches, query, lo, mid));
    }
    assert forall|k: int| 0 <= k < b.len() implies (#[trigger] b[k]).index >= mid by {
        assert(entry_ok(b[k], searches, query, mid, hi));
    }
    lemma_merge_sorted(a, b, mid);
    let m = merge_ranked(a, b);
    assert forall|k: int| 0 <= k < m.len() implies entry_ok(#[trigger] m[k], searches, query, lo, hi) by {
        if a.contains(m[k]) {
            let j = choose|j: int| 0 <= j < a.len() && a[j] == m[k];
            assert(entry_ok(a[j], searches, query, lo, mid));
        } else {
            let j = choose|j: int| 0 <= j < b.len() && b[j] == m[k];
            assert(entry_ok(b[j], searches, query, mid, hi));
        }
    }
    assert forall|i: int|
        lo <= i < hi && i < searches.len() && rankable(#[trigger] searches[i], query) implies exists|
        k: int,
    |
        0 <= k < m.len() && (#[trigger] m[k]).index == i by {
        if i < mid {
            let j = choose|j: int| 0 <= j < a.len() && (#[trigger] a[j]).index == i;
            assert(m.contains(a[j]));
        } else {
            let j = choose|j: int| 0 <= j < b.len() && (#[trigger] b[j]).index == i;
            assert(m.contains(b[j]));
        }
    }
}

/// Whether a selection and a view offset are in order for a listing of
/// `len` completions: the selection is on the page that starts at the
/// offset, and on a listed completion where there is one.
pub open spec fn nav_ok(selection: int, view_offset: int, len: int) -> bool {
    &&& 0 <= view_offset <= selection
    &&& len == 0 ==> selection == 0
    &&& len > 0 ==> selection < len && selection < view_offset + CHOOSER_HEIGHT
}

/// `a - b`, or 0 where `b` exceeds `a`.
pub open spec fn sat_sub(a: int, b: int) -> int {
    if a >= b {
        a - b
    } else {
        0
    }
}

/// The least of `a` and `b`.
pub open spec fn min_int(a: int, b: int) -> int {
    if a <= b {
        a
    } else {
        b
    }
}

/// One level of completion: a completer, the completions it delivered so
/// far, and their listing for the level's query.
pub struct CompleterView<T, C> {
    /// The completer which provides the completions of this level.
    completer: C,
    /// The index of the first listed completion that is shown.
    view_offset: usize,
    /// The index of the selected completion in the listing.
    selection: usize,
    /// The query of this level.
    query: String,
    /// All completions fetched so far, in order of arrival.
    all_completions: Vec<T>,
    /// The search strings of `all_completions`, in the same order.
    search_strings: Vec<String>,
    /// The completions that match the query, best first.
    scored_completions: Vec<CompletionScore>,
}

impl<T: Completion, C: Completer<T>> CompleterView<T, C> {
    /// The completer of this level.
    pub closed spec fn completer_view(&self) -> C {
        self.completer
    }

    /// All completions fetched so far, in order of arrival.
    pub closed spec fn items(&self) -> Seq<T> {
        self.all_completions@
    }

    /// The search strings of the completions, in order of arrival.
    pub closed spec fn searches(&self) -> Seq<Seq<char>> {
        self.search_strings@.map_values(|s: String| s@)
    }

    /// The listing: matching completions with their scores, best first.
    pub closed spec fn ranked(&self) -> Seq<CompletionScore> {
        self.scored_completions@
    }

    /// The query of this level.
    pub closed spec fn query_view(&self) -> Seq<char> {
        self.query@
    }

    /// The index of the selected completion in the listing.
    pub closed spec fn selection_view(&self) -> int {
        self.selection as int
    }

    /// The index of the first listed completion that is shown.
    pub closed spec fn offset_view(&self) -> int {
        self.view_offset as int
    }

    /// Each completion's search string is recorded, the listing is that of
    /// all completions for the query, and the selection lies on it.
    pub open spec fn wf(&self) -> bool {
        &&& self.searches().len() == self.items().len()
        &&& forall|i: int| 0 <= i < self.items().len() ==> #[trigger] self.searches()[i] == self.items()[i].search_view()
        &&& ranks_range(self.ranked(), self.searches(), self.query_view(), 0, self.items().len() as int)
        &&& nav_ok(self.selection_view(), self.offset_view(), self.ranked().len() as int)
    }

    /// `self` is `old` after appending `batch`: the completions and search
    /// strings so far are kept, query, selection and offset too, and the
    /// listing is the old one merged with the listing of the batch.
    pub open spec fn absorbed(&self, old: &Self, batch: Seq<T>) -> bool {
        &&& self.items() == old.items() + batch
        &&& self.searches().take(old.items().len() as int) == old.searches()
        &&& self.query_view() == old.query_view()
        &&& self.selection_view() == old.selection_view()
        &&& self.offset_view() == old.offset_view()
        &&& exists|fresh: Seq<CompletionScore>|
            {
                &&& ranks_range(
                    fresh,
                    self.searches(),
                    self.query_view(),
                    old.items().len() as int,
                    self.items().len() as int,
                )
                &&& self.ranked() == merge_ranked(old.ranked(), fresh)
            }
    }

    /// Creates the level of `completer`, with no completions yet and an
    /// empty query.
    pub fn new(completer: C) -> (r: Self)
        ensures
            r.wf(),
            r.completer_view() == completer,
            r.items().len() == 0,
            r.ranked().len() == 0,
            r.query_view().len() == 0,
            r.selection_view() == 0,
            r.offset_view() == 0,
    {
        let r = CompleterView {
            completer: completer,
            view_offset: 0,
            selection: 0,
            query: String::new(),
            all_completions: Vec::new(),
            search_strings: Vec::new(),
            scored_completions: Vec::new(),
        };
        assert(r.searches().len() == 0);
        r
    }

    /// Returns the listing, for the query, of the completions with an index
    /// in `[lo, hi)`.
    fn rank_range(&self, lo: usize, hi: usize) -> (r: Vec<CompletionScore>)
        requires
            lo <= hi <= self.search_strings.len(),
        ensures
            ranks_range(r@, self.searches(), self.query@, lo as int, hi as int),
        decreases hi - lo,
    {
        if hi - lo == 0 {
            Vec::new()
        } else if hi - lo == 1 {
            let mut r: Vec<CompletionScore> = Vec::new();
            let search = self.search_strings[lo].as_str();
            let query = self.query.as_str();
            assert(self.searches()[lo as int] == search@);
            if subsequence_match(query, search) && table_fits(query, search) {
                let settings = make_view_settings();
                r.push(CompletionScore { index: lo, score: score(search, query, &settings) });
                assert(r@[0].index == lo);
            }
            r
        } else {
            let mid = lo + (hi - lo) / 2;
            let left = self.rank_range(lo, mid);
            let right = self.rank_range(mid, hi);
            proof {
                lemma_merge_ranges(
                    left@,
                    right@,
                    self.searches(),
                    self.query@,
                    lo as int,
                    mid as int,
                    hi as int,
                );
            }
            merge_by_score(left, right)
        }
    }

    /// `self` is `old` after one fetch: its completer made one fetch and
    /// the view absorbed the batch it returned, which was empty where the
    /// completer had finished.
    pub open spec fn fetched_from(&self, old: &Self) -> bool {
        exists|batch: Vec<T>|
            {
                &&& #[trigger] old.completer_view().fetches(self.completer_view(), batch)
                &&& self.absorbed(old, batch@)
                &&& old.completer_view().finished() ==> batch.len() == 0
                    && self.completer_view().finished()
            }
    }

    /// `self` is a level just made for `c` that has fetched once: whatever
    /// came is listed for the empty query, with the first one selected;
    /// where `c` had finished, nothing came and it stays finished.
    pub open spec fn opened_from(&self, c: C) -> bool {
        &&& self.wf()
        &&& self.query_view().len() == 0
        &&& self.selection_view() == 0
        &&& self.offset_view() == 0
        &&& c.finished() ==> self.items().len() == 0 && self.completer_view().finished()
    }

    /// Makes the level of `completer` and has it fetch once.
    pub fn open_level(completer: C) -> (r: Self)
        ensures
            r.opened_from(completer),
    {
        let ghost c = completer;
        let mut level = CompleterView::new(completer);
        level.fetch_completions();
        level
    }

    /// `self` and `other` hold the same completer, completions, query and
    /// listing.
    pub open spec fn same_content(&self, other: &Self) -> bool {
        &&& self.completer_view() == other.completer_view()
        &&& self.items() == other.items()
        &&& self.searches() == other.searches()
        &&& self.ranked() == other.ranked()
        &&& self.query_view() == other.query_view()
    }

    /// The selected completion, where something is listed.
    pub open spec fn selected_item(&self) -> T {
        self.items()[self.ranked()[self.selection_view()].index as int]
    }

    /// Returns the selected completion, or `None` where nothing is listed.
    pub fn selected_completion(&self) -> (r: Option<&T>)
        requires
            self.wf(),
        ensures
            r is Some <==> self.ranked().len() > 0,
            r is Some ==> *r->0 == self.items()[self.ranked()[self.selection_view()].index as int],
    {
        if self.selection < self.scored_completions.len() {
            let index = self.scored_completions[self.selection].index;
            assert(entry_ok(
                self.ranked()[self.selection as int],
                self.searches(),
                self.query@,
                0,
                self.search_strings.len() as int,
            ));
            Some(&self.all_completions[index])
        } else {
            None
        }
    }

    /// Moves the selection one completion up.
    pub fn select_previous(&mut self)
        requires
            old(self).wf(),
        ensures
            final(self).wf(),
            final(self).same_content(old(self)),
            final(self).selection_view() == sat_sub(old(self).selection_view(), 1),
            final(self).offset_view() == if final(self).selection_view() < old(self).offset_view() {
                old(self).offset_view() - 1
            } else {
                old(self).offset_view()
            },
    {
        self.selection = self.selection.saturating_sub(1);
        if self.selection < self.view_offset {
            self.view_offset = self.view_offset - 1;
        }
    }

    /// Moves the selection one completion down, where there is one.
    pub fn select_next(&mut self)
        requires
            old(self).wf(),
        ensures
            final(self).wf(),
            final(self).same_content(old(self)),
            final(self).selection_view() == min_int(
                old(self).selection_view() + 1,
                sat_sub(old(self).ranked().len() as int, 1),
            ),
            final(self).offset_view() == if final(self).selection_view() >= old(self).offset_view()
                + CHOOSER_HEIGHT {
                old(self).offset_view() + 1
            } else {
                old(self).offset_view()
            },
    {
        let completions_count = self.scored_completions.len();
        let last = completions_count.saturating_sub(1);
        self.selection = if self.selection + 1 <= last {
            self.selection + 1
        } else {
            last
        };
        if self.selection - self.view_offset >= CHOOSER_HEIGHT {
            self.view_offset = self.view_offset + 1;
        }
    }

    /// Moves the selection one page up, or to the top.
    pub fn previous_page(&mut self)
        requires
            old(self).wf(),
        ensures
            final(self).wf(),
            final(self).same_content(old(self)),
            final(self).selection_view() == sat_sub(old(self).selection_view(), CHOOSER_HEIGHT as int),
            final(self).offset_view() == if final(self).selection_view() < old(self).offset_view() {
                final(self).selection_view()
            } else {
                old(self).offset_view()
            },
    {
        self.selection = self.selection.saturating_sub(CHOOSER_HEIGHT);
        if self.selection < self.view_offset {
            self.view_offset = self.selection;
        }
    }

    /// Moves the selection one page down, or to the last completion.
    pub fn next_page(&mut self)
        requires
            old(self).wf(),
        ensures
            final(self).wf(),
            final(self).same_content(old(self)),
            final(self).selection_view() == min_int(
                old(self).selection_view() + CHOOSER_HEIGHT,
                sat_sub(old(self).ranked().len() as int, 1),
            ),
            final(self).offset_view() == if final(self).selection_view() >= old(self).offset_view()
                + CHOOSER_HEIGHT {
                sat_sub(final(self).selection_view(), CHOOSER_HEIGHT - 1)
            } else {
                old(self).offset_view()
            },
    {
        let completions_count = self.scored_completions.len();
        let last = completions_count.saturating_sub(1);
        let ahead = self.selection.saturating_add(CHOOSER_HEIGHT);
        self.selection = if ahead <= last {
            ahead
        } else {
            last
        };
        if self.selection - self.view_offset >= CHOOSER_HEIGHT {
            self.view_offset = self.selection.saturating_sub(CHOOSER_HEIGHT - 1);
        }
    }

    /// Selects the first completion.
    pub fn select_first(&mut self)
        requires
            old(self).wf(),
        ensures
            final(self).wf(),
            final(self).same_content(old(self)),
            final(self).selection_view() == 0,
            final(self).offset_view() == 0,
    {
        self.selection = 0;
        self.view_offset = 0;
    }

    /// Selects the last completion, showing the page that ends with it.
    pub fn select_last(&mut self)
        requires
            old(self).wf(),
        ensures
            final(self).wf(),
            final(self).same_content(old(self)),
            final(self).selection_view() == sat_sub(old(self).ranked().len() as int, 1),
            final(self).offset_view() == sat_sub(final(self).selection_view(), CHOOSER_HEIGHT - 1),
    {
        let completions_count = self.scored_completions.len();
        self.selection = completions_count.saturating_sub(1);
        self.view_offset = self.selection.saturating_sub(CHOOSER_HEIGHT - 1);
    }

    /// Replaces the query and lists all completions anew for it, selecting
    /// the first.
    pub fn update_query(&mut self, new_query: String)
        requires
            old(self).wf(),
        ensures
            final(self).wf(),
            final(self).completer_view() == old(self).completer_view(),
            final(self).items() == old(self).items(),
            final(self).searches() == old(self).searches(),
            final(self).query_view() == new_query@,
            final(self).selection_view() == 0,
            final(self).offset_view() == 0,
    {
        self.selection = 0;
        self.view_offset = 0;
        self.query = new_query;
        self.scored_completions = self.scores(0);
    }

    /// Appends `batch` to the completions and merges its listing, for the
    /// query, into the listing so far; of equal scores, the earlier
    /// completions stay first.
    pub fn absorb(&mut self, batch: Vec<T>)
        requires
            old(self).wf(),
        ensures
            final(self).wf(),
            final(self).absorbed(old(self), batch@),
            final(self).completer_view() == old(self).completer_view(),
    {
        let ghost old_searches = self.searches();
        let ghost old_ranked = self.ranked();
        let mut new_completions = batch;
        let score_start_index = self.all_completions.len();
        let batch_len = new_completions.len();
        for i in 0..batch_len
            invariant
                batch_len == new_completions.len(),
                new_completions@ == batch@,
                score_start_index == self.all_completions.len(),
                self.search_strings.len() == score_start_index + i,
                self.searches().take(score_start_index as int) == old_searches,
                old_searches.len() == score_start_index,
                self.scored_completions@ == old_ranked,
                self.query@ == old(self).query@,
                self.selection == old(self).selection,
                self.view_offset == old(self).view_offset,
                self.completer == old(self).completer,
                self.all_completions@ == old(self).all_completions@,
                ranks_range(old_ranked, old_searches, self.query@, 0, score_start_index as int),
                nav_ok(self.selection as int, self.view_offset as int, old_ranked.len() as int),
                forall|k: int| 0 <= k < score_start_index + i ==> #[trigger] self.searches()[k] == (old(self).items() + batch@)[k].search_view(),
        {
            let search = new_completions[i].search_string();
            let ghost prev = self.searches();
            self.search_strings.push(search);
            proof {
                assert(self.searches().take(score_start_index as int) =~= old_searches);
                assert(self.searches() =~= prev.push(search@));
                assert((old(self).items() + batch@)[score_start_index + i] == batch@[i as int]);
            }
        }
        self.all_completions.append(&mut new_completions);
        proof {
            lemma_ranks_extend(old_ranked, old_searches, self.searches(), self.query@, 0, score_start_index as int);
        }
        let new_scores = self.scores(score_start_index);
        let mut existing: Vec<CompletionScore> = Vec::new();
        std::mem::swap(&mut existing, &mut self.scored_completions);
        proof {
            lemma_merge_ranges(
                existing@,
                new_scores@,
                self.searches(),
                self.query@,
                0,
                score_start_index as int,
                self.search_strings.len() as int,
            );
        }
        self.scored_completions = merge_by_score(existing, new_scores);
        assert(self.ranked() == merge_ranked(old(self).ranked(), new_scores@));
    }

    /// Asks the completer for its next batch of completions and absorbs
    /// it; once the completer has finished, the batch is empty.
    pub fn fetch_completions(&mut self)
        requires
            old(self).wf(),
        ensures
            final(self).wf(),
            final(self).fetched_from(old(self)),
    {
        let batch = self.completer.fetch_completions();
        let ghost b = batch;
        self.absorb(batch);
        assert(old(self).completer_view().fetches(self.completer_view(), b));
    }

    /// Returns the listed completion at `index`, with its score.
    pub fn completion_at(&self, index: usize) -> (r: (&T, Score))
        requires
            self.wf(),
            index < self.ranked().len(),
        ensures
            *r.0 == self.items()[self.ranked()[index as int].index as int],
            r.1 == self.ranked()[index as int].score,
    {
        let sc = self.scored_completions[index];
        assert(entry_ok(
            self.ranked()[index as int],
            self.searches(),
            self.query@,
            0,
            self.search_strings.len() as int,
        ));
        (&self.all_completions[sc.index], sc.score)
    }

    /// Returns the query of this level.
    pub fn query(&self) -> (r: String)
        ensures
            r@ == self.query_view(),
    {
        self.query.clone()
    }

    /// Returns the index of the selected completion in the listing.
    pub fn selection(&self) -> (r: usize)
        ensures
            r == self.selection_view(),
    {
        self.selection
    }

    /// Returns the index of the first shown completion in the listing.
    pub fn view_offset(&self) -> (r: usize)
        ensures
            r == self.offset_view(),
    {
        self.view_offset
    }

    /// Returns the completer of this level.
    pub fn completer(&self) -> (r: &C)
        ensures
            *r == self.completer_view(),
    {
        &self.completer
    }

    /// Returns the number of listed completions.
    pub fn completions_count(&self) -> (r: usize)
        ensures
            r == self.ranked().len(),
    {
        self.scored_completions.len()
    }

    /// Returns the listing, for the query, of the completions from index
    /// `score_start_index` on.
    fn scores(&self, score_start_index: usize) -> (r: Vec<CompletionScore>)
        requires
            score_start_index <= self.search_strings.len(),
        ensures
            ranks_range(
                r@,
                self.searches(),
                self.query@,
                score_start_index as int,
                self.search_strings.len() as int,
            ),
    {
        self.rank_range(score_start_index, self.search_strings.len())
    }
}

/// The levels of one tab: the level that was first opened, then each
/// level descended into from the one before. It is never empty; its last
/// level is the active one.
pub struct CompleterStack<T, C> {
    stack: Vec<CompleterView<T, C>>,
}

impl<T: Completion, C: Completer<T>> CompleterStack<T, C> {
    /// The levels, the active one last.
    pub closed spec fn levels(&self) -> Seq<CompleterView<T, C>> {
        self.stack@
    }

    /// The stack is not empty and each of its levels is well formed.
    pub open spec fn wf(&self) -> bool {
        &&& self.levels().len() > 0
        &&& forall|i: int| 0 <= i < self.levels().len() ==> (#[trigger] self.levels()[i]).wf()
    }

    /// The active level.
    pub open spec fn active(&self) -> CompleterView<T, C> {
        self.levels().last()
    }

    /// Creates a stack with the single level of `completer`.
    pub fn new(completer: C) -> (r: Self)
        ensures
            r.wf(),
            r.levels().len() == 1,
            r.active().completer_view() == completer,
            r.active().items().len() == 0,
            r.active().ranked().len() == 0,
            r.active().query_view().len() == 0,
            r.active().selection_view() == 0,
            r.active().offset_view() == 0,
    {
        CompleterStack { stack: vec![CompleterView::new(completer)] }
    }

    /// Returns the number of levels.
    pub fn depth(&self) -> (r: usize)
        ensures
            r == self.levels().len(),
    {
        self.stack.len()
    }

    /// Returns the active level.
    pub fn top(&self) -> (r: &CompleterView<T, C>)
        requires
            self.wf(),
        ensures
            *r == self.active(),
            r.wf(),
    {
        &self.stack[self.stack.len() - 1]
    }

    /// Returns the active level for change.
    pub fn top_mut(&mut self) -> (r: &mut CompleterView<T, C>)
        requires
            old(self).wf(),
        ensures
            *r == old(self).active(),
            r.wf(),
            final(self).levels() == old(self).levels().update(
                old(self).levels().len() - 1,
                *final(r),
            ),
    {
        let n = self.stack.len();
        &mut self.stack[n - 1]
    }

    /// Has the active level fetch once.
    fn fetch_top(&mut self)
        requires
            old(self).wf(),
        ensures
            final(self).wf(),
            final(self).levels().len() == old(self).levels().len(),
            final(self).levels().drop_last() == old(self).levels().drop_last(),
            final(self).active().fetched_from(&old(self).active()),
    {
        let n = self.stack.len();
        self.stack[n - 1].fetch_completions();
        proof {
            assert(self.stack@.drop_last() =~= old(self).stack@.drop_last());
        }
    }

    /// Pushes a fetched level of `next`, where there is one, as the active
    /// level. Returns whether it did.
    pub fn push_level(&mut self, next: Option<C>) -> (r: bool)
        requires
            old(self).wf(),
        ensures
            final(self).wf(),
            r == next is Some,
            next is None ==> *final(self) == *old(self),
            next is Some ==> {
                &&& final(self).levels().len() == old(self).levels().len() + 1
                &&& final(self).levels().drop_last() == old(self).levels()
                &&& final(self).active().opened_from(next->0)
            },
    {
        match next {
            Some(completer) => {
                let new_level = CompleterView::open_level(completer);
                self.stack.push(new_level);
                proof {
                    assert(self.stack@.drop_last() == old(self).stack@);
                }
                true
            },
            None => false,
        }
    }

    /// Puts a fetched level of `up`, where there is one, in place of the
    /// only level.
    pub fn replace_root(&mut self, up: Option<C>)
        requires
            old(self).wf(),
            old(self).levels().len() == 1,
        ensures
            final(self).wf(),
            up is None ==> *final(self) == *old(self),
            up is Some ==> final(self).levels().len() == 1 && final(self).active().opened_from(
                up->0,
            ),
    {
        match up {
            Some(completer) => {
                let new_level = CompleterView::open_level(completer);
                self.stack.set(0, new_level);
            },
            None => {},
        }
    }

    /// Descends into the selected completion of the active level, where
    /// there is one and its completer can descend into it: the new level
    /// fetches once and becomes the active one. Returns whether it did.
    pub fn descend(&mut self) -> (r: bool)
        requires
            old(self).wf(),
        ensures
            final(self).wf(),
            old(self).active().ranked().len() == 0 ==> !r,
            old(self).active().ranked().len() > 0 ==> exists|next: Option<C>|
                {
                    &&& old(self).active().completer_view().descends_to(
                        old(self).active().selected_item(),
                        next,
                    )
                    &&& r == next is Some
                    &&& next is Some ==> final(self).active().opened_from(next->0)
                },
            r ==> final(self).levels().len() == old(self).levels().len() + 1,
            r ==> final(self).levels().drop_last() == old(self).levels(),
            !r ==> *final(self) == *old(self),
    {
        let n = self.stack.len();
        let ghost top = self.stack@[n - 1];
        let descended = match self.stack[n - 1].selected_completion() {
            Some(selected) => {
                let d = self.stack[n - 1].completer.descend(selected);
                assert(top.completer.descends_to(top.selected_item(), d));
                d
            },
            None => None,
        };
        let ghost next = descended;
        let r = self.push_level(descended);
        proof {
            if old(self).active().ranked().len() > 0 {
                assert(old(self).active() == top);
                assert(top.completer_view().descends_to(top.selected_item(), next));
                assert(r == next is Some);
            }
        }
        r
    }

    /// Ascends: leaves the active level where there is a level below it;
    /// else puts in its place a fetched level of the completer above,
    /// where its completer has one, and otherwise changes nothing.
    pub fn ascend(&mut self)
        requires
            old(self).wf(),
        ensures
            final(self).wf(),
            old(self).levels().len() > 1 ==> final(self).levels() == old(self).levels().drop_last(),
            old(self).levels().len() == 1 ==> exists|up: Option<C>|
                {
                    &&& old(self).active().completer_view().ascends_to(up)
                    &&& up is None ==> *final(self) == *old(self)
                    &&& up is Some ==> final(self).levels().len() == 1 && final(self).active().opened_from(up->0)
                },
    {
        if self.stack.len() == 1 {
            let ghost top = self.stack@[0];
            let up = self.stack[0].completer.ascend();
            let ghost u = up;
            self.replace_root(up);
            proof {
                assert(old(self).active() == top);
                assert(top.completer_view().ascends_to(u));
            }
        } else {
            self.stack.pop();
        }
    }
}

/// Relies on `String::push`: appends `ch` to `s`.
#[verifier::external_body]
pub(crate) fn string_push(s: &mut String, ch: char)
    ensures
        final(s)@ == old(s)@.push(ch),
{
    s.push(ch)
}

/// Relies on `String::pop`: removes and returns the last character of
/// `s`, or returns `None` and keeps `s` where it is empty.
#[verifier::external_body]
fn string_pop(s: &mut String) -> (r: Option<char>)
    ensures
        old(s)@.len() > 0 ==> r == Some(old(s)@.last()) && final(s)@ == old(s)@.drop_last(),
        old(s)@.len() == 0 ==> r is None && final(s)@ == old(s)@,
{
    s.pop()
}

/// The state of a completion session: one stack of levels per tab, the
/// index of the active tab, and the query typed so far.
pub struct Model<T, C> {
    /// The tabs (stacks of completers).
    stacks: Vec<CompleterStack<T, C>>,
    /// The index of the active tab.
    selection: usize,
    /// The current query.
    query: String,
}

impl<T: Completion, C: Completer<T>> Model<T, C> {
    /// The tabs.
    pub closed spec fn tabs(&self) -> Seq<CompleterStack<T, C>> {
        self.stacks@
    }

    /// The index of the active tab.
    pub closed spec fn tab_view(&self) -> int {
        self.selection as int
    }

    /// The query typed so far.
    pub closed spec fn query_view(&self) -> Seq<char> {
        self.query@
    }

    /// There is a tab, the active one among them, and each is well formed.
    pub open spec fn wf(&self) -> bool {
        &&& self.tabs().len() > 0
        &&& 0 <= self.tab_view() < self.tabs().len()
        &&& forall|i: int| 0 <= i < self.tabs().len() ==> (#[trigger] self.tabs()[i]).wf()
    }

    /// The active level of the active tab.
    pub open spec fn current(&self) -> CompleterView<T, C> {
        self.tabs()[self.tab_view()].active()
    }

    /// `self` differs from `other` at most in the active level of the
    /// active tab, and has the same query.
    pub open spec fn only_current_changed(&self, other: &Self) -> bool {
        &&& self.query_view() == other.query_view()
        &&& self.only_current_level_changed(other)
    }

    /// `self` differs from `other` at most in the query and in the active
    /// level of the active tab.
    pub open spec fn only_current_level_changed(&self, other: &Self) -> bool {
        &&& self.tab_view() == other.tab_view()
        &&& self.tabs().len() == other.tabs().len()
        &&& forall|i: int|
            0 <= i < self.tabs().len() && i != self.tab_view() ==> #[trigger] self.tabs()[i]
                == other.tabs()[i]
        &&& self.tabs()[self.tab_view()].levels().drop_last() == other.tabs()[
            other.tab_view()
        ].levels().drop_last()
        &&& self.tabs()[self.tab_view()].levels().len() == other.tabs()[
            other.tab_view()
        ].levels().len()
    }

    /// Creates a session with one tab for each of `completers`, in order;
    /// the first is active and the query is empty.
    pub fn new(completers: Vec<C>) -> (r: Self)
        requires
            completers.len() > 0,
        ensures
            r.wf(),
            r.tabs().len() == completers.len(),
            r.tab_view() == 0,
            r.query_view().len() == 0,
            forall|i: int|
                0 <= i < completers.len() ==> {
                    &&& (#[trigger] r.tabs()[i]).levels().len() == 1
                    &&& r.tabs()[i].active().completer_view() == completers[i]
                    &&& r.tabs()[i].active().items().len() == 0
                    &&& r.tabs()[i].active().ranked().len() == 0
                    &&& r.tabs()[i].active().query_view().len() == 0
                    &&& r.tabs()[i].active().selection_view() == 0
                    &&& r.tabs()[i].active().offset_view() == 0
                },
    {
        let mut stacks: Vec<CompleterStack<T, C>> = Vec::new();
        for c in it: completers
            invariant
                stacks.len() == it.index(),
                it.seq() == completers@,
                forall|i: int|
                    0 <= i < stacks.len() ==> {
                        &&& (#[trigger] stacks@[i]).wf()
                        &&& stacks@[i].levels().len() == 1
                        &&& stacks@[i].active().completer_view() == completers@[i]
                        &&& stacks@[i].active().items().len() == 0
                        &&& stacks@[i].active().ranked().len() == 0
                        &&& stacks@[i].active().query_view().len() == 0
                        &&& stacks@[i].active().selection_view() == 0
                        &&& stacks@[i].active().offset_view() == 0
                    },
        {
            stacks.push(CompleterStack::new(c));
        }
        Model { stacks: stacks, selection: 0, query: String::new() }
    }

    fn current_stack(&self) -> (r: &CompleterStack<T, C>)
        requires
            self.wf(),
        ensures
            *r == self.tabs()[self.tab_view()],
            r.wf(),
    {
        &self.stacks[self.selection]
    }

    fn current_stack_mut(&mut self) -> (r: &mut CompleterStack<T, C>)
        requires
            old(self).wf(),
        ensures
            *r == old(self).tabs()[old(self).tab_view()],
            r.wf(),
            final(self).tabs() == old(self).tabs().update(old(self).tab_view(), *final(r)),
            final(self).tab_view() == old(self).tab_view(),
            final(self).query_view() == old(self).query_view(),
    {
        let i = self.selection;
        &mut self.stacks[i]
    }

    fn current_view(&self) -> (r: &CompleterView<T, C>)
        requires
            self.wf(),
        ensures
            *r == self.current(),
            r.wf(),
    {
        self.current_stack().top()
    }

    fn current_view_mut(&mut self) -> (r: &mut CompleterView<T, C>)
        requires
            old(self).wf(),
        ensures
            *r == old(self).current(),
            r.wf(),
            final(self).tabs().len() == old(self).tabs().len(),
            final(self).tab_view() == old(self).tab_view(),
            final(self).query_view() == old(self).query_view(),
            forall|i: int|
                0 <= i < old(self).tabs().len() && i != old(self).tab_view() ==> #[trigger] final(self).tabs()[i] == old(self).tabs()[i],
            final(self).tabs()[old(self).tab_view()].levels() == old(self).tabs()[old(self).tab_view()].levels().update(
                old(self).tabs()[old(self).tab_view()].levels().len() - 1,
                *final(r),
            ),
            final(self).tabs()[old(self).tab_view()].levels().drop_last() == old(self).tabs()[old(self).tab_view()].levels().drop_last(),
            final(self).tabs()[old(self).tab_view()].levels().len() == old(self).tabs()[old(self).tab_view()].levels().len(),
            final(self).current() == *final(r),
    {
        let r = self.current_stack_mut().top_mut();
        proof {
            let ghost l = old(self).tabs()[old(self).tab_view()].levels();
            assert(l.update(l.len() - 1, *final(r)).drop_last() =~= l.drop_last());
        }
        r
    }

    /// Returns the name of the active completer.
    pub fn completer_name(&self) -> (r: String)
        requires
            self.wf(),
        ensures
            self.current().completer_view().names(r),
    {
        self.current_view().completer.name()
    }

    /// Returns the listed completion at `index` in the active level, with
    /// its score.
    pub fn completion_at(&self, index: usize) -> (r: (&T, Score))
        requires
            self.wf(),
            index < self.current().ranked().len(),
        ensures
            *r.0 == self.current().items()[self.current().ranked()[index as int].index as int],
            r.1 == self.current().ranked()[index as int].score,
    {
        self.current_view().completion_at(index)
    }

    /// Returns the number of completions listed in the active level.
    pub fn completions_count(&self) -> (r: usize)
        requires
            self.wf(),
        ensures
            r == self.current().ranked().len(),
    {
        self.current_view().completions_count()
    }

    /// Returns the result string of the selected completion of the active
    /// level, or `None` where nothing is listed.
    pub fn get_selected_result(&self) -> (r: Option<String>)
        requires
            self.wf(),
        ensures
            r is Some <==> self.current().ranked().len() > 0,
            r is Some ==> r->0@ == self.current().selected_item().result_view(),
    {
        match self.current_view().selected_completion() {
            Some(c) => Some(c.result_string()),
            None => None,
        }
    }

    /// Returns the index of the first shown completion of the active level.
    pub fn view_offset(&self) -> (r: usize)
        requires
            self.wf(),
        ensures
            r == self.current().offset_view(),
    {
        self.current_view().view_offset
    }

    /// Returns the index of the selected completion of the active level.
    pub fn selection(&self) -> (r: usize)
        requires
            self.wf(),
        ensures
            r == self.current().selection_view(),
    {
        self.current_view().selection
    }

    /// Moves the selection of the active level one completion up.
    pub fn select_previous(&mut self)
        requires
            old(self).wf(),
        ensures
            final(self).wf(),
            final(self).only_current_changed(old(self)),
            final(self).current().same_content(&old(self).current()),
            final(self).current().selection_view() == sat_sub(old(self).current().selection_view(), 1),
            final(self).current().offset_view() == if final(self).current().selection_view() < old(self).current().offset_view() {
                old(self).current().offset_view() - 1
            } else {
                old(self).current().offset_view()
            },
    {
        self.current_view_mut().select_previous();
    }

    /// Moves the selection of the active level one completion down.
    pub fn select_next(&mut self)
        requires
            old(self).wf(),
        ensures
            final(self).wf(),
            final(self).only_current_changed(old(self)),
            final(self).current().same_content(&old(self).current()),
            final(self).current().selection_view() == min_int(old(self).current().selection_view() + 1, sat_sub(old(self).current().ranked().len() as int, 1)),
            final(self).current().offset_view() == if final(self).current().selection_view() >= old(self).current().offset_view() + CHOOSER_HEIGHT {
                old(self).current().offset_view() + 1
            } else {
                old(self).current().offset_view()
            },
    {
        self.current_view_mut().select_next();
    }

    /// Moves the selection of the active level one page up.
    pub fn previous_page(&mut self)
        requires
            old(self).wf(),
        ensures
            final(self).wf(),
            final(self).only_current_changed(old(self)),
            final(self).current().same_content(&old(self).current()),
            final(self).current().selection_view() == sat_sub(old(self).current().selection_view(), CHOOSER_HEIGHT as int),
            final(self).current().offset_view() == if final(self).current().selection_view() < old(self).current().offset_view() {
                final(self).current().selection_view()
            } else {
                old(self).current().offset_view()
            },
    {
        self.current_view_mut().previous_page();
    }

    /// Moves the selection of the active level one page down.
    pub fn next_page(&mut self)
        requires
            old(self).wf(),
        ensures
            final(self).wf(),
            final(self).only_current_changed(old(self)),
            final(self).current().same_content(&old(self).current()),
            final(self).current().selection_view() == min_int(old(self).current().selection_view() + CHOOSER_HEIGHT, sat_sub(old(self).current().ranked().len() as int, 1)),
            final(self).current().offset_view() == if final(self).current().selection_view() >= old(self).current().offset_view() + CHOOSER_HEIGHT {
                sat_sub(final(self).current().selection_view(), CHOOSER_HEIGHT - 1)
            } else {
                old(self).current().offset_view()
            },
    {
        self.current_view_mut().next_page();
    }

    /// Selects the first completion of the active level.
    pub fn select_first(&mut self)
        requires
            old(self).wf(),
        ensures
            final(self).wf(),
            final(self).only_current_changed(old(self)),
            final(self).current().same_content(&old(self).current()),
            final(self).current().selection_view() == 0,
            final(self).current().offset_view() == 0,
    {
        self.current_view_mut().select_first();
    }

    /// Selects the last completion of the active level.
    pub fn select_last(&mut self)
        requires
            old(self).wf(),
        ensures
            final(self).wf(),
            final(self).only_current_changed(old(self)),
            final(self).current().same_content(&old(self).current()),
            final(self).current().selection_view() == sat_sub(old(self).current().ranked().len() as int, 1),
            final(self).current().offset_view() == sat_sub(final(self).current().selection_view(), CHOOSER_HEIGHT - 1),
    {
        self.current_view_mut().select_last();
    }

    /// Hands the query to the active level, which lists its completions
    /// anew for it.
    fn update_query(&mut self)
        requires
            old(self).wf(),
        ensures
            final(self).wf(),
            final(self).only_current_changed(old(self)),
            final(self).current().completer_view() == old(self).current().completer_view(),
            final(self).current().items() == old(self).current().items(),
            final(self).current().searches() == old(self).current().searches(),
            final(self).current().query_view() == old(self).query_view(),
            final(self).current().selection_view() == 0,
            final(self).current().offset_view() == 0,
    {
        let query: String = self.query.clone();
        self.current_view_mut().update_query(query);
    }

    /// Removes the last character of the query, if any.
    pub fn query_backspace(&mut self)
        requires
            old(self).wf(),
        ensures
            final(self).wf(),
            final(self).query_view() == if old(self).query_view().len() > 0 {
                old(self).query_view().drop_last()
            } else {
                old(self).query_view()
            },
            final(self).only_current_level_changed(old(self)),
            final(self).current().items() == old(self).current().items(),
            final(self).current().query_view() == final(self).query_view(),
            final(self).current().selection_view() == 0,
            final(self).current().offset_view() == 0,
    {
        string_pop(&mut self.query);
        self.update_query();
    }

    /// Appends `ch` to the query.
    pub fn query_append(&mut self, ch: char)
        requires
            old(self).wf(),
        ensures
            final(self).wf(),
            final(self).query_view() == old(self).query_view().push(ch),
            final(self).only_current_level_changed(old(self)),
            final(self).current().items() == old(self).current().items(),
            final(self).current().query_view() == final(self).query_view(),
            final(self).current().selection_view() == 0,
            final(self).current().offset_view() == 0,
    {
        string_push(&mut self.query, ch);
        self.update_query();
    }

    /// Replaces the query by `query`.
    pub fn query_set(&mut self, query: &str)
        requires
            old(self).wf(),
        ensures
            final(self).wf(),
            final(self).query_view() == query@,
            final(self).only_current_level_changed(old(self)),
            final(self).current().items() == old(self).current().items(),
            final(self).current().query_view() == query@,
            final(self).current().selection_view() == 0,
            final(self).current().offset_view() == 0,
            final(self).current().completer_view() == old(self).current().completer_view(),
    {
        self.query = query.to_owned();
        self.update_query();
    }

    /// Returns the query.
    pub fn query(&self) -> (r: String)
        ensures
            r@ == self.query_view(),
    {
        self.query.clone()
    }

    /// Descends into the selected completion of the active level, where its
    /// completer can; the query then starts empty.
    pub fn descend(&mut self)
        requires
            old(self).wf(),
        ensures
            final(self).wf(),
            final(self).tab_view() == old(self).tab_view(),
            final(self).tabs().len() == old(self).tabs().len(),
            forall|i: int| 0 <= i < old(self).tabs().len() && i != old(self).tab_view() ==> #[trigger] final(self).tabs()[i] == old(self).tabs()[i],
            old(self).current().ranked().len() == 0 ==> final(self).tabs() == old(self).tabs()
                && final(self).query_view() == old(self).query_view(),
            old(self).current().ranked().len() > 0 ==> exists|next: Option<C>|
                {
                    &&& old(self).current().completer_view().descends_to(old(self).current().selected_item(), next)
                    &&& next is None ==> final(self).tabs() == old(self).tabs() && final(self).query_view() == old(self).query_view()
                    &&& next is Some ==> {
                        &&& final(self).tabs()[final(self).tab_view()].levels().len() == old(self).tabs()[old(self).tab_view()].levels().len() + 1
                        &&& final(self).tabs()[final(self).tab_view()].levels().take(old(self).tabs()[old(self).tab_view()].levels().len() as int) == old(self).tabs()[old(self).tab_view()].levels()
                        &&& final(self).query_view().len() == 0
                        &&& final(self).current().opened_from(next->0)
                    }
                },
    {
        let ghost before = self.tabs();
        let ghost top = self.current();
        let descended = self.current_stack_mut().descend();
        let ghost next = choose|next: Option<C>|
            {
                &&& top.completer_view().descends_to(top.selected_item(), next)
                &&& descended == next is Some
                &&& next is Some ==> self.current().opened_from(next->0)
            };
        if descended {
            let ghost descended_levels = self.tabs()[self.tab_view()].levels();
            self.query_set("");
            proof {
                reveal_strlit("");
                assert(self.current().opened_from(next->0));
                let l = self.tabs()[self.tab_view()].levels();
                let n = old(self).tabs()[old(self).tab_view()].levels().len() as int;
                assert(l.take(n) =~= l.drop_last());
                assert(descended_levels.take(n) =~= descended_levels.drop_last());
            }
        } else {
            proof {
                assert(self.tabs() =~= before);
            }
        }
    }

    /// Ascends in the active tab.
    pub fn ascend(&mut self)
        requires
            old(self).wf(),
        ensures
            final(self).wf(),
            final(self).tab_view() == old(self).tab_view(),
            final(self).query_view() == old(self).query_view(),
            final(self).tabs().len() == old(self).tabs().len(),
            forall|i: int| 0 <= i < old(self).tabs().len() && i != old(self).tab_view() ==> #[trigger] final(self).tabs()[i] == old(self).tabs()[i],
            old(self).tabs()[old(self).tab_view()].levels().len() > 1 ==> final(self).tabs()[final(self).tab_view()].levels() == old(self).tabs()[old(self).tab_view()].levels().drop_last(),
            old(self).tabs()[old(self).tab_view()].levels().len() == 1 ==> exists|up: Option<C>|
                {
                    &&& old(self).current().completer_view().ascends_to(up)
                    &&& up is None ==> final(self).tabs() == old(self).tabs()
                    &&& up is Some ==> final(self).tabs()[final(self).tab_view()].levels().len() == 1
                        && final(self).current().opened_from(up->0)
                },
    {
        let ghost before = self.tabs();
        let ghost top = self.current();
        self.current_stack_mut().ascend();
        proof {
            if before[self.tab_view()].levels().len() == 1 {
                let up = choose|up: Option<C>|
                    {
                        &&& top.completer_view().ascends_to(up)
                        &&& up is None ==> self.tabs()[self.tab_view()] == before[self.tab_view()]
                        &&& up is Some ==> self.tabs()[self.tab_view()].levels().len() == 1
                            && self.tabs()[self.tab_view()].active().opened_from(up->0)
                    };
                if up is None {
                    assert(self.tabs() =~= before);
                }
            }
        }
    }

    /// Makes the next tab active, the first after the last, and hands it
    /// the query.
    pub fn next_tab(&mut self)
        requires
            old(self).wf(),
        ensures
            final(self).wf(),
            final(self).tab_view() == (old(self).tab_view() + 1) % (old(self).tabs().len() as int),
            final(self).query_view() == old(self).query_view(),
            final(self).tabs().len() == old(self).tabs().len(),
            forall|i: int| 0 <= i < old(self).tabs().len() && i != final(self).tab_view() ==> #[trigger] final(self).tabs()[i] == old(self).tabs()[i],
            final(self).tabs()[final(self).tab_view()].levels().len() == old(self).tabs()[final(self).tab_view()].levels().len(),
            final(self).tabs()[final(self).tab_view()].levels().drop_last() == old(self).tabs()[final(self).tab_view()].levels().drop_last(),
            final(self).current().completer_view() == old(self).tabs()[final(self).tab_view()].active().completer_view(),
            final(self).current().items() == old(self).tabs()[final(self).tab_view()].active().items(),
            final(self).current().query_view() == old(self).query_view(),
            final(self).current().selection_view() == 0,
            final(self).current().offset_view() == 0,
    {
        assert(self.selection < self.stacks.len());
        self.selection = (self.selection + 1) % self.stacks.len();
        self.update_query();
    }

    /// Has the active level of every tab fetch once.
    pub fn start_fetching_completions(&mut self)
        requires
            old(self).wf(),
        ensures
            final(self).wf(),
            final(self).tab_view() == old(self).tab_view(),
            final(self).query_view() == old(self).query_view(),
            final(self).tabs().len() == old(self).tabs().len(),
            forall|i: int| 0 <= i < old(self).tabs().len() ==> {
                &&& (#[trigger] final(self).tabs()[i]).levels().len() == old(self).tabs()[i].levels().len()
                &&& final(self).tabs()[i].levels().drop_last() == old(self).tabs()[i].levels().drop_last()
                &&& final(self).tabs()[i].active().fetched_from(&old(self).tabs()[i].active())
            },
    {
        let n = self.stacks.len();
        for t in 0..n
            invariant
                n == self.stacks.len(),
                n == old(self).stacks.len(),
                self.selection == old(self).selection,
                self.query@ == old(self).query@,
                self.wf(),
                forall|i: int| t <= i < n ==> #[trigger] self.stacks@[i] == old(self).stacks@[i],
                forall|i: int| 0 <= i < t ==> {
                    &&& (#[trigger] self.tabs()[i]).levels().len() == old(self).tabs()[i].levels().len()
                    &&& self.tabs()[i].levels().drop_last() == old(self).tabs()[i].levels().drop_last()
                    &&& self.tabs()[i].active().fetched_from(&old(self).tabs()[i].active())
                },
        {
            let ghost before = self.stacks@;
            let ghost pre = *self;
            self.stacks[t].fetch_top();
            proof {
                assert forall|i: int| 0 <= i < n && i != t implies #[trigger] self.stacks@[i] == before[i] by {}
                assert forall|i: int| 0 <= i < t + 1 implies {
                    &&& (#[trigger] self.tabs()[i]).levels().len() == old(self).tabs()[i].levels().len()
                    &&& self.tabs()[i].levels().drop_last() == old(self).tabs()[i].levels().drop_last()
                    &&& self.tabs()[i].active().fetched_from(&old(self).tabs()[i].active())
                } by {
                    if i < t {
                        assert(self.stacks@[i] == before[i]);
                        assert(pre.tabs()[i] == before[i]);
                    }
                }
            }
        }
    }

    /// Has the active level of the active tab fetch once.
    pub fn fetch_completions(&mut self)
        requires
            old(self).wf(),
        ensures
            final(self).wf(),
            final(self).only_current_changed(old(self)),
            final(self).current().fetched_from(&old(self).current()),
    {
        self.current_view_mut().fetch_completions();
    }

    /// Indicates whether the active completer will deliver no more
    /// completions.
    pub fn fetching_completions_finished(&self) -> (r: bool)
        requires
            self.wf(),
        ensures
            r == self.current().completer_view().finished(),
    {
        self.current_view().completer.fetching_completions_finished()
    }
}

/// The entries of `r` for completions with an index below `n`, in order.
pub open spec fn earlier(r: Seq<CompletionScore>, n: int) -> Seq<CompletionScore>
    decreases r.len(),
{
    if r.len() == 0 {
        Seq::empty()
    } else if r[0].index < n {
        seq![r[0]].add(earlier(r.drop_first(), n))
    } else {
        earlier(r.drop_first(), n)
    }
}

proof fn lemma_earlier_all(r: Seq<CompletionScore>, n: int)
    ensures
        (forall|k: int| 0 <= k < r.len() ==> (#[trigger] r[k]).index < n) ==> earlier(r, n) == r,
        (forall|k: int| 0 <= k < r.len() ==> (#[trigger] r[k]).index >= n) ==> earlier(r, n).len() == 0,
    decreases r.len(),
{
    if r.len() > 0 {
        lemma_earlier_all(r.drop_first(), n);
        assert(forall|k: int| 0 <= k < r.len() - 1 ==> r.drop_first()[k] == r[k + 1]);
        if forall|k: int| 0 <= k < r.len() ==> (#[trigger] r[k]).index < n {
            assert(seq![r[0]].add(r.drop_first()) =~= r);
        }
    }
}

proof fn lemma_merge_keeps_left(a: Seq<CompletionScore>, b: Seq<CompletionScore>, n: int)
    requires
        forall|k: int| 0 <= k < a.len() ==> (#[trigger] a[k]).index < n,
        forall|k: int| 0 <= k < b.len() ==> (#[trigger] b[k]).index >= n,
    ensures
        earlier(merge_ranked(a, b), n) == a,
    decreases a.len() + b.len(),
{
    if a.len() == 0 {
        lemma_earlier_all(b, n);
        assert(earlier(b, n) =~= a);
    } else if b.len() == 0 {
        lemma_earlier_all(a, n);
    } else if a[0].score >= b[0].score {
        let a1 = a.drop_first();
        assert(forall|k: int| 0 <= k < a1.len() ==> a1[k] == a[k + 1]);
        lemma_merge_keeps_left(a1, b, n);
        let m = seq![a[0]].add(merge_ranked(a1, b));
        assert(m.drop_first() =~= merge_ranked(a1, b));
        assert(seq![a[0]].add(a1) =~= a);
    } else {
        let b1 = b.drop_first();
        assert(forall|k: int| 0 <= k < b1.len() ==> b1[k] == b[k + 1]);
        lemma_merge_keeps_left(a, b1, n);
        let m = seq![b[0]].add(merge_ranked(a, b1));
        assert(m.drop_first() =~= merge_ranked(a, b1));
    }
}

/// After a fetch, the entries of the completions that were there before
/// form the listing from before, in the same order.
pub proof fn lemma_fetch_keeps_old_listing<T: Completion, C: Completer<T>>(
    before: CompleterView<T, C>,
    after: CompleterView<T, C>,
    batch: Seq<T>,
)
    requires
        before.wf(),
        after.absorbed(&before, batch),
    ensures
        earlier(after.ranked(), before.items().len() as int) == before.ranked(),
{
    let n = before.items().len() as int;
    let fresh = choose|fresh: Seq<CompletionScore>|
        {
            &&& ranks_range(fresh, after.searches(), after.query_view(), n, after.items().len() as int)
            &&& after.ranked() == merge_ranked(before.ranked(), fresh)
        };
    let a = before.ranked();
    assert forall|k: int| 0 <= k < a.len() implies (#[trigger] a[k]).index < n by {
        assert(entry_ok(a[k], before.searches(), before.query_view(), 0, n));
    }
    assert forall|k: int| 0 <= k < fresh.len() implies (#[trigger] fresh[k]).index >= n by {
        assert(entry_ok(fresh[k], after.searches(), after.query_view(), n, after.items().len() as int));
    }
    lemma_merge_keeps_left(a, fresh, n);
}

/// A key that the user pressed, as the session reads it.
#[derive(Clone, Copy, PartialEq, Eq, Structural)]
pub enum KeyEvent {
    /// Select the previous completion.
    Up,
    /// Select the next completion.
    Down,
    /// Go one page up.
    PageUp,
    /// Go one page down.
    PageDown,
    /// Select the first completion.
    Home,
    /// Select the last completion.
    End,
    /// Ascend.
    Left,
    /// Descend into the selected completion.
    Right,
    /// Accept the selected completion.
    Enter,
    /// Give up, keeping the initial query.
    Cancel,
    /// Switch to the next tab.
    Tab,
    /// Remove the last character of the query.
    Backspace,
    /// Append a character to the query.
    Char(char),
    /// Any other key, which does nothing.
    Other,
}

/// What the session does after a key.
pub enum Step {
    /// Wait for the next key.
    Continue,
    /// End with this result.
    Done(String),
}

impl<T: Completion, C: Completer<T>> Model<T, C> {
    /// Applies one key to the session. Enter ends it with the result string
    /// of the selected completion where something is listed, and otherwise
    /// changes nothing;
    /// Cancel ends it with `initial_query`.
    pub fn handle_key(&mut self, key: KeyEvent, initial_query: &str) -> (r: Step)
        requires
            old(self).wf(),
        ensures
            final(self).wf(),
            r is Done <==> (key == KeyEvent::Cancel || (key == KeyEvent::Enter
                && old(self).current().ranked().len() > 0)),
            key == KeyEvent::Cancel ==> r is Done && r->Done_0@ == initial_query@,
            key == KeyEvent::Enter && old(self).current().ranked().len() > 0 ==> r is Done
                && r->Done_0@ == old(self).current().selected_item().result_view(),
            key == KeyEvent::Cancel || key == KeyEvent::Enter || key == KeyEvent::Other
                ==> *final(self) == *old(self),
            key == KeyEvent::Up || key == KeyEvent::Down || key == KeyEvent::PageUp || key
                == KeyEvent::PageDown || key == KeyEvent::Home || key == KeyEvent::End ==> {
                &&& final(self).only_current_changed(old(self))
                &&& final(self).current().same_content(&old(self).current())
            },
            key == KeyEvent::Up ==> final(self).current().selection_view() == sat_sub(old(self).current().selection_view(), 1),
            key == KeyEvent::Down ==> final(self).current().selection_view() == min_int(old(self).current().selection_view() + 1, sat_sub(old(self).current().ranked().len() as int, 1)),
            key == KeyEvent::PageUp ==> final(self).current().selection_view() == sat_sub(old(self).current().selection_view(), CHOOSER_HEIGHT as int),
            key == KeyEvent::PageDown ==> final(self).current().selection_view() == min_int(old(self).current().selection_view() + CHOOSER_HEIGHT, sat_sub(old(self).current().ranked().len() as int, 1)),
            key == KeyEvent::Home ==> final(self).current().selection_view() == 0,
            key == KeyEvent::End ==> final(self).current().selection_view() == sat_sub(old(self).current().ranked().len() as int, 1),
            key == KeyEvent::Left || key == KeyEvent::Right ==> final(self).tab_view() == old(self).tab_view(),
            key == KeyEvent::Left ==> final(self).query_view() == old(self).query_view(),
            key == KeyEvent::Tab ==> final(self).tab_view() == (old(self).tab_view() + 1) % (old(self).tabs().len() as int),
            key == KeyEvent::Tab ==> final(self).query_view() == old(self).query_view(),
            key == KeyEvent::Backspace ==> final(self).query_view() == if old(self).query_view().len() > 0 {
                old(self).query_view().drop_last()
            } else {
                old(self).query_view()
            },
            forall|ch: char| key == KeyEvent::Char(ch) ==> final(self).query_view() == old(self).query_view().push(ch),
            key is Char || key == KeyEvent::Backspace || key == KeyEvent::Tab ==> {
                &&& final(self).current().query_view() == final(self).query_view()
                &&& final(self).current().selection_view() == 0
                &&& final(self).current().offset_view() == 0
            },
    {
        match key {
            KeyEvent::Up => self.select_previous(),
            KeyEvent::Down => self.select_next(),
            KeyEvent::PageUp => self.previous_page(),
            KeyEvent::PageDown => self.next_page(),
            KeyEvent::Home => self.select_first(),
            KeyEvent::End => self.select_last(),
            KeyEvent::Left => self.ascend(),
            KeyEvent::Right => self.descend(),
            KeyEvent::Enter => {
                if let Some(result) = self.get_selected_result() {
                    return Step::Done(result);
                }
            },
            KeyEvent::Cancel => {
                return Step::Done(initial_query.to_owned());
            },
            KeyEvent::Tab => self.next_tab(),
            KeyEvent::Char(ch) => self.query_append(ch),
            KeyEvent::Backspace => self.query_backspace(),
            KeyEvent::Other => {},
        }
        Step::Continue
    }
}

/// Whether completion `i` is listed in `r`.
pub open spec fn lists(r: Seq<CompletionScore>, i: int) -> bool {
    exists|j: int| 0 <= j < r.len() && (#[trigger] r[j]).index == i
}

/// In a sorted listing of scores all 0 that lists each of `0..n`, entry
/// `k` lists completion `k`.
proof fn lemma_zero_listing_prefix(r: Seq<CompletionScore>, n: int, k: int)
    requires
        is_sorted_ranking(r),
        0 <= k < r.len(),
        forall|j: int| 0 <= j < r.len() ==> (#[trigger] r[j]).score == 0 && r[j].index < n,
        forall|i: int| 0 <= i < n ==> #[trigger] lists(r, i),
    ensures
        forall|j: int| 0 <= j <= k ==> (#[trigger] r[j]).index == j,
    decreases k,
{
    if k > 0 {
        lemma_zero_listing_prefix(r, n, k - 1);
        assert(ranks_before(r[k - 1], r[k]));
    }
    if r[k].index != k {
        let i = k;
        assert(i < n);
        assert(lists(r, i));
        let j = choose|j: int| 0 <= j < r.len() && (#[trigger] r[j]).index == i;
        if j < k {
            assert(r[j].index == j);
        } else if j > k {
            assert(ranks_before(r[k], r[j]));
        }
    }
}

/// With the empty query, a view lists every completion it holds, each with
/// score 0, in order of arrival.
pub proof fn lemma_empty_query_lists_all<T: Completion, C: Completer<T>>(v: CompleterView<T, C>)
    requires
        v.wf(),
        v.query_view().len() == 0,
    ensures
        v.ranked().len() == v.items().len(),
        forall|k: int|
            0 <= k < v.ranked().len() ==> (#[trigger] v.ranked()[k]).index == k && v.ranked()[k].score
                == 0,
{
    let r = v.ranked();
    let s = v.searches();
    let n = s.len() as int;
    assert(n == v.items().len());
    let q = v.query_view();
    assert(q == Seq::<char>::empty());
    assert forall|i: int| 0 <= i < n implies rankable(#[trigger] s[i], q) by {
        crate::scoring::lemma_match_basics(q, s[i]);
    }
    assert forall|i: int| 0 <= i < n implies #[trigger] lists(r, i) by {
        assert(rankable(s[i], q));
    }
    assert forall|j: int| 0 <= j < r.len() implies (#[trigger] r[j]).score == 0 && r[j].index < n by {
        assert(entry_ok(r[j], s, q, 0, n));
        assert(crate::scoring::query_key(q).len() == 0);
    }
    if r.len() > 0 {
        lemma_zero_listing_prefix(r, n, r.len() - 1);
        assert(r[r.len() - 1].index < n);
    }
    if n > 0 {
        assert(lists(r, n - 1));
        let j = choose|j: int| 0 <= j < r.len() && (#[trigger] r[j]).index == n - 1;
        lemma_zero_listing_prefix(r, n, j);
    }
}

/// After a fetch, of two completions listed with equal scores, one that
/// was there before the fetch comes before one that the fetch brought.
pub proof fn lemma_fetch_keeps_earlier_first<T: Completion, C: Completer<T>>(
    before: CompleterView<T, C>,
    after: CompleterView<T, C>,
    a: int,
    b: int,
)
    requires
        before.wf(),
        after.wf(),
        after.items().len() >= before.items().len(),
        after.items().take(before.items().len() as int) == before.items(),
        0 <= a < after.ranked().len(),
        0 <= b < after.ranked().len(),
        after.ranked()[a].score == after.ranked()[b].score,
        after.ranked()[a].index < before.items().len(),
        after.ranked()[b].index >= before.items().len(),
    ensures
        a < b,
{
    if a > b {
        assert(ranks_before(after.ranked()[b], after.ranked()[a]));
    }
}

} // verus!
