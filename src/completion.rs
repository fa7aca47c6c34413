//! Completions and the completers that provide them.
use vstd::prelude::*;

verus! {

/// A single completion: a candidate that a completer offers.
///
/// A completion usually shows up as the text that is substituted when it
/// is chosen, but it may be shown, and searched, as other text.
pub trait Completion {
    /// The text that is used if this completion is chosen.
    spec fn result_view(&self) -> Seq<char>;

    /// The text that the query is matched against.
    spec fn search_view(&self) -> Seq<char>;

    /// Returns the string that is used if this completion is chosen.
    fn result_string(&self) -> (r: String)
        ensures
            r@ == self.result_view(),
    ;

    /// Returns the string to show in the selection list.
    fn display_string(&self) -> String {
        self.result_string()
    }

    /// Returns the string that the query is matched against.
    fn search_string(&self) -> (r: String)
        ensures
            r@ == self.search_view(),
    ;
}

/// A completion given by its three strings, with data of its source.
///
/// Sources outside verified code use it: its strings are its fields.
pub struct Candidate<D> {
    /// The string used if the candidate is chosen.
    pub result: String,
    /// The string shown in the selection list.
    pub display: String,
    /// The string that the query is matched against.
    pub search: String,
    /// What the source keeps about the candidate.
    pub data: D,
}

impl<D> Completion for Candidate<D> {
    open spec fn result_view(&self) -> Seq<char> {
        self.result@
    }

    open spec fn search_view(&self) -> Seq<char> {
        self.search@
    }

    fn result_string(&self) -> (r: String) {
        let r = self.result.clone();
        assert(r@ == self.result_view());
        r
    }

    fn display_string(&self) -> String {
        self.display.clone()
    }

    fn search_string(&self) -> (r: String) {
        let r = self.search.clone();
        assert(r@ == self.search_view());
        r
    }
}

/// A source of completions of type `T`.
///
/// A completer may deliver its completions in batches, and may lead to
/// other completers: "into" one of its completions, or "up" from itself.
pub trait Completer<T: Completion>: Sized {
    /// Whether this completer will deliver no more completions.
    spec fn finished(&self) -> bool;

    /// Whether `next` is an answer this completer may give when asked to
    /// descend into `completion`.
    spec fn descends_to(&self, completion: T, next: Option<Self>) -> bool;

    /// Whether `next` is an answer this completer may give when asked to
    /// ascend.
    spec fn ascends_to(&self, next: Option<Self>) -> bool;

    /// Whether `name` is this completer's name.
    spec fn names(&self, name: String) -> bool;

    /// Whether one fetch may turn this completer into `after` and return
    /// `batch`.
    spec fn fetches(&self, after: Self, batch: Vec<T>) -> bool;

    /// Returns a short name of this completer.
    fn name(&self) -> (r: String)
        ensures
            self.names(r),
    ;

    /// Indicates whether this completer will deliver no more completions.
    fn fetching_completions_finished(&self) -> (r: bool)
        ensures
            r == self.finished(),
    ;

    /// Returns the completions that became available since the last call;
    /// once fetching is finished, nothing, and it stays finished.
    fn fetch_completions(&mut self) -> (r: Vec<T>)
        ensures
            old(self).fetches(*final(self), r),
            old(self).finished() ==> r.len() == 0 && final(self).finished(),
    ;

    /// Returns a completer for the inside of `completion`, or `None` where
    /// one cannot descend into it.
    fn descend(&self, completion: &T) -> (r: Option<Self>)
        ensures
            self.descends_to(*completion, r),
    ;

    /// Returns a completer for the context above this one, or `None` at
    /// the top.
    fn ascend(&self) -> (r: Option<Self>)
        ensures
            self.ascends_to(r),
    ;
}

} // verus!
