//! A completer of the numbers below a count, for trying out completion.
use vstd::prelude::*;

use crate::completion::{Completer, Completion};
use crate::model::string_push;

verus! {

/// The decimal digit for `d`, which is below 10.
pub open spec fn digit_char(d: nat) -> char {
    (('0' as u32) + d) as char
}

/// The decimal representation of `n`, without leading zeros.
pub open spec fn decimal(n: nat) -> Seq<char>
    decreases n,
{
    if n < 10 {
        seq![digit_char(n)]
    } else {
        decimal(n / 10).push(digit_char(n % 10))
    }
}

/// Returns the decimal representation of `n`.
fn decimal_string(n: usize) -> (r: String)
    ensures
        r@ == decimal(n as nat),
{
    // Digits from the least significant one.
    let mut digits: Vec<char> = Vec::new();
    let mut m: usize = n;
    while m >= 10
        invariant
            m <= n,
            decimal(n as nat) == decimal(m as nat) + digits@.reverse(),
        decreases m,
    {
        let c = ((48u8 + (m % 10) as u8) as char);
        proof {
            assert(c == digit_char((m % 10) as nat));
            assert(decimal(m as nat) == decimal((m / 10) as nat).push(c));
        }
        digits.push(c);
        proof {
            assert(digits@.reverse() =~= seq![c] + digits@.drop_last().reverse());
            assert(decimal(n as nat) =~= decimal((m / 10) as nat) + digits@.reverse());
        }
        m = m / 10;
    }
    let c = ((48u8 + m as u8) as char);
    proof {
        assert(c == digit_char(m as nat));
        assert(decimal(m as nat) == seq![c]);
    }
    digits.push(c);
    proof {
        assert(digits@.reverse() =~= seq![c] + digits@.drop_last().reverse());
        assert(decimal(n as nat) =~= digits@.reverse());
    }
    let mut r = String::new();
    let mut i: usize = digits.len();
    while i > 0
        invariant
            i <= digits.len(),
            r@ == digits@.reverse().take(digits.len() - i),
            decimal(n as nat) == digits@.reverse(),
        decreases i,
    {
        i = i - 1;
        string_push(&mut r, digits[i]);
        proof {
            assert(digits@.reverse().take(digits.len() - i) =~= digits@.reverse().take(
                digits.len() - i - 1,
            ).push(digits@[i as int]));
        }
    }
    proof {
        assert(digits@.reverse().take(digits.len() as int) =~= digits@.reverse());
    }
    r
}

/// A number, as a completion.
pub struct NumCompletion(String);

impl NumCompletion {
    /// The text of the number.
    pub closed spec fn text(&self) -> Seq<char> {
        self.0@
    }
}

impl Completion for NumCompletion {
    closed spec fn result_view(&self) -> Seq<char> {
        self.0@
    }

    closed spec fn search_view(&self) -> Seq<char> {
        self.0@
    }

    fn result_string(&self) -> (r: String) {
        let r = self.0.clone();
        assert(r@ == self.result_view());
        r
    }

    fn search_string(&self) -> (r: String) {
        let r = self.0.clone();
        assert(r@ == self.search_view());
        r
    }
}

/// A completer of the numbers below a count, delivered all at once.
pub struct NumCompleter {
    completions: Vec<NumCompletion>,
    delivered: bool,
}

impl NumCompleter {
    /// The completions not yet delivered.
    pub closed spec fn pending(&self) -> Seq<NumCompletion> {
        self.completions@
    }

    /// Creates a completer of the numbers `0, 1, ..., count - 1`, in
    /// decimal.
    pub fn new(count: usize) -> (r: NumCompleter)
        ensures
            r.pending().len() == count,
            !r.finished(),
            forall|i: int| 0 <= i < count ==> (#[trigger] r.pending()[i]).text() == decimal(i as nat),
    {
        let mut completions: Vec<NumCompletion> = Vec::new();
        for n in 0..count
            invariant
                completions.len() == n,
                forall|i: int| 0 <= i < n ==> (#[trigger] completions@[i]).text() == decimal(i as nat),
        {
            completions.push(NumCompletion(decimal_string(n)));
        }
        NumCompleter { completions: completions, delivered: false }
    }
}

impl Completer<NumCompletion> for NumCompleter {
    /// The numbers are delivered by the first fetch.
    closed spec fn finished(&self) -> bool {
        self.delivered
    }

    closed spec fn names(&self, name: String) -> bool {
        name@ == seq!['n', 'u', 'm']
    }

    /// The first fetch hands out all numbers; later ones nothing.
    closed spec fn fetches(&self, after: Self, batch: Vec<NumCompletion>) -> bool {
        &&& after.delivered
        &&& batch@ == if self.delivered {
            Seq::empty()
        } else {
            self.completions@
        }
    }

    /// Numbers lead nowhere.
    closed spec fn descends_to(&self, completion: NumCompletion, next: Option<Self>) -> bool {
        next is None
    }

    closed spec fn ascends_to(&self, next: Option<Self>) -> bool {
        next is None
    }

    fn name(&self) -> (r: String) {
        let r = "num".to_owned();
        proof {
            reveal_strlit("num");
            assert(r@ =~= seq!['n', 'u', 'm']);
        }
        r
    }

    fn descend(&self, completion: &NumCompletion) -> (r: Option<Self>) {
        None
    }

    fn ascend(&self) -> (r: Option<Self>) {
        None
    }

    fn fetching_completions_finished(&self) -> (r: bool) {
        self.delivered
    }

    fn fetch_completions(&mut self) -> (r: Vec<NumCompletion>) {
        let mut all: Vec<NumCompletion> = Vec::new();
        if !self.delivered {
            std::mem::swap(&mut all, &mut self.completions);
            self.delivered = true;
        }
        all
    }
}

} // verus!
