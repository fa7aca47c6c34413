use completers::completion::{Candidate, Completer, Completion};
use completers::model::{CompleterStack, CompleterView, KeyEvent, Model, Step, CHOOSER_HEIGHT};

/// A completion of the tests: its text, with nothing more.
type Item = Candidate<()>;

fn item(text: &str) -> Item {
    tagged(text, text)
}

/// A completion searched as `search` and resulting in `result`.
fn tagged(search: &str, result: &str) -> Item {
    Candidate {
        result: result.to_string(),
        display: result.to_string(),
        search: search.to_string(),
        data: (),
    }
}

/// A completer that hands out its batches one per fetch; it can descend
/// into completions whose result starts with "dir", and ascend while
/// `parents` is positive.
struct Batches {
    name: String,
    batches: Vec<Vec<Item>>,
    parents: usize,
}

impl Batches {
    fn new(name: &str, batches: Vec<Vec<Item>>) -> Batches {
        Batches { name: name.to_string(), batches, parents: 0 }
    }
}

impl Completer<Item> for Batches {
    fn finished(&self) -> bool {
        self.batches.is_empty()
    }

    fn names(&self, name: String) -> bool {
        name == self.name
    }

    fn fetches(&self, _after: Self, batch: Vec<Item>) -> bool {
        match self.batches.first() {
            Some(first) => batch.len() == first.len(),
            None => batch.is_empty(),
        }
    }

    fn descends_to(&self, completion: Item, next: Option<Self>) -> bool {
        next.is_some() == completion.result.starts_with("dir")
    }

    fn ascends_to(&self, next: Option<Self>) -> bool {
        next.is_some() == (self.parents > 0)
    }

    fn name(&self) -> String {
        self.name.clone()
    }

    fn fetching_completions_finished(&self) -> bool {
        self.batches.is_empty()
    }

    fn fetch_completions(&mut self) -> Vec<Item> {
        if self.batches.is_empty() {
            Vec::new()
        } else {
            self.batches.remove(0)
        }
    }

    fn descend(&self, completion: &Item) -> Option<Batches> {
        if completion.result.starts_with("dir") {
            let inside = vec![item("x1"), item("x2"), item("y")];
            Some(Batches::new(&format!("{}/", completion.result), vec![inside]))
        } else {
            None
        }
    }

    fn ascend(&self) -> Option<Batches> {
        if self.parents > 0 {
            let mut up = Batches::new(&format!("{}..", self.name), vec![vec![item("dir_up")]]);
            up.parents = self.parents - 1;
            Some(up)
        } else {
            None
        }
    }
}

fn results<C: Completer<Item>>(view: &CompleterView<Item, C>) -> Vec<(String, u64)> {
    (0..view.completions_count())
        .map(|i| {
            let (c, s) = view.completion_at(i);
            (c.result_string(), s)
        })
        .collect()
}

fn names(list: &[&str]) -> Vec<Item> {
    list.iter().map(|s| item(s)).collect()
}

#[test]
fn empty_query_lists_everything_in_arrival_order() {
    let mut view = CompleterView::new(Batches::new(
        "t",
        vec![names(&["b", "a"]), names(&["zz", "c"]), names(&["a"])],
    ));
    view.fetch_completions();
    view.fetch_completions();
    view.fetch_completions();
    let expected: Vec<(String, u64)> =
        ["b", "a", "zz", "c", "a"].iter().map(|s| (s.to_string(), 0)).collect();
    assert_eq!(results(&view), expected);
}

#[test]
fn query_filters_and_ranks_best_first() {
    let mut view = CompleterView::new(Batches::new(
        "t",
        vec![names(&["xfoo", "foo", "bar", "f_o_o"])],
    ));
    view.fetch_completions();
    view.update_query("foo".to_string());
    let r = results(&view);
    assert_eq!(r.len(), 3);
    // "foo": f 1+2, o 1+3, o 1+3 = 11; "xfoo": f 1, o 4, o 4 = 9; "f_o_o": 3+3+3 = 9.
    assert_eq!(r[0], ("foo".to_string(), 11));
    assert_eq!(r[1], ("xfoo".to_string(), 9));
    assert_eq!(r[2], ("f_o_o".to_string(), 9));
}

#[test]
fn fetched_batch_merges_after_equal_earlier_ones() {
    let mut view = CompleterView::new(Batches::new(
        "t",
        vec![
            vec![tagged("ab", "first"), tagged("zz", "other")],
            vec![tagged("ab", "second"), tagged("abab", "better")],
        ],
    ));
    view.update_query("ab".to_string());
    view.fetch_completions();
    assert_eq!(results(&view).len(), 1);
    view.fetch_completions();
    let r = results(&view);
    let order: Vec<String> = r.iter().map(|(s, _)| s.clone()).collect();
    assert_eq!(r[0].1, r[1].1);
    let first = order.iter().position(|s| s == "first").unwrap();
    let second = order.iter().position(|s| s == "second").unwrap();
    assert!(first < second);
    assert_eq!(order.len(), 3);
}

#[test]
fn batches_arrive_one_per_fetch() {
    let mut model = Model::new(vec![Batches::new(
        "bg",
        vec![names(&["a1", "b1"]), names(&["a2"]), names(&["a3", "b3"])],
    )]);
    model.query_set("a");
    assert!(!model.fetching_completions_finished());
    model.start_fetching_completions();
    assert_eq!(model.completions_count(), 1);
    assert_eq!(model.completion_at(0).0.result_string(), "a1");
    model.fetch_completions();
    model.fetch_completions();
    assert_eq!(model.completions_count(), 3);
    assert!(model.fetching_completions_finished());
    model.fetch_completions();
    model.fetch_completions();
    assert_eq!(model.completions_count(), 3);
    model.query_set("");
    assert_eq!(model.completions_count(), 5);
}

#[test]
fn stack_descends_and_ascends() {
    let mut root = Batches::new("root", vec![names(&["dir_a", "file"])]);
    root.parents = 1;
    let mut stack = CompleterStack::new(root);
    assert_eq!(stack.depth(), 1);
    // Nothing is selected yet: no descent.
    assert!(!stack.descend());
    stack.top_mut().fetch_completions();

    // Ascending from the only level replaces it.
    stack.ascend();
    assert_eq!(stack.depth(), 1);
    assert_eq!(stack.top().completer().name(), "root..");
    assert_eq!(stack.top().completions_count(), 1);

    // Descending into the selected directory pushes a fetched level.
    assert!(stack.descend());
    assert_eq!(stack.depth(), 2);
    assert_eq!(stack.top().completer().name(), "dir_up/");
    assert_eq!(stack.top().completions_count(), 3);
    stack.top_mut().update_query("x".to_string());
    stack.top_mut().select_next();
    assert_eq!(stack.top().selection(), 1);

    // Ascending pops it; descending again starts afresh.
    stack.ascend();
    assert_eq!(stack.depth(), 1);
    assert!(stack.descend());
    assert_eq!(stack.depth(), 2);
    assert_eq!(stack.top().query(), "");
    assert_eq!(stack.top().selection(), 0);
    assert_eq!(stack.top().completions_count(), 3);

    // At the top with no parent left, ascending changes nothing.
    stack.ascend();
    stack.ascend();
    assert_eq!(stack.depth(), 1);
    assert_eq!(stack.top().completer().name(), "root..");
}

#[test]
fn descend_refuses_plain_completion() {
    let mut stack = CompleterStack::new(Batches::new("root", vec![names(&["file", "dir"])]));
    stack.top_mut().fetch_completions();
    assert!(!stack.descend());
    assert_eq!(stack.depth(), 1);
    stack.top_mut().select_next();
    assert!(stack.descend());
    assert_eq!(stack.depth(), 2);
}

#[test]
fn model_descend_resets_query() {
    let mut model = Model::new(vec![Batches::new("root", vec![names(&["dir_a", "file"])])]);
    model.start_fetching_completions();
    model.query_set("dir");
    assert_eq!(model.completions_count(), 1);
    model.descend();
    assert_eq!(model.query(), "");
    assert_eq!(model.completer_name(), "dir_a/");
    assert_eq!(model.completions_count(), 3);
    assert_eq!(model.get_selected_result(), Some("x1".to_string()));
    model.ascend();
    assert_eq!(model.completer_name(), "root");
    // The root level kept its own query.
    assert_eq!(model.completions_count(), 1);
}

#[test]
fn selection_moves_within_pages() {
    let many: Vec<String> = (0..25).map(|i| format!("n{}", i)).collect();
    let items: Vec<Item> = many.iter().map(|s| item(s)).collect();
    let mut model = Model::new(vec![Batches::new("n", vec![items])]);
    model.start_fetching_completions();
    assert_eq!(model.completions_count(), 25);
    model.select_previous();
    assert_eq!((model.selection(), model.view_offset()), (0, 0));
    for _ in 0..CHOOSER_HEIGHT {
        model.select_next();
    }
    assert_eq!((model.selection(), model.view_offset()), (10, 1));
    model.next_page();
    assert_eq!((model.selection(), model.view_offset()), (20, 11));
    model.next_page();
    assert_eq!((model.selection(), model.view_offset()), (24, 15));
    model.previous_page();
    assert_eq!((model.selection(), model.view_offset()), (14, 14));
    model.select_first();
    assert_eq!((model.selection(), model.view_offset()), (0, 0));
    model.select_last();
    assert_eq!((model.selection(), model.view_offset()), (24, 15));
    model.select_previous();
    assert_eq!((model.selection(), model.view_offset()), (23, 15));
    model.query_append('n');
    assert_eq!((model.selection(), model.view_offset()), (0, 0));
}

#[test]
fn empty_listing_selection_is_harmless() {
    let mut model = Model::new(vec![Batches::new("e", vec![])]);
    model.start_fetching_completions();
    model.select_next();
    model.next_page();
    model.select_last();
    model.previous_page();
    assert_eq!((model.selection(), model.view_offset()), (0, 0));
    assert_eq!(model.get_selected_result(), None);
    assert_eq!(model.completions_count(), 0);
}

#[test]
fn tabs_keep_their_levels_and_share_the_query() {
    let mut model = Model::new(vec![
        Batches::new("one", vec![names(&["alpha", "beta"])]),
        Batches::new("two", vec![names(&["gamma", "alps"])]),
    ]);
    model.start_fetching_completions();
    model.query_append('a');
    model.query_append('l');
    assert_eq!(model.completions_count(), 1);
    model.next_tab();
    assert_eq!(model.completer_name(), "two");
    assert_eq!(model.query(), "al");
    assert_eq!(model.get_selected_result(), Some("alps".to_string()));
    model.query_backspace();
    assert_eq!(model.query(), "a");
    assert_eq!(model.completions_count(), 2);
    model.next_tab();
    assert_eq!(model.completer_name(), "one");
    assert_eq!(model.completions_count(), 2);
}

#[test]
fn absorb_merges_a_batch_into_the_listing() {
    let mut view = CompleterView::new(Batches::new("t", vec![]));
    view.update_query("ab".to_string());
    view.absorb(vec![tagged("ab", "one"), tagged("xx", "no")]);
    view.absorb(vec![tagged("a_b", "two"), tagged("ab", "three")]);
    let r = results(&view);
    let order: Vec<&str> = r.iter().map(|(s, _)| s.as_str()).collect();
    assert_eq!(order, vec!["one", "three", "two"]);
    assert_eq!(r[0].1, r[1].1);
}

#[test]
fn finished_completer_yields_nothing() {
    let mut model = Model::new(vec![Batches::new("f", vec![names(&["a"])])]);
    model.start_fetching_completions();
    assert!(model.fetching_completions_finished());
    model.fetch_completions();
    model.fetch_completions();
    assert_eq!(model.completions_count(), 1);
}

#[test]
fn keys_drive_the_session() {
    let mut model = Model::new(vec![
        Batches::new("one", vec![names(&["alpha", "beta", "dir_x"])]),
        Batches::new("two", vec![names(&["gamma"])]),
    ]);
    model.start_fetching_completions();
    assert!(matches!(model.handle_key(KeyEvent::Down, "q"), Step::Continue));
    assert_eq!(model.selection(), 1);
    assert!(matches!(model.handle_key(KeyEvent::End, "q"), Step::Continue));
    assert_eq!(model.selection(), 2);
    assert!(matches!(model.handle_key(KeyEvent::Right, "q"), Step::Continue));
    assert_eq!(model.completer_name(), "dir_x/");
    assert!(matches!(model.handle_key(KeyEvent::Left, "q"), Step::Continue));
    assert_eq!(model.completer_name(), "one");
    assert!(matches!(model.handle_key(KeyEvent::Char('b'), "q"), Step::Continue));
    assert_eq!(model.query(), "b");
    assert!(matches!(model.handle_key(KeyEvent::Backspace, "q"), Step::Continue));
    assert_eq!(model.query(), "");
    assert!(matches!(model.handle_key(KeyEvent::Other, "q"), Step::Continue));
    assert!(matches!(model.handle_key(KeyEvent::Tab, "q"), Step::Continue));
    assert_eq!(model.completer_name(), "two");
    model.query_set("zzz");
    assert!(matches!(model.handle_key(KeyEvent::Enter, "q"), Step::Continue));
    model.query_set("");
    assert_eq!(model.get_selected_result(), Some("gamma".to_string()));
    match model.handle_key(KeyEvent::Enter, "q") {
        Step::Done(r) => assert_eq!(r, "gamma"),
        Step::Continue => panic!("a listed completion is accepted"),
    }
    match model.handle_key(KeyEvent::Cancel, "q") {
        Step::Done(r) => assert_eq!(r, "q"),
        Step::Continue => panic!("cancel ends the session"),
    }
}
