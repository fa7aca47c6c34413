use completers::completion::{Completer, Completion};
use completers::git::{
    parse_log_line, parse_ref_line, GitBranchCompleter, GitBranchCompletion,
    GitBranchCompletionType, GitCommitCompleter, GitCommitCompletion,
};
use completers::line::{filesystem_root, query_text, splice_completion};
use completers::numbers::NumCompleter;

#[test]
fn numbers_are_delivered_at_once() {
    let mut c = NumCompleter::new(12);
    assert!(!c.fetching_completions_finished());
    let all: Vec<String> = c.fetch_completions().iter().map(|n| n.result_string()).collect();
    assert!(c.fetching_completions_finished());
    let expected: Vec<String> = (0..12).map(|n| n.to_string()).collect();
    assert_eq!(all, expected);
    assert!(c.fetch_completions().is_empty());
    assert_eq!(NumCompleter::new(0).fetch_completions().len(), 0);
    let big: Vec<String> =
        NumCompleter::new(1001).fetch_completions().iter().map(|n| n.result_string()).collect();
    assert_eq!(big[1000], "1000");
    assert_eq!(big[99], "99");
}

#[test]
fn ref_lines_are_classified() {
    let b = parse_ref_line("commit master").unwrap();
    assert_eq!((b.kind, b.branch_name.as_str()), (GitBranchCompletionType::Branch, "master"));
    let r = parse_ref_line("commit origin/main").unwrap();
    assert_eq!(r.kind, GitBranchCompletionType::RemoteBranch);
    let t = parse_ref_line("tag  v1.0 extra").unwrap();
    assert_eq!((t.kind, t.branch_name.as_str()), (GitBranchCompletionType::Tag, "v1.0"));
    assert!(parse_ref_line("commit").is_none());
    assert!(parse_ref_line("   ").is_none());
}

#[test]
fn ref_output_starts_with_head() {
    let completer = GitBranchCompleter::new();
    let out = "commit master\ncommit origin/dev\r\ntag v2\n\nbogus\n";
    let got: Vec<(GitBranchCompletionType, String)> = completer
        .completions_from(true, out)
        .into_iter()
        .map(|c: GitBranchCompletion| (c.kind, c.result_string()))
        .collect();
    assert_eq!(
        got,
        vec![
            (GitBranchCompletionType::Head, "HEAD".to_string()),
            (GitBranchCompletionType::Branch, "master".to_string()),
            (GitBranchCompletionType::RemoteBranch, "origin/dev".to_string()),
            (GitBranchCompletionType::Tag, "v2".to_string()),
        ]
    );
    assert!(completer.completions_from(false, out).is_empty());
}

#[test]
fn log_lines_become_commits() {
    let c = parse_log_line("abc123\t2020-01-02\tAnn\tFix it").unwrap();
    assert_eq!(c.result_string(), "abc123");
    assert_eq!(c.search_string(), "Fix it");
    assert_eq!(
        c.display_string(),
        "abc123     2020-01-02   Ann                       Fix it"
    );
    assert!(parse_log_line("abc\tdate\tauthor").is_none());
    let e = parse_log_line("\t\t\t").unwrap();
    assert_eq!(e.result_string(), "");

    let branch = GitBranchCompletion { kind: GitBranchCompletionType::Branch, branch_name: "dev".to_string() };
    let commits = GitBranchCompleter::new().descend(&branch);
    assert_eq!(commits.branch_name(), "dev");
    let got = commits.completions_from(true, "h1\td1\ta1\ts1\nbad\nh2\td2\ta2\ts2 more\n");
    let hashes: Vec<String> = got.iter().map(|c: &GitCommitCompletion| c.result_string()).collect();
    assert_eq!(hashes, vec!["h1", "h2"]);
    assert_eq!(got[1].subject, "s2 more");
    assert!(GitCommitCompleter::new("x").completions_from(false, "h\td\ta\ts").is_empty());
}

#[test]
fn line_is_spliced_around_completion() {
    let line = "ls foo bar";
    assert_eq!(query_text(line, 3, 6), "foo");
    assert_eq!(query_text(line, 3, 3), "");
    assert_eq!(splice_completion(line, 3, 6, "folder/"), ("ls folder/ bar".to_string(), 10));
    assert_eq!(splice_completion("", 0, 0, "x"), ("x".to_string(), 1));
    assert_eq!(splice_completion("ab", 2, 2, "cd"), ("abcd".to_string(), 4));
}

#[test]
fn filesystem_root_follows_absolute_queries() {
    assert_eq!(filesystem_root("/usr/lib"), "/usr/lib");
    assert_eq!(filesystem_root("src"), ".");
    assert_eq!(filesystem_root(""), ".");
}
