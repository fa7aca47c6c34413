use completers::walk::{list_level, worker_step, EntryKind, WorkerAction, WorkerEvent};

#[test]
fn level_lists_visible_entries_sorted() {
    let entries = vec![
        ("zeta".to_string(), EntryKind::File),
        (".git".to_string(), EntryKind::Directory),
        ("src".to_string(), EntryKind::Directory),
        ("alpha".to_string(), EntryKind::Error),
        ("lib".to_string(), EntryKind::Directory),
    ];
    let (listed, queued) = list_level(".", 0, entries.clone());
    let paths: Vec<&str> = listed.iter().map(|(p, _)| p.as_str()).collect();
    assert_eq!(paths, vec!["alpha", "lib", "src", "zeta"]);
    assert_eq!(queued, vec![("src".to_string(), 1), ("lib".to_string(), 1)]);

    let (listed, queued) = list_level("src", 3, entries.clone());
    assert_eq!(listed[0].0, "src/alpha");
    assert_eq!(queued, vec![("src/src".to_string(), 4), ("src/lib".to_string(), 4)]);

    let (listed, queued) = list_level("a/b/", 4, entries);
    assert_eq!(listed[1].0, "a/b/lib");
    assert!(queued.is_empty());
    assert_eq!(list_level("./", 0, vec![("x".to_string(), EntryKind::File)]).0[0].0, "x");
}

#[test]
fn worker_answers_requests_then_ends() {
    assert!(worker_step(false, false, WorkerEvent::Disconnected) == WorkerAction::Stop);
    assert!(worker_step(true, true, WorkerEvent::Disconnected) == WorkerAction::Stop);
    assert!(worker_step(false, false, WorkerEvent::Request) == WorkerAction::SendBatch);
    assert!(worker_step(true, false, WorkerEvent::Request) == WorkerAction::SendBatch);
    assert!(worker_step(true, true, WorkerEvent::Request) == WorkerAction::SendDone);
    assert!(worker_step(false, false, WorkerEvent::NoRequest) == WorkerAction::WalkNext);
    assert!(worker_step(true, false, WorkerEvent::NoRequest) == WorkerAction::WaitForRequest);
}
