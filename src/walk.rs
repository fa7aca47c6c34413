//! One step of the breadth-first walk over a directory tree: from the
//! entries read in one directory, the completions it yields and the
//! subdirectories still to walk; and the decisions of the worker that
//! walks in the background and answers requests for what it found.
use vstd::prelude::*;

use crate::git::joined;
use crate::model::string_push;

verus! {

/// How deep below the starting directory the walk goes.
pub const DIRECTORY_DEPTH_LIMIT: usize = 4;

/// What a directory entry is.
#[derive(Clone, Copy, PartialEq, Eq, Structural)]
pub enum EntryKind {
    /// A directory.
    Directory,
    /// Anything else.
    File,
    /// An entry whose kind could not be read.
    Error,
}

/// Whether a name is shown: it does not start with a dot.
pub open spec fn visible(name: Seq<char>) -> bool {
    !(name.len() > 0 && name[0] == '.')
}

/// The path of entry `name` of directory `dir`: joined by a slash where
/// `dir` does not end in one, without a leading `./`.
pub open spec fn entry_path(dir: Seq<char>, name: Seq<char>) -> Seq<char> {
    let joined = if dir.len() == 0 {
        name
    } else if dir.last() == '/' {
        dir + name
    } else {
        dir + seq!['/'] + name
    };
    if joined.len() >= 2 && joined[0] == '.' && joined[1] == '/' {
        joined.skip(2)
    } else {
        joined
    }
}

/// Whether `a` comes before `b` or equals it, comparing characters in
/// order, as strings are ordered.
pub open spec fn str_le(a: Seq<char>, b: Seq<char>) -> bool
    decreases a.len(),
{
    if a.len() == 0 {
        true
    } else if b.len() == 0 {
        false
    } else if a[0] != b[0] {
        (a[0] as u32) < (b[0] as u32)
    } else {
        str_le(a.drop_first(), b.drop_first())
    }
}

/// The views of entries.
pub open spec fn entry_views(v: Seq<(String, EntryKind)>) -> Seq<(Seq<char>, EntryKind)> {
    v.map_values(|e: (String, EntryKind)| (e.0@, e.1))
}

/// The visible entries of `dir`, each as its path with its kind, in order.
pub open spec fn kept_entries(dir: Seq<char>, entries: Seq<(Seq<char>, EntryKind)>) -> Seq<
    (Seq<char>, EntryKind),
>
    decreases entries.len(),
{
    if entries.len() == 0 {
        Seq::empty()
    } else {
        let r = kept_entries(dir, entries.drop_last());
        let e = entries.last();
        if visible(e.0) {
            r.push((entry_path(dir, e.0), e.1))
        } else {
            r
        }
    }
}

/// The paths of the directories among `kept`, in order, each with `depth`.
pub open spec fn queued_dirs(kept: Seq<(Seq<char>, EntryKind)>, depth: nat) -> Seq<(Seq<char>, usize)>
    decreases kept.len(),
{
    if kept.len() == 0 {
        Seq::empty()
    } else {
        let r = queued_dirs(kept.drop_last(), depth);
        if kept.last().1 == EntryKind::Directory {
            r.push((kept.last().0, depth as usize))
        } else {
            r
        }
    }
}

/// Relies on `slice::sort_by_key`, keyed by the path: the same entries,
/// ordered by path.
#[verifier::external_body]
fn sort_by_path(v: Vec<(String, EntryKind)>) -> (r: Vec<(String, EntryKind)>)
    ensures
        entry_views(r@).to_multiset() == entry_views(v@).to_multiset(),
        forall|i: int, j: int| 0 <= i < j < r.len() ==> str_le(r[i].0@, r[j].0@),
{
    let mut r = v;
    r.sort_by_key(|e| e.0.clone());
    r
}

/// Returns the characters of `s` from index `k` on.
fn chars_from(s: &str, k: usize) -> (r: String)
    requires
        k <= s@.len(),
    ensures
        r@ == s@.skip(k as int),
{
    let n = s.unicode_len();
    let mut r = String::new();
    let mut i: usize = 0;
    for c in it: s.chars()
        invariant
            it.seq() == s@,
            n == s@.len(),
            i == it.index(),
            k <= n,
            r@ == s@.subrange(k as int, if i < k { k as int } else { i as int }),
    {
        assert(i < n);
        if i >= k {
            string_push(&mut r, c);
        }
        i = i + 1;
        proof {
            assert(r@ =~= s@.subrange(k as int, if i < k { k as int } else { i as int }));
        }
    }
    proof {
        assert(s@.subrange(k as int, n as int) =~= s@.skip(k as int));
    }
    r
}

/// Returns the path of entry `name` of directory `dir`.
fn path_of(dir: &str, name: &str) -> (r: String)
    ensures
        r@ == entry_path(dir@, name@),
{
    let n = dir.unicode_len();
    let joined_path = if n == 0 {
        name.to_owned()
    } else if dir.get_char(n - 1) == '/' {
        joined(dir.to_owned(), name)
    } else {
        let slash = "/";
        proof {
            reveal_strlit("/");
        }
        joined(joined(dir.to_owned(), slash), name)
    };
    let p = joined_path.as_str();
    if p.unicode_len() >= 2 && p.get_char(0) == '.' && p.get_char(1) == '/' {
        chars_from(p, 2)
    } else {
        joined_path
    }
}

/// Lists one directory `dir`, reached at `depth`, from its `entries` (name
/// and kind): the visible entries as paths, sorted, and the directories
/// among them, in order, to walk at the next depth, where that depth is
/// below the limit.
pub fn list_level(dir: &str, depth: usize, entries: Vec<(String, EntryKind)>) -> (r: (
    Vec<(String, EntryKind)>,
    Vec<(String, usize)>,
))
    ensures
        entry_views(r.0@).to_multiset() == kept_entries(dir@, entry_views(entries@)).to_multiset(),
        forall|i: int, j: int| 0 <= i < j < r.0.len() ==> str_le(r.0[i].0@, r.0[j].0@),
        depth < DIRECTORY_DEPTH_LIMIT ==> r.1@.map_values(|d: (String, usize)| (d.0@, d.1))
            == queued_dirs(kept_entries(dir@, entry_views(entries@)), (depth + 1) as nat),
        depth >= DIRECTORY_DEPTH_LIMIT ==> r.1.len() == 0,
{
    let ghost ev = entry_views(entries@);
    let mut kept: Vec<(String, EntryKind)> = Vec::new();
    let mut queue: Vec<(String, usize)> = Vec::new();
    for i in 0..entries.len()
        invariant
            ev == entry_views(entries@),
            entry_views(kept@) == kept_entries(dir@, ev.take(i as int)),
            depth < DIRECTORY_DEPTH_LIMIT ==> queue@.map_values(|d: (String, usize)| (d.0@, d.1))
                == queued_dirs(kept_entries(dir@, ev.take(i as int)), (depth + 1) as nat),
            depth >= DIRECTORY_DEPTH_LIMIT ==> queue.len() == 0,
    {
        proof {
            assert(ev.take(i + 1).drop_last() == ev.take(i as int));
            assert(ev.take(i + 1).last() == ev[i as int]);
        }
        let name = entries[i].0.as_str();
        let kind = entries[i].1;
        let hidden = name.unicode_len() > 0 && name.get_char(0) == '.';
        if !hidden {
            let path = path_of(dir, name);
            let ghost kv = kept@;
            let ghost qv = queue@;
            if kind == EntryKind::Directory && depth < DIRECTORY_DEPTH_LIMIT {
                queue.push((path.clone(), depth + 1));
                proof {
                    assert(queue@.map_values(|d: (String, usize)| (d.0@, d.1)) =~= qv.map_values(
                        |d: (String, usize)| (d.0@, d.1),
                    ).push((path@, (depth + 1) as usize)));
                }
            }
            kept.push((path, kind));
            proof {
                assert(entry_views(kept@) =~= entry_views(kv).push((path@, kind)));
                let kn = kept_entries(dir@, ev.take(i + 1));
                let ko = kept_entries(dir@, ev.take(i as int));
                assert(kn == ko.push((path@, kind)));
                assert(kn.drop_last() =~= ko);
                assert(kn.last() == (path@, kind));
            }
        }
    }
    proof {
        assert(ev.take(entries.len() as int) == ev);
    }
    let sorted = sort_by_path(kept);
    (sorted, queue)
}

/// What the background worker learned from its request channel.
#[derive(Clone, Copy, PartialEq, Eq, Structural)]
pub enum WorkerEvent {
    /// A request for what has been found.
    Request,
    /// No request is waiting.
    NoRequest,
    /// The other side hung up.
    Disconnected,
}

/// What the background worker does next.
#[derive(Clone, Copy, PartialEq, Eq, Structural)]
pub enum WorkerAction {
    /// Walk on.
    WalkNext,
    /// Send what has piled up since the last answer.
    SendBatch,
    /// Send that the walk is over, and stop.
    SendDone,
    /// Wait for a request.
    WaitForRequest,
    /// Stop.
    Stop,
}

/// Decides the worker's next action: `queue_empty` tells whether the walk
/// is over, `sent_rest` whether what was found after it was sent. A
/// request is answered with what piled up, then, once that was sent after
/// the walk, with the end; a hang-up stops the worker.
pub fn worker_step(queue_empty: bool, sent_rest: bool, event: WorkerEvent) -> (r: WorkerAction)
    ensures
        event == WorkerEvent::Disconnected ==> r == WorkerAction::Stop,
        event == WorkerEvent::Request && (!queue_empty || !sent_rest) ==> r
            == WorkerAction::SendBatch,
        event == WorkerEvent::Request && queue_empty && sent_rest ==> r == WorkerAction::SendDone,
        event == WorkerEvent::NoRequest && !queue_empty ==> r == WorkerAction::WalkNext,
        event == WorkerEvent::NoRequest && queue_empty ==> r == WorkerAction::WaitForRequest,
{
    match event {
        WorkerEvent::Disconnected => WorkerAction::Stop,
        WorkerEvent::Request => {
            if queue_empty && sent_rest {
                WorkerAction::SendDone
            } else {
                WorkerAction::SendBatch
            }
        },
        WorkerEvent::NoRequest => {
            if queue_empty {
                WorkerAction::WaitForRequest
            } else {
                WorkerAction::WalkNext
            }
        },
    }
}

} // verus!
