//! The command line around the completion: where the query lies in it,
//! and the line after a completion is chosen.
use vstd::prelude::*;
use vstd::string::StringSliceAdditionalSpecFns;

use crate::model::string_push;

verus! {

/// Whether byte `b` separates words of the command line: a space, a
/// parenthesis, a colon or a backquote. All are ASCII, so no byte of a
/// longer UTF-8 sequence is one.
pub open spec fn is_word_boundary(b: u8) -> bool {
    b == 32 || b == 40 || b == 41 || b == 58 || b == 96
}

fn word_boundary(b: u8) -> (r: bool)
    ensures
        r == is_word_boundary(b),
{
    b == 32 || b == 40 || b == 41 || b == 58 || b == 96
}

/// The start of the word of `line` that reaches byte position `p` from
/// the left: the position after the last boundary before `p`, or 0.
pub open spec fn word_start(line: Seq<u8>, p: int) -> int
    decreases p,
{
    if p <= 0 {
        0
    } else if is_word_boundary(line[p - 1]) {
        p
    } else {
        word_start(line, p - 1)
    }
}

/// The end of the word of `line` that reaches byte position `p` from the
/// right: the first boundary at or after `p`, or the end of the line.
pub open spec fn word_end(line: Seq<u8>, p: int) -> int
    decreases line.len() - p,
{
    if p >= line.len() {
        line.len() as int
    } else if is_word_boundary(line[p]) {
        p
    } else {
        word_end(line, p + 1)
    }
}

proof fn lemma_word_start(line: Seq<u8>, start: int, p: int)
    requires
        0 <= start <= p <= line.len(),
        start == 0 || is_word_boundary(line[start - 1]),
        forall|k: int| start <= k < p ==> !is_word_boundary(#[trigger] line[k]),
    ensures
        word_start(line, p) == start,
    decreases p,
{
    if p > start {
        lemma_word_start(line, start, p - 1);
    }
}

proof fn lemma_word_end(line: Seq<u8>, p: int, end: int)
    requires
        0 <= p <= end <= line.len(),
        end == line.len() || is_word_boundary(line[end]),
        forall|k: int| p <= k < end ==> !is_word_boundary(#[trigger] line[k]),
    ensures
        word_end(line, p) == end,
    decreases end - p,
{
    if p < end {
        lemma_word_end(line, p + 1, end);
    }
}

/// Returns the range `[start, end)`, in bytes, of the word of `line` that
/// holds byte position `point`: the initial query, which a completion
/// replaces. Where `point` lies on a boundary, it is the word that ends
/// there. Past the end of the line it is `(0, 0)`.
pub fn get_initial_query_range(line: &str, point: usize) -> (r: (usize, usize))
    ensures
        point <= line.spec_bytes().len() ==> r == (
            word_start(line.spec_bytes(), point as int) as usize,
            word_end(line.spec_bytes(), point as int) as usize,
        ),
        point > line.spec_bytes().len() ==> r == (0usize, 0usize),
{
    let bytes = line.as_bytes();
    let n = bytes.len();
    let mut start: usize = 0;
    let mut i: usize = 0;
    while i < n
        invariant
            bytes@ == line.spec_bytes(),
            n == bytes@.len(),
            i <= n,
            start <= i,
            start <= point,
            start == 0 || is_word_boundary(bytes@[start - 1]),
            forall|k: int| start <= k < i ==> !is_word_boundary(#[trigger] bytes@[k]),
        decreases n - i,
    {
        if word_boundary(bytes[i]) {
            if point <= i {
                proof {
                    lemma_word_start(bytes@, start as int, point as int);
                    lemma_word_end(bytes@, point as int, i as int);
                }
                return (start, i);
            }
            start = i + 1;
        }
        i = i + 1;
    }
    if point <= i {
        proof {
            lemma_word_start(bytes@, start as int, point as int);
            lemma_word_end(bytes@, point as int, i as int);
        }
        return (start, i);
    }
    (0, 0)
}

/// Returns the characters of `line` in `[start, end)`, positions counted
/// in characters.
pub fn query_text(line: &str, start: usize, end: usize) -> (r: String)
    requires
        start <= end <= line@.len(),
    ensures
        r@ == line@.subrange(start as int, end as int),
{
    let n = line.unicode_len();
    let mut r = String::new();
    let mut i: usize = 0;
    for c in it: line.chars()
        invariant
            n == line@.len(),
            it.seq() == line@,
            i == it.index(),
            start <= end <= line@.len(),
            r@ == line@.subrange(
                if i < start { i as int } else { start as int },
                if i < end { i as int } else { end as int },
            ),
    {
        assert(i < line@.len());
        if start <= i && i < end {
            string_push(&mut r, c);
        }
        i = i + 1;
        proof {
            assert(r@ =~= line@.subrange(
                if i < start { i as int } else { start as int },
                if i < end { i as int } else { end as int },
            ));
        }
    }
    r
}

/// Returns `line` with `completion` in place of its characters in
/// `[start, end)`, and the position right after the completion; positions
/// are counted in characters.
pub fn splice_completion(line: &str, start: usize, end: usize, completion: &str) -> (r: (
    String,
    usize,
))
    requires
        start <= end <= line@.len(),
        start + completion@.len() <= usize::MAX,
    ensures
        r.0@ == line@.subrange(0, start as int) + completion@ + line@.subrange(
            end as int,
            line@.len() as int,
        ),
        r.1 == start + completion@.len(),
{
    let n = line.unicode_len();
    let mut r = String::new();
    let mut i: usize = 0;
    for c in it: line.chars()
        invariant
            n == line@.len(),
            it.seq() == line@,
            i == it.index(),
            start <= end <= line@.len(),
            i <= start ==> r@ == line@.subrange(0, i as int),
            start < i ==> r@ == line@.subrange(0, start as int),
    {
        assert(i < line@.len());
        if i < start {
            string_push(&mut r, c);
        }
        i = i + 1;
        proof {
            if i <= start {
                assert(r@ =~= line@.subrange(0, i as int));
            }
        }
    }
    let m = completion.unicode_len();
    let mut count: usize = 0;
    for c in it: completion.chars()
        invariant
            m == completion@.len(),
            it.seq() == completion@,
            count == it.index(),
            start + completion@.len() <= usize::MAX,
            r@ == line@.subrange(0, start as int) + completion@.subrange(0, count as int),
    {
        assert(count < m);
        string_push(&mut r, c);
        count = count + 1;
        proof {
            assert(r@ =~= line@.subrange(0, start as int) + completion@.subrange(0, count as int));
        }
    }
    let ghost head = r@;
    proof {
        assert(completion@.subrange(0, count as int) =~= completion@);
    }
    let mut j: usize = 0;
    for c in it: line.chars()
        invariant
            n == line@.len(),
            it.seq() == line@,
            j == it.index(),
            end <= line@.len(),
            r@ == head + line@.subrange(
                end as int,
                if j < end { end as int } else { j as int },
            ),
    {
        assert(j < line@.len());
        if j >= end {
            string_push(&mut r, c);
        }
        j = j + 1;
        proof {
            assert(r@ =~= head + line@.subrange(end as int, if j < end { end as int } else { j as int }));
        }
    }
    (r, start + count)
}

/// Returns the directory that file completion starts from for `query`:
/// the query itself where it is an absolute path, else the current
/// directory, `.`.
pub fn filesystem_root(query: &str) -> (r: String)
    ensures
        query@.len() > 0 && query@[0] == '/' ==> r@ == query@,
        !(query@.len() > 0 && query@[0] == '/') ==> r@ == seq!['.'],
{
    if query.unicode_len() > 0 && query.get_char(0) == '/' {
        query.to_owned()
    } else {
        let r = ".".to_owned();
        proof {
            reveal_strlit(".");
        }
        r
    }
}

} // verus!
