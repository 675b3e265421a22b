use vstd::prelude::*;

use crate::model::document::{InlineRange, Position};
use crate::model::LineRange;
use vstd::string::StringSliceAdditionalSpecFns;

verus! {

/// Where the line that starts at byte `i` ends: the offset of the first `\n` at or after
/// `i`, or the length of the text when there is none.
pub open spec fn line_end(b: Seq<u8>, i: int) -> int
    decreases b.len() - i,
{
    if i >= b.len() {
        b.len() as int
    } else if b[i] == 10 {
        i
    } else {
        line_end(b, i + 1)
    }
}

pub proof fn lemma_line_end(b: Seq<u8>, i: int)
    requires
        0 <= i,
    ensures
        i <= b.len() ==> i <= line_end(b, i) <= b.len(),
        i > b.len() ==> line_end(b, i) == b.len(),
        line_end(b, i) < b.len() ==> b[line_end(b, i)] == 10,
    decreases b.len() - i,
{
    if i < b.len() && b[i] != 10 {
        lemma_line_end(b, i + 1);
    }
}

/// The length in bytes of the line that starts at `i`, as `str::lines` yields it: without
/// its `\n`, and without a `\r` just before that `\n`.
pub open spec fn line_len(b: Seq<u8>, i: int) -> int {
    let e = line_end(b, i);
    if e < b.len() && e > i && b[e - 1] == 13 {
        e - 1 - i
    } else {
        e - i
    }
}

/// The lengths of the lines of `b` from the line that starts at `i` on.
pub open spec fn line_lens(b: Seq<u8>, i: int) -> Seq<int>
    decreases b.len() + 1 - i,
{
    if i < 0 || i >= b.len() {
        Seq::empty()
    } else {
        proof {
            lemma_line_end(b, i);
        }
        seq![line_len(b, i)] + line_lens(b, line_end(b, i) + 1)
    }
}

/// The starts that lines of the given lengths get when each is counted with one byte for
/// its line break: 0, then the running sums.
pub open spec fn starts_of(lens: Seq<int>) -> Seq<int>
    decreases lens.len(),
{
    if lens.len() == 0 {
        seq![0]
    } else {
        let s = starts_of(lens.drop_last());
        s.push(s.last() + lens.last() + 1)
    }
}

/// The line starts of a text given by its bytes.
pub open spec fn text_line_starts(b: Seq<u8>) -> Seq<int> {
    starts_of(line_lens(b, 0))
}

pub proof fn lemma_starts_of_len(lens: Seq<int>)
    ensures
        starts_of(lens).len() == lens.len() + 1,
    decreases lens.len(),
{
    if lens.len() > 0 {
        lemma_starts_of_len(lens.drop_last());
    }
}

/// The start offset of each line of `content`, counting one byte for each line break, and
/// the offset just past the last line.
pub fn line_starts(content: &str) -> (r: Vec<usize>)
    requires
        content.spec_bytes().len() < usize::MAX,
    ensures
        r@.len() == text_line_starts(content.spec_bytes()).len(),
        forall|k: int|
            0 <= k < r@.len() ==> r@[k] as int == #[trigger] text_line_starts(
                content.spec_bytes(),
            )[k],
{
    let bytes = content.as_bytes();
    let ghost b = content.spec_bytes();
    let n = bytes.len();
    let mut r: Vec<usize> = Vec::new();
    r.push(0);
    let mut acc: usize = 0;
    let mut i: usize = 0;
    let ghost mut done: Seq<int> = Seq::empty();
    proof {
        assert(b == bytes@);
        assert(done + line_lens(b, 0) =~= line_lens(b, 0));
    }
    while i < n
        invariant
            b == bytes@,
            n == b.len(),
            n < usize::MAX,
            i <= n + 1,
            line_lens(b, 0) == done + line_lens(b, i as int),
            r@.len() == starts_of(done).len(),
            forall|k: int| 0 <= k < r@.len() ==> r@[k] as int == #[trigger] starts_of(done)[k],
            acc as int == starts_of(done).last(),
            acc <= i,
        decreases n + 1 - i,
    {
        let mut j = i;
        while j < n && bytes[j] != 10
            invariant
                b == bytes@,
                n == b.len(),
                i <= j <= n,
                line_end(b, i as int) == line_end(b, j as int),
            decreases n - j,
        {
            j = j + 1;
        }
        let mut len = j - i;
        if j < n && j > i && bytes[j - 1] == 13 {
            len = len - 1;
        }
        proof {
            lemma_line_end(b, i as int);
            lemma_starts_of_len(done);
            assert(line_end(b, i as int) == j);
            assert(len == line_len(b, i as int));
            assert(line_lens(b, i as int) == seq![line_len(b, i as int)] + line_lens(
                b,
                j + 1,
            ));
            assert(done + line_lens(b, i as int) =~= done.push(len as int) + line_lens(
                b,
                j + 1,
            ));
            assert(done.push(len as int).drop_last() =~= done);
        }
        acc = acc + len + 1;
        r.push(acc);
        proof {
            done = done.push(len as int);
        }
        i = j + 1;
    }
    proof {
        assert(line_lens(b, i as int) =~= Seq::<int>::empty());
        assert(done + Seq::<int>::empty() =~= done);
    }
    r
}

/// The index of the last line that starts at or before `offset`, or 0 when none does.
pub open spec fn line_of_offset(starts: Seq<usize>, offset: int) -> int
    decreases starts.len(),
{
    if starts.len() == 0 {
        0
    } else if starts.last() <= offset {
        starts.len() - 1
    } else {
        line_of_offset(starts.drop_last(), offset)
    }
}

/// How far `offset` lies past the start of its line, or 0 when no line starts at or before
/// it.
pub open spec fn column_of_offset(starts: Seq<usize>, offset: int) -> int
    decreases starts.len(),
{
    if starts.len() == 0 {
        0
    } else if starts.last() <= offset {
        offset - starts.last()
    } else {
        column_of_offset(starts.drop_last(), offset)
    }
}

pub proof fn lemma_line_of_offset_bounds(starts: Seq<usize>, offset: int)
    ensures
        0 <= line_of_offset(starts, offset),
        starts.len() > 0 ==> line_of_offset(starts, offset) < starts.len(),
        0 <= column_of_offset(starts, offset),
    decreases starts.len(),
{
    if starts.len() > 0 {
        lemma_line_of_offset_bounds(starts.drop_last(), offset);
    }
}

/// An offset never lies on an earlier line than a smaller offset.
pub proof fn law_line_of_offset_monotone(starts: Seq<usize>, a: int, b: int)
    requires
        a <= b,
    ensures
        line_of_offset(starts, a) <= line_of_offset(starts, b),
    decreases starts.len(),
{
    lemma_line_of_offset_bounds(starts, b);
    if starts.len() > 0 {
        law_line_of_offset_monotone(starts.drop_last(), a, b);
        lemma_line_of_offset_bounds(starts.drop_last(), a);
    }
}

/// The lines that a range of bytes spans: from the line of its start up to, not including,
/// the line after the line of its end; a range within one line spans that line.
pub open spec fn lines_of_range(starts: Seq<usize>, start: int, end: int) -> LineRange {
    let a = line_of_offset(starts, start);
    let b = line_of_offset(starts, end);
    if a == b {
        LineRange { start: a as usize, end: (b + 1) as usize }
    } else {
        LineRange { start: a as usize, end: b as usize }
    }
}

/// The position of a byte offset: its line and its distance from that line's start.
pub open spec fn position_of(starts: Seq<usize>, offset: int) -> Position {
    Position {
        line: line_of_offset(starts, offset) as usize,
        character: column_of_offset(starts, offset) as usize,
    }
}

/// The lines that the byte range `start..end` spans, given the line starts.
pub fn to_line_range(starts: &Vec<usize>, start: usize, end: usize) -> (r: LineRange)
    ensures
        r == lines_of_range(starts@, start as int, end as int),
{
    let mut a: usize = 0;
    let mut b: usize = 0;
    let mut i: usize = 0;
    while i < starts.len()
        invariant
            i <= starts@.len(),
            a as int == line_of_offset(starts@.take(i as int), start as int),
            b as int == line_of_offset(starts@.take(i as int), end as int),
        decreases starts@.len() - i,
    {
        assert(starts@.take(i + 1).drop_last() == starts@.take(i as int));
        if starts[i] <= start {
            a = i;
        }
        if starts[i] <= end {
            b = i;
        }
        i = i + 1;
    }
    assert(starts@.take(starts@.len() as int) == starts@);
    proof {
        lemma_line_of_offset_bounds(starts@, end as int);
    }
    if a == b {
        b = b + 1;
    }
    LineRange { start: a, end: b }
}

/// The positions where the byte range `start..end` begins and ends, given the line starts.
pub fn to_inline_range(starts: &Vec<usize>, start: usize, end: usize) -> (r: InlineRange)
    ensures
        r == (InlineRange {
            start: position_of(starts@, start as int),
            end: position_of(starts@, end as int),
        }),
{
    let mut a: usize = 0;
    let mut a_char: usize = 0;
    let mut b: usize = 0;
    let mut b_char: usize = 0;
    let mut i: usize = 0;
    while i < starts.len()
        invariant
            i <= starts@.len(),
            a as int == line_of_offset(starts@.take(i as int), start as int),
            a_char as int == column_of_offset(starts@.take(i as int), start as int),
            b as int == line_of_offset(starts@.take(i as int), end as int),
            b_char as int == column_of_offset(starts@.take(i as int), end as int),
        decreases starts@.len() - i,
    {
        assert(starts@.take(i + 1).drop_last() == starts@.take(i as int));
        let line_start = starts[i];
        if line_start <= start {
            a = i;
            a_char = start - line_start;
        }
        if line_start <= end {
            b = i;
            b_char = end - line_start;
        }
        i = i + 1;
    }
    assert(starts@.take(starts@.len() as int) == starts@);
    InlineRange {
        start: Position { line: a, character: a_char },
        end: Position { line: b, character: b_char },
    }
}

/// A range that does not run backwards spans at least one line.
pub proof fn law_line_range_not_empty(starts: Seq<usize>, start: int, end: int)
    requires
        start <= end,
        starts.len() < usize::MAX,
    ensures
        lines_of_range(starts, start, end).start < lines_of_range(starts, start, end).end,
{
    law_line_of_offset_monotone(starts, start, end);
    lemma_line_of_offset_bounds(starts, start);
    lemma_line_of_offset_bounds(starts, end);
}

} // verus!
