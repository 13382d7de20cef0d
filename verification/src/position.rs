//! The positional index: byte offsets to line/column positions and back.

use vstd::prelude::*;

verus! {

/// A zero-based line/column position. Columns count bytes.
#[derive(Clone, Copy, Debug, PartialEq, Eq, Structural)]
pub struct Position {
    pub line: usize,
    pub character: usize,
}

/// Is `starts` the line-start table of `text`: offset 0, then the offset
/// just past each newline, in order?
pub open spec fn line_starts_ok(starts: Seq<usize>, text: Seq<u8>) -> bool {
    &&& starts.len() >= 1
    &&& starts[0] == 0
    &&& forall|j: int| 0 < j < starts.len()
        ==> 0 < #[trigger] starts[j] <= text.len() && text[starts[j] - 1] == 10
    &&& forall|j1: int, j2: int| 0 <= j1 < j2 < starts.len()
        ==> #[trigger] starts[j1] < #[trigger] starts[j2]
    &&& forall|p: int| 0 <= p < text.len() && #[trigger] text[p] == 10 ==> exists|j: int|
        0 < j < starts.len() && starts[j] == p + 1
}

/// Build the line-start table of `text`.
pub fn build_line_starts(text: &Vec<u8>) -> (r: Vec<usize>)
    ensures
        line_starts_ok(r@, text@),
{
    let mut starts: Vec<usize> = Vec::new();
    starts.push(0);
    let n = text.len();
    let mut p: usize = 0;
    while p < n
        invariant
            n == text@.len(),
            p <= n,
            starts@.len() >= 1,
            starts@[0] == 0,
            forall|j: int| 0 < j < starts@.len()
                ==> 0 < #[trigger] starts@[j] <= p && text@[starts@[j] - 1] == 10,
            forall|j1: int, j2: int| 0 <= j1 < j2 < starts@.len()
                ==> #[trigger] starts@[j1] < #[trigger] starts@[j2],
            forall|q: int| 0 <= q < p && #[trigger] text@[q] == 10 ==> exists|j: int|
                0 < j < starts@.len() && starts@[j] == q + 1,
        decreases n - p,
    {
        if text[p] == 10 {
            let ghost s0 = starts@;
            proof {
                assert forall|j1: int, j2: int| 0 <= j1 < j2 < s0.len() + 1 implies
                    #[trigger] s0.push((p + 1) as usize)[j1] < #[trigger] s0.push(
                    (p + 1) as usize,
                )[j2] by {
                    if j2 == s0.len() {
                        if j1 == 0 {
                        } else {
                            assert(s0[j1] <= p);
                        }
                    }
                }
            }
            starts.push(p + 1);
            proof {
                assert(starts@[starts@.len() - 1] == p + 1);
                assert forall|q: int| 0 <= q < p + 1 && #[trigger] text@[q] == 10 implies exists|
                    j: int,
                |
                    0 < j < starts@.len() && starts@[j] == q + 1 by {
                    if q < p {
                        let j0 = choose|j0: int| 0 < j0 < s0.len() && s0[j0] == q + 1;
                        assert(starts@[j0] == q + 1);
                    } else {
                        assert(starts@[starts@.len() - 1] == q + 1);
                    }
                }
            }
        }
        p += 1;
    }
    starts
}

/// The index of the last line start at or before `off`, scanning from `j`.
pub open spec fn line_of(starts: Seq<usize>, off: int, j: int) -> int
    decreases starts.len() - j,
{
    if j + 1 < starts.len() && starts[j + 1] <= off {
        line_of(starts, off, j + 1)
    } else {
        j
    }
}

/// The position of byte offset `off`: line `line_of`, column the distance
/// from that line's start.
pub open spec fn position_of(starts: Seq<usize>, off: int) -> Position {
    let l = line_of(starts, off, 0);
    Position { line: l as usize, character: (off - starts[l]) as usize }
}

/// The line/column of byte offset `off`: the last line start at or before it.
pub fn position_at(starts: &Vec<usize>, off: usize) -> (r: Position)
    requires
        starts@.len() >= 1,
        starts@[0] == 0,
        forall|j1: int, j2: int| 0 <= j1 < j2 < starts@.len()
            ==> #[trigger] starts@[j1] < #[trigger] starts@[j2],
    ensures
        r == position_of(starts@, off as int),
        r.line < starts@.len(),
        starts@[r.line as int] <= off,
        r.line + 1 < starts@.len() ==> off < starts@[r.line as int + 1],
        r.character == off - starts@[r.line as int],
{
    let n = starts.len();
    let mut line: usize = 0;
    while line + 1 < n && starts[line + 1] <= off
        invariant
            n == starts@.len(),
            line < n,
            starts@[line as int] <= off,
            line_of(starts@, off as int, 0) == line_of(starts@, off as int, line as int),
            forall|j1: int, j2: int| 0 <= j1 < j2 < starts@.len()
                ==> #[trigger] starts@[j1] < #[trigger] starts@[j2],
        decreases n - line,
    {
        line += 1;
    }
    proof {
        assert(line_of(starts@, off as int, line as int) == line);
    }
    Position { line, character: off - starts[line] }
}

/// The byte offset of a line/column position, or `None` when the position
/// lies outside the document's lines.
pub fn offset_at(starts: &Vec<usize>, text_len: usize, pos: Position) -> (r: Option<usize>)
    requires
        forall|j1: int, j2: int| 0 <= j1 < j2 < starts@.len()
            ==> #[trigger] starts@[j1] < #[trigger] starts@[j2],
    ensures
        r is Some <==> (pos.line < starts@.len() && starts@[pos.line as int] + pos.character
            <= text_len),
        match r {
            Some(off) => pos.line < starts@.len() && off == starts@[pos.line as int]
                + pos.character && off <= text_len,
            None => true,
        },
{
    if pos.line >= starts.len() {
        return None;
    }
    let base = starts[pos.line];
    if pos.character > text_len || base > text_len - pos.character {
        return None;
    }
    Some(base + pos.character)
}

} // verus!
