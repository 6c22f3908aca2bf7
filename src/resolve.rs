//! The decision table that fixes where a group of tokens ends in its
//! original source, from the group's own position, the next group and the
//! line lengths of the source.
use vstd::prelude::*;
use crate::lines::ints;

verus! {

/// The last line in `[lo, from]` with at least one character, searching
/// backward from `from`.
pub open spec fn last_nonblank(lens: Seq<int>, from: int, lo: int) -> Option<int>
    decreases from - lo + 1,
{
    if from < lo || from < 0 || from >= lens.len() {
        None
    } else if lens[from] > 0 {
        Some(from)
    } else {
        last_nonblank(lens, from - 1, lo)
    }
}

/// The last non-blank line from the end of the file back to line `lo`, at
/// its last column; where there is none, the position `(line, col)` itself.
pub open spec fn end_by_file_end(lens: Seq<int>, lo: int, line: int, col: int) -> (int, int) {
    match last_nonblank(lens, lens.len() - 1, lo) {
        Some(j) => (j, lens[j] - 1),
        None => (line, col),
    }
}

/// Where a group that starts at `(line, col)` of a source with line lengths
/// `lens` begins and ends: `(start_line, start_col, end_line, end_col)`.
/// `next` is the next group in sort order, if any: whether it lies in the
/// same source, and its line and column. The start is always the group's own
/// position.
pub open spec fn resolve_span(lens: Seq<int>, line: int, col: int, next: Option<(bool, int, int)>) -> (
    int,
    int,
    int,
    int,
) {
    let cross_line = col >= lens[line];
    match next {
        None => {
            if cross_line {
                let e = end_by_file_end(lens, line, line, col);
                (line, col, e.0, e.1)
            } else {
                (line, col, line, lens[line] - 1)
            }
        },
        Some((same_source, nl, nc)) => {
            if !same_source {
                if cross_line {
                    let e = end_by_file_end(lens, line, line, col);
                    (line, col, e.0, e.1)
                } else {
                    (line, col, line, lens[line] - 1)
                }
            } else if cross_line {
                if nc > 0 {
                    (line, col, nl, nc - 1)
                } else {
                    match last_nonblank(lens, nl - 1, line) {
                        Some(j) => if j != line {
                            (line, col, j, lens[j] - 1)
                        } else {
                            (line, col, line, col)
                        },
                        None => (line, col, line, col),
                    }
                }
            } else if nl == line {
                (line, col, line, nc - 1)
            } else {
                (line, col, line, lens[line] - 1)
            }
        },
    }
}

proof fn lemma_last_nonblank(lens: Seq<int>, from: int, lo: int)
    ensures
        last_nonblank(lens, from, lo) is Some ==> {
            let j = last_nonblank(lens, from, lo)->0;
            &&& lo <= j <= from
            &&& 0 <= j < lens.len()
            &&& lens[j] > 0
        },
    decreases from - lo + 1,
{
    if !(from < lo || from < 0 || from >= lens.len()) && lens[from] <= 0 {
        lemma_last_nonblank(lens, from - 1, lo);
    }
}

/// The search of `last_nonblank`, with `from` below the number of lines.
fn last_nonblank_exec(lens: &Vec<u32>, from: u32, lo: u32) -> (r: Option<u32>)
    requires
        from < lens.len(),
    ensures
        r is None ==> last_nonblank(ints(lens@), from as int, lo as int) is None,
        r is Some ==> last_nonblank(ints(lens@), from as int, lo as int) == Some(r->0 as int),
{
    let ghost l = ints(lens@);
    let mut i: u32 = from;
    loop
        invariant
            l == ints(lens@),
            i <= from < lens.len(),
            last_nonblank(l, from as int, lo as int) == last_nonblank(l, i as int, lo as int),
        decreases i,
    {
        if i < lo {
            return None;
        }
        if lens[i as usize] > 0 {
            return Some(i);
        }
        if i == 0 {
            assert(last_nonblank(l, -1, lo as int) is None);
            return None;
        }
        i = i - 1;
    }
}

/// The span of a group, as `resolve_span` states it, in machine integers.
pub fn resolve_group_span(lens: &Vec<u32>, line: u32, col: u32, next: Option<(bool, u32, u32)>) -> (r: (
    u32,
    u32,
    u32,
    u32,
))
    requires
        line < lens.len() <= u32::MAX,
        next matches Some((same, nl, nc)) ==> (same ==> nl < lens.len() && line <= nl && (nl
            == line ==> col < nc)),
    ensures
        ({
            let s = resolve_span(
                ints(lens@),
                line as int,
                col as int,
                match next {
                    Some((same, nl, nc)) => Some((same, nl as int, nc as int)),
                    None => None,
                },
            );
            r.0 as int == s.0 && r.1 as int == s.1 && r.2 as int == s.2 && r.3 as int == s.3
        }),
{
    let ghost l = ints(lens@);
    let li = line as usize;
    let cross_line = col >= lens[li];
    let last: u32 = (lens.len() - 1) as u32;
    match next {
        None => {
            if cross_line {
                let found = last_nonblank_exec(lens, last, line);
                proof {
                    lemma_last_nonblank(l, last as int, line as int);
                }
                match found {
                    Some(j) => (line, col, j, lens[j as usize] - 1),
                    None => (line, col, line, col),
                }
            } else {
                (line, col, line, lens[li] - 1)
            }
        },
        Some((same_source, nl, nc)) => {
            if !same_source {
                if cross_line {
                    let found = last_nonblank_exec(lens, last, line);
                    proof {
                        lemma_last_nonblank(l, last as int, line as int);
                    }
                    match found {
                        Some(j) => (line, col, j, lens[j as usize] - 1),
                        None => (line, col, line, col),
                    }
                } else {
                    (line, col, line, lens[li] - 1)
                }
            } else if cross_line {
                if nc > 0 {
                    (line, col, nl, nc - 1)
                } else {
                    let found = last_nonblank_exec(lens, nl - 1, line);
                    proof {
                        lemma_last_nonblank(l, nl - 1, line as int);
                    }
                    match found {
                        Some(j) => if j != line {
                            (line, col, j, lens[j as usize] - 1)
                        } else {
                            (line, col, line, col)
                        },
                        None => (line, col, line, col),
                    }
                }
            } else if nl == line {
                (line, col, line, nc - 1)
            } else {
                (line, col, line, lens[li] - 1)
            }
        },
    }
}

} // verus!
