//! Line tables of a text: the character count of each line, and the flat
//! character offset at which each line starts.
use vstd::prelude::*;

verus! {

/// A sequence of machine integers read as mathematical integers.
pub open spec fn ints(v: Seq<u32>) -> Seq<int> {
    v.map_values(|x: u32| x as int)
}

/// The character count of each line of `s`, lines being separated by `'\n'`;
/// a text of `k` line breaks has `k + 1` lines, blank ones counting zero.
pub open spec fn line_lengths(s: Seq<char>) -> Seq<int>
    decreases s.len(),
{
    if s.len() == 0 {
        seq![0]
    } else {
        let p = line_lengths(s.drop_last());
        if s.last() == '\n' {
            p.push(0)
        } else {
            p.update(p.len() - 1, p.last() + 1)
        }
    }
}

/// The flat offset of the start of each line, from the line lengths: each
/// line takes its characters and one line break. The last entry is the
/// offset just past the end.
pub open spec fn line_starts(lens: Seq<int>) -> Seq<int>
    decreases lens.len(),
{
    if lens.len() == 0 {
        seq![0]
    } else {
        let p = line_starts(lens.drop_last());
        p.push(p.last() + lens.last() + 1)
    }
}

pub proof fn lemma_line_lengths(s: Seq<char>)
    ensures
        1 <= line_lengths(s).len() <= s.len() + 1,
        forall|i: int| 0 <= i < line_lengths(s).len() ==> 0 <= #[trigger] line_lengths(s)[i] <= s.len(),
        line_starts(line_lengths(s)).last() == s.len() + 1,
    decreases s.len(),
{
    if s.len() == 0 {
        assert(seq![0int].drop_last() =~= Seq::<int>::empty());
        assert(line_starts(Seq::<int>::empty()) == seq![0int]);
        assert(line_starts(seq![0int]).last() == 1);
    } else {
        let q = s.drop_last();
        lemma_line_lengths(q);
        let p = line_lengths(q);
        if s.last() != '\n' {
            let u = p.update(p.len() - 1, p.last() + 1);
            assert(u.drop_last() =~= p.drop_last());
            assert(line_starts(p) == line_starts(p.drop_last()).push(
                line_starts(p.drop_last()).last() + p.last() + 1,
            ));
            assert(line_starts(u) == line_starts(u.drop_last()).push(
                line_starts(u.drop_last()).last() + u.last() + 1,
            ));
        } else {
            assert(p.push(0).drop_last() =~= p);
            assert(line_starts(p.push(0)) == line_starts(p).push(line_starts(p).last() + 0 + 1));
        }
    }
}

pub proof fn lemma_line_starts(lens: Seq<int>)
    requires
        forall|i: int| 0 <= i < lens.len() ==> 0 <= #[trigger] lens[i],
    ensures
        line_starts(lens).len() == lens.len() + 1,
        line_starts(lens)[0] == 0,
        forall|i: int|
            0 <= i < lens.len() ==> #[trigger] line_starts(lens)[i + 1] == line_starts(lens)[i]
                + lens[i] + 1,
        forall|i: int, j: int|
            0 <= i <= j <= lens.len() ==> line_starts(lens)[i] <= line_starts(lens)[j],
    decreases lens.len(),
{
    if lens.len() > 0 {
        let q = lens.drop_last();
        lemma_line_starts(q);
        let p = line_starts(q);
        assert forall|i: int, j: int| 0 <= i <= j <= lens.len() implies line_starts(lens)[i]
            <= line_starts(lens)[j] by {
            if j == lens.len() && i < j {
                assert(p[i] <= p[q.len() as int]);
            }
        }
    }
}

/// The character count of each line of `s`.
pub fn line_length_table(s: &Vec<char>) -> (r: Vec<u32>)
    requires
        s.len() <= u32::MAX,
    ensures
        ints(r@) == line_lengths(s@),
{
    let mut done: Vec<u32> = Vec::new();
    let mut cur: u32 = 0;
    let mut i: usize = 0;
    assert(s@.subrange(0, 0) =~= Seq::<char>::empty());
    assert(ints(done@).push(0) =~= seq![0int]);
    while i < s.len()
        invariant
            i <= s.len() <= u32::MAX,
            cur <= i,
            ints(done@).push(cur as int) == line_lengths(s@.subrange(0, i as int)),
        decreases s.len() - i,
    {
        let ghost before = ints(done@).push(cur as int);
        assert(s@.subrange(0, i + 1).drop_last() =~= s@.subrange(0, i as int));
        if s[i] == '\n' {
            done.push(cur);
            cur = 0;
            assert(ints(done@).push(0) =~= before.push(0));
        } else {
            cur = cur + 1;
            assert(ints(done@).push(cur as int) =~= before.update(
                before.len() - 1,
                before.last() + 1,
            ));
        }
        i = i + 1;
    }
    done.push(cur);
    assert(s@.subrange(0, s.len() as int) =~= s@);
    assert(ints(done@) =~= line_lengths(s@));
    done
}

/// The flat offset of the start of each line, and one past the end.
pub fn line_start_table(lens: &Vec<u32>) -> (r: Vec<u32>)
    requires
        line_starts(ints(lens@)).last() <= u32::MAX,
    ensures
        ints(r@) == line_starts(ints(lens@)),
        r@.len() == lens@.len() + 1,
{
    let ghost all = line_starts(ints(lens@));
    proof {
        lemma_line_starts(ints(lens@));
    }
    let mut r: Vec<u32> = Vec::new();
    r.push(0);
    let mut i: usize = 0;
    while i < lens.len()
        invariant
            i <= lens.len(),
            all == line_starts(ints(lens@)),
            all.len() == lens.len() + 1,
            all.last() <= u32::MAX,
            forall|a: int, b: int| 0 <= a <= b <= lens.len() ==> all[a] <= all[b],
            forall|k: int| 0 <= k < lens.len() ==> #[trigger] all[k + 1] == all[k] + lens@[k] + 1,
            r@.len() == i + 1,
            forall|k: int| 0 <= k <= i ==> r@[k] as int == all[k],
        decreases lens.len() - i,
    {
        assert(all[i + 1] == all[i as int] + lens@[i as int] + 1);
        assert(all[i + 1] <= all[lens.len() as int]);
        let next = r[i] + lens[i] + 1;
        r.push(next);
        i = i + 1;
    }
    assert(all[0] == 0);
    assert(ints(r@) =~= all);
    r
}

} // verus!
