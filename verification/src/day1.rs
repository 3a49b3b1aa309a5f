//! First puzzle: groups of numbers separated by blank lines, one number per
//! line.  The first answer is the largest group total; the second is the sum
//! of the three largest group totals.

use vstd::prelude::*;

use crate::text;

verus! {

/// A failure to read the input.
#[derive(Clone, Copy, Debug, PartialEq, Eq, Structural)]
pub enum Error {
    /// The line at this index is neither a number nor a well-placed blank
    /// separator (an empty input reports line zero).
    Parse(usize),
}

/// Reading the lines from `i` on, with `cur` holding the numbers of the group
/// being collected: a number line extends the group, a blank line closes it
/// (a blank before any number is an error, reported by line index), and the
/// end of input closes a last nonempty group.
pub open spec fn parse_from(ls: Seq<Seq<char>>, i: int, cur: Seq<u64>) -> Result<
    Seq<Seq<u64>>,
    int,
>
    decreases ls.len() - i,
{
    if i < 0 || i >= ls.len() {
        if cur.len() == 0 {
            Ok(Seq::empty())
        } else {
            Ok(seq![cur])
        }
    } else if ls[i].len() == 0 {
        if cur.len() == 0 {
            Err(i)
        } else {
            match parse_from(ls, i + 1, Seq::empty()) {
                Ok(rest) => Ok(seq![cur] + rest),
                Err(e) => Err(e),
            }
        }
    } else if text::parses_u64(ls[i]) {
        parse_from(ls, i + 1, cur.push(text::digits_val(ls[i]) as u64))
    } else {
        Err(i)
    }
}

/// What reading the whole input yields: the groups of numbers, or the index
/// of the offending line.  An input with no group at all is rejected.
pub open spec fn parse_result(content: Seq<char>) -> Result<Seq<Seq<u64>>, int> {
    match parse_from(text::spec_lines(content), 0, Seq::empty()) {
        Ok(g) => if g.len() > 0 {
            Ok(g)
        } else {
            Err(0int)
        },
        Err(e) => Err(e),
    }
}

/// Appends the groups still to be read to the groups already read.
pub open spec fn glue(done: Seq<Seq<u64>>, rest: Result<Seq<Seq<u64>>, int>) -> Result<
    Seq<Seq<u64>>,
    int,
> {
    match rest {
        Ok(r) => Ok(done + r),
        Err(e) => Err(e),
    }
}

/// Reads the input into groups of numbers, or reports the offending line.
pub fn read_input(content: &str) -> (r: Result<Vec<Vec<u64>>, Error>)
    ensures
        parse_result(content@) matches Ok(g) ==> (r matches Ok(v) && v.deep_view() == g),
        parse_result(content@) matches Err(e) ==> r == Err::<Vec<Vec<u64>>, Error>(
            Error::Parse(e as usize),
        ),
{
    let ls = text::lines_of(content);
    let ghost lsv = ls.deep_view();
    let mut groups: Vec<Vec<u64>> = Vec::new();
    let mut cur: Vec<u64> = Vec::new();
    let mut i: usize = 0;
    proof {
        match parse_from(lsv, 0, Seq::<u64>::empty()) {
            Ok(rest) => {
                assert(Seq::<Seq<u64>>::empty() + rest =~= rest);
            },
            Err(_) => {},
        }
    }
    while i < ls.len()
        invariant
            i <= ls@.len(),
            lsv == ls.deep_view(),
            lsv.len() == ls@.len(),
            parse_from(lsv, 0, Seq::empty()) == glue(
                groups.deep_view(),
                parse_from(lsv, i as int, cur@),
            ),
        decreases ls@.len() - i,
    {
        let line = &ls[i];
        assert(line@ == lsv[i as int]);
        if line.len() == 0 {
            if cur.len() == 0 {
                assert(parse_from(lsv, i as int, cur@) == Err::<Seq<Seq<u64>>, int>(i as int));
                assert(parse_result(content@) == Err::<Seq<Seq<u64>>, int>(i as int));
                return Err(Error::Parse(i));
            }
            let ghost done = groups.deep_view();
            let ghost closed = cur@;
            assert(cur.deep_view() =~= closed);
            groups.push(cur);
            cur = Vec::new();
            assert(groups.deep_view() =~= done.push(closed));
            proof {
                match parse_from(lsv, i + 1, Seq::<u64>::empty()) {
                    Ok(rest) => {
                        assert(done + (seq![closed] + rest) =~= done.push(closed) + rest);
                    },
                    Err(_) => {},
                }
            }
        } else {
            match text::parse_u64(line) {
                Some(n) => {
                    cur.push(n);
                },
                None => {
                    return Err(Error::Parse(i));
                },
            }
        }
        i = i + 1;
    }
    if cur.len() > 0 {
        let ghost done = groups.deep_view();
        let ghost closed = cur@;
        assert(cur.deep_view() =~= closed);
        groups.push(cur);
        assert(groups.deep_view() =~= done.push(closed));
        assert(done + seq![closed] =~= done.push(closed));
    } else {
        assert(groups.deep_view() + Seq::<Seq<u64>>::empty() =~= groups.deep_view());
    }
    if groups.len() == 0 {
        return Err(Error::Parse(0));
    }
    Ok(groups)
}

/// The total of each group.
pub fn compute_calories(elves: Vec<Vec<u64>>) -> (r: Vec<u64>)
    requires
        forall|i: int|
            0 <= i < elves@.len() ==> text::sum_u64(#[trigger] elves.deep_view()[i]) <= u64::MAX,
    ensures
        r@.len() == elves@.len(),
        forall|i: int|
            0 <= i < elves@.len() ==> r@[i] == text::sum_u64(#[trigger] elves.deep_view()[i]),
{
    let mut r: Vec<u64> = Vec::new();
    let mut i: usize = 0;
    while i < elves.len()
        invariant
            i <= elves@.len(),
            r@.len() == i,
            forall|j: int|
                0 <= j < elves@.len() ==> text::sum_u64(#[trigger] elves.deep_view()[j])
                    <= u64::MAX,
            forall|j: int|
                0 <= j < i ==> r@[j] == text::sum_u64(#[trigger] elves.deep_view()[j]),
        decreases elves@.len() - i,
    {
        assert(elves.deep_view()[i as int] == elves@[i as int]@);
        let s = text::sum_all(&elves[i]);
        r.push(s);
        i = i + 1;
    }
    r
}

/// The largest of the totals, if there is any.
pub fn max_calories(elves_calories: Vec<u64>) -> (r: Option<u64>)
    ensures
        (r is None) <==> elves_calories@.len() == 0,
        r matches Some(m) ==> elves_calories@.contains(m) && (forall|j: int|
            0 <= j < elves_calories@.len() ==> elves_calories@[j] <= m),
{
    if elves_calories.len() == 0 {
        return None;
    }
    let mut m = elves_calories[0];
    let mut i: usize = 1;
    while i < elves_calories.len()
        invariant
            1 <= i <= elves_calories@.len(),
            elves_calories@.contains(m),
            forall|j: int| 0 <= j < i ==> elves_calories@[j] <= m,
        decreases elves_calories@.len() - i,
    {
        if elves_calories[i] > m {
            m = elves_calories[i];
        }
        i = i + 1;
    }
    Some(m)
}

/// The group totals, as numbers (meaningful when every total fits).
pub open spec fn group_totals(g: Seq<Seq<u64>>) -> Seq<u64> {
    Seq::new(g.len(), |i: int| text::sum_u64(g[i]) as u64)
}

/// Whether every group total fits in a `u64`.
pub open spec fn totals_fit(content: Seq<char>) -> bool {
    match parse_result(content) {
        Ok(g) => forall|i: int| 0 <= i < g.len() ==> text::sum_u64(#[trigger] g[i]) <= u64::MAX,
        Err(_) => true,
    }
}

/// The sum of the three largest values (of all of them, when there are fewer
/// than three).
pub open spec fn top_three_total(s: Seq<u64>) -> int {
    let t = text::sorted_u64(s);
    let k: int = if t.len() >= 3 {
        t.len() - 3
    } else {
        0
    };
    text::sum_u64(t.skip(k))
}

/// Whether the sum of the three largest group totals fits in a `u64`.
pub open spec fn top_three_fits(content: Seq<char>) -> bool {
    match parse_result(content) {
        Ok(g) => top_three_total(group_totals(g)) <= u64::MAX,
        Err(_) => true,
    }
}

/// The largest group total of the input.
pub fn run_challenge1(content: &str) -> (r: Result<u64, Error>)
    requires
        totals_fit(content@),
    ensures
        parse_result(content@) matches Ok(g) ==> (r matches Ok(m) && group_totals(g).contains(m)
            && (forall|j: int| 0 <= j < g.len() ==> group_totals(g)[j] <= m)),
        parse_result(content@) matches Err(e) ==> r == Err::<u64, Error>(Error::Parse(e as usize)),
{
    let elves = match read_input(content) {
        Ok(v) => v,
        Err(e) => {
            return Err(e);
        },
    };
    let ghost g = parse_result(content@)->Ok_0;
    assert(elves.deep_view() == g);
    let sums = compute_calories(elves);
    assert(sums@ =~= group_totals(g));
    match max_calories(sums) {
        Some(m) => Ok(m),
        None => Err(Error::Parse(0)),
    }
}

/// The sum of the three largest group totals of the input.
pub fn run_challenge2(content: &str) -> (r: Result<u64, Error>)
    requires
        totals_fit(content@),
        top_three_fits(content@),
    ensures
        parse_result(content@) matches Ok(g) ==> r == Ok::<u64, Error>(
            top_three_total(group_totals(g)) as u64,
        ),
        parse_result(content@) matches Err(e) ==> r == Err::<u64, Error>(Error::Parse(e as usize)),
{
    let elves = match read_input(content) {
        Ok(v) => v,
        Err(e) => {
            return Err(e);
        },
    };
    let ghost g = parse_result(content@)->Ok_0;
    assert(elves.deep_view() == g);
    let mut sums = compute_calories(elves);
    assert(sums@ =~= group_totals(g));
    text::sort_u64(&mut sums);
    let ghost t = text::sorted_u64(group_totals(g));
    let start: usize = if sums.len() >= 3 {
        sums.len() - 3
    } else {
        0
    };
    let mut top: Vec<u64> = Vec::new();
    let mut i: usize = start;
    while i < sums.len()
        invariant
            start <= i <= sums@.len(),
            sums@ == t,
            top@ == sums@.subrange(start as int, i as int),
        decreases sums@.len() - i,
    {
        let v = sums[i];
        top.push(v);
        assert(top@ =~= sums@.subrange(start as int, i + 1));
        i = i + 1;
    }
    assert(top@ =~= t.skip(start as int));
    let total = text::sum_all(&top);
    Ok(total)
}

} // verus!
