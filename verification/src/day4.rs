//! Fourth puzzle: pairs of section ranges, one pair per line as
//! `a-b,c-d`.  The first answer counts the pairs in which one range contains
//! the other; the second counts the pairs that overlap at all.

use vstd::prelude::*;

use crate::text;

verus! {

/// A failure to read the input.
#[derive(Clone, Copy, Debug, PartialEq, Eq, Structural)]
pub enum Error {
    /// The line at this index is not a pair of ranges (an empty input reports
    /// line zero).
    Parse(usize),
}

/// A closed range of section numbers.
#[derive(Clone, Copy, Debug, PartialEq, Eq, Structural)]
pub struct Sections {
    pub lo: u32,
    pub hi: u32,
}

/// Whether `x` lies in the range (an empty range, with `lo > hi`, holds
/// nothing).
pub open spec fn sections_contain(s: Sections, x: u32) -> bool {
    s.lo <= x && x <= s.hi
}

/// The two ranges assigned to a pair of elves.
#[derive(Clone, Copy, Debug, PartialEq, Eq, Structural)]
pub struct ElfPair {
    pub left: Sections,
    pub right: Sections,
}

/// Whether one range of the pair contains the other whole.
pub open spec fn spec_overlap_fully(p: ElfPair) -> bool {
    (sections_contain(p.left, p.right.lo) && sections_contain(p.left, p.right.hi))
        || (sections_contain(p.right, p.left.lo) && sections_contain(p.right, p.left.hi))
}

/// Whether the two ranges of the pair share an endpoint's worth of overlap.
pub open spec fn spec_overlap_partially(p: ElfPair) -> bool {
    sections_contain(p.left, p.right.lo) || sections_contain(p.left, p.right.hi)
        || sections_contain(p.right, p.left.lo) || sections_contain(p.right, p.left.hi)
}

impl ElfPair {
    /// Whether one range of the pair contains the other whole.
    pub fn overlap_fully(&self) -> (r: bool)
        ensures
            r == spec_overlap_fully(*self),
    {
        self.left.lo <= self.right.lo && self.right.lo <= self.left.hi && self.left.lo
            <= self.right.hi && self.right.hi <= self.left.hi || self.right.lo <= self.left.lo
            && self.left.lo <= self.right.hi && self.right.lo <= self.left.hi && self.left.hi
            <= self.right.hi
    }

    /// Whether the two ranges overlap at all.
    pub fn overlap_partially(&self) -> (r: bool)
        ensures
            r == spec_overlap_partially(*self),
    {
        self.left.lo <= self.right.lo && self.right.lo <= self.left.hi || self.left.lo
            <= self.right.hi && self.right.hi <= self.left.hi || self.right.lo <= self.left.lo
            && self.left.lo <= self.right.hi || self.right.lo <= self.left.hi && self.left.hi
            <= self.right.hi
    }

    /// What a `a-b` segment means: a range with both endpoints.
    pub open spec fn spec_parse_range(s: Seq<char>) -> Option<Sections> {
        let j = text::spec_find(s, '-');
        if j < s.len() && text::parses_u32(s.take(j)) && text::parses_u32(
            s.subrange(j + 1, s.len() as int),
        ) {
            Some(
                Sections {
                    lo: text::digits_val(s.take(j)) as u32,
                    hi: text::digits_val(s.subrange(j + 1, s.len() as int)) as u32,
                },
            )
        } else {
            None
        }
    }

    /// What a whole line means: two ranges separated by a comma.
    pub open spec fn spec_parse(line: Seq<char>) -> Option<ElfPair> {
        let i = text::spec_find(line, ',');
        if i < line.len() {
            match (
                ElfPair::spec_parse_range(line.take(i)),
                ElfPair::spec_parse_range(line.subrange(i + 1, line.len() as int)),
            ) {
                (Some(left), Some(right)) => Some(ElfPair { left, right }),
                _ => None,
            }
        } else {
            None
        }
    }

    /// Reads a `a-b` segment of the line as a range.
    pub fn parse_range(line: &Vec<char>, lo: usize, hi: usize) -> (r: Option<Sections>)
        requires
            lo <= hi <= line@.len(),
        ensures
            r == ElfPair::spec_parse_range(line@.subrange(lo as int, hi as int)),
    {
        let ghost s = line@.subrange(lo as int, hi as int);
        let dash = text::find_from(line, lo, '-');
        proof {
            text::lemma_spec_find(s, '-');
            assert(forall|j: int| 0 <= j < s.len() ==> s[j] == line@[lo + j]);
            let f = text::spec_find(s, '-');
            if f < s.len() {
                assert(s[f] == '-');
            }
        }
        if dash >= hi {
            proof {
                if text::spec_find(s, '-') < s.len() {
                    assert(line@[lo + text::spec_find(s, '-')] == '-');
                }
            }
            return None;
        }
        assert(dash - lo == text::spec_find(s, '-')) by {
            let f = text::spec_find(s, '-');
            if f < dash - lo {
                assert(line@[lo + f] == '-');
            }
            if f > dash - lo {
                assert(s[dash - lo] != '-');
            }
        }
        assert(s.take(dash - lo) =~= line@.subrange(lo as int, dash as int));
        assert(s.subrange(dash - lo + 1, s.len() as int) =~= line@.subrange(
            dash + 1,
            hi as int,
        ));
        let a = match text::parse_u32_range(line, lo, dash) {
            Some(v) => v,
            None => {
                return None;
            },
        };
        let b = match text::parse_u32_range(line, dash + 1, hi) {
            Some(v) => v,
            None => {
                return None;
            },
        };
        Some(Sections { lo: a, hi: b })
    }

    /// Reads a whole line as a pair of ranges.
    pub fn parse(line: &Vec<char>) -> (r: Option<ElfPair>)
        ensures
            r == ElfPair::spec_parse(line@),
    {
        let ghost s = line@;
        let comma = text::find_from(line, 0, ',');
        proof {
            text::lemma_spec_find(s, ',');
            assert(s.skip(0) =~= s);
        }
        if comma >= line.len() {
            return None;
        }
        assert(s.take(comma as int) =~= line@.subrange(0, comma as int));
        assert(s.subrange(comma + 1, s.len() as int) =~= line@.subrange(
            comma + 1,
            line@.len() as int,
        ));
        let left = match ElfPair::parse_range(line, 0, comma) {
            Some(v) => v,
            None => {
                return None;
            },
        };
        let right = match ElfPair::parse_range(line, comma + 1, line.len()) {
            Some(v) => v,
            None => {
                return None;
            },
        };
        Some(ElfPair { left, right })
    }
}

/// Reading every line as a pair, from line `i` on; the index of the first
/// line that is no pair otherwise.
pub open spec fn pairs_from(ls: Seq<Seq<char>>, i: int) -> Result<Seq<ElfPair>, int>
    decreases ls.len() - i,
{
    if i < 0 || i >= ls.len() {
        Ok(Seq::empty())
    } else {
        match ElfPair::spec_parse(ls[i]) {
            Some(p) => match pairs_from(ls, i + 1) {
                Ok(rest) => Ok(seq![p] + rest),
                Err(e) => Err(e),
            },
            None => Err(i),
        }
    }
}

/// What the whole input means: at least one pair, one per line, or the index
/// of the offending line.
pub open spec fn parse_result(content: Seq<char>) -> Result<Seq<ElfPair>, int> {
    match pairs_from(text::spec_lines(content), 0) {
        Ok(ps) => if ps.len() > 0 {
            Ok(ps)
        } else {
            Err(0int)
        },
        Err(e) => Err(e),
    }
}

/// How many of the pairs have one range containing the other.
pub open spec fn count_full(ps: Seq<ElfPair>) -> int
    decreases ps.len(),
{
    if ps.len() == 0 {
        0
    } else {
        count_full(ps.drop_last()) + if spec_overlap_fully(ps.last()) {
            1int
        } else {
            0int
        }
    }
}

/// How many of the pairs overlap at all.
pub open spec fn count_partial(ps: Seq<ElfPair>) -> int
    decreases ps.len(),
{
    if ps.len() == 0 {
        0
    } else {
        count_partial(ps.drop_last()) + if spec_overlap_partially(ps.last()) {
            1int
        } else {
            0int
        }
    }
}

/// Both counts only grow along a sequence of pairs, one pair at a time.
proof fn lemma_count_bounds(ps: Seq<ElfPair>, n: int)
    requires
        0 <= n <= ps.len(),
    ensures
        0 <= count_full(ps.take(n)) <= n,
        0 <= count_partial(ps.take(n)) <= n,
    decreases n,
{
    if n > 0 {
        lemma_count_bounds(ps, n - 1);
        assert(ps.take(n).drop_last() =~= ps.take(n - 1));
    }
}

/// Reads the input into pairs, or reports the offending line.
pub fn read_input(content: &str) -> (r: Result<Vec<ElfPair>, Error>)
    ensures
        parse_result(content@) matches Ok(ps) ==> (r matches Ok(v) && v@ == ps),
        parse_result(content@) matches Err(e) ==> r == Err::<Vec<ElfPair>, Error>(
            Error::Parse(e as usize),
        ),
{
    let ls = text::lines_of(content);
    let ghost lsv = ls.deep_view();
    let mut pairs: Vec<ElfPair> = Vec::new();
    let mut i: usize = 0;
    while i < ls.len()
        invariant
            i <= ls@.len(),
            pairs_from(lsv, 0) matches Ok(all) ==> (pairs_from(lsv, i as int) matches Ok(rest)
                && all == pairs@ + rest),
            pairs_from(lsv, 0) is Err ==> pairs_from(lsv, i as int) is Err,
            pairs_from(lsv, i as int) matches Err(e) ==> pairs_from(lsv, 0) == Err::<
                Seq<ElfPair>,
                int,
            >(e),
        decreases ls@.len() - i,
    {
        let line = &ls[i];
        assert(line@ == lsv[i as int]);
        match ElfPair::parse(line) {
            Some(p) => {
                let ghost before = pairs@;
                pairs.push(p);
                proof {
                    if let Ok(rest) = pairs_from(lsv, i + 1) {
                        assert(before + (seq![p] + rest) =~= pairs@ + rest);
                    }
                }
            },
            None => {
                return Err(Error::Parse(i));
            },
        }
        i = i + 1;
    }
    assert(pairs@ + Seq::<ElfPair>::empty() =~= pairs@);
    if pairs.len() == 0 {
        return Err(Error::Parse(0));
    }
    Ok(pairs)
}

/// How many pairs have one range containing the other.
pub fn run_challenge1(content: &str) -> (r: Result<u32, Error>)
    requires
        parse_result(content@) matches Ok(ps) ==> ps.len() <= u32::MAX,
    ensures
        parse_result(content@) matches Ok(ps) ==> r == Ok::<u32, Error>(count_full(ps) as u32),
        parse_result(content@) matches Err(e) ==> r == Err::<u32, Error>(Error::Parse(e as usize)),
{
    let pairs = match read_input(content) {
        Ok(v) => v,
        Err(e) => {
            return Err(e);
        },
    };
    let mut count: u32 = 0;
    let mut i: usize = 0;
    while i < pairs.len()
        invariant
            i <= pairs@.len(),
            pairs@.len() <= u32::MAX,
            count == count_full(pairs@.take(i as int)),
            count <= i,
        decreases pairs@.len() - i,
    {
        proof {
            lemma_count_bounds(pairs@, i + 1);
            assert(pairs@.take(i + 1).drop_last() =~= pairs@.take(i as int));
            assert(pairs@.take(i + 1).last() == pairs@[i as int]);
        }
        if pairs[i].overlap_fully() {
            count = count + 1;
        }
        i = i + 1;
    }
    assert(pairs@.take(pairs@.len() as int) =~= pairs@);
    Ok(count)
}

/// How many pairs overlap at all.
pub fn run_challenge2(content: &str) -> (r: Result<u32, Error>)
    requires
        parse_result(content@) matches Ok(ps) ==> ps.len() <= u32::MAX,
    ensures
        parse_result(content@) matches Ok(ps) ==> r == Ok::<u32, Error>(count_partial(ps) as u32),
        parse_result(content@) matches Err(e) ==> r == Err::<u32, Error>(Error::Parse(e as usize)),
{
    let pairs = match read_input(content) {
        Ok(v) => v,
        Err(e) => {
            return Err(e);
        },
    };
    let mut count: u32 = 0;
    let mut i: usize = 0;
    while i < pairs.len()
        invariant
            i <= pairs@.len(),
            pairs@.len() <= u32::MAX,
            count == count_partial(pairs@.take(i as int)),
            count <= i,
        decreases pairs@.len() - i,
    {
        proof {
            lemma_count_bounds(pairs@, i + 1);
            assert(pairs@.take(i + 1).drop_last() =~= pairs@.take(i as int));
            assert(pairs@.take(i + 1).last() == pairs@[i as int]);
        }
        if pairs[i].overlap_partially() {
            count = count + 1;
        }
        i = i + 1;
    }
    assert(pairs@.take(pairs@.len() as int) =~= pairs@);
    Ok(count)
}

} // verus!
