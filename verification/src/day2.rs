//! Second puzzle: a strategy guide for rock-paper-scissors.  Each line names
//! the opponent's shape and either the player's shape (first reading) or the
//! round's required outcome (second reading); the answer is the total score.

use vstd::prelude::*;

use crate::text;

verus! {

/// A failure to read the input.
#[derive(Clone, Copy, Debug, PartialEq, Eq, Structural)]
pub enum Error {
    /// The line at this index is not a two-column round (an empty input
    /// reports line zero).
    Parse(usize),
}

/// How a round ends for the player.
#[derive(Clone, Copy, Debug, PartialEq, Eq, Structural)]
pub enum Outcome {
    Win,
    Draw,
    Lost,
}

/// A shape thrown in a round.
#[derive(Clone, Copy, Debug, PartialEq, Eq, Structural)]
pub enum Shape {
    Rock,
    Paper,
    Scissors,
}

/// The shape named by a column letter, on either side of the guide.
pub open spec fn shape_of(c: char) -> Option<Shape> {
    if c == 'X' || c == 'A' {
        Some(Shape::Rock)
    } else if c == 'Y' || c == 'B' {
        Some(Shape::Paper)
    } else if c == 'Z' || c == 'C' {
        Some(Shape::Scissors)
    } else {
        None
    }
}

/// The outcome named by a second-column letter.
pub open spec fn outcome_of(c: char) -> Option<Outcome> {
    if c == 'X' {
        Some(Outcome::Lost)
    } else if c == 'Y' {
        Some(Outcome::Draw)
    } else if c == 'Z' {
        Some(Outcome::Win)
    } else {
        None
    }
}

pub open spec fn is_space(c: char) -> bool {
    c == ' ' || c == '\t'
}

/// Whether a line is two single-letter columns separated by blanks.
pub open spec fn two_columns(line: Seq<char>) -> bool {
    line.len() >= 3 && (forall|k: int| 0 < k < line.len() - 1 ==> is_space(#[trigger] line[k]))
}

/// The points an outcome is worth.
pub open spec fn spec_outcome_score(o: Outcome) -> int {
    match o {
        Outcome::Win => 6,
        Outcome::Draw => 3,
        Outcome::Lost => 0,
    }
}

/// The points a shape is worth.
pub open spec fn spec_shape_score(s: Shape) -> int {
    match s {
        Shape::Rock => 1,
        Shape::Paper => 2,
        Shape::Scissors => 3,
    }
}

/// How `me` fares against `other`.
pub open spec fn spec_against(me: Shape, other: Shape) -> Outcome {
    if me == other {
        Outcome::Draw
    } else if (me == Shape::Rock && other == Shape::Scissors) || (me == Shape::Scissors && other
        == Shape::Paper) || (me == Shape::Paper && other == Shape::Rock) {
        Outcome::Win
    } else {
        Outcome::Lost
    }
}

/// The shape the player must throw against `elf` to reach `outcome`.
pub open spec fn spec_deduce(elf: Shape, outcome: Outcome) -> Shape {
    match outcome {
        Outcome::Draw => elf,
        Outcome::Lost => match elf {
            Shape::Rock => Shape::Scissors,
            Shape::Paper => Shape::Rock,
            Shape::Scissors => Shape::Paper,
        },
        Outcome::Win => match elf {
            Shape::Rock => Shape::Paper,
            Shape::Paper => Shape::Scissors,
            Shape::Scissors => Shape::Rock,
        },
    }
}

impl Outcome {
    /// The points this outcome is worth.
    pub fn score(&self) -> (r: u32)
        ensures
            r == spec_outcome_score(*self),
    {
        match self {
            Outcome::Win => 6,
            Outcome::Draw => 3,
            Outcome::Lost => 0,
        }
    }
}

impl Shape {
    /// How this shape fares against `other`.
    pub fn against(&self, other: &Shape) -> (r: Outcome)
        ensures
            r == spec_against(*self, *other),
    {
        match (self, other) {
            (first, second) if first == second => Outcome::Draw,
            (Shape::Rock, Shape::Scissors) => Outcome::Win,
            (Shape::Scissors, Shape::Paper) => Outcome::Win,
            (Shape::Paper, Shape::Rock) => Outcome::Win,
            _ => Outcome::Lost,
        }
    }

    /// The points this shape is worth.
    pub fn score(&self) -> (r: u32)
        ensures
            r == spec_shape_score(*self),
    {
        match self {
            Shape::Rock => 1,
            Shape::Paper => 2,
            Shape::Scissors => 3,
        }
    }

    /// The shape to throw against `self` to reach `outcome`.
    pub fn deduce_from_outcome(&self, outcome: &Outcome) -> (r: Shape)
        ensures
            r == spec_deduce(*self, *outcome),
    {
        match (self, outcome) {
            (shape, Outcome::Draw) => *shape,
            (Shape::Rock, Outcome::Lost) => Shape::Scissors,
            (Shape::Rock, Outcome::Win) => Shape::Paper,
            (Shape::Paper, Outcome::Lost) => Shape::Rock,
            (Shape::Paper, Outcome::Win) => Shape::Scissors,
            (Shape::Scissors, Outcome::Lost) => Shape::Paper,
            (Shape::Scissors, Outcome::Win) => Shape::Rock,
        }
    }
}

/// A round as first read: both shapes.
#[derive(Clone, Copy, Debug, PartialEq, Eq, Structural)]
pub struct Round {
    pub elf: Shape,
    pub me: Shape,
}

/// A round as read the second time: the opponent's shape and the outcome.
#[derive(Clone, Copy, Debug, PartialEq, Eq, Structural)]
pub struct RoundV2 {
    pub elf: Shape,
    pub me: Outcome,
}

/// What a guide line means in the first reading: two shapes.
pub open spec fn spec_parse_round(line: Seq<char>) -> Option<Round> {
    if two_columns(line) {
        match (shape_of(line[0]), shape_of(line.last())) {
            (Some(elf), Some(me)) => Some(Round { elf, me }),
            _ => None,
        }
    } else {
        None
    }
}

/// What a guide line means in the second reading: a shape and an outcome.
pub open spec fn spec_parse_round_v2(line: Seq<char>) -> Option<RoundV2> {
    if two_columns(line) {
        match (shape_of(line[0]), outcome_of(line.last())) {
            (Some(elf), Some(me)) => Some(RoundV2 { elf, me }),
            _ => None,
        }
    } else {
        None
    }
}

/// The points a round of the first reading is worth.
pub open spec fn spec_round_score(r: Round) -> int {
    spec_shape_score(r.me) + spec_outcome_score(spec_against(r.me, r.elf))
}

/// The points a round of the second reading is worth.
pub open spec fn spec_round_v2_score(r: RoundV2) -> int {
    spec_shape_score(spec_deduce(r.elf, r.me)) + spec_outcome_score(r.me)
}

impl Round {
    /// Reads a guide line as two shapes.
    pub fn parse(line: &Vec<char>) -> (r: Option<Round>)
        ensures
            r == spec_parse_round(line@),
    {
        match parse_columns(line) {
            Some((a, b)) => match (exec_shape_of(a), exec_shape_of(b)) {
                (Some(elf), Some(me)) => Some(Round { elf, me }),
                _ => None,
            },
            None => None,
        }
    }

    /// The points this round is worth.
    pub fn score(&self) -> (r: u32)
        ensures
            r == spec_round_score(*self),
    {
        let shape_score = self.me.score();
        let outcome_score = self.me.against(&self.elf).score();
        shape_score + outcome_score
    }
}

impl RoundV2 {
    /// Reads a guide line as a shape and an outcome.
    pub fn parse(line: &Vec<char>) -> (r: Option<RoundV2>)
        ensures
            r == spec_parse_round_v2(line@),
    {
        match parse_columns(line) {
            Some((a, b)) => match (exec_shape_of(a), exec_outcome_of(b)) {
                (Some(elf), Some(me)) => Some(RoundV2 { elf, me }),
                _ => None,
            },
            None => None,
        }
    }

    /// The points this round is worth.
    pub fn score(&self) -> (r: u32)
        ensures
            r == spec_round_v2_score(*self),
    {
        let shape_score = self.elf.deduce_from_outcome(&self.me).score();
        let outcome_score = self.me.score();
        shape_score + outcome_score
    }
}

/// Splits a two-column line into its two letters.
fn parse_columns(line: &Vec<char>) -> (r: Option<(char, char)>)
    ensures
        r is Some <==> two_columns(line@),
        two_columns(line@) ==> r == Some((line@[0], line@.last())),
{
    if line.len() < 3 {
        return None;
    }
    let mut k: usize = 1;
    while k < line.len() - 1
        invariant
            1 <= k <= line@.len() - 1,
            forall|j: int| 0 < j < k ==> is_space(#[trigger] line@[j]),
        decreases line@.len() - k,
    {
        let c = line[k];
        if c != ' ' && c != '\t' {
            return None;
        }
        k = k + 1;
    }
    Some((line[0], line[line.len() - 1]))
}

/// The shape named by a letter.
fn exec_shape_of(c: char) -> (r: Option<Shape>)
    ensures
        r == shape_of(c),
{
    if c == 'X' || c == 'A' {
        Some(Shape::Rock)
    } else if c == 'Y' || c == 'B' {
        Some(Shape::Paper)
    } else if c == 'Z' || c == 'C' {
        Some(Shape::Scissors)
    } else {
        None
    }
}

/// The outcome named by a letter.
fn exec_outcome_of(c: char) -> (r: Option<Outcome>)
    ensures
        r == outcome_of(c),
{
    if c == 'X' {
        Some(Outcome::Lost)
    } else if c == 'Y' {
        Some(Outcome::Draw)
    } else if c == 'Z' {
        Some(Outcome::Win)
    } else {
        None
    }
}

/// Reading every line as a round of the first kind, from line `i` on; the
/// index of the first line that is no round otherwise.
pub open spec fn rounds_from(ls: Seq<Seq<char>>, i: int) -> Result<Seq<Round>, int>
    decreases ls.len() - i,
{
    if i < 0 || i >= ls.len() {
        Ok(Seq::empty())
    } else {
        match spec_parse_round(ls[i]) {
            Some(r) => match rounds_from(ls, i + 1) {
                Ok(rest) => Ok(seq![r] + rest),
                Err(e) => Err(e),
            },
            None => Err(i),
        }
    }
}

/// Reading every line as a round of the second kind, from line `i` on.
pub open spec fn rounds_v2_from(ls: Seq<Seq<char>>, i: int) -> Result<Seq<RoundV2>, int>
    decreases ls.len() - i,
{
    if i < 0 || i >= ls.len() {
        Ok(Seq::empty())
    } else {
        match spec_parse_round_v2(ls[i]) {
            Some(r) => match rounds_v2_from(ls, i + 1) {
                Ok(rest) => Ok(seq![r] + rest),
                Err(e) => Err(e),
            },
            None => Err(i),
        }
    }
}

/// What the whole input means in the first reading: at least one round, every
/// line one of them, or the index of the offending line.
pub open spec fn parse_result(content: Seq<char>) -> Result<Seq<Round>, int> {
    match rounds_from(text::spec_lines(content), 0) {
        Ok(rs) => if rs.len() > 0 {
            Ok(rs)
        } else {
            Err(0int)
        },
        Err(e) => Err(e),
    }
}

/// What the whole input means in the second reading.
pub open spec fn parse_result_v2(content: Seq<char>) -> Result<Seq<RoundV2>, int> {
    match rounds_v2_from(text::spec_lines(content), 0) {
        Ok(rs) => if rs.len() > 0 {
            Ok(rs)
        } else {
            Err(0int)
        },
        Err(e) => Err(e),
    }
}

/// The score of each round, in order.
pub open spec fn round_scores(rs: Seq<Round>) -> Seq<u64> {
    rs.map_values(|r: Round| spec_round_score(r) as u64)
}

/// The score of each round of the second reading, in order.
pub open spec fn round_v2_scores(rs: Seq<RoundV2>) -> Seq<u64> {
    rs.map_values(|r: RoundV2| spec_round_v2_score(r) as u64)
}

/// Whether the total score of the first reading fits in a `u32`.
pub open spec fn total_fits(content: Seq<char>) -> bool {
    match parse_result(content) {
        Ok(rs) => text::sum_u64(round_scores(rs)) <= u32::MAX,
        Err(_) => true,
    }
}

/// Whether the total score of the second reading fits in a `u32`.
pub open spec fn total_v2_fits(content: Seq<char>) -> bool {
    match parse_result_v2(content) {
        Ok(rs) => text::sum_u64(round_v2_scores(rs)) <= u32::MAX,
        Err(_) => true,
    }
}

/// The total score of the guide in the first reading.
pub fn run_challenge1(content: &str) -> (r: Result<u32, Error>)
    requires
        total_fits(content@),
    ensures
        parse_result(content@) matches Ok(rs) ==> r == Ok::<u32, Error>(
            text::sum_u64(round_scores(rs)) as u32,
        ),
        parse_result(content@) matches Err(e) ==> r == Err::<u32, Error>(Error::Parse(e as usize)),
{
    let ls = text::lines_of(content);
    let ghost lsv = ls.deep_view();
    let mut rounds: Vec<Round> = Vec::new();
    let mut i: usize = 0;
    while i < ls.len()
        invariant
            i <= ls@.len(),
            rounds_from(lsv, 0) matches Ok(all) ==> (rounds_from(lsv, i as int) matches Ok(rest)
                && all == rounds@ + rest),
            rounds_from(lsv, 0) is Err ==> rounds_from(lsv, i as int) is Err,
            rounds_from(lsv, i as int) matches Err(e) ==> rounds_from(lsv, 0) == Err::<
                Seq<Round>,
                int,
            >(e),
        decreases ls@.len() - i,
    {
        let line = &ls[i];
        assert(line@ == lsv[i as int]);
        match Round::parse(line) {
            Some(round) => {
                let ghost before = rounds@;
                rounds.push(round);
                proof {
                    if let Ok(rest) = rounds_from(lsv, i + 1) {
                        assert(before + (seq![round] + rest) =~= rounds@ + rest);
                    }
                }
            },
            None => {
                return Err(Error::Parse(i));
            },
        }
        i = i + 1;
    }
    assert(rounds@ + Seq::<Round>::empty() =~= rounds@);
    if rounds.len() == 0 {
        return Err(Error::Parse(0));
    }
    let ghost rs = parse_result(content@)->Ok_0;
    assert(rounds@ == rs);
    let total = score_rounds(&rounds);
    Ok(total)
}

/// The total score of the guide in the second reading.
pub fn run_challenge2(content: &str) -> (r: Result<u32, Error>)
    requires
        total_v2_fits(content@),
    ensures
        parse_result_v2(content@) matches Ok(rs) ==> r == Ok::<u32, Error>(
            text::sum_u64(round_v2_scores(rs)) as u32,
        ),
        parse_result_v2(content@) matches Err(e) ==> r == Err::<u32, Error>(
            Error::Parse(e as usize),
        ),
{
    let ls = text::lines_of(content);
    let ghost lsv = ls.deep_view();
    let mut rounds: Vec<RoundV2> = Vec::new();
    let mut i: usize = 0;
    while i < ls.len()
        invariant
            i <= ls@.len(),
            rounds_v2_from(lsv, 0) matches Ok(all) ==> (rounds_v2_from(lsv, i as int) matches Ok(
                rest,
            ) && all == rounds@ + rest),
            rounds_v2_from(lsv, 0) is Err ==> rounds_v2_from(lsv, i as int) is Err,
            rounds_v2_from(lsv, i as int) matches Err(e) ==> rounds_v2_from(lsv, 0) == Err::<
                Seq<RoundV2>,
                int,
            >(e),
        decreases ls@.len() - i,
    {
        let line = &ls[i];
        assert(line@ == lsv[i as int]);
        match RoundV2::parse(line) {
            Some(round) => {
                let ghost before = rounds@;
                rounds.push(round);
                proof {
                    if let Ok(rest) = rounds_v2_from(lsv, i + 1) {
                        assert(before + (seq![round] + rest) =~= rounds@ + rest);
                    }
                }
            },
            None => {
                return Err(Error::Parse(i));
            },
        }
        i = i + 1;
    }
    assert(rounds@ + Seq::<RoundV2>::empty() =~= rounds@);
    if rounds.len() == 0 {
        return Err(Error::Parse(0));
    }
    let ghost rs = parse_result_v2(content@)->Ok_0;
    assert(rounds@ == rs);
    let total = score_rounds_v2(&rounds);
    Ok(total)
}

/// Sums the scores of the rounds of the first reading.
fn score_rounds(rounds: &Vec<Round>) -> (r: u32)
    requires
        text::sum_u64(round_scores(rounds@)) <= u32::MAX,
    ensures
        r == text::sum_u64(round_scores(rounds@)),
{
    let ghost scores = round_scores(rounds@);
    proof {
        text::lemma_sum_u64_prefix_bounds(scores, scores.len() as int);
        assert(scores.take(scores.len() as int) =~= scores);
    }
    let mut acc: u32 = 0;
    let mut i: usize = 0;
    while i < rounds.len()
        invariant
            i <= rounds@.len(),
            acc == text::sum_u64(scores.take(i as int)),
        decreases rounds@.len() - i,
    {
        let s = rounds[i].score();
        assert(scores.take(i + 1).drop_last() =~= scores.take(i as int));
        assert(scores.take(i + 1).last() == scores[i as int]);
        assert(text::sum_u64(scores.take(i + 1)) <= u32::MAX);
        acc = acc + (s as u32);
        i = i + 1;
    }
    acc
}

/// Sums the scores of the rounds of the second reading.
fn score_rounds_v2(rounds: &Vec<RoundV2>) -> (r: u32)
    requires
        text::sum_u64(round_v2_scores(rounds@)) <= u32::MAX,
    ensures
        r == text::sum_u64(round_v2_scores(rounds@)),
{
    let ghost scores = round_v2_scores(rounds@);
    proof {
        text::lemma_sum_u64_prefix_bounds(scores, scores.len() as int);
        assert(scores.take(scores.len() as int) =~= scores);
    }
    let mut acc: u32 = 0;
    let mut i: usize = 0;
    while i < rounds.len()
        invariant
            i <= rounds@.len(),
            acc == text::sum_u64(scores.take(i as int)),
        decreases rounds@.len() - i,
    {
        let s = rounds[i].score();
        assert(scores.take(i + 1).drop_last() =~= scores.take(i as int));
        assert(scores.take(i + 1).last() == scores[i as int]);
        assert(text::sum_u64(scores.take(i + 1)) <= u32::MAX);
        acc = acc + (s as u32);
        i = i + 1;
    }
    acc
}

} // verus!
