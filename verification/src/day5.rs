//! Fifth puzzle: stacks of lettered crates and a list of crane moves.  The
//! drawing at the top of the input gives the stacks; each following `move N
//! from A to B` line moves crates between them, one at a time in the first
//! reading and all at once in the second.  The answer reads the letters on
//! top of the stacks.

use vstd::prelude::*;

use crate::text;

verus! {

/// One row of the stack drawing: a crate letter or a gap per column.
#[derive(Debug)]
pub struct StackLine {
    pub crates: Vec<Option<char>>,
}

/// One crane move.
#[derive(Clone, Copy, Debug, PartialEq, Eq, Structural)]
pub enum CraneAction {
    Move { number_crates: usize, from_stack: usize, to_stack: usize },
}

/// A failure to read or run the input.
#[derive(Debug)]
pub enum Error {
    /// This drawing cell is neither a gap nor `[X]`.
    InvalidCrate(String),
    /// The drawing rows differ in width.
    InvalidStacks(Vec<StackLine>),
    /// This line holds no crane move.
    InvalidMove(String),
    /// A number of this move does not fit the machine.
    ParseInt(String),
    /// The move names a stack past the last one.
    InvalidStackReference(usize, CraneAction),
    /// The move takes more crates than its source holds.
    ImpossibleToApplyAction(Vec<char>, CraneAction),
}

/// The cell of column `k` in a drawing row: four characters, three in the
/// last column.
pub open spec fn chunk_of(line: Seq<char>, k: int) -> Seq<char> {
    let hi = if 4 * k + 4 <= line.len() {
        4 * k + 4
    } else {
        line.len() as int
    };
    line.subrange(4 * k, hi)
}

/// How many cells a drawing row holds.
pub open spec fn chunk_count(line: Seq<char>) -> int {
    (line.len() + 3) as int / 4
}

/// What a drawing cell means: a gap (all blanks), a crate `[X]`, or nothing
/// readable.
pub open spec fn chunk_val(c: Seq<char>) -> Result<Option<char>, ()> {
    if forall|i: int| 0 <= i < c.len() ==> c[i] == ' ' {
        Ok(None)
    } else if c.len() >= 3 && c[0] == '[' && c[2] == ']' {
        Ok(Some(c[1]))
    } else {
        Err(())
    }
}

/// The first unreadable cell of a row at or after `k`, if any.
pub open spec fn first_bad_chunk(line: Seq<char>, k: int) -> Option<int>
    decreases chunk_count(line) - k,
{
    if k < 0 || k >= chunk_count(line) {
        None
    } else if chunk_val(chunk_of(line, k)) is Err {
        Some(k)
    } else {
        first_bad_chunk(line, k + 1)
    }
}

/// What a whole drawing row means, when every cell is readable.
pub open spec fn row_cells(line: Seq<char>) -> Seq<Option<char>> {
    Seq::new(chunk_count(line) as nat, |k: int| chunk_val(chunk_of(line, k))->Ok_0)
}

impl StackLine {
    /// Reads a drawing row, or reports its first unreadable cell.
    pub fn parse(line: &Vec<char>) -> (r: Result<StackLine, Error>)
        ensures
            first_bad_chunk(line@, 0) is None ==> (r matches Ok(row) && row.crates@ == row_cells(
                line@,
            )),
            first_bad_chunk(line@, 0) matches Some(b) ==> (r matches Err(e) && (e matches
                Error::InvalidCrate(t) && t@ == chunk_of(line@, b))),
    {
        let mut crates: Vec<Option<char>> = Vec::new();
        let mut pos: usize = 0;
        let n = line.len();
        while pos < n
            invariant
                n == line@.len(),
                pos == 4 * crates@.len() || (pos == n && crates@.len() == chunk_count(line@)),
                pos <= n,
                crates@.len() <= chunk_count(line@),
                first_bad_chunk(line@, 0) == first_bad_chunk(line@, crates@.len() as int),
                forall|j: int| 0 <= j < crates@.len() ==> crates@[j] == chunk_val(chunk_of(line@, j))->Ok_0,
            decreases n - pos,
        {
            let ghost k = crates@.len() as int;
            assert(k < chunk_count(line@));
            let hi = if n - pos >= 4 {
                pos + 4
            } else {
                n
            };
            let ghost c = chunk_of(line@, k);
            assert(c =~= line@.subrange(pos as int, hi as int));
            let mut all_blank = true;
            let mut i: usize = pos;
            while i < hi
                invariant
                    pos <= i <= hi <= n == line@.len(),
                    c =~= line@.subrange(pos as int, hi as int),
                    all_blank == forall|j: int| pos <= j < i ==> line@[j] == ' ',
                decreases hi - i,
            {
                if line[i] != ' ' {
                    all_blank = false;
                    assert(line@[i as int] != ' ');
                    i = hi;
                } else {
                    proof {
                        if all_blank {
                            assert(forall|j: int| pos <= j <= i ==> line@[j] == ' ');
                        }
                    }
                    i = i + 1;
                }
            }
            proof {
                assert(forall|j: int| 0 <= j < c.len() ==> c[j] == line@[pos + j]);
            }
            if all_blank {
                assert(chunk_val(c) == Ok::<Option<char>, ()>(None));
                crates.push(None);
            } else {
                assert(!(forall|j: int| 0 <= j < c.len() ==> c[j] == ' ')) by {
                    let w = choose|w: int| pos <= w < hi && line@[w] != ' ';
                    assert(c[w - pos] != ' ');
                }
                if hi - pos >= 3 && line[pos] == '[' && line[pos + 2] == ']' {
                    assert(chunk_val(c) == Ok::<Option<char>, ()>(Some(line@[pos + 1])));
                    crates.push(Some(line[pos + 1]));
                } else {
                    assert(chunk_val(c) is Err);
                    assert(first_bad_chunk(line@, k) == Some(k));
                    let mut bad: Vec<char> = Vec::new();
                    let mut i2: usize = pos;
                    while i2 < hi
                        invariant
                            pos <= i2 <= hi <= n == line@.len(),
                            bad@ =~= line@.subrange(pos as int, i2 as int),
                        decreases hi - i2,
                    {
                        bad.push(line[i2]);
                        assert(bad@ =~= line@.subrange(pos as int, i2 + 1));
                        i2 = i2 + 1;
                    }
                    assert(bad@ =~= c);
                    return Err(Error::InvalidCrate(text::chars_to_string(&bad)));
                }
            }
            pos = hi;
            proof {
                if hi < n {
                    assert(hi == 4 * crates@.len());
                } else {
                    assert(crates@.len() == chunk_count(line@) || 4 * crates@.len() == hi);
                }
            }
        }
        let ghost k = crates@.len() as int;
        assert(k == chunk_count(line@));

        assert(crates@ =~= row_cells(line@));
        Ok(StackLine { crates })
    }
}

/// The crates of column `idx` of the drawing, bottom first: the lowest row of
/// the drawing is the bottom of each stack.
pub open spec fn column_of(rows: Seq<Seq<Option<char>>>, idx: int) -> Seq<char>
    decreases rows.len(),
{
    if rows.len() == 0 {
        Seq::empty()
    } else {
        (match rows.last()[idx] {
            Some(c) => seq![c],
            None => Seq::empty(),
        }) + column_of(rows.drop_last(), idx)
    }
}

/// The stacks, as columns of letters, bottom of each stack first.
pub struct Stacks {
    pub stacks: Vec<Vec<char>>,
}

/// The letter columns of a stack vector.
pub open spec fn stacks_view(v: Seq<Vec<char>>) -> Seq<Seq<char>> {
    v.map_values(|s: Vec<char>| s@)
}

impl Stacks {
    /// The stacks as sequences of letters.
    pub open spec fn view_stacks(self) -> Seq<Seq<char>> {
        stacks_view(self.stacks@)
    }

    /// No stacks at all.
    pub fn new() -> (r: Stacks)
        ensures
            r.view_stacks() =~= Seq::<Seq<char>>::empty(),
    {
        Stacks { stacks: Vec::new() }
    }

    /// Builds the stacks from the drawing rows: every row must be as wide as
    /// the first, and each column is read bottom row first.
    pub fn from_lines(lines: Vec<StackLine>) -> (r: Result<Stacks, Error>)
        ensures
            lines@.len() == 0 ==> (r matches Ok(s) && s.view_stacks() =~= Seq::<
                Seq<char>,
            >::empty()),
            lines@.len() > 0 && (forall|i: int|
                0 <= i < lines@.len() ==> (#[trigger] lines@[i].crates@).len()
                    == lines@[0].crates@.len()) ==> (r matches Ok(s) && s.view_stacks().len()
                == lines@[0].crates@.len() && (forall|idx: int|
                0 <= idx < lines@[0].crates@.len() ==> s.view_stacks()[idx] == column_of(
                    rows_view(lines@),
                    idx,
                ))),
            lines@.len() > 0 && !(forall|i: int|
                0 <= i < lines@.len() ==> (#[trigger] lines@[i].crates@).len()
                    == lines@[0].crates@.len()) ==> (r matches Err(e) && (e matches
                Error::InvalidStacks(ls) && rows_view(ls@) == rows_view(lines@))),
    {
        if lines.len() == 0 {
            return Ok(Stacks::new());
        }
        let stacks_number = lines[0].crates.len();
        let mut i: usize = 0;
        while i < lines.len()
            invariant
                i <= lines@.len(),
                stacks_number == lines@[0].crates@.len(),
                forall|j: int|
                    0 <= j < i ==> (#[trigger] lines@[j].crates@).len() == stacks_number,
            decreases lines@.len() - i,
        {
            if lines[i].crates.len() != stacks_number {
                return Err(Error::InvalidStacks(lines));
            }
            i = i + 1;
        }
        let mut stacks: Vec<Vec<char>> = Vec::new();
        let mut idx: usize = 0;
        while idx < stacks_number
            invariant
                idx <= stacks_number == lines@[0].crates@.len(),
                forall|j: int|
                    0 <= j < lines@.len() ==> (#[trigger] lines@[j].crates@).len()
                        == stacks_number,
                stacks@.len() == idx,
                forall|j: int|
                    0 <= j < idx ==> (#[trigger] stacks@[j])@ == column_of(
                        rows_view(lines@),
                        j,
                    ),
            decreases stacks_number - idx,
        {
            let col = build_column(&lines, idx);
            stacks.push(col);
            idx = idx + 1;
        }
        proof {
            let s = Stacks { stacks };
            assert(s.view_stacks().len() == stacks_number);
        }
        Ok(Stacks { stacks })
    }
}

/// The cell grids of the drawing rows.
pub open spec fn rows_view(lines: Seq<StackLine>) -> Seq<Seq<Option<char>>> {
    lines.map_values(|l: StackLine| l.crates@)
}

/// Reads column `idx` of the drawing, bottom row first.
fn build_column(lines: &Vec<StackLine>, idx: usize) -> (r: Vec<char>)
    requires
        forall|j: int| 0 <= j < lines@.len() ==> idx < (#[trigger] lines@[j].crates@).len(),
    ensures
        r@ == column_of(rows_view(lines@), idx as int),
{
    let ghost rows = rows_view(lines@);
    let mut r: Vec<char> = Vec::new();
    let mut j: usize = lines.len();
    proof {
        assert(rows.subrange(0, rows.len() as int) =~= rows);
        assert(column_of(rows, idx as int) =~= r@ + column_of(
            rows.subrange(0, j as int),
            idx as int,
        ));
    }
    while j > 0
        invariant
            j <= lines@.len(),
            forall|k: int| 0 <= k < lines@.len() ==> idx < (#[trigger] lines@[k].crates@).len(),
            rows == rows_view(lines@),
            column_of(rows, idx as int) == r@ + column_of(rows.subrange(0, j as int), idx as int),
        decreases j,
    {
        j = j - 1;
        let ghost upper = rows.subrange(0, j + 1);
        proof {
            assert(upper.last() == rows[j as int]);
            assert(upper.drop_last() =~= rows.subrange(0, j as int));
            assert(rows[j as int] == lines@[j as int].crates@);
        }
        match lines[j].crates[idx] {
            Some(c) => {
                let ghost before = r@;
                r.push(c);
                proof {
                    assert(column_of(upper, idx as int) == seq![c] + column_of(
                        rows.subrange(0, j as int),
                        idx as int,
                    ));
                    assert(before + (seq![c] + column_of(rows.subrange(0, j as int), idx as int))
                        =~= r@ + column_of(rows.subrange(0, j as int), idx as int));
                }
            },
            None => {
                proof {
                    assert(column_of(upper, idx as int) == Seq::<char>::empty() + column_of(
                        rows.subrange(0, j as int),
                        idx as int,
                    ));
                    assert(Seq::<char>::empty() + column_of(rows.subrange(0, j as int), idx as int)
                        =~= column_of(rows.subrange(0, j as int), idx as int));
                }
            },
        }
    }
    proof {
        assert(rows.subrange(0, 0) =~= Seq::<Seq<Option<char>>>::empty());
        assert(r@ + Seq::<char>::empty() =~= r@);
    }
    r
}

/// Whether the move pattern `move N from N to N` starts exactly at `p`, with
/// each `N` a maximal run of digits.
pub open spec fn match_at(s: Seq<char>, p: int) -> bool {
    let q1 = p + 5;
    let e1 = text::digits_end(s, q1);
    let q2 = e1 + 6;
    let e2 = text::digits_end(s, q2);
    let q3 = e2 + 4;
    let e3 = text::digits_end(s, q3);
    &&& p >= 0
    &&& p + 5 <= s.len()
    &&& s.subrange(p, p + 5) == seq!['m', 'o', 'v', 'e', ' ']
    &&& e1 > q1
    &&& e1 + 6 <= s.len()
    &&& s.subrange(e1, e1 + 6) == seq![' ', 'f', 'r', 'o', 'm', ' ']
    &&& e2 > q2
    &&& e2 + 4 <= s.len()
    &&& s.subrange(e2, e2 + 4) == seq![' ', 't', 'o', ' ']
    &&& e3 > q3
}

/// The three numbers of the pattern at `p`, as digit strings.
pub open spec fn captures_at(s: Seq<char>, p: int) -> (Seq<char>, Seq<char>, Seq<char>) {
    let q1 = p + 5;
    let e1 = text::digits_end(s, q1);
    let q2 = e1 + 6;
    let e2 = text::digits_end(s, q2);
    let q3 = e2 + 4;
    let e3 = text::digits_end(s, q3);
    (s.subrange(q1, e1), s.subrange(q2, e2), s.subrange(q3, e3))
}

/// Where the pattern first matches, at or after `p`, if anywhere.
pub open spec fn first_match(s: Seq<char>, p: int) -> Option<int>
    decreases s.len() - p,
{
    if p < 0 || p > s.len() {
        None
    } else if match_at(s, p) {
        Some(p)
    } else if p == s.len() {
        None
    } else {
        first_match(s, p + 1)
    }
}

/// What a line means as a crane move: the first match of the pattern, with
/// its numbers read as machine words; a number too large fails differently
/// from no match at all.
pub open spec fn spec_parse_action(line: Seq<char>) -> Result<CraneAction, bool> {
    match first_match(line, 0) {
        Some(p) => {
            let (a, b, c) = captures_at(line, p);
            if text::digits_val(a) <= usize::MAX && text::digits_val(b) <= usize::MAX
                && text::digits_val(c) <= usize::MAX {
                Ok(
                    CraneAction::Move {
                        number_crates: text::digits_val(a) as usize,
                        from_stack: text::digits_val(b) as usize,
                        to_stack: text::digits_val(c) as usize,
                    },
                )
            } else {
                Err(true)
            }
        },
        None => Err(false),
    }
}

impl CraneAction {
    /// Reads a line as a crane move: the first occurrence of the move pattern
    /// anywhere in the line counts.
    pub fn parse(line: &Vec<char>) -> (r: Result<CraneAction, Error>)
        ensures
            spec_parse_action(line@) matches Ok(a) ==> r matches Ok(b) && a == b,
            spec_parse_action(line@) == Err::<CraneAction, bool>(false) ==> (r matches Err(e) && (
            e matches Error::InvalidMove(t) && t@ == line@)),
            spec_parse_action(line@) == Err::<CraneAction, bool>(true) ==> (r matches Err(e) && (
            e matches Error::ParseInt(t) && t@ == line@)),
    {
        let mut move_word: Vec<char> = Vec::new();
        move_word.push('m');
        move_word.push('o');
        move_word.push('v');
        move_word.push('e');
        move_word.push(' ');
        assert(move_word@ =~= seq!['m', 'o', 'v', 'e', ' ']);
        let mut from_word: Vec<char> = Vec::new();
        from_word.push(' ');
        from_word.push('f');
        from_word.push('r');
        from_word.push('o');
        from_word.push('m');
        from_word.push(' ');
        assert(from_word@ =~= seq![' ', 'f', 'r', 'o', 'm', ' ']);
        let mut to_word: Vec<char> = Vec::new();
        to_word.push(' ');
        to_word.push('t');
        to_word.push('o');
        to_word.push(' ');
        assert(to_word@ =~= seq![' ', 't', 'o', ' ']);
        let mut p: usize = 0;
        while p < line.len()
            invariant
                p <= line@.len(),
                move_word@ == seq!['m', 'o', 'v', 'e', ' '],
                from_word@ == seq![' ', 'f', 'r', 'o', 'm', ' '],
                to_word@ == seq![' ', 't', 'o', ' '],
                first_match(line@, 0) == first_match(line@, p as int),
            decreases line@.len() - p,
        {
            if text::word_here(line, p, &move_word) {
                let q1 = p + 5;
                let e1 = text::scan_digits(line, q1);
                if e1 > q1 && text::word_here(line, e1, &from_word) {
                    let q2 = e1 + 6;
                    let e2 = text::scan_digits(line, q2);
                    if e2 > q2 && text::word_here(line, e2, &to_word) {
                        let q3 = e2 + 4;
                        let e3 = text::scan_digits(line, q3);
                        if e3 > q3 {
                            assert(match_at(line@, p as int));
                            assert(first_match(line@, p as int) == Some(p as int));
                            let a = match text::parse_u64_range(line, q1, e1) {
                                Some(v) => v,
                                None => {
                                    proof {
                                        text::lemma_digit_run(line@, q1 as int, e1 as int);
                                    }
                                    assert(text::digits_val(line@.subrange(q1 as int, e1 as int))
                                        > u64::MAX);
                                    return Err(Error::ParseInt(line_string(line)));
                                },
                            };
                            let b = match text::parse_u64_range(line, q2, e2) {
                                Some(v) => v,
                                None => {
                                    proof {
                                        text::lemma_digit_run(line@, q2 as int, e2 as int);
                                    }
                                    return Err(Error::ParseInt(line_string(line)));
                                },
                            };
                            let c = match text::parse_u64_range(line, q3, e3) {
                                Some(v) => v,
                                None => {
                                    proof {
                                        text::lemma_digit_run(line@, q3 as int, e3 as int);
                                    }
                                    return Err(Error::ParseInt(line_string(line)));
                                },
                            };
                            if a <= usize::MAX as u64 && b <= usize::MAX as u64 && c
                                <= usize::MAX as u64 {
                                return Ok(
                                    CraneAction::Move {
                                        number_crates: a as usize,
                                        from_stack: b as usize,
                                        to_stack: c as usize,
                                    },
                                );
                            } else {
                                return Err(Error::ParseInt(line_string(line)));
                            }
                        }
                    }
                }
            }
            assert(!match_at(line@, p as int));
            p = p + 1;
        }
        assert(!match_at(line@, p as int));
        assert(first_match(line@, p as int) is None);
        Err(Error::InvalidMove(line_string(line)))
    }
}

/// The line as owned text.
fn line_string(line: &Vec<char>) -> (r: String)
    ensures
        r@ == line@,
{
    text::chars_to_string(line)
}

/// The number of crates a move takes.
pub open spec fn action_n(a: CraneAction) -> int {
    match a {
        CraneAction::Move { number_crates, .. } => number_crates as int,
    }
}

/// The stack a move takes from, counted from one.
pub open spec fn action_from(a: CraneAction) -> int {
    match a {
        CraneAction::Move { from_stack, .. } => from_stack as int,
    }
}

/// The stack a move gives to, counted from one.
pub open spec fn action_to(a: CraneAction) -> int {
    match a {
        CraneAction::Move { to_stack, .. } => to_stack as int,
    }
}

/// What one move does to the stacks: the top `n` crates of the source land on
/// the target, reversed when moved one at a time; a stack named past the end
/// (fault 0 for the source, 1 for the target) or a source too short (fault 2)
/// fails.
pub open spec fn apply_action(sv: Seq<Seq<char>>, a: CraneAction, rev: bool) -> Result<
    Seq<Seq<char>>,
    int,
> {
    let n = action_n(a);
    let f = action_from(a);
    let t = action_to(a);
    if f > sv.len() {
        Err(0int)
    } else if t > sv.len() {
        Err(1int)
    } else if sv[f - 1].len() < n {
        Err(2int)
    } else {
        let src = sv[f - 1];
        let keep = src.take(src.len() - n);
        let top = src.skip(src.len() - n);
        let add = if rev {
            top.reverse()
        } else {
            top
        };
        if f == t {
            Ok(sv.update(f - 1, keep + add))
        } else {
            Ok(sv.update(f - 1, keep).update(t - 1, sv[t - 1] + add))
        }
    }
}

/// Copies one stack.
fn copy_chars(v: &Vec<char>) -> (r: Vec<char>)
    ensures
        r@ == v@,
{
    let mut r: Vec<char> = Vec::new();
    let mut k: usize = 0;
    while k < v.len()
        invariant
            k <= v@.len(),
            r@ == v@.take(k as int),
        decreases v@.len() - k,
    {
        r.push(v[k]);
        assert(r@ =~= v@.take(k + 1));
        k = k + 1;
    }
    assert(v@.take(v@.len() as int) =~= v@);
    r
}

impl Stacks {
    /// Applies one move, lifting the crates one at a time (`rev`) or all at
    /// once, or reports why it cannot be applied.
    fn apply(&self, action: &CraneAction, rev: bool) -> (r: Result<Stacks, Error>)
        requires
            action_from(*action) >= 1,
            action_to(*action) >= 1,
        ensures
            apply_action(self.view_stacks(), *action, rev) matches Ok(nv) ==> (r matches Ok(s2)
                && s2.view_stacks() == nv),
            apply_action(self.view_stacks(), *action, rev) == Err::<Seq<Seq<char>>, int>(0) ==> (
            r matches Err(e) && (e matches Error::InvalidStackReference(x, a) && x == action_from(
                *action,
            ) && a == *action)),
            apply_action(self.view_stacks(), *action, rev) == Err::<Seq<Seq<char>>, int>(1) ==> (
            r matches Err(e) && (e matches Error::InvalidStackReference(x, a) && x == action_to(
                *action,
            ) && a == *action)),
            apply_action(self.view_stacks(), *action, rev) == Err::<Seq<Seq<char>>, int>(2) ==> (
            r matches Err(e) && (e matches Error::ImpossibleToApplyAction(v, a) && v@
                == self.view_stacks()[action_from(*action) - 1] && a == *action)),
    {
        let ghost sv = self.view_stacks();
        let (number_crates, from_stack, to_stack) = match *action {
            CraneAction::Move { number_crates, from_stack, to_stack } => (
                number_crates,
                from_stack,
                to_stack,
            ),
        };
        if from_stack > self.stacks.len() {
            return Err(Error::InvalidStackReference(from_stack, *action));
        }
        if to_stack > self.stacks.len() {
            return Err(Error::InvalidStackReference(to_stack, *action));
        }
        let flen = self.stacks[from_stack - 1].len();
        assert(sv[from_stack - 1] == self.stacks@[from_stack - 1]@);
        if flen < number_crates {
            return Err(
                Error::ImpossibleToApplyAction(copy_chars(&self.stacks[from_stack - 1]), *action),
            );
        }
        let keep_len = flen - number_crates;
        let src = &self.stacks[from_stack - 1];
        let mut keep: Vec<char> = Vec::new();
        let mut k: usize = 0;
        while k < keep_len
            invariant
                k <= keep_len <= src@.len(),
                keep@ == src@.take(k as int),
            decreases keep_len - k,
        {
            keep.push(src[k]);
            assert(keep@ =~= src@.take(k + 1));
            k = k + 1;
        }
        let mut add: Vec<char> = Vec::new();
        if rev {
            let mut k2: usize = flen;
            while k2 > keep_len
                invariant
                    keep_len <= k2 <= flen == src@.len(),
                    add@.len() == flen - k2,
                    forall|j: int| 0 <= j < add@.len() ==> add@[j] == src@[flen - 1 - j],
                decreases k2,
            {
                k2 = k2 - 1;
                add.push(src[k2]);
            }
            proof {
                let top = src@.skip(keep_len as int);
                assert(add@ =~= top.reverse());
            }
        } else {
            let mut k2: usize = keep_len;
            while k2 < flen
                invariant
                    keep_len <= k2 <= flen == src@.len(),
                    add@.len() == k2 - keep_len,
                    forall|j: int| 0 <= j < add@.len() ==> add@[j] == src@[keep_len + j],
                decreases flen - k2,
            {
                add.push(src[k2]);
                k2 = k2 + 1;
            }
            proof {
                assert(add@ =~= src@.skip(keep_len as int));
            }
        }
        let mut stacks: Vec<Vec<char>> = Vec::new();
        let mut idx: usize = 0;
        let ghost target = apply_action(sv, *action, rev)->Ok_0;
        proof {
            assert(target.len() == sv.len());
        }
        while idx < self.stacks.len()
            invariant
                idx <= self.stacks@.len() == sv.len() == target.len(),
                sv == self.view_stacks(),
                target == apply_action(sv, *action, rev)->Ok_0,
                apply_action(sv, *action, rev) is Ok,
                from_stack >= 1 && to_stack >= 1,
                from_stack as int == action_from(*action),
                to_stack as int == action_to(*action),
                number_crates as int == action_n(*action),
                from_stack <= sv.len() && to_stack <= sv.len(),
                keep_len == sv[from_stack - 1].len() - number_crates,
                keep@ == sv[from_stack - 1].take(keep_len as int),
                add@ == (if rev {
                    sv[from_stack - 1].skip(keep_len as int).reverse()
                } else {
                    sv[from_stack - 1].skip(keep_len as int)
                }),
                stacks@.len() == idx,
                forall|j: int| 0 <= j < idx ==> (#[trigger] stacks@[j])@ == target[j],
            decreases self.stacks@.len() - idx,
        {
            assert(sv[idx as int] == self.stacks@[idx as int]@);
            let mut piece: Vec<char>;
            if idx == from_stack - 1 {
                piece = copy_chars(&keep);
                if idx == to_stack - 1 {
                    let mut k3: usize = 0;
                    while k3 < add.len()
                        invariant
                            k3 <= add@.len(),
                            piece@ == keep@ + add@.take(k3 as int),
                        decreases add@.len() - k3,
                    {
                        piece.push(add[k3]);
                        assert(piece@ =~= keep@ + add@.take(k3 + 1));
                        k3 = k3 + 1;
                    }
                    assert(add@.take(add@.len() as int) =~= add@);
                } else {
                    assert(piece@ =~= keep@ + Seq::<char>::empty() || true);
                }
            } else if idx == to_stack - 1 {
                piece = copy_chars(&self.stacks[idx]);
                let mut k3: usize = 0;
                while k3 < add.len()
                    invariant
                        k3 <= add@.len(),
                        piece@ == sv[idx as int] + add@.take(k3 as int),
                        sv[idx as int] == self.stacks@[idx as int]@,
                    decreases add@.len() - k3,
                {
                    piece.push(add[k3]);
                    assert(piece@ =~= sv[idx as int] + add@.take(k3 + 1));
                    k3 = k3 + 1;
                }
                assert(add@.take(add@.len() as int) =~= add@);
            } else {
                piece = copy_chars(&self.stacks[idx]);
            }
            proof {
                if idx == from_stack - 1 && idx == to_stack - 1 {
                    assert(target[idx as int] == keep@ + add@);
                } else if idx == from_stack - 1 {
                    assert(target[idx as int] == keep@);
                    assert(piece@ == keep@);
                } else if idx == to_stack - 1 {
                    assert(target[idx as int] == sv[idx as int] + add@);
                } else {
                    assert(target[idx as int] == sv[idx as int]);
                }
            }
            stacks.push(piece);
            idx = idx + 1;
        }
        let result = Stacks { stacks };
        proof {
            assert(result.view_stacks() =~= target);
        }
        Ok(result)
    }

    /// Applies one move, lifting the crates one at a time, so that their
    /// order reverses.
    pub fn accept(&self, action: &CraneAction) -> (r: Result<Stacks, Error>)
        requires
            action_from(*action) >= 1,
            action_to(*action) >= 1,
        ensures
            apply_action(self.view_stacks(), *action, true) matches Ok(nv) ==> (r matches Ok(s2)
                && s2.view_stacks() == nv),
            apply_action(self.view_stacks(), *action, true) == Err::<Seq<Seq<char>>, int>(0) ==> (
            r matches Err(e) && (e matches Error::InvalidStackReference(x, a) && x == action_from(
                *action,
            ) && a == *action)),
            apply_action(self.view_stacks(), *action, true) == Err::<Seq<Seq<char>>, int>(1) ==> (
            r matches Err(e) && (e matches Error::InvalidStackReference(x, a) && x == action_to(
                *action,
            ) && a == *action)),
            apply_action(self.view_stacks(), *action, true) == Err::<Seq<Seq<char>>, int>(2) ==> (
            r matches Err(e) && (e matches Error::ImpossibleToApplyAction(v, a) && v@
                == self.view_stacks()[action_from(*action) - 1] && a == *action)),
    {
        self.apply(action, true)
    }

    /// Applies one move, lifting the crates all at once, so that their order
    /// is kept.
    pub fn accept_v2(&self, action: &CraneAction) -> (r: Result<Stacks, Error>)
        requires
            action_from(*action) >= 1,
            action_to(*action) >= 1,
        ensures
            apply_action(self.view_stacks(), *action, false) matches Ok(nv) ==> (r matches Ok(s2)
                && s2.view_stacks() == nv),
            apply_action(self.view_stacks(), *action, false) == Err::<Seq<Seq<char>>, int>(0)
                ==> (r matches Err(e) && (e matches Error::InvalidStackReference(x, a) && x
                == action_from(*action) && a == *action)),
            apply_action(self.view_stacks(), *action, false) == Err::<Seq<Seq<char>>, int>(1)
                ==> (r matches Err(e) && (e matches Error::InvalidStackReference(x, a) && x
                == action_to(*action) && a == *action)),
            apply_action(self.view_stacks(), *action, false) == Err::<Seq<Seq<char>>, int>(2)
                ==> (r matches Err(e) && (e matches Error::ImpossibleToApplyAction(v, a) && v@
                == self.view_stacks()[action_from(*action) - 1] && a == *action)),
    {
        self.apply(action, false)
    }
}

/// Where the reader stands: in the drawing, past its number line, or among
/// the moves.
#[derive(Clone, Copy, Debug, PartialEq, Eq, Structural)]
pub enum ReadMode {
    StackLines,
    SkipOne,
    Actions,
}

/// Whether a line looks like a drawing row: it opens with a crate or four
/// blanks.
pub open spec fn is_stack_shape(line: Seq<char>) -> bool {
    (line.len() >= 1 && line[0] == '[') || (line.len() >= 4 && line[0] == ' ' && line[1] == ' '
        && line[2] == ' ' && line[3] == ' ')
}

/// Reading the lines from `i` on in the given mode: drawing rows until a line
/// of another shape (dropped, with the one after it), then moves.  A fault is
/// `(line, kind, cell)` with kind zero for an unreadable drawing cell, one
/// for a line that is no move, two for a move whose number overflows.
pub open spec fn scan(ls: Seq<Seq<char>>, i: int, mode: ReadMode) -> Result<
    (Seq<Seq<Option<char>>>, Seq<CraneAction>),
    (int, int, int),
>
    decreases ls.len() - i,
{
    if i < 0 || i >= ls.len() {
        Ok((Seq::empty(), Seq::empty()))
    } else {
        match mode {
            ReadMode::StackLines => {
                if is_stack_shape(ls[i]) {
                    match first_bad_chunk(ls[i], 0) {
                        Some(b) => Err((i, 0int, b)),
                        None => match scan(ls, i + 1, ReadMode::StackLines) {
                            Ok((rows, acts)) => Ok((seq![row_cells(ls[i])] + rows, acts)),
                            Err(e) => Err(e),
                        },
                    }
                } else {
                    scan(ls, i + 1, ReadMode::SkipOne)
                }
            },
            ReadMode::SkipOne => scan(ls, i + 1, ReadMode::Actions),
            ReadMode::Actions => {
                match spec_parse_action(ls[i]) {
                    Ok(a) => match scan(ls, i + 1, ReadMode::Actions) {
                        Ok((rows, acts)) => Ok((rows, seq![a] + acts)),
                        Err(e) => Err(e),
                    },
                    Err(overflowed) => if overflowed {
                        Err((i, 2int, 0int))
                    } else {
                        Err((i, 1int, 0int))
                    },
                }
            },
        }
    }
}

/// What the whole input means before the stacks are built.
pub open spec fn scan_result(content: Seq<char>) -> Result<
    (Seq<Seq<Option<char>>>, Seq<CraneAction>),
    (int, int, int),
> {
    scan(text::spec_lines(content), 0, ReadMode::StackLines)
}

/// Whether the drawing rows all have the width of the first.
pub open spec fn rect_rows(rows: Seq<Seq<Option<char>>>) -> bool {
    forall|i: int| 0 <= i < rows.len() ==> (#[trigger] rows[i]).len() == rows[0].len()
}

/// Reads the whole input: the starting stacks and the moves, or the first
/// failure.
pub fn read_input(content: &str) -> (r: Result<(Stacks, Vec<CraneAction>), Error>)
    ensures
        scan_result(content@) matches Ok(p) ==> {
            let (rows, acts) = p;
            &&& (rect_rows(rows) ==> (r matches Ok(q) && q.1@ == acts && q.0.view_stacks().len()
                == (if rows.len() == 0 {
                0int
            } else {
                rows[0].len() as int
            }) && (forall|idx: int|
                0 <= idx < q.0.view_stacks().len() ==> q.0.view_stacks()[idx] == column_of(
                    rows,
                    idx,
                ))))
            &&& (!rect_rows(rows) ==> (r matches Err(e) && (e matches Error::InvalidStacks(ls)
                && rows_view(ls@) == rows)))
        },
        scan_result(content@) matches Err(e) ==> (r matches Err(er) && {
            let (line, kind, cell) = e;
            &&& kind == 0 ==> (er matches Error::InvalidCrate(t) && t@ == chunk_of(
                text::spec_lines(content@)[line],
                cell,
            ))
            &&& kind == 1 ==> (er matches Error::InvalidMove(t) && t@ == text::spec_lines(
                content@,
            )[line])
            &&& kind == 2 ==> (er matches Error::ParseInt(t) && t@
                == text::spec_lines(content@)[line])
        }),
{
    let ls = text::lines_of(content);
    let ghost lsv = ls.deep_view();
    let mut rows: Vec<StackLine> = Vec::new();
    let mut actions: Vec<CraneAction> = Vec::new();
    let mut mode = ReadMode::StackLines;
    let mut i: usize = 0;
    while i < ls.len()
        invariant
            i <= ls@.len(),
            lsv == ls.deep_view(),
            scan(lsv, 0, ReadMode::StackLines) matches Ok(p) ==> (scan(
                lsv,
                i as int,
                mode,
            ) matches Ok(q) && p.0 == rows_view(rows@) + q.0 && p.1 == actions@ + q.1),
            scan(lsv, 0, ReadMode::StackLines) is Err ==> scan(lsv, i as int, mode)
                is Err,
            scan(lsv, i as int, mode) matches Err(e) ==> scan(
                lsv,
                0,
                ReadMode::StackLines,
            ) == Err::<(Seq<Seq<Option<char>>>, Seq<CraneAction>), (int, int, int)>(e),
        decreases ls@.len() - i,
    {
        let line = &ls[i];
        assert(line@ == lsv[i as int]);
        match mode {
            ReadMode::StackLines => {
                let shaped = if line.len() >= 1 && line[0] == '[' {
                    true
                } else {
                    line.len() >= 4 && line[0] == ' ' && line[1] == ' ' && line[2] == ' '
                        && line[3] == ' '
                };
                assert(shaped == is_stack_shape(line@));
                if shaped {
                    match StackLine::parse(line) {
                        Ok(row) => {
                            let ghost before = rows_view(rows@);
                            rows.push(row);
                            proof {
                                assert(rows_view(rows@) =~= before.push(row_cells(lsv[i as int])));
                                if let Ok(q) = scan(lsv, i + 1, ReadMode::StackLines) {
                                    assert(before + (seq![row_cells(lsv[i as int])] + q.0)
                                        =~= rows_view(rows@) + q.0);
                                }
                            }
                        },
                        Err(e) => {
                            return Err(e);
                        },
                    }
                } else {
                    mode = ReadMode::SkipOne;
                }
            },
            ReadMode::SkipOne => {
                mode = ReadMode::Actions;
            },
            ReadMode::Actions => {
                match CraneAction::parse(line) {
                    Ok(a) => {
                        let ghost before = actions@;
                        actions.push(a);
                        proof {
                            if let Ok(q) = scan(lsv, i + 1, ReadMode::Actions) {
                                assert(before + (seq![a] + q.1) =~= actions@ + q.1);
                            }
                        }
                    },
                    Err(e) => {
                        return Err(e);
                    },
                }
            },
        }
        i = i + 1;
    }
    proof {
        assert(rows_view(rows@) + Seq::<Seq<Option<char>>>::empty() =~= rows_view(rows@));
        assert(actions@ + Seq::<CraneAction>::empty() =~= actions@);
    }
    let ghost grv = rows_view(rows@);
    let ghost grows = rows@;
    proof {
        assert(forall|j: int| 0 <= j < grows.len() ==> grv[j] == (#[trigger] grows[j]).crates@);
        if rect_rows(grv) && grows.len() > 0 {
            assert(forall|j: int|
                0 <= j < grows.len() ==> (#[trigger] grows[j].crates@).len()
                    == grows[0].crates@.len());
        }
        if grows.len() > 0 && (forall|j: int|
            0 <= j < grows.len() ==> (#[trigger] grows[j].crates@).len()
                == grows[0].crates@.len()) {
            assert forall|j: int| 0 <= j < grv.len() implies (#[trigger] grv[j]).len()
                == grv[0].len() by {
                assert(grv[j] == grows[j].crates@);
            }
        }
    }
    match Stacks::from_lines(rows) {
        Ok(stacks) => Ok((stacks, actions)),
        Err(e) => Err(e),
    }
}

/// The letters on top of the stacks, skipping empty stacks.
pub open spec fn tops(sv: Seq<Seq<char>>) -> Seq<char>
    decreases sv.len(),
{
    if sv.len() == 0 {
        Seq::empty()
    } else {
        tops(sv.drop_last()) + (if sv.last().len() > 0 {
            seq![sv.last().last()]
        } else {
            Seq::empty()
        })
    }
}

/// Reads the letters on top of the stacks.
fn read_tops(stacks: &Stacks) -> (r: String)
    ensures
        r@ == tops(stacks.view_stacks()),
{
    let ghost sv = stacks.view_stacks();
    let mut out: Vec<char> = Vec::new();
    let mut i: usize = 0;
    proof {
        assert(sv.subrange(0, 0) =~= Seq::<Seq<char>>::empty());
    }
    while i < stacks.stacks.len()
        invariant
            i <= stacks.stacks@.len() == sv.len(),
            sv == stacks.view_stacks(),
            out@ == tops(sv.subrange(0, i as int)),
        decreases sv.len() - i,
    {
        let ghost upper = sv.subrange(0, i + 1);
        proof {
            assert(upper.last() == sv[i as int]);
            assert(upper.drop_last() =~= sv.subrange(0, i as int));
            assert(sv[i as int] == stacks.stacks@[i as int]@);
        }
        let s = &stacks.stacks[i];
        if s.len() > 0 {
            let c = s[s.len() - 1];
            assert(c == sv[i as int].last());
            out.push(c);
            assert(out@ =~= tops(sv.subrange(0, i as int)) + seq![c]);
        } else {
            assert(out@ =~= tops(sv.subrange(0, i as int)) + Seq::<char>::empty());
        }
        i = i + 1;
    }
    proof {
        assert(sv.subrange(0, sv.len() as int) =~= sv);
    }
    text::chars_to_string(&out)
}

/// Running the moves from `k` on: the stacks at the end, or `(index, fault,
/// stacks before the failing move)`.
pub open spec fn run_from(sv: Seq<Seq<char>>, acts: Seq<CraneAction>, k: int, rev: bool) -> Result<
    Seq<Seq<char>>,
    (int, int, Seq<Seq<char>>),
>
    decreases acts.len() - k,
{
    if k < 0 || k >= acts.len() {
        Ok(sv)
    } else {
        match apply_action(sv, acts[k], rev) {
            Ok(nv) => run_from(nv, acts, k + 1, rev),
            Err(fault) => Err((k, fault, sv)),
        }
    }
}

/// Whether every move of the input names its stacks from one up (the solvers
/// need that much).
pub open spec fn actions_wf(content: Seq<char>) -> bool {
    match scan_result(content) {
        Ok(p) => forall|k: int|
            0 <= k < p.1.len() ==> action_from(#[trigger] p.1[k]) >= 1 && action_to(p.1[k]) >= 1,
        Err(_) => true,
    }
}

/// Runs all the moves of one reading and reads the answer off the stack tops.
fn run_challenge(content: &str, rev: bool) -> (r: Result<String, Error>)
    requires
        actions_wf(content@),
    ensures
        scan_result(content@) matches Ok(p) ==> {
            let start_ok = rect_rows(p.0);
            &&& (!start_ok ==> (r matches Err(e) && e matches Error::InvalidStacks(_)))
            &&& (start_ok ==> {
                let start = Seq::new(
                    (if p.0.len() == 0 {
                        0int
                    } else {
                        p.0[0].len() as int
                    }) as nat,
                    |idx: int| column_of(p.0, idx),
                );
                &&& (run_from(start, p.1, 0, rev) matches Ok(fin) ==> (r matches Ok(t) && t@
                    == tops(fin)))
                &&& (run_from(start, p.1, 0, rev) matches Err(f) ==> (r matches Err(e) && {
                    let (k, fault, sv) = f;
                    &&& fault == 0 ==> (e matches Error::InvalidStackReference(x, a) && x
                        == action_from(p.1[k]) && a == p.1[k])
                    &&& fault == 1 ==> (e matches Error::InvalidStackReference(x, a) && x
                        == action_to(p.1[k]) && a == p.1[k])
                    &&& fault == 2 ==> (e matches Error::ImpossibleToApplyAction(v, a) && v@
                        == sv[action_from(p.1[k]) - 1] && a == p.1[k])
                }))
            })
        },
        scan_result(content@) matches Err(e) ==> (r matches Err(er) && {
            let (line, kind, cell) = e;
            &&& kind == 0 ==> (er matches Error::InvalidCrate(t) && t@ == chunk_of(
                text::spec_lines(content@)[line],
                cell,
            ))
            &&& kind == 1 ==> (er matches Error::InvalidMove(t) && t@ == text::spec_lines(
                content@,
            )[line])
            &&& kind == 2 ==> (er matches Error::ParseInt(t) && t@
                == text::spec_lines(content@)[line])
        }),
{
    let (mut stacks, actions) = match read_input(content) {
        Ok(p) => p,
        Err(e) => {
            return Err(e);
        },
    };
    let ghost p = scan_result(content@)->Ok_0;
    let ghost start = Seq::new(
        (if p.0.len() == 0 {
            0int
        } else {
            p.0[0].len() as int
        }) as nat,
        |idx: int| column_of(p.0, idx),
    );
    proof {
        assert(stacks.view_stacks() =~= start);
    }
    let mut index: usize = 0;
    while index < actions.len()
        invariant
            index <= actions@.len(),
            actions@ == p.1,
            forall|k: int|
                0 <= k < p.1.len() ==> action_from(#[trigger] p.1[k]) >= 1 && action_to(p.1[k])
                    >= 1,
            run_from(start, p.1, 0, rev) == run_from(stacks.view_stacks(), p.1, index as int, rev),
        decreases actions@.len() - index,
    {
        let action = &actions[index];
        let next = if rev {
            stacks.accept(action)
        } else {
            stacks.accept_v2(action)
        };
        match next {
            Ok(s2) => {
                stacks = s2;
            },
            Err(e) => {
                return Err(e);
            },
        }
        index = index + 1;
    }
    Ok(read_tops(&stacks))
}

/// Runs the moves one crate at a time and reads the stack tops.
pub fn run_challenge1(content: &str) -> (r: Result<String, Error>)
    requires
        actions_wf(content@),
    ensures
        scan_result(content@) matches Ok(p) ==> {
            let start_ok = rect_rows(p.0);
            &&& (!start_ok ==> (r matches Err(e) && e matches Error::InvalidStacks(_)))
            &&& (start_ok ==> {
                let start = Seq::new(
                    (if p.0.len() == 0 {
                        0int
                    } else {
                        p.0[0].len() as int
                    }) as nat,
                    |idx: int| column_of(p.0, idx),
                );
                &&& (run_from(start, p.1, 0, true) matches Ok(fin) ==> (r matches Ok(t) && t@
                    == tops(fin)))
                &&& (run_from(start, p.1, 0, true) matches Err(f) ==> (r matches Err(e) && {
                    let (k, fault, sv) = f;
                    &&& fault == 0 ==> (e matches Error::InvalidStackReference(x, a) && x
                        == action_from(p.1[k]) && a == p.1[k])
                    &&& fault == 1 ==> (e matches Error::InvalidStackReference(x, a) && x
                        == action_to(p.1[k]) && a == p.1[k])
                    &&& fault == 2 ==> (e matches Error::ImpossibleToApplyAction(v, a) && v@
                        == sv[action_from(p.1[k]) - 1] && a == p.1[k])
                }))
            })
        },
        scan_result(content@) matches Err(e) ==> (r matches Err(er) && {
            let (line, kind, cell) = e;
            &&& kind == 0 ==> (er matches Error::InvalidCrate(t) && t@ == chunk_of(
                text::spec_lines(content@)[line],
                cell,
            ))
            &&& kind == 1 ==> (er matches Error::InvalidMove(t) && t@ == text::spec_lines(
                content@,
            )[line])
            &&& kind == 2 ==> (er matches Error::ParseInt(t) && t@
                == text::spec_lines(content@)[line])
        }),
{
    run_challenge(content, true)
}

/// Runs the moves a whole lift at a time and reads the stack tops.
pub fn run_challenge2(content: &str) -> (r: Result<String, Error>)
    requires
        actions_wf(content@),
    ensures
        scan_result(content@) matches Ok(p) ==> {
            let start_ok = rect_rows(p.0);
            &&& (!start_ok ==> (r matches Err(e) && e matches Error::InvalidStacks(_)))
            &&& (start_ok ==> {
                let start = Seq::new(
                    (if p.0.len() == 0 {
                        0int
                    } else {
                        p.0[0].len() as int
                    }) as nat,
                    |idx: int| column_of(p.0, idx),
                );
                &&& (run_from(start, p.1, 0, false) matches Ok(fin) ==> (r matches Ok(t) && t@
                    == tops(fin)))
                &&& (run_from(start, p.1, 0, false) matches Err(f) ==> (r matches Err(e) && {
                    let (k, fault, sv) = f;
                    &&& fault == 0 ==> (e matches Error::InvalidStackReference(x, a) && x
                        == action_from(p.1[k]) && a == p.1[k])
                    &&& fault == 1 ==> (e matches Error::InvalidStackReference(x, a) && x
                        == action_to(p.1[k]) && a == p.1[k])
                    &&& fault == 2 ==> (e matches Error::ImpossibleToApplyAction(v, a) && v@
                        == sv[action_from(p.1[k]) - 1] && a == p.1[k])
                }))
            })
        },
        scan_result(content@) matches Err(e) ==> (r matches Err(er) && {
            let (line, kind, cell) = e;
            &&& kind == 0 ==> (er matches Error::InvalidCrate(t) && t@ == chunk_of(
                text::spec_lines(content@)[line],
                cell,
            ))
            &&& kind == 1 ==> (er matches Error::InvalidMove(t) && t@ == text::spec_lines(
                content@,
            )[line])
            &&& kind == 2 ==> (er matches Error::ParseInt(t) && t@
                == text::spec_lines(content@)[line])
        }),
{
    run_challenge(content, false)
}

} // verus!
