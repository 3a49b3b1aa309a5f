//! Twelfth puzzle: a height map with a marked start and end.  A walker moves
//! one cell at a time, four ways, climbing at most one unit per step.  The
//! first answer is the shortest way from the start to the end; the second the
//! shortest way down from the end to any lowest cell, walked with the step
//! rule reversed.

use vstd::prelude::*;

use crate::text;

verus! {

/// A failure to read the map or to find a way.
#[derive(Clone, Copy, Debug, PartialEq, Eq, Structural)]
pub enum Error {
    /// The line at this index holds something besides map cells.
    Parse(usize),
    /// The input has no rows.
    EmptyInput,
    /// Two rows of the input differ in length.
    InvalidLineSize,
    /// No cell satisfies the start condition.
    NoStartFound,
    /// No way satisfying the step rule reaches a goal.
    NoPathFound,
}

/// A position on the map, column `x` of row `y`.
#[derive(Clone, Copy, Debug, Eq, Hash, PartialEq, Structural)]
pub struct Pos {
    pub x: usize,
    pub y: usize,
}

/// One cell: the marked start, the marked end, or a plain height.
#[derive(Clone, Copy, Debug, PartialEq, Eq, Structural)]
pub enum Cell {
    Start,
    End,
    Height(u8),
}

/// The height of a cell: the start lies lowest, the end highest.
pub open spec fn spec_height(c: Cell) -> int {
    match c {
        Cell::Start => 0,
        Cell::End => 25,
        Cell::Height(h) => h as int,
    }
}

impl Cell {
    /// Whether this is the marked start.
    pub fn is_start(&self) -> (r: bool)
        ensures
            r == (*self matches Cell::Start),
    {
        match self {
            Cell::Start => true,
            _ => false,
        }
    }

    /// Whether this is the marked end.
    pub fn is_end(&self) -> (r: bool)
        ensures
            r == (*self matches Cell::End),
    {
        match self {
            Cell::End => true,
            _ => false,
        }
    }

    /// The height of this cell.
    pub fn height(self) -> (r: u8)
        ensures
            r as int == spec_height(self),
    {
        match self {
            Cell::Start => 0,
            Cell::End => 25,
            Cell::Height(height) => height,
        }
    }
}

/// The cell a character names, if any.
pub open spec fn cell_of(c: char) -> Option<Cell> {
    if c == 'S' {
        Some(Cell::Start)
    } else if c == 'E' {
        Some(Cell::End)
    } else if 'a' <= c && c <= 'z' {
        Some(Cell::Height(((c as int) - ('a' as int)) as u8))
    } else {
        None
    }
}

/// Whether a line is a nonempty row of cells.
pub open spec fn row_ok(line: Seq<char>) -> bool {
    line.len() >= 1 && forall|k: int| 0 <= k < line.len() ==> cell_of(#[trigger] line[k]) is Some
}

/// The cells of a readable row.
pub open spec fn row_of(line: Seq<char>) -> Seq<Cell> {
    line.map_values(|c: char| cell_of(c)->0)
}

/// The first unreadable line at or after `i`, if any.
pub open spec fn first_bad_row(ls: Seq<Seq<char>>, i: int) -> Option<int>
    decreases ls.len() - i,
{
    if i < 0 || i >= ls.len() {
        None
    } else if !row_ok(ls[i]) {
        Some(i)
    } else {
        first_bad_row(ls, i + 1)
    }
}

/// What the whole input means: the cell grid, or the first failure.  An
/// unreadable line is reported first, then an empty input, then a ragged one.
pub open spec fn spec_parse(content: Seq<char>) -> Result<Seq<Seq<Cell>>, Error> {
    let ls = text::spec_lines(content);
    match first_bad_row(ls, 0) {
        Some(b) => Err(Error::Parse(b as usize)),
        None => if ls.len() == 0 {
            Err(Error::EmptyInput)
        } else if forall|y: int| 0 <= y < ls.len() ==> (#[trigger] ls[y]).len() == ls[0].len() {
            Ok(ls.map_values(|l: Seq<char>| row_of(l)))
        } else {
            Err(Error::InvalidLineSize)
        },
    }
}

/// Parsing keeps the shape of the input: a parsed map has exactly one row
/// per input line and one cell per character, so measuring the rows of the
/// result reproduces the original line and column counts; and an input whose
/// readable lines differ in length always fails as ragged, never with a
/// partial map.
pub proof fn lemma_parse_round_trip(content: Seq<char>)
    ensures
        spec_parse(content) matches Ok(g) ==> {
            let ls = text::spec_lines(content);
            &&& g.len() == ls.len()
            &&& forall|y: int| 0 <= y < g.len() ==> (#[trigger] g[y]).len() == ls[y].len()
        },
        (text::spec_lines(content).len() > 0 && first_bad_row(text::spec_lines(content), 0)
            is None && !(forall|y: int|
            0 <= y < text::spec_lines(content).len() ==> (#[trigger] text::spec_lines(
                content,
            )[y]).len() == text::spec_lines(content)[0].len())) <==> spec_parse(content) == Err::<
            Seq<Seq<Cell>>,
            Error,
        >(Error::InvalidLineSize),
{
    let ls = text::spec_lines(content);
    if let Ok(g) = spec_parse(content) {
        assert(g == ls.map_values(|l: Seq<char>| row_of(l)));
        assert forall|y: int| 0 <= y < g.len() implies (#[trigger] g[y]).len() == ls[y].len() by {
            assert(g[y] == row_of(ls[y]));
        }
    }
}

/// The height map: `rows` rows of `columns` cells each.
#[derive(Debug)]
pub struct Topology {
    pub cells: Vec<Vec<Cell>>,
    pub rows: usize,
    pub columns: usize,
}

impl Topology {
    /// The cells, row by row.
    pub open spec fn grid(self) -> Seq<Seq<Cell>> {
        self.cells@.map_values(|row: Vec<Cell>| row@)
    }

    /// The counts match the stored cells, and the map is rectangular and not
    /// empty.
    pub open spec fn wf(self) -> bool {
        &&& self.rows == self.grid().len()
        &&& self.rows >= 1
        &&& self.columns >= 1
        &&& forall|y: int|
            0 <= y < self.rows ==> (#[trigger] self.grid()[y]).len() == self.columns
        &&& forall|y: int, x: int|
            0 <= y < self.rows && 0 <= x < self.columns ==> spec_height(
                #[trigger] self.grid()[y][x],
            ) <= 25
    }

    /// Reads the whole input into a height map.
    pub fn parse(content: &str) -> (r: Result<Topology, Error>)
        ensures
            spec_parse(content@) matches Ok(g) ==> (r matches Ok(t) && t.wf() && t.grid() == g
                && t.rows == g.len() && t.columns == g[0].len()),
            spec_parse(content@) matches Err(e) ==> r == Err::<Topology, Error>(e),
    {
        let ls = text::lines_of(content);
        let ghost lsv = ls.deep_view();
        let mut cells: Vec<Vec<Cell>> = Vec::new();
        let mut i: usize = 0;
        while i < ls.len()
            invariant
                i <= ls@.len(),
                lsv == ls.deep_view(),
                cells@.len() == i,
                first_bad_row(lsv, 0) == first_bad_row(lsv, i as int),
                forall|y: int| 0 <= y < i ==> row_ok(#[trigger] lsv[y]),
                forall|y: int| 0 <= y < i ==> (#[trigger] cells@[y])@ == row_of(lsv[y]),
            decreases ls@.len() - i,
        {
            let line = &ls[i];
            assert(line@ == lsv[i as int]);
            match parse_row(line) {
                Some(row) => {
                    cells.push(row);
                },
                None => {
                    return Err(Error::Parse(i));
                },
            }
            i = i + 1;
        }
        if cells.len() == 0 {
            return Err(Error::EmptyInput);
        }
        let columns = cells[0].len();
        let rows = cells.len();
        let mut y: usize = 1;
        while y < rows
            invariant
                1 <= y <= rows,
                rows == cells@.len(),
                columns == cells@[0]@.len(),
                forall|k: int| 0 <= k < y ==> (#[trigger] cells@[k])@.len() == columns,
            decreases rows - y,
        {
            if cells[y].len() != columns {
                assert(lsv[y as int].len() == cells@[y as int]@.len());
                assert(lsv[0].len() == cells@[0]@.len());
                return Err(Error::InvalidLineSize);
            }
            y = y + 1;
        }
        let t = Topology { cells, rows, columns };
        proof {
            assert forall|k: int| 0 <= k < rows implies (#[trigger] lsv[k]).len()
                == lsv[0].len() by {
                assert(cells@[k]@ == row_of(lsv[k]));
                assert(row_of(lsv[k]).len() == lsv[k].len());
                assert(cells@[k]@.len() == columns);
                assert(cells@[0]@ == row_of(lsv[0]));
            }
            assert(forall|k: int| 0 <= k < rows ==> lsv[k].len() == (#[trigger] t.grid()[k]).len());
            assert(t.grid() =~~= lsv.map_values(|l: Seq<char>| row_of(l)));
            assert forall|yy: int, xx: int|
                0 <= yy < rows && 0 <= xx < columns implies spec_height(
                #[trigger] t.grid()[yy][xx],
            ) <= 25 by {
                assert(t.grid()[yy] == row_of(lsv[yy]));
                assert(t.grid()[yy][xx] == cell_of(lsv[yy][xx])->0);
                assert(cell_of(lsv[yy][xx]) is Some);
            }
            assert(columns >= 1) by {
                assert(row_ok(lsv[0]));
                assert(lsv[0].len() >= 1);
                assert(cells@[0]@ == row_of(lsv[0]));
            }
            assert(spec_parse(content@) is Ok);
        }
        Ok(t)
    }
}

/// Reads one row of cells, rejecting a line that is empty or holds anything
/// else.
fn parse_row(line: &Vec<char>) -> (r: Option<Vec<Cell>>)
    ensures
        row_ok(line@) ==> (r matches Some(v) && v@ == row_of(line@)),
        !row_ok(line@) ==> r is None,
{
    if line.len() == 0 {
        return None;
    }
    let mut row: Vec<Cell> = Vec::new();
    let mut k: usize = 0;
    while k < line.len()
        invariant
            k <= line@.len(),
            row@.len() == k,
            forall|j: int| 0 <= j < k ==> cell_of(#[trigger] line@[j]) is Some,
            forall|j: int| 0 <= j < k ==> row@[j] == cell_of(line@[j])->0,
        decreases line@.len() - k,
    {
        let c = line[k];
        let cell = if c == 'S' {
            Cell::Start
        } else if c == 'E' {
            Cell::End
        } else if c >= 'a' && c <= 'z' {
            Cell::Height(((c as u32) - ('a' as u32)) as u8)
        } else {
            assert(cell_of(line@[k as int]) is None);
            return None;
        };
        assert(Some(cell) == cell_of(line@[k as int]));
        row.push(cell);
        k = k + 1;
    }
    proof {
        assert(row@ =~= row_of(line@));
    }
    Some(row)
}

/// A condition picking cells: the marked start, the marked end, or any
/// lowest cell.
#[derive(Clone, Copy, Debug, PartialEq, Eq, Structural)]
pub enum CellPick {
    Start,
    End,
    Lowest,
}

/// Whether a cell satisfies a pick.
pub open spec fn picks(p: CellPick, c: Cell) -> bool {
    match p {
        CellPick::Start => c matches Cell::Start,
        CellPick::End => c matches Cell::End,
        CellPick::Lowest => spec_height(c) == 0,
    }
}

/// Checks a pick on a cell.
fn eval_pick(p: CellPick, c: Cell) -> (r: bool)
    ensures
        r == picks(p, c),
{
    match p {
        CellPick::Start => c.is_start(),
        CellPick::End => c.is_end(),
        CellPick::Lowest => c.height() == 0,
    }
}

/// The rule allowing a step: climbing at most one unit, or descending at
/// most one unit (seen from the walker going backward from the end).
#[derive(Clone, Copy, Debug, PartialEq, Eq, Structural)]
pub enum StepRule {
    Ascent,
    Descent,
}

/// Whether a step from `cur` onto `nb` is allowed.
pub open spec fn step_ok(rule: StepRule, cur: Cell, nb: Cell) -> bool {
    match rule {
        StepRule::Ascent => spec_height(nb) <= spec_height(cur) + 1,
        StepRule::Descent => spec_height(cur) == 0 || spec_height(nb) >= spec_height(cur) - 1,
    }
}

/// Checks a step rule.
fn eval_step(rule: StepRule, cur: Cell, nb: Cell) -> (r: bool)
    requires
        spec_height(cur) <= 25,
    ensures
        r == step_ok(rule, cur, nb),
{
    match rule {
        StepRule::Ascent => nb.height() <= cur.height() + 1,
        StepRule::Descent => cur.height() == 0 || nb.height() >= cur.height() - 1,
    }
}

impl Topology {
    /// The cell at a position.
    pub fn at(&self, pos: &Pos) -> (r: Cell)
        requires
            self.wf(),
            pos.y < self.rows,
            pos.x < self.columns,
        ensures
            r == self.grid()[pos.y as int][pos.x as int],
    {
        assert(self.grid()[pos.y as int] == self.cells@[pos.y as int]@);
        self.cells[pos.y][pos.x]
    }

    /// The first cell in reading order satisfying the pick, if any.
    pub fn find(&self, predicate: CellPick) -> (r: Option<Pos>)
        requires
            self.wf(),
        ensures
            r == scan_first(self.grid(), self.rows as int, self.columns as int, predicate),
            r matches Some(p) ==> p.y < self.rows && p.x < self.columns && picks(
                predicate,
                self.grid()[p.y as int][p.x as int],
            ) && (forall|y: int, x: int|
                0 <= y < self.rows && 0 <= x < self.columns && (y < p.y || (y == p.y && x < p.x))
                    ==> !picks(predicate, #[trigger] self.grid()[y][x])),
            r is None ==> (forall|y: int, x: int|
                0 <= y < self.rows && 0 <= x < self.columns ==> !picks(
                    predicate,
                    #[trigger] self.grid()[y][x],
                )),
    {
        let mut y: usize = 0;
        while y < self.rows
            invariant
                y <= self.rows,
                self.wf(),
                forall|yy: int, xx: int|
                    0 <= yy < y && 0 <= xx < self.columns ==> !picks(
                        predicate,
                        #[trigger] self.grid()[yy][xx],
                    ),
            decreases self.rows - y,
        {
            let mut x: usize = 0;
            while x < self.columns
                invariant
                    y < self.rows,
                    x <= self.columns,
                    self.wf(),
                    forall|yy: int, xx: int|
                        0 <= yy < y && 0 <= xx < self.columns ==> !picks(
                            predicate,
                            #[trigger] self.grid()[yy][xx],
                        ),
                    forall|xx: int|
                        0 <= xx < x ==> !picks(predicate, #[trigger] self.grid()[y as int][xx]),
                decreases self.columns - x,
            {
                let pos = Pos { x, y };
                let c = self.at(&pos);
                if eval_pick(predicate, c) {
                    proof {
                        lemma_scan_first_hits(
                            self.grid(),
                            self.rows as int,
                            self.columns as int,
                            predicate,
                            pos,
                            0,
                        );
                        assert(0 <= pos.y * (self.columns as int) + pos.x) by (nonlinear_arith)
                            requires
                                0 <= pos.y,
                                0 <= pos.x,
                                0 <= self.columns,
                        ;
                    }
                    return Some(pos);
                }
                x = x + 1;
            }
            y = y + 1;
        }
        proof {
            lemma_scan_first_none(self.grid(), self.rows as int, self.columns as int, predicate, 0);
        }
        None
    }

    /// The in-bounds neighbours of `pos` with their cells: exactly the
    /// sequence `spec_neighbours` gives, so each appears once, there are at
    /// most four, and the order is the fixed one.
    pub fn neighbours(&self, pos: Pos) -> (r: Vec<(Pos, Cell)>)
        requires
            self.wf(),
            pos.y < self.rows,
            pos.x < self.columns,
        ensures
            r@ == spec_neighbours(
                self.grid(),
                self.rows as int,
                self.columns as int,
                pos,
            ),
            forall|k: int|
                0 <= k < r@.len() ==> {
                    let (q, c) = #[trigger] r@[k];
                    &&& q.y < self.rows
                    &&& q.x < self.columns
                    &&& adjacent(pos, q)
                    &&& c == self.grid()[q.y as int][q.x as int]
                },
            forall|q: Pos|
                q.y < self.rows && q.x < self.columns && adjacent(pos, q) ==> exists|k: int|
                    0 <= k < r@.len() && (#[trigger] r@[k]).0 == q,
    {
        let ghost target = spec_neighbours(
            self.grid(),
            self.rows as int,
            self.columns as int,
            pos,
        );
        let mut r: Vec<(Pos, Cell)> = Vec::new();
        if pos.y + 1 < self.rows {
            let q = Pos { x: pos.x, y: pos.y + 1 };
            r.push((q, self.at(&q)));
        }
        if pos.y > 0 {
            let q = Pos { x: pos.x, y: pos.y - 1 };
            r.push((q, self.at(&q)));
        }
        if pos.x + 1 < self.columns {
            let q = Pos { x: pos.x + 1, y: pos.y };
            r.push((q, self.at(&q)));
        }
        if pos.x > 0 {
            let q = Pos { x: pos.x - 1, y: pos.y };
            r.push((q, self.at(&q)));
        }
        proof {
            assert forall|q: Pos|
                q.y < self.rows && q.x < self.columns && adjacent(pos, q) implies exists|k: int|
                0 <= k < r@.len() && (#[trigger] r@[k]).0 == q by {
                if q.x == pos.x && q.y == pos.y + 1 {
                    assert(exists|k: int| 0 <= k < r@.len() && (#[trigger] r@[k]).0 == q) by {
                        assert(r@[0].0 == q);
                    }
                } else if q.x == pos.x && q.y + 1 == pos.y {
                    let k = if pos.y + 1 < self.rows {
                        1int
                    } else {
                        0int
                    };
                    assert(r@[k].0 == q);
                } else if q.y == pos.y && q.x == pos.x + 1 {
                    let k = (if pos.y + 1 < self.rows {
                        1int
                    } else {
                        0int
                    }) + (if pos.y > 0 {
                        1int
                    } else {
                        0int
                    });
                    assert(r@[k].0 == q);
                } else {
                    let k = (if pos.y + 1 < self.rows {
                        1int
                    } else {
                        0int
                    }) + (if pos.y > 0 {
                        1int
                    } else {
                        0int
                    }) + (if pos.x + 1 < self.columns {
                        1int
                    } else {
                        0int
                    });
                    assert(q.y == pos.y && q.x + 1 == pos.x);
                    assert(r@[k].0 == q);
                }
            }
            assert(r@ =~= target);
        }
        r
    }
}

/// The neighbours of `pos` inside a grid of the given shape, with their
/// cells, in the fixed order: the row above, the row below, the column to the
/// right, the column to the left, keeping only what lies inside.
pub open spec fn spec_neighbours(g: Seq<Seq<Cell>>, rows: int, cols: int, pos: Pos) -> Seq<
    (Pos, Cell),
> {
    (if pos.y + 1 < rows {
        seq![
            (
                Pos { x: pos.x, y: (pos.y + 1) as usize },
                g[pos.y + 1][pos.x as int],
            ),
        ]
    } else {
        Seq::empty()
    }) + (if pos.y >= 1 {
        seq![
            (
                Pos { x: pos.x, y: (pos.y - 1) as usize },
                g[pos.y - 1][pos.x as int],
            ),
        ]
    } else {
        Seq::empty()
    }) + (if pos.x + 1 < cols {
        seq![
            (
                Pos { x: (pos.x + 1) as usize, y: pos.y },
                g[pos.y as int][pos.x + 1],
            ),
        ]
    } else {
        Seq::empty()
    }) + (if pos.x >= 1 {
        seq![
            (
                Pos { x: (pos.x - 1) as usize, y: pos.y },
                g[pos.y as int][pos.x - 1],
            ),
        ]
    } else {
        Seq::empty()
    })
}

/// The first position at or after flat index `idx`, in reading order, whose
/// cell satisfies the pick, if any.
pub open spec fn scan_first_from(
    g: Seq<Seq<Cell>>,
    rows: int,
    cols: int,
    pick: CellPick,
    idx: int,
) -> Option<Pos>
    decreases rows * cols - idx,
{
    if idx < 0 || idx >= rows * cols {
        None
    } else {
        let p = Pos { x: (idx % cols) as usize, y: (idx / cols) as usize };
        if picks(pick, g[p.y as int][p.x as int]) {
            Some(p)
        } else {
            scan_first_from(g, rows, cols, pick, idx + 1)
        }
    }
}

/// The first cell in reading order satisfying the pick, if any.
pub open spec fn scan_first(g: Seq<Seq<Cell>>, rows: int, cols: int, pick: CellPick) -> Option<
    Pos,
> {
    scan_first_from(g, rows, cols, pick, 0)
}

/// Positions inside a grid of `rows` by `cols` compare the same way in
/// reading order and by flat index.
proof fn lemma_flat_order(a: Pos, b: Pos, cols: int)
    requires
        a.x < cols,
        b.x < cols,
    ensures
        (a.y < b.y || (a.y == b.y && a.x < b.x)) <==> a.y * cols + a.x < b.y * cols + b.x,
{
    assert((a.y < b.y || (a.y == b.y && a.x < b.x)) <==> a.y * cols + a.x < b.y * cols + b.x) by (
    nonlinear_arith)
        requires
            0 <= a.x < cols,
            0 <= b.x < cols,
            0 <= a.y,
            0 <= b.y,
    ;
}

/// A flat index inside the grid names an in-bounds position.
proof fn lemma_flat_pos(idx: int, rows: int, cols: int)
    requires
        1 <= cols,
        rows <= usize::MAX,
        cols <= usize::MAX,
        0 <= idx < rows * cols,
    ensures
        0 <= idx / cols < rows,
        0 <= idx % cols < cols,
        (idx / cols) * cols + (idx % cols) == idx,
        ((idx / cols) as usize) as int == idx / cols,
        ((idx % cols) as usize) as int == idx % cols,
    decreases 0int,
{
    vstd::arithmetic::div_mod::lemma_fundamental_div_mod(idx, cols);
    vstd::arithmetic::div_mod::lemma_mod_bound(idx, cols);
    assert(idx == cols * (idx / cols) + idx % cols);
    assert((idx / cols) * cols == cols * (idx / cols)) by (nonlinear_arith);
    assert(0 <= idx / cols) by (nonlinear_arith)
        requires
            idx == cols * (idx / cols) + idx % cols,
            0 <= idx,
            1 <= cols,
            0 <= idx % cols < cols,
    ;
    assert(idx / cols < rows) by (nonlinear_arith)
        requires
            idx == cols * (idx / cols) + idx % cols,
            idx < rows * cols,
            1 <= cols,
            0 <= idx % cols < cols,
            0 <= idx / cols,
    ;
}

/// When nothing at or after `idx` satisfies the pick, the scan finds nothing.
proof fn lemma_scan_first_none(g: Seq<Seq<Cell>>, rows: int, cols: int, pick: CellPick, idx: int)
    requires
        1 <= cols,
        rows <= usize::MAX,
        cols <= usize::MAX,
        forall|y: int, x: int|
            0 <= y < rows && 0 <= x < cols ==> !picks(pick, #[trigger] g[y][x]),
    ensures
        scan_first_from(g, rows, cols, pick, idx) is None,
    decreases rows * cols - idx,
{
    if 0 <= idx < rows * cols {
        lemma_flat_pos(idx, rows, cols);
        lemma_scan_first_none(g, rows, cols, pick, idx + 1);
    }
}

/// When `s` satisfies the pick and nothing before it in reading order does,
/// the scan from any index at or before `s` finds exactly `s`.
proof fn lemma_scan_first_hits(
    g: Seq<Seq<Cell>>,
    rows: int,
    cols: int,
    pick: CellPick,
    s: Pos,
    idx: int,
)
    requires
        1 <= cols,
        rows <= usize::MAX,
        cols <= usize::MAX,
        s.y < rows,
        s.x < cols,
        picks(pick, g[s.y as int][s.x as int]),
        forall|y: int, x: int|
            0 <= y < rows && 0 <= x < cols && (y < s.y || (y == s.y && x < s.x)) ==> !picks(
                pick,
                #[trigger] g[y][x],
            ),
        0 <= idx <= s.y * cols + s.x,
    ensures
        scan_first_from(g, rows, cols, pick, idx) == Some(s),
    decreases rows * cols - idx,
{
    assert(0 <= s.y * cols + s.x < rows * cols) by (nonlinear_arith)
        requires
            0 <= s.y < rows,
            0 <= s.x < cols,
    ;
    lemma_flat_pos(idx, rows, cols);
    let p = Pos { x: (idx % cols) as usize, y: (idx / cols) as usize };
    lemma_flat(s.y as int, s.x as int, cols);
    if idx == s.y * cols + s.x {
        assert(p == s);
    } else {
        lemma_flat_order(p, s, cols);
        assert(p.y < s.y || (p.y == s.y && p.x < s.x));
        assert(!picks(pick, g[p.y as int][p.x as int]));
        lemma_scan_first_hits(g, rows, cols, pick, s, idx + 1);
    }
}

/// What the reading-order scan means, stated without the recursion: it finds
/// nothing exactly when no cell satisfies the pick, and otherwise the cell it
/// finds satisfies the pick with nothing before it in reading order doing so.
pub proof fn lemma_scan_first(g: Seq<Seq<Cell>>, rows: int, cols: int, pick: CellPick)
    requires
        1 <= cols,
        0 <= rows,
        rows <= usize::MAX,
        cols <= usize::MAX,
    ensures
        (scan_first(g, rows, cols, pick) is None) <==> (forall|y: int, x: int|
            0 <= y < rows && 0 <= x < cols ==> !picks(pick, #[trigger] g[y][x])),
        scan_first(g, rows, cols, pick) matches Some(s) ==> s.y < rows && s.x < cols && picks(
            pick,
            g[s.y as int][s.x as int],
        ) && (forall|y: int, x: int|
            0 <= y < rows && 0 <= x < cols && (y < s.y || (y == s.y && x < s.x)) ==> !picks(
                pick,
                #[trigger] g[y][x],
            )),
{
    lemma_scan_first_props(g, rows, cols, pick, 0);
    if scan_first(g, rows, cols, pick) is None {
        if exists|y: int, x: int|
            0 <= y < rows && 0 <= x < cols && picks(pick, #[trigger] g[y][x]) {
            let (y, x) = choose|y: int, x: int|
                0 <= y < rows && 0 <= x < cols && picks(pick, #[trigger] g[y][x]);
            lemma_first_of_some(g, rows, cols, pick, Pos { x: x as usize, y: y as usize });
        }
    }
}

/// If any cell satisfies the pick, some scan-first cell exists: walk the
/// candidates down in reading order.
proof fn lemma_first_of_some(g: Seq<Seq<Cell>>, rows: int, cols: int, pick: CellPick, c: Pos)
    requires
        1 <= cols,
        rows <= usize::MAX,
        cols <= usize::MAX,
        c.y < rows,
        c.x < cols,
        picks(pick, g[c.y as int][c.x as int]),
    ensures
        scan_first(g, rows, cols, pick) is Some,
    decreases c.y * cols + c.x,
{
    assert(0 <= c.y * cols + c.x) by (nonlinear_arith)
        requires
            0 <= c.y,
            0 <= c.x,
            0 <= cols,
    ;
    if exists|y: int, x: int|
        0 <= y < rows && 0 <= x < cols && (y < c.y || (y == c.y && x < c.x)) && picks(
            pick,
            #[trigger] g[y][x],
        ) {
        let (y, x) = choose|y: int, x: int|
            0 <= y < rows && 0 <= x < cols && (y < c.y || (y == c.y && x < c.x)) && picks(
                pick,
                #[trigger] g[y][x],
            );
        let e = Pos { x: x as usize, y: y as usize };
        lemma_flat_order(e, c, cols);
        assert(0 <= e.y * cols + e.x) by (nonlinear_arith)
            requires
                0 <= e.y,
                0 <= e.x,
                0 <= cols,
        ;
        lemma_first_of_some(g, rows, cols, pick, e);
    } else {
        lemma_scan_first_hits(g, rows, cols, pick, c, 0);
    }
}

/// Whatever the scan finds satisfies the pick, with nothing before it.
proof fn lemma_scan_first_props(g: Seq<Seq<Cell>>, rows: int, cols: int, pick: CellPick, idx: int)
    requires
        1 <= cols,
        rows <= usize::MAX,
        cols <= usize::MAX,
        0 <= idx,
    ensures
        scan_first_from(g, rows, cols, pick, idx) matches Some(s) ==> s.y < rows && s.x < cols
            && picks(pick, g[s.y as int][s.x as int]) && idx <= s.y * cols + s.x && (forall|
            y: int,
            x: int,
        |
            0 <= y < rows && 0 <= x < cols && idx <= y * cols + x && (y < s.y || (y == s.y && x
                < s.x)) ==> !picks(pick, #[trigger] g[y][x])),
    decreases rows * cols - idx,
{
    if 0 <= idx < rows * cols {
        lemma_flat_pos(idx, rows, cols);
        let p = Pos { x: (idx % cols) as usize, y: (idx / cols) as usize };
        if picks(pick, g[p.y as int][p.x as int]) {
            assert forall|y: int, x: int|
                0 <= y < rows && 0 <= x < cols && idx <= y * cols + x && (y < p.y || (y == p.y
                    && x < p.x)) implies !picks(pick, #[trigger] g[y][x]) by {
                let q = Pos { x: x as usize, y: y as usize };
                lemma_flat_order(q, p, cols);
            }
        } else {
            lemma_scan_first_props(g, rows, cols, pick, idx + 1);
            if let Some(s) = scan_first_from(g, rows, cols, pick, idx + 1) {
                assert forall|y: int, x: int|
                    0 <= y < rows && 0 <= x < cols && idx <= y * cols + x && (y < s.y || (y == s.y
                        && x < s.x)) implies !picks(pick, #[trigger] g[y][x]) by {
                    if y * cols + x == idx {
                        let q = Pos { x: x as usize, y: y as usize };
                        lemma_flat(y, x, cols);
                        assert(q == p);
                    }
                }
            }
        }
    }
}

impl Topology {
    /// The neighbours of `pos`, stated only as far as the search needs: every
    /// returned pair is a sound neighbour, and every neighbour is returned.
    fn neighbours_for_search(&self, pos: Pos) -> (r: Vec<(Pos, Cell)>)
        requires
            self.wf(),
            pos.y < self.rows,
            pos.x < self.columns,
        ensures
            forall|k: int|
                0 <= k < r@.len() ==> {
                    let (q, c) = #[trigger] r@[k];
                    &&& q.y < self.rows
                    &&& q.x < self.columns
                    &&& adjacent(pos, q)
                    &&& c == self.grid()[q.y as int][q.x as int]
                },
            forall|q: Pos|
                q.y < self.rows && q.x < self.columns && adjacent(pos, q) ==> exists|k: int|
                    0 <= k < r@.len() && (#[trigger] r@[k]).0 == q,
    {
        self.neighbours(pos)
    }
}

/// Whether two positions touch along a row or a column.
pub open spec fn adjacent(a: Pos, b: Pos) -> bool {
    ||| (a.x == b.x && (a.y + 1 == b.y || b.y + 1 == a.y))
    ||| (a.y == b.y && (a.x + 1 == b.x || b.x + 1 == a.x))
}

/// Whether a walk of exactly `n` allowed steps leads from `start` to `p`.
pub open spec fn reach(
    g: Seq<Seq<Cell>>,
    rows: int,
    cols: int,
    rule: StepRule,
    start: Pos,
    p: Pos,
    n: nat,
) -> bool
    decreases n,
{
    if n == 0 {
        p == start
    } else {
        exists|q: Pos|
            #![auto]
            q.y < rows && q.x < cols && reach(g, rows, cols, rule, start, q, (n - 1) as nat)
                && adjacent(q, p) && step_ok(rule, g[q.y as int][q.x as int], g[p.y as int][p.x as int])
    }
}

/// Whether such a walk exists that never returns to the start.
pub open spec fn reach_clear(
    g: Seq<Seq<Cell>>,
    rows: int,
    cols: int,
    rule: StepRule,
    start: Pos,
    p: Pos,
    n: nat,
) -> bool
    decreases n,
{
    if n == 0 {
        p == start
    } else {
        p != start && exists|q: Pos|
            #![auto]
            q.y < rows && q.x < cols && reach_clear(g, rows, cols, rule, start, q, (n - 1) as nat)
                && adjacent(q, p) && step_ok(rule, g[q.y as int][q.x as int], g[p.y as int][p.x as int])
    }
}

/// Any walk has a walk no longer that never returns to the start: cutting a
/// walk at its last visit to the start leaves such a walk.
pub proof fn lemma_reach_clear(
    g: Seq<Seq<Cell>>,
    rows: int,
    cols: int,
    rule: StepRule,
    start: Pos,
    p: Pos,
    n: nat,
)
    requires
        reach(g, rows, cols, rule, start, p, n),
    ensures
        exists|m: nat| m <= n && #[trigger] reach_clear(g, rows, cols, rule, start, p, m),
    decreases n,
{
    if p == start {
        assert(reach_clear(g, rows, cols, rule, start, p, 0));
    } else {
        assert(n > 0);
        let q = choose|q: Pos|
            #![auto]
            q.y < rows && q.x < cols && reach(g, rows, cols, rule, start, q, (n - 1) as nat)
                && adjacent(q, p) && step_ok(
                rule,
                g[q.y as int][q.x as int],
                g[p.y as int][p.x as int],
            );
        lemma_reach_clear(g, rows, cols, rule, start, q, (n - 1) as nat);
        let m = choose|m: nat| m <= n - 1 && #[trigger] reach_clear(g, rows, cols, rule, start, q, m);
        assert(reach_clear(g, rows, cols, rule, start, p, m + 1));
    }
}

/// A walk that never returns to the start is in particular a walk.
pub proof fn lemma_clear_implies_reach(
    g: Seq<Seq<Cell>>,
    rows: int,
    cols: int,
    rule: StepRule,
    start: Pos,
    p: Pos,
    n: nat,
)
    requires
        reach_clear(g, rows, cols, rule, start, p, n),
    ensures
        reach(g, rows, cols, rule, start, p, n),
    decreases n,
{
    if n > 0 {
        let q = choose|q: Pos|
            #![auto]
            q.y < rows && q.x < cols && reach_clear(g, rows, cols, rule, start, q, (n - 1) as nat)
                && adjacent(q, p) && step_ok(
                rule,
                g[q.y as int][q.x as int],
                g[p.y as int][p.x as int],
            );
        lemma_clear_implies_reach(g, rows, cols, rule, start, q, (n - 1) as nat);
    }
}

/// Whether the search has visited `p`.
pub open spec fn seen(v: Seq<Option<(Pos, usize)>>, cols: int, p: Pos) -> bool {
    v[p.y * cols + p.x] is Some
}

/// The search record of `p`: its predecessor and its distance.
pub open spec fn entry(v: Seq<Option<(Pos, usize)>>, cols: int, p: Pos) -> (Pos, usize) {
    v[p.y * cols + p.x]->0
}

/// The flat index of a position recovers its coordinates.
proof fn lemma_flat(y: int, x: int, cols: int)
    requires
        0 <= y,
        0 <= x < cols,
    ensures
        (y * cols + x) / cols == y,
        (y * cols + x) % cols == x,
        y * cols + x >= 0,
{
    vstd::arithmetic::div_mod::lemma_fundamental_div_mod_converse(y * cols + x, cols, y, x);
    assert(y * cols + x >= 0) by (nonlinear_arith)
        requires
            0 <= y,
            0 <= x,
            x < cols,
    ;
}

/// Distinct positions have distinct flat indexes.
proof fn lemma_flat_injective(a: Pos, b: Pos, cols: int)
    requires
        a.x < cols,
        b.x < cols,
        a.y * cols + a.x == b.y * cols + b.x,
    ensures
        a == b,
{
    lemma_flat(a.y as int, a.x as int, cols);
    lemma_flat(b.y as int, b.x as int, cols);
}

/// Distinct positions use distinct flat indexes.
proof fn lemma_flat_distinct(a: Pos, b: Pos, cols: int)
    requires
        a.x < cols,
        b.x < cols,
        a != b,
    ensures
        a.y * cols + a.x != b.y * cols + b.x,
{
    if a.y * cols + a.x == b.y * cols + b.x {
        lemma_flat_injective(a, b, cols);
    }
}

/// How many cells the search has visited.
pub open spec fn seen_count(v: Seq<Option<(Pos, usize)>>) -> int
    decreases v.len(),
{
    if v.len() == 0 {
        0
    } else {
        seen_count(v.drop_last()) + (if v.last() is Some {
            1int
        } else {
            0int
        })
    }
}

/// The count is bounded by the map's size and rises by one per new record.
proof fn lemma_seen_count_update(v: Seq<Option<(Pos, usize)>>, j: int, e: (Pos, usize))
    requires
        0 <= j < v.len(),
        v[j] is None,
    ensures
        seen_count(v.update(j, Some(e))) == seen_count(v) + 1,
    decreases v.len(),
{
    let v2 = v.update(j, Some(e));
    if j == v.len() - 1 {
        assert(v2.drop_last() =~= v.drop_last());
    } else {
        assert(v2.drop_last() =~= v.drop_last().update(j, Some(e)));
        lemma_seen_count_update(v.drop_last(), j, e);
    }
}

/// The count never exceeds the map's size, and is never negative.
proof fn lemma_seen_count_bounds(v: Seq<Option<(Pos, usize)>>)
    ensures
        0 <= seen_count(v) <= v.len(),
    decreases v.len(),
{
    if v.len() > 0 {
        lemma_seen_count_bounds(v.drop_last());
    }
}

/// Searches the map level by level from the first cell picked by
/// `start_filter`, stepping only where `neighbour_filter` allows, until some
/// newly reached cell satisfies `termination`, and returns the way there.
///
/// The way returned is as short as any: no cell satisfying `termination`,
/// other than the start itself, can be reached from the start in fewer
/// allowed steps.
#[verifier::rlimit(100)]
#[verifier::spinoff_prover]
pub fn walk(
    topology: &Topology,
    start_filter: CellPick,
    neighbour_filter: StepRule,
    termination: CellPick,
) -> (r: Result<Vec<Pos>, Error>)
    requires
        topology.wf(),
        topology.rows * topology.columns < usize::MAX,
    ensures
        (r == Err::<Vec<Pos>, Error>(Error::NoStartFound)) <==> (forall|y: int, x: int|
            0 <= y < topology.rows && 0 <= x < topology.columns ==> !picks(
                start_filter,
                #[trigger] topology.grid()[y][x],
            )),
        r matches Ok(path) ==> walk_ok(
            topology.grid(),
            topology.rows as int,
            topology.columns as int,
            start_filter,
            neighbour_filter,
            termination,
            path@,
        ),
        r is Err ==> r == Err::<Vec<Pos>, Error>(Error::NoStartFound) || r == Err::<
            Vec<Pos>,
            Error,
        >(Error::NoPathFound),
        r matches Ok(path) ==> scan_first(
            topology.grid(),
            topology.rows as int,
            topology.columns as int,
            start_filter,
        ) == Some(path@[0]),
        scan_first(
            topology.grid(),
            topology.rows as int,
            topology.columns as int,
            start_filter,
        ) matches Some(s) ==> ((r == Err::<Vec<Pos>, Error>(Error::NoPathFound)) <==> (forall|
            p: Pos,
            n: nat,
        |
            p.y < topology.rows && p.x < topology.columns && p != s && n >= 1 && #[trigger] reach(
                topology.grid(),
                topology.rows as int,
                topology.columns as int,
                neighbour_filter,
                s,
                p,
                n,
            ) ==> !picks(
                termination,
                topology.grid()[p.y as int][p.x as int],
            ))),
{
    let ghost g = topology.grid();
    let ghost rows = topology.rows as int;
    let ghost cols = topology.columns as int;
    let rule = neighbour_filter;
    let start = match topology.find(start_filter) {
        Some(s) => s,
        None => {
            return Err(Error::NoStartFound);
        },
    };
    let size = topology.rows * topology.columns;
    let mut vis: Vec<Option<(Pos, usize)>> = Vec::new();
    let mut vi: usize = 0;
    while vi < size
        invariant
            vi <= size,
            vis@.len() == vi,
            forall|j: int| 0 <= j < vi ==> (#[trigger] vis@[j]) is None,
        decreases size - vi,
    {
        vis.push(None);
        vi = vi + 1;
    }
    proof {
        lemma_seen_count_bounds(vis@);
        lemma_seen_count_none(vis@);
    }
    let mut current: Vec<Pos> = Vec::new();
    current.push(start);
    let mut depth: usize = 0;
    let mut count: usize = 0;
    proof {
        assert(current@ =~= seq![start]);
        assert forall|p: Pos|
            p.y < rows && p.x < cols && #[trigger] reach_clear(
                g,
                rows,
                cols,
                rule,
                start,
                p,
                0nat,
            ) implies current@.contains(p) || exists|k: nat|
            k < 0 && reach_clear(g, rows, cols, rule, start, p, k) by {
            assert(p == start);
            assert(current@[0] == start);
        }
        assert(records_ok(g, rows, cols, rule, start, termination, vis@, 0, 0)) by {
            assert forall|j: int|
                0 <= j < vis@.len() implies #[trigger] record_ok(
                g,
                rows,
                cols,
                rule,
                start,
                termination,
                vis@,
                0,
                0,
                j,
            ) by {
                assert(vis@[j] is None);
            }
        }
    }
    loop
        invariant
            topology.wf(),
            g == topology.grid(),
            rows == topology.rows as int,
            cols == topology.columns as int,
            rule == neighbour_filter,
            size == topology.rows * topology.columns,
            size < usize::MAX,
            vis@.len() == size,
            start.y < rows && start.x < cols,
            picks(start_filter, g[start.y as int][start.x as int]),
            forall|y: int, x: int|
                0 <= y < rows && 0 <= x < cols && (y < start.y || (y == start.y && x < start.x))
                    ==> !picks(start_filter, #[trigger] g[y][x]),
            count == seen_count(vis@),
            depth <= count,
            current@.len() >= 1,
            depth == 0 ==> current@ == seq![start],
            forall|k: int|
                0 <= k < current@.len() ==> {
                    let p = #[trigger] current@[k];
                    &&& p.y < rows && p.x < cols
                    &&& reach_clear(g, rows, cols, rule, start, p, depth as nat)
                    &&& (depth > 0 ==> seen(vis@, cols, p) && entry(vis@, cols, p).1 == depth)
                },
            records_ok(g, rows, cols, rule, start, termination, vis@, depth as int, depth as int),
            forall|p: Pos, k: nat|
                p.y < rows && p.x < cols && 1 <= k <= depth && #[trigger] reach_clear(
                    g,
                    rows,
                    cols,
                    rule,
                    start,
                    p,
                    k,
                ) ==> seen(vis@, cols, p) && entry(vis@, cols, p).1 <= k,
            forall|p: Pos|
                p.y < rows && p.x < cols && #[trigger] reach_clear(
                    g,
                    rows,
                    cols,
                    rule,
                    start,
                    p,
                    depth as nat,
                ) ==> current@.contains(p) || exists|k: nat|
                    k < depth && reach_clear(g, rows, cols, rule, start, p, k),
        decreases size + 1 - count,
    {
        let ghost head_count = count as int;
        let mut new_current: Vec<Pos> = Vec::new();
        proof {
            assert forall|p: Pos|
                p.y < rows && p.x < cols && #[trigger] seen(vis@, cols, p) && entry(
                    vis@,
                    cols,
                    p,
                ).1 == depth + 1 implies new_current@.contains(p) by {
                lemma_flat(p.y as int, p.x as int, cols);
                assert(p.y * cols + p.x < rows * cols) by (nonlinear_arith)
                    requires
                        0 <= p.y < rows,
                        0 <= p.x < cols,
                ;
                let j = p.y * cols + p.x;
                assert(record_ok(
                    g,
                    rows,
                    cols,
                    rule,
                    start,
                    termination,
                    vis@,
                    depth as int,
                    depth as int,
                    j,
                ));
            }
            assert(records_ok(
                g,
                rows,
                cols,
                rule,
                start,
                termination,
                vis@,
                depth + 1,
                depth as int,
            )) by {
                assert forall|j: int|
                    0 <= j < vis@.len() implies #[trigger] record_ok(
                    g,
                    rows,
                    cols,
                    rule,
                    start,
                    termination,
                    vis@,
                    depth + 1,
                    depth as int,
                    j,
                ) by {
                    assert(record_ok(
                        g,
                        rows,
                        cols,
                        rule,
                        start,
                        termination,
                        vis@,
                        depth as int,
                        depth as int,
                        j,
                    ));
                }
            }
        }
        let mut ci: usize = 0;
        while ci < current.len()
            invariant
                topology.wf(),
                g == topology.grid(),
                rows == topology.rows as int,
                cols == topology.columns as int,
                rule == neighbour_filter,
                size == topology.rows * topology.columns,
                size < usize::MAX,
                vis@.len() == size,
                start.y < rows && start.x < cols,
                ci <= current@.len(),
                count == seen_count(vis@),
                depth <= count,
                head_count <= count,
                new_current@.len() > 0 ==> count > head_count,
                new_current@.len() == 0 ==> records_ok(
                    g,
                    rows,
                    cols,
                    rule,
                    start,
                    termination,
                    vis@,
                    depth as int,
                    depth as int,
                ),
                forall|k: int|
                    0 <= k < current@.len() ==> {
                        let p = #[trigger] current@[k];
                        &&& p.y < rows && p.x < cols
                        &&& reach_clear(g, rows, cols, rule, start, p, depth as nat)
                        &&& (depth > 0 ==> seen(vis@, cols, p) && entry(vis@, cols, p).1 == depth)
                    },
                forall|k: int|
                    0 <= k < new_current@.len() ==> {
                        let p = #[trigger] new_current@[k];
                        &&& p.y < rows && p.x < cols
                        &&& seen(vis@, cols, p)
                        &&& entry(vis@, cols, p).1 == depth + 1
                    },
                forall|p: Pos|
                    p.y < rows && p.x < cols && #[trigger] seen(vis@, cols, p) && entry(
                        vis@,
                        cols,
                        p,
                    ).1 == depth + 1 ==> new_current@.contains(p),
                records_ok(
                    g,
                    rows,
                    cols,
                    rule,
                    start,
                    termination,
                    vis@,
                    depth + 1,
                    depth as int,
                ),
                forall|p: Pos, k: nat|
                    p.y < rows && p.x < cols && 1 <= k <= depth && #[trigger] reach_clear(
                        g,
                        rows,
                        cols,
                        rule,
                        start,
                        p,
                        k,
                    ) ==> seen(vis@, cols, p) && entry(vis@, cols, p).1 <= k,
                forall|j: int, p: Pos|
                    0 <= j < ci && p.y < rows && p.x < cols && #[trigger] adjacent(
                        current@[j],
                        p,
                    ) && step_ok(
                        rule,
                        g[current@[j].y as int][current@[j].x as int],
                        g[p.y as int][p.x as int],
                    ) && p != start ==> seen(vis@, cols, p),
            decreases current@.len() - ci,
        {
            let curr_pos = current[ci];
            let curr_cell = topology.at(&curr_pos);
            let nbs = topology.neighbours_for_search(curr_pos);
            let mut ni: usize = 0;
            while ni < nbs.len()
                invariant
                    topology.wf(),
                    g == topology.grid(),
                    rows == topology.rows as int,
                    cols == topology.columns as int,
                    rule == neighbour_filter,
                    size == topology.rows * topology.columns,
                    size < usize::MAX,
                    vis@.len() == size,
                    start.y < rows && start.x < cols,
                    ci < current@.len(),
                    ni <= nbs@.len(),
                    curr_pos == current@[ci as int],
                    curr_pos.y < rows && curr_pos.x < cols,
                    curr_cell == g[curr_pos.y as int][curr_pos.x as int],
                    reach_clear(g, rows, cols, rule, start, curr_pos, depth as nat),
                    forall|k: int|
                        0 <= k < current@.len() ==> {
                            let p = #[trigger] current@[k];
                            &&& p.y < rows && p.x < cols
                            &&& reach_clear(g, rows, cols, rule, start, p, depth as nat)
                            &&& (depth > 0 ==> seen(vis@, cols, p) && entry(vis@, cols, p).1
                                == depth)
                        },
                    forall|k: int|
                        0 <= k < nbs@.len() ==> {
                            let (q, c) = #[trigger] nbs@[k];
                            &&& q.y < rows && q.x < cols
                            &&& adjacent(curr_pos, q)
                            &&& c == g[q.y as int][q.x as int]
                        },
                    count == seen_count(vis@),
                    depth <= count,
                    head_count <= count,
                    new_current@.len() > 0 ==> count > head_count,
                    new_current@.len() == 0 ==> records_ok(
                        g,
                        rows,
                        cols,
                        rule,
                        start,
                        termination,
                        vis@,
                        depth as int,
                        depth as int,
                    ),
                    forall|k: int|
                        0 <= k < new_current@.len() ==> {
                            let p = #[trigger] new_current@[k];
                            &&& p.y < rows && p.x < cols
                            &&& seen(vis@, cols, p)
                            &&& entry(vis@, cols, p).1 == depth + 1
                        },
                    forall|p: Pos|
                        p.y < rows && p.x < cols && #[trigger] seen(vis@, cols, p) && entry(
                            vis@,
                            cols,
                            p,
                        ).1 == depth + 1 ==> new_current@.contains(p),
                    records_ok(
                        g,
                        rows,
                        cols,
                        rule,
                        start,
                        termination,
                        vis@,
                        depth + 1,
                        depth as int,
                    ),
                    forall|p: Pos, k: nat|
                        p.y < rows && p.x < cols && 1 <= k <= depth && #[trigger] reach_clear(
                            g,
                            rows,
                            cols,
                            rule,
                            start,
                            p,
                            k,
                        ) ==> seen(vis@, cols, p) && entry(vis@, cols, p).1 <= k,
                    forall|j: int, p: Pos|
                        0 <= j < ci && p.y < rows && p.x < cols && #[trigger] adjacent(
                            current@[j],
                            p,
                        ) && step_ok(
                            rule,
                            g[current@[j].y as int][current@[j].x as int],
                            g[p.y as int][p.x as int],
                        ) && p != start ==> seen(vis@, cols, p),
                    forall|k: int|
                        0 <= k < ni ==> {
                            let q = (#[trigger] nbs@[k]).0;
                            step_ok(
                                rule,
                                g[curr_pos.y as int][curr_pos.x as int],
                                g[q.y as int][q.x as int],
                            ) && q != start ==> seen(vis@, cols, q)
                        },
                decreases nbs@.len() - ni,
            {
                let (pos, cell) = nbs[ni];
                proof {
                    lemma_seen_count_bounds(vis@);
                    lemma_flat(pos.y as int, pos.x as int, cols);
                    assert(pos.y * cols + pos.x < rows * cols) by (nonlinear_arith)
                        requires
                            0 <= pos.y < rows,
                            0 <= pos.x < cols,
                    ;
                }
                let idx = pos.y * topology.columns + pos.x;
                let not_start = pos.x != start.x || pos.y != start.y;
                if not_start && vis[idx].is_none() && eval_step(rule, curr_cell, cell) {
                    let ghost before = vis@;
                    let ghost nc_before = new_current@;
                    vis[idx] = Some((curr_pos, depth + 1));
                    count = count + 1;
                    new_current.push(pos);
                    proof {
                        lemma_seen_count_update(before, idx as int, (curr_pos, (depth + 1) as usize));
                        assert(reach_clear(g, rows, cols, rule, start, pos, (depth + 1) as nat))
                            by {
                            assert(curr_pos.y < rows && curr_pos.x < cols && reach_clear(
                                g,
                                rows,
                                cols,
                                rule,
                                start,
                                curr_pos,
                                depth as nat,
                            ) && adjacent(curr_pos, pos) && step_ok(
                                rule,
                                g[curr_pos.y as int][curr_pos.x as int],
                                g[pos.y as int][pos.x as int],
                            ));
                        }
                        assert forall|j: int| 0 <= j < vis@.len() && j != idx as int implies vis@[j]
                            == before[j] by {}
                        assert forall|p: Pos|
                            #![trigger seen(vis@, cols, p)]
                            #![trigger seen(before, cols, p)]
                            p.y < rows && p.x < cols && p != pos implies seen(vis@, cols, p)
                            == seen(before, cols, p) && entry(vis@, cols, p) == entry(
                            before,
                            cols,
                            p,
                        ) by {
                            lemma_flat(p.y as int, p.x as int, cols);
                            lemma_flat_distinct(p, pos, cols);
                            assert(p.y * cols + p.x < rows * cols) by (nonlinear_arith)
                                requires
                                    0 <= p.y < rows,
                                    0 <= p.x < cols,
                            ;
                            assert(vis@[p.y * cols + p.x] == before[p.y * cols + p.x]);
                        }
                        assert(seen(vis@, cols, pos) && entry(vis@, cols, pos).1 == depth + 1) by {
                            lemma_flat(pos.y as int, pos.x as int, cols);
                        }
                        assert forall|p: Pos|
                            p.y < rows && p.x < cols && #[trigger] seen(vis@, cols, p) && entry(
                                vis@,
                                cols,
                                p,
                            ).1 == depth + 1 implies new_current@.contains(p) by {
                            if p == pos {
                                assert(new_current@.last() == pos);
                            } else {
                                assert(seen(before, cols, p) && entry(before, cols, p).1 == depth
                                    + 1);
                                assert(nc_before.contains(p));
                                let k = choose|k: int| 0 <= k < nc_before.len() && nc_before[k] == p;
                                assert(new_current@[k] == p);
                            }
                        }
                        assert(records_ok(
                            g,
                            rows,
                            cols,
                            rule,
                            start,
                            termination,
                            vis@,
                            depth + 1,
                            depth as int,
                        )) by {
                            assert forall|j: int|
                                0 <= j < vis@.len() && (#[trigger] vis@[j]) is Some implies
                            record_ok(
                                g,
                                rows,
                                cols,
                                rule,
                                start,
                                termination,
                                vis@,
                                depth + 1,
                                depth as int,
                                j,
                            ) by {
                                if j == idx as int {
                                    assert(Pos {
                                        x: (j % cols) as usize,
                                        y: (j / cols) as usize,
                                    } == pos);
                                    if depth > 0 {
                                        assert(seen(before, cols, curr_pos) && entry(
                                            before,
                                            cols,
                                            curr_pos,
                                        ).1 == depth);
                                        assert(curr_pos != pos) by {
                                            assert(seen(before, cols, curr_pos));
                                            assert(!seen(before, cols, pos));
                                        }
                                        assert(seen(vis@, cols, curr_pos) && entry(
                                            vis@,
                                            cols,
                                            curr_pos,
                                        ).1 == depth);
                                    }
                                } else {
                                    assert(vis@[j] == before[j]);
                                    assert(record_ok(
                                        g,
                                        rows,
                                        cols,
                                        rule,
                                        start,
                                        termination,
                                        before,
                                        depth + 1,
                                        depth as int,
                                        j,
                                    ));
                                    let w = Pos { x: (j % cols) as usize, y: (j / cols) as usize };
                                    let e = vis@[j]->0;
                                    if e.1 > 1 && e.0 != pos {
                                        assert(seen(vis@, cols, e.0) == seen(before, cols, e.0)
                                            && entry(vis@, cols, e.0) == entry(before, cols, e.0));
                                    }
                                    if e.1 > 1 && e.0 == pos {
                                        assert(seen(before, cols, pos));
                                        assert(false);
                                    }
                                }
                            }
                        }
                        assert forall|p: Pos, k: nat|
                            p.y < rows && p.x < cols && 1 <= k <= depth && #[trigger] reach_clear(
                                g,
                                rows,
                                cols,
                                rule,
                                start,
                                p,
                                k,
                            ) implies seen(vis@, cols, p) && entry(vis@, cols, p).1 <= k by {
                            assert(seen(before, cols, p) && entry(before, cols, p).1 <= k);
                            if p != pos {
                                assert(seen(vis@, cols, p) == seen(before, cols, p) && entry(
                                    vis@,
                                    cols,
                                    p,
                                ) == entry(before, cols, p));
                            } else {
                                assert(!seen(before, cols, pos)) by {
                                    lemma_flat(pos.y as int, pos.x as int, cols);
                                }
                                assert(false);
                            }
                        }
                    }
                } else {
                    proof {
                        if not_start && step_ok(
                            rule,
                            g[curr_pos.y as int][curr_pos.x as int],
                            g[pos.y as int][pos.x as int],
                        ) {
                            assert(seen(vis@, cols, pos));
                        }
                        if !not_start {
                            assert(pos == start);
                        }
                    }
                }
                ni = ni + 1;
            }
            proof {
                assert forall|j: int, p: Pos|
                    0 <= j < ci + 1 && p.y < rows && p.x < cols && #[trigger] adjacent(
                        current@[j],
                        p,
                    ) && step_ok(
                        rule,
                        g[current@[j].y as int][current@[j].x as int],
                        g[p.y as int][p.x as int],
                    ) && p != start implies seen(vis@, cols, p) by {
                    if j == ci {
                        let k = choose|k: int| 0 <= k < nbs@.len() && (#[trigger] nbs@[k]).0 == p;
                        assert(nbs@[k].0 == p);
                    }
                }
            }
            ci = ci + 1;
        }
        let mut gi: usize = 0;
        while gi < new_current.len()
            invariant
                topology.wf(),
                g == topology.grid(),
                rows == topology.rows as int,
                cols == topology.columns as int,
                rule == neighbour_filter,
                size == topology.rows * topology.columns,
                size < usize::MAX,
                vis@.len() == size,
                start.y < rows && start.x < cols,
                picks(start_filter, g[start.y as int][start.x as int]),
                forall|y: int, x: int|
                    0 <= y < rows && 0 <= x < cols && (y < start.y || (y == start.y && x
                        < start.x)) ==> !picks(start_filter, #[trigger] g[y][x]),
                gi <= new_current@.len(),
                forall|k: int|
                    0 <= k < new_current@.len() ==> {
                        let p = #[trigger] new_current@[k];
                        &&& p.y < rows && p.x < cols
                        &&& seen(vis@, cols, p)
                        &&& entry(vis@, cols, p).1 == depth + 1
                    },
                records_ok(
                    g,
                    rows,
                    cols,
                    rule,
                    start,
                    termination,
                    vis@,
                    depth + 1,
                    depth as int,
                ),
                forall|p: Pos, k: nat|
                    p.y < rows && p.x < cols && 1 <= k <= depth && #[trigger] reach_clear(
                        g,
                        rows,
                        cols,
                        rule,
                        start,
                        p,
                        k,
                    ) ==> seen(vis@, cols, p) && entry(vis@, cols, p).1 <= k,
                forall|k: int|
                    0 <= k < gi ==> !picks(
                        termination,
                        g[(#[trigger] new_current@[k]).y as int][new_current@[k].x as int],
                    ),
            decreases new_current@.len() - gi,
        {
            let pos = new_current[gi];
            let c = topology.at(&pos);
            if eval_pick(termination, c) {
                proof {
                    lemma_flat(pos.y as int, pos.x as int, cols);
                    assert(pos.y * cols + pos.x < rows * cols) by (nonlinear_arith)
                        requires
                            0 <= pos.y < rows,
                            0 <= pos.x < cols,
                    ;
                    assert(record_ok(
                        g,
                        rows,
                        cols,
                        rule,
                        start,
                        termination,
                        vis@,
                        depth + 1,
                        depth as int,
                        pos.y * cols + pos.x,
                    ));
                    assert(pos != start);
                    assert(reach_clear(g, rows, cols, rule, start, pos, (depth + 1) as nat));
                    lemma_clear_implies_reach(g, rows, cols, rule, start, pos, (depth + 1) as nat);
                    assert(reach(g, rows, cols, rule, start, pos, (depth + 1) as nat));
                    assert(picks(termination, g[pos.y as int][pos.x as int]));
                }
                return reconstruct(topology, start_filter, rule, termination, start, &vis, pos, depth + 1);
            }
            gi = gi + 1;
        }
        proof {
            assert forall|k: int|
                0 <= k < new_current@.len() implies !picks(
                termination,
                g[(#[trigger] new_current@[k]).y as int][new_current@[k].x as int],
            ) by {}
            assert(records_ok(
                g,
                rows,
                cols,
                rule,
                start,
                termination,
                vis@,
                depth + 1,
                depth + 1,
            )) by {
                assert forall|j: int|
                    0 <= j < vis@.len() && (#[trigger] vis@[j]) is Some implies record_ok(
                    g,
                    rows,
                    cols,
                    rule,
                    start,
                    termination,
                    vis@,
                    depth + 1,
                    depth + 1,
                    j,
                ) by {
                    assert(record_ok(
                        g,
                        rows,
                        cols,
                        rule,
                        start,
                        termination,
                        vis@,
                        depth + 1,
                        depth as int,
                        j,
                    ));
                    let p = Pos { x: (j % cols) as usize, y: (j / cols) as usize };
                    let e = vis@[j]->0;
                    if e.1 == depth + 1 {
                        assert(seen(vis@, cols, p)) by {
                            assert(j == p.y * cols + p.x);
                        }
                        assert(new_current@.contains(p));
                        let k = choose|k: int|
                            0 <= k < new_current@.len() && new_current@[k] == p;
                        assert(!picks(termination, g[p.y as int][p.x as int]));
                    }
                }
            }
        }
        if new_current.len() == 0 {
            proof {
                assert(records_ok(
                    g,
                    rows,
                    cols,
                    rule,
                    start,
                    termination,
                    vis@,
                    depth as int,
                    depth as int,
                )) by {
                    assert forall|j: int|
                        0 <= j < vis@.len() implies #[trigger] record_ok(
                        g,
                        rows,
                        cols,
                        rule,
                        start,
                        termination,
                        vis@,
                        depth as int,
                        depth as int,
                        j,
                    ) by {
                        assert(record_ok(
                            g,
                            rows,
                            cols,
                            rule,
                            start,
                            termination,
                            vis@,
                            depth + 1,
                            depth + 1,
                            j,
                        ));
                        if vis@[j] is Some {
                            let p = Pos { x: (j % cols) as usize, y: (j / cols) as usize };
                            let e = vis@[j]->0;
                            if e.1 == depth + 1 {
                                assert(seen(vis@, cols, p)) by {
                                    assert(j == p.y * cols + p.x);
                                }
                                assert(new_current@.contains(p));
                                assert(false);
                            }
                        }
                    }
                }
                assert forall|p: Pos, n: nat|
                    p.y < rows && p.x < cols && p != start && n >= 1 && #[trigger] reach(
                        g,
                        rows,
                        cols,
                        rule,
                        start,
                        p,
                        n,
                    ) implies !picks(termination, g[p.y as int][p.x as int]) by {
                    lemma_reach_clear(g, rows, cols, rule, start, p, n);
                    let m = choose|m: nat|
                        m <= n && #[trigger] reach_clear(g, rows, cols, rule, start, p, m);
                    assert(m >= 1);
                    lemma_no_deep_reach(
                        g,
                        rows,
                        cols,
                        rule,
                        start,
                        termination,
                        p,
                        m,
                        depth as nat,
                        vis@,
                        current@,
                    );
                    let j = p.y * cols + p.x;
                    lemma_flat(p.y as int, p.x as int, cols);
                    assert(0 <= p.y * cols + p.x < rows * cols) by (nonlinear_arith)
                        requires
                            0 <= p.y < rows,
                            0 <= p.x < cols,
                    ;
                    assert(vis@[j] is Some);
                    assert(record_ok(
                        g,
                        rows,
                        cols,
                        rule,
                        start,
                        termination,
                        vis@,
                        depth as int,
                        depth as int,
                        j,
                    ));
                }
                assert(scan_first(
                    topology.grid(),
                    topology.rows as int,
                    topology.columns as int,
                    start_filter,
                ) == Some(start));
            }
            return Err(Error::NoPathFound);
        }
        proof {
            assert forall|p: Pos|
                p.y < rows && p.x < cols && #[trigger] reach_clear(
                    g,
                    rows,
                    cols,
                    rule,
                    start,
                    p,
                    (depth + 1) as nat,
                ) implies new_current@.contains(p) || exists|k: nat|
                k < depth + 1 && reach_clear(g, rows, cols, rule, start, p, k) by {
                let q = choose|q: Pos|
                    #![auto]
                    q.y < rows && q.x < cols && reach_clear(
                        g,
                        rows,
                        cols,
                        rule,
                        start,
                        q,
                        depth as nat,
                    ) && adjacent(q, p) && step_ok(
                        rule,
                        g[q.y as int][q.x as int],
                        g[p.y as int][p.x as int],
                    );
                assert(p != start);
                if current@.contains(q) {
                    let j = choose|j: int| 0 <= j < current@.len() && current@[j] == q;
                    assert(adjacent(current@[j], p));
                    assert(seen(vis@, cols, p));
                    if entry(vis@, cols, p).1 == depth + 1 {
                        assert(new_current@.contains(p));
                    } else {
                        let jj = p.y * cols + p.x;
                        lemma_flat(p.y as int, p.x as int, cols);
                        assert(p.y * cols + p.x < rows * cols) by (nonlinear_arith)
                            requires
                                0 <= p.y < rows,
                                0 <= p.x < cols,
                        ;
                        assert(vis@[jj] is Some);
                        assert(record_ok(
                            g,
                            rows,
                            cols,
                            rule,
                            start,
                            termination,
                            vis@,
                            depth + 1,
                            depth + 1,
                            jj,
                        ));
                        let e = vis@[jj]->0;
                        assert(e == entry(vis@, cols, p));
                        assert(reach_clear(g, rows, cols, rule, start, p, e.1 as nat));
                        assert(e.1 < depth + 1);
                    }
                } else {
                    let k = choose|k: nat|
                        k < depth && reach_clear(g, rows, cols, rule, start, q, k);
                    assert(reach_clear(g, rows, cols, rule, start, p, (k + 1) as nat)) by {
                        assert(q.y < rows && q.x < cols && reach_clear(
                            g,
                            rows,
                            cols,
                            rule,
                            start,
                            q,
                            k,
                        ) && adjacent(q, p) && step_ok(
                            rule,
                            g[q.y as int][q.x as int],
                            g[p.y as int][p.x as int],
                        ));
                    }
                }
            }
            assert forall|p: Pos, k: nat|
                p.y < rows && p.x < cols && 1 <= k <= depth + 1 && #[trigger] reach_clear(
                    g,
                    rows,
                    cols,
                    rule,
                    start,
                    p,
                    k,
                ) implies seen(vis@, cols, p) && entry(vis@, cols, p).1 <= k by {
                if k == depth + 1 {
                    assert(reach_clear(g, rows, cols, rule, start, p, (depth + 1) as nat));
                    if new_current@.contains(p) {
                        let kk = choose|kk: int|
                            0 <= kk < new_current@.len() && new_current@[kk] == p;
                        assert(new_current@[kk] == p);
                        assert(seen(vis@, cols, p) && entry(vis@, cols, p).1 == depth + 1);
                    } else {
                        let k2 = choose|k2: nat|
                            k2 < depth + 1 && reach_clear(g, rows, cols, rule, start, p, k2);
                        assert(k2 >= 1) by {
                            if k2 == 0 {
                                assert(p == start);
                                assert(reach_clear(g, rows, cols, rule, start, p, k));
                                assert(k >= 1 ==> p != start);
                            }
                        }
                        assert(seen(vis@, cols, p) && entry(vis@, cols, p).1 <= k2);
                    }
                }
            }
        }
        proof {
            lemma_seen_count_bounds(vis@);
            assert forall|k: int|
                0 <= k < new_current@.len() implies {
                let p = #[trigger] new_current@[k];
                &&& p.y < rows && p.x < cols
                &&& reach_clear(g, rows, cols, rule, start, p, (depth + 1) as nat)
                &&& seen(vis@, cols, p)
                &&& entry(vis@, cols, p).1 == depth + 1
            } by {
                let p = new_current@[k];
                lemma_flat(p.y as int, p.x as int, cols);
                assert(p.y * cols + p.x < rows * cols) by (nonlinear_arith)
                    requires
                        0 <= p.y < rows,
                        0 <= p.x < cols,
                ;
                let j = p.y * cols + p.x;
                assert(record_ok(
                    g,
                    rows,
                    cols,
                    rule,
                    start,
                    termination,
                    vis@,
                    depth + 1,
                    depth + 1,
                    j,
                ));
            }
        }
        let ghost nc = new_current@;
        current = new_current;
        depth = depth + 1;
        proof {
            assert(current@ == nc);
            assert forall|p: Pos|
                p.y < rows && p.x < cols && #[trigger] reach_clear(
                    g,
                    rows,
                    cols,
                    rule,
                    start,
                    p,
                    depth as nat,
                ) implies current@.contains(p) || exists|k: nat|
                k < depth && reach_clear(g, rows, cols, rule, start, p, k) by {
                assert(reach_clear(g, rows, cols, rule, start, p, ((depth - 1) + 1) as nat));
            }
            assert forall|p: Pos, k: nat|
                p.y < rows && p.x < cols && 1 <= k <= depth && #[trigger] reach_clear(
                    g,
                    rows,
                    cols,
                    rule,
                    start,
                    p,
                    k,
                ) implies seen(vis@, cols, p) && entry(vis@, cols, p).1 <= k by {
                assert(1 <= k <= (depth - 1) + 1);
            }
        }
    }
}

/// What one finished search record promises, read at flat index `j`: a sound
/// predecessor edge, a depth within `dmax`, and no goal among records at
/// depth `checked` or less.
pub open spec fn record_ok(
    g: Seq<Seq<Cell>>,
    rows: int,
    cols: int,
    rule: StepRule,
    start: Pos,
    termination: CellPick,
    vis: Seq<Option<(Pos, usize)>>,
    dmax: int,
    checked: int,
    j: int,
) -> bool {
    vis[j] matches Some(e) ==> {
        let p = Pos { x: (j % cols) as usize, y: (j / cols) as usize };
        &&& p.y < rows && p.x < cols
        &&& j == p.y * cols + p.x
        &&& p != start
        &&& 1 <= e.1 <= dmax
        &&& e.0.y < rows && e.0.x < cols
        &&& adjacent(e.0, p)
        &&& step_ok(rule, g[e.0.y as int][e.0.x as int], g[p.y as int][p.x as int])
        &&& reach_clear(g, rows, cols, rule, start, p, e.1 as nat)
        &&& (e.1 == 1 ==> e.0 == start)
        &&& (e.1 > 1 ==> seen(vis, cols, e.0) && entry(vis, cols, e.0).1 + 1 == e.1)
        &&& (e.1 <= checked ==> !picks(termination, g[p.y as int][p.x as int]))
    }
}

/// Whether every search record is sound.
pub open spec fn records_ok(
    g: Seq<Seq<Cell>>,
    rows: int,
    cols: int,
    rule: StepRule,
    start: Pos,
    termination: CellPick,
    vis: Seq<Option<(Pos, usize)>>,
    dmax: int,
    checked: int,
) -> bool {
    forall|j: int|
        0 <= j < vis.len() ==> #[trigger] record_ok(
            g,
            rows,
            cols,
            rule,
            start,
            termination,
            vis,
            dmax,
            checked,
            j,
        )
}

/// What a successful search hands back: a shortest way from the scan-first
/// start to a goal.
pub open spec fn walk_ok(
    g: Seq<Seq<Cell>>,
    rows: int,
    cols: int,
    start_filter: CellPick,
    rule: StepRule,
    termination: CellPick,
    path: Seq<Pos>,
) -> bool {
    let start = path[0];
    &&& path.len() >= 2
    &&& start.y < rows && start.x < cols
    &&& picks(start_filter, g[start.y as int][start.x as int])
    &&& forall|y: int, x: int|
        0 <= y < rows && 0 <= x < cols && (y < start.y || (y == start.y && x < start.x)) ==> !picks(
            start_filter,
            #[trigger] g[y][x],
        )
    &&& picks(termination, g[path.last().y as int][path.last().x as int])
    &&& forall|i: int|
        0 <= i < path.len() - 1 ==> {
            let a = #[trigger] path[i];
            let b = path[i + 1];
            &&& a.y < rows && a.x < cols
            &&& b.y < rows && b.x < cols
            &&& adjacent(a, b)
            &&& step_ok(rule, g[a.y as int][a.x as int], g[b.y as int][b.x as int])
        }
    &&& reach(g, rows, cols, rule, start, path.last(), (path.len() - 1) as nat)
    &&& forall|p: Pos, n: nat|
        p.y < rows && p.x < cols && p != start && 1 <= n < path.len() - 1 && #[trigger] reach(
            g,
            rows,
            cols,
            rule,
            start,
            p,
            n,
        ) ==> !picks(termination, g[p.y as int][p.x as int])
}

/// Walks the recorded predecessors back from `end` and returns the way from
/// the start, in order.
#[verifier::rlimit(100)]
#[verifier::spinoff_prover]
fn reconstruct(
    topology: &Topology,
    start_filter: CellPick,
    rule: StepRule,
    termination: CellPick,
    start: Pos,
    vis: &Vec<Option<(Pos, usize)>>,
    end: Pos,
    dist: usize,
) -> (r: Result<Vec<Pos>, Error>)
    requires
        topology.wf(),
        topology.rows * topology.columns < usize::MAX,
        vis@.len() == topology.rows * topology.columns,
        start.y < topology.rows && start.x < topology.columns,
        picks(
            start_filter,
            topology.grid()[start.y as int][start.x as int],
        ),
        forall|y: int, x: int|
            0 <= y < topology.rows && 0 <= x < topology.columns && (y < start.y || (y == start.y
                && x < start.x)) ==> !picks(start_filter, #[trigger] topology.grid()[y][x]),
        end.y < topology.rows && end.x < topology.columns,
        end != start,
        dist >= 1,
        seen(vis@, topology.columns as int, end),
        entry(vis@, topology.columns as int, end).1 == dist,
        picks(termination, topology.grid()[end.y as int][end.x as int]),
        records_ok(
            topology.grid(),
            topology.rows as int,
            topology.columns as int,
            rule,
            start,
            termination,
            vis@,
            dist as int,
            dist - 1,
        ),
        forall|p: Pos, k: nat|
            p.y < topology.rows && p.x < topology.columns && 1 <= k < dist && #[trigger] reach_clear(
                topology.grid(),
                topology.rows as int,
                topology.columns as int,
                rule,
                start,
                p,
                k,
            ) ==> seen(vis@, topology.columns as int, p) && entry(
                vis@,
                topology.columns as int,
                p,
            ).1 <= k,
    ensures
        r matches Ok(path) && path@[0] == start && walk_ok(
            topology.grid(),
            topology.rows as int,
            topology.columns as int,
            start_filter,
            rule,
            termination,
            path@,
        ),
{
    let ghost g = topology.grid();
    let ghost rows = topology.rows as int;
    let ghost cols = topology.columns as int;
    let mut back: Vec<Pos> = Vec::new();
    back.push(end);
    let mut cur = end;
    let mut k = dist;
    while cur.x != start.x || cur.y != start.y
        invariant
            topology.wf(),
            g == topology.grid(),
            rows == topology.rows as int,
            cols == topology.columns as int,
            vis@.len() == topology.rows * topology.columns,
            start.y < rows && start.x < cols,
            end.y < rows && end.x < cols,
            dist >= 1,
            k <= dist,
            cur.y < rows && cur.x < cols,
            cur != start ==> k >= 1 && seen(vis@, cols, cur) && entry(vis@, cols, cur).1 == k,
            cur == start ==> k == 0,
            records_ok(g, rows, cols, rule, start, termination, vis@, dist as int, dist - 1),
            back@.len() == dist - k + 1,
            back@[0] == end,
            back@.last() == cur,
            forall|i: int|
                0 <= i < back@.len() - 1 ==> {
                    let b = #[trigger] back@[i];
                    let a = back@[i + 1];
                    &&& a.y < rows && a.x < cols
                    &&& b.y < rows && b.x < cols
                    &&& adjacent(a, b)
                    &&& step_ok(rule, g[a.y as int][a.x as int], g[b.y as int][b.x as int])
                },
        decreases k,
    {
        assert(cur != start);
        proof {
            lemma_flat(cur.y as int, cur.x as int, cols);
            assert(cur.y * cols + cur.x < rows * cols) by (nonlinear_arith)
                requires
                    0 <= cur.y < rows,
                    0 <= cur.x < cols,
            ;
        }
        let idx = cur.y * topology.columns + cur.x;
        proof {
            assert(record_ok(
                g,
                rows,
                cols,
                rule,
                start,
                termination,
                vis@,
                dist as int,
                dist - 1,
                idx as int,
            ));
            assert(Pos { x: ((idx as int) % cols) as usize, y: ((idx as int) / cols) as usize }
                == cur);
        }
        let e = match vis[idx] {
            Some(e) => e,
            None => {
                proof {
                    assert(false);
                }
                return Err(Error::NoPathFound);
            },
        };
        let pred = e.0;
        proof {
            if k > 1 {
                lemma_flat(pred.y as int, pred.x as int, cols);
                assert(pred != start) by {
                    if pred == start {
                        assert(e == entry(vis@, cols, cur));
                        assert(e.1 == k && k > 1);
                        assert(seen(vis@, cols, e.0));
                        assert(seen(vis@, cols, start));
                        let j0 = start.y * cols + start.x;
                        lemma_flat(start.y as int, start.x as int, cols);
                        assert(0 <= start.y * cols + start.x < rows * cols) by (nonlinear_arith)
                            requires
                                0 <= start.y < rows,
                                0 <= start.x < cols,
                        ;
                        assert(record_ok(
                            g,
                            rows,
                            cols,
                            rule,
                            start,
                            termination,
                            vis@,
                            dist as int,
                            dist - 1,
                            j0,
                        ));
                    }
                }
            }
        }
        back.push(pred);
        cur = pred;
        k = k - 1;
        proof {
            assert(back@[0] == end);
            assert(back@.last() == cur);
        }
    }
    assert(back@.len() == dist + 1);
    let mut path: Vec<Pos> = Vec::new();
    let mut t: usize = back.len();
    while t > 0
        invariant
            t <= back@.len(),
            path@.len() == back@.len() - t,
            forall|i: int| 0 <= i < path@.len() ==> #[trigger] path@[i] == back@[back@.len() - 1 - i],
        decreases t,
    {
        t = t - 1;
        path.push(back[t]);
    }
    proof {
        assert(path@.len() == dist + 1);
        assert(path@.len() - 1 == dist);
        assert(path@[0] == back@.last());
        assert(path@[0] == start);
        assert(path@.last() == back@[0]);
        assert(path@.last() == end);
        assert forall|i: int| 0 <= i < path@.len() - 1 implies {
            let a = #[trigger] path@[i];
            let b = path@[i + 1];
            &&& a.y < rows && a.x < cols
            &&& b.y < rows && b.x < cols
            &&& adjacent(a, b)
            &&& step_ok(rule, g[a.y as int][a.x as int], g[b.y as int][b.x as int])
        } by {
            let j = path@.len() - 2 - i;
            assert(path@[i] == back@[back@.len() - 1 - i]);
            assert(path@[i + 1] == back@[back@.len() - 2 - i]);
            assert(back@[j + 1] == path@[i]);
            assert(back@[j] == path@[i + 1]);
        }
        lemma_path_reaches(g, rows, cols, rule, start, path@, path@.len() - 1);
        assert forall|p: Pos, n: nat|
            p.y < rows && p.x < cols && p != start && 1 <= n < path@.len() - 1 && #[trigger] reach(
                g,
                rows,
                cols,
                rule,
                start,
                p,
                n,
            ) implies !picks(termination, g[p.y as int][p.x as int]) by {
            lemma_reach_clear(g, rows, cols, rule, start, p, n);
            let m = choose|m: nat|
                m <= n && #[trigger] reach_clear(g, rows, cols, rule, start, p, m);
            assert(m >= 1);
            assert(m < dist);
            assert(reach_clear(
                topology.grid(),
                topology.rows as int,
                topology.columns as int,
                rule,
                start,
                p,
                m,
            ));
            assert(seen(vis@, cols, p) && entry(vis@, cols, p).1 <= m);
            let jj = p.y * cols + p.x;
            lemma_flat(p.y as int, p.x as int, cols);
            assert(0 <= p.y * cols + p.x < rows * cols) by (nonlinear_arith)
                requires
                    0 <= p.y < rows,
                    0 <= p.x < cols,
            ;
            assert(vis@[jj] is Some);
            assert(record_ok(
                g,
                rows,
                cols,
                rule,
                start,
                termination,
                vis@,
                dist as int,
                dist - 1,
                jj,
            ));
        }
    }
    Ok(path)
}

/// A concrete chain of allowed steps witnesses reachability of its last
/// position at its length.
proof fn lemma_path_reaches(
    g: Seq<Seq<Cell>>,
    rows: int,
    cols: int,
    rule: StepRule,
    start: Pos,
    path: Seq<Pos>,
    upto: int,
)
    requires
        path.len() >= 1,
        path[0] == start,
        0 <= upto < path.len(),
        forall|i: int|
            0 <= i < path.len() - 1 ==> {
                let a = #[trigger] path[i];
                let b = path[i + 1];
                &&& a.y < rows && a.x < cols
                &&& b.y < rows && b.x < cols
                &&& adjacent(a, b)
                &&& step_ok(rule, g[a.y as int][a.x as int], g[b.y as int][b.x as int])
            },
    ensures
        reach(g, rows, cols, rule, start, path[upto], upto as nat),
    decreases upto,
{
    if upto > 0 {
        lemma_path_reaches(g, rows, cols, rule, start, path, upto - 1);
        let q = path[upto - 1];
        let p = path[upto];
        assert(q.y < rows && q.x < cols && reach(
            g,
            rows,
            cols,
            rule,
            start,
            q,
            (upto - 1) as nat,
        ) && adjacent(q, p) && step_ok(rule, g[q.y as int][q.x as int], g[p.y as int][p.x as int]));
    }
}

/// Nothing the search has finished with reaches farther: once the frontier
/// has died out, any cell reachable off the start is already recorded.
proof fn lemma_no_deep_reach(
    g: Seq<Seq<Cell>>,
    rows: int,
    cols: int,
    rule: StepRule,
    start: Pos,
    termination: CellPick,
    p: Pos,
    m: nat,
    depth: nat,
    vis: Seq<Option<(Pos, usize)>>,
    current: Seq<Pos>,
)
    requires
        vis.len() == rows * cols,
        start.y < rows && start.x < cols,
        p.y < rows && p.x < cols,
        p != start,
        m >= 1,
        reach_clear(g, rows, cols, rule, start, p, m),
        records_ok(g, rows, cols, rule, start, termination, vis, depth as int, depth as int),
        forall|q: Pos, k: nat|
            q.y < rows && q.x < cols && 1 <= k <= depth && #[trigger] reach_clear(
                g,
                rows,
                cols,
                rule,
                start,
                q,
                k,
            ) ==> seen(vis, cols, q) && entry(vis, cols, q).1 <= k,
        forall|q: Pos|
            q.y < rows && q.x < cols && #[trigger] reach_clear(
                g,
                rows,
                cols,
                rule,
                start,
                q,
                depth,
            ) ==> current.contains(q) || exists|k: nat|
                k < depth && reach_clear(g, rows, cols, rule, start, q, k),
        forall|j: int, q: Pos|
            0 <= j < current.len() && q.y < rows && q.x < cols && #[trigger] adjacent(
                current[j],
                q,
            ) && step_ok(rule, g[current[j].y as int][current[j].x as int], g[q.y as int][q.x as int])
                && q != start ==> seen(vis, cols, q),
    ensures
        seen(vis, cols, p),
    decreases m,
{
    if m <= depth {
        assert(seen(vis, cols, p));
    } else {
        let q = choose|q: Pos|
            #![auto]
            q.y < rows && q.x < cols && reach_clear(g, rows, cols, rule, start, q, (m - 1) as nat)
                && adjacent(q, p) && step_ok(
                rule,
                g[q.y as int][q.x as int],
                g[p.y as int][p.x as int],
            );
        if q == start {
            assert(m == 1);
            assert(depth == 0);
            assert(reach_clear(g, rows, cols, rule, start, start, 0nat));
            let j = choose|j: int| 0 <= j < current.len() && current[j] == start;
            assert(adjacent(current[j], p));
        } else {
            assert(m - 1 >= 1);
            if m - 1 <= depth {
                assert(seen(vis, cols, q));
            } else {
                lemma_no_deep_reach(
                    g,
                    rows,
                    cols,
                    rule,
                    start,
                    termination,
                    q,
                    (m - 1) as nat,
                    depth,
                    vis,
                    current,
                );
            }
            lemma_seen_reaches(
                g,
                rows,
                cols,
                rule,
                start,
                termination,
                q,
                p,
                depth,
                vis,
                current,
            );
        }
    }
}

/// A recorded cell's neighbours reached by an allowed step are recorded too,
/// once the frontier has died out.
proof fn lemma_seen_reaches(
    g: Seq<Seq<Cell>>,
    rows: int,
    cols: int,
    rule: StepRule,
    start: Pos,
    termination: CellPick,
    q: Pos,
    p: Pos,
    depth: nat,
    vis: Seq<Option<(Pos, usize)>>,
    current: Seq<Pos>,
)
    requires
        vis.len() == rows * cols,
        q.y < rows && q.x < cols,
        p.y < rows && p.x < cols,
        p != start,
        seen(vis, cols, q),
        adjacent(q, p),
        step_ok(rule, g[q.y as int][q.x as int], g[p.y as int][p.x as int]),
        records_ok(g, rows, cols, rule, start, termination, vis, depth as int, depth as int),
        forall|u: Pos, k: nat|
            u.y < rows && u.x < cols && 1 <= k <= depth && #[trigger] reach_clear(
                g,
                rows,
                cols,
                rule,
                start,
                u,
                k,
            ) ==> seen(vis, cols, u) && entry(vis, cols, u).1 <= k,
        forall|u: Pos|
            u.y < rows && u.x < cols && #[trigger] reach_clear(
                g,
                rows,
                cols,
                rule,
                start,
                u,
                depth,
            ) ==> current.contains(u) || exists|k: nat|
                k < depth && reach_clear(g, rows, cols, rule, start, u, k),
        forall|j: int, u: Pos|
            0 <= j < current.len() && u.y < rows && u.x < cols && #[trigger] adjacent(
                current[j],
                u,
            ) && step_ok(rule, g[current[j].y as int][current[j].x as int], g[u.y as int][u.x as int])
                && u != start ==> seen(vis, cols, u),
    ensures
        seen(vis, cols, p),
{
    lemma_flat(q.y as int, q.x as int, cols);
    assert(q.y * cols + q.x < rows * cols) by (nonlinear_arith)
        requires
            0 <= q.y < rows,
            0 <= q.x < cols,
    ;
    let jq = q.y * cols + q.x;
    assert(record_ok(g, rows, cols, rule, start, termination, vis, depth as int, depth as int, jq));
    let e = vis[jq]->0;
    assert(reach_clear(g, rows, cols, rule, start, q, e.1 as nat));
    assert(reach_clear(g, rows, cols, rule, start, p, (e.1 + 1) as nat)) by {
        assert(q.y < rows && q.x < cols && reach_clear(g, rows, cols, rule, start, q, e.1 as nat)
            && adjacent(q, p) && step_ok(
            rule,
            g[q.y as int][q.x as int],
            g[p.y as int][p.x as int],
        ));
    }
    if e.1 + 1 <= depth {
        assert(seen(vis, cols, p));
    } else {
        assert(e.1 == depth);
        if current.contains(q) {
            let j = choose|j: int| 0 <= j < current.len() && current[j] == q;
            assert(adjacent(current[j], p));
        } else {
            let k = choose|k: nat| k < depth && reach_clear(g, rows, cols, rule, start, q, k);
            assert(reach_clear(g, rows, cols, rule, start, p, (k + 1) as nat)) by {
                assert(q.y < rows && q.x < cols && reach_clear(g, rows, cols, rule, start, q, k)
                    && adjacent(q, p) && step_ok(
                    rule,
                    g[q.y as int][q.x as int],
                    g[p.y as int][p.x as int],
                ));
            }
            assert(seen(vis, cols, p));
        }
    }
}

/// The shortest climb from the marked start to the marked end.
pub fn run_challenge1(content: &str) -> (r: Result<Vec<Pos>, Error>)
    requires
        spec_parse(content@) matches Ok(g) ==> g.len() * g[0].len() < usize::MAX,
    ensures
        spec_parse(content@) matches Err(e) ==> r == Err::<Vec<Pos>, Error>(e),
        spec_parse(content@) matches Ok(g) ==> (r matches Ok(path) ==> walk_ok(
            g,
            g.len() as int,
            g[0].len() as int,
            CellPick::Start,
            StepRule::Ascent,
            CellPick::End,
            path@,
        )),
        spec_parse(content@) matches Ok(g) ==> (r is Err ==> r == Err::<Vec<Pos>, Error>(
            Error::NoStartFound,
        ) || r == Err::<Vec<Pos>, Error>(Error::NoPathFound)),
        spec_parse(content@) matches Ok(g) ==> ((r == Err::<Vec<Pos>, Error>(Error::NoStartFound))
            <==> scan_first(g, g.len() as int, g[0].len() as int, CellPick::Start) is None),
        spec_parse(content@) matches Ok(g) ==> (r matches Ok(path) ==> scan_first(
            g,
            g.len() as int,
            g[0].len() as int,
            CellPick::Start,
        ) == Some(path@[0])),
        spec_parse(content@) matches Ok(g) ==> (scan_first(
            g,
            g.len() as int,
            g[0].len() as int,
            CellPick::Start,
        ) matches Some(s) ==> ((r == Err::<Vec<Pos>, Error>(Error::NoPathFound)) <==> (forall|
            p: Pos,
            n: nat,
        |
            p.y < g.len() && p.x < g[0].len() && p != s && n >= 1 && #[trigger] reach(
                g,
                g.len() as int,
                g[0].len() as int,
                StepRule::Ascent,
                s,
                p,
                n,
            ) ==> !picks(CellPick::End, g[p.y as int][p.x as int])))),
{
    let topology = match Topology::parse(content) {
        Ok(t) => t,
        Err(e) => {
            return Err(e);
        },
    };
    proof {
        let g = spec_parse(content@)->Ok_0;
        assert(topology.grid() == g);
        assert(topology.rows as int == g.len() as int);
        assert(topology.columns as int == g[0].len() as int);
        lemma_scan_first(g, g.len() as int, g[0].len() as int, CellPick::Start);
    }
    walk(&topology, CellPick::Start, StepRule::Ascent, CellPick::End)
}

/// The shortest descent from the marked end to any lowest cell, walked
/// backward with the reversed step rule.
pub fn run_challenge2(content: &str) -> (r: Result<Vec<Pos>, Error>)
    requires
        spec_parse(content@) matches Ok(g) ==> g.len() * g[0].len() < usize::MAX,
    ensures
        spec_parse(content@) matches Err(e) ==> r == Err::<Vec<Pos>, Error>(e),
        spec_parse(content@) matches Ok(g) ==> (r matches Ok(path) ==> walk_ok(
            g,
            g.len() as int,
            g[0].len() as int,
            CellPick::End,
            StepRule::Descent,
            CellPick::Lowest,
            path@,
        )),
        spec_parse(content@) matches Ok(g) ==> (r is Err ==> r == Err::<Vec<Pos>, Error>(
            Error::NoStartFound,
        ) || r == Err::<Vec<Pos>, Error>(Error::NoPathFound)),
        spec_parse(content@) matches Ok(g) ==> ((r == Err::<Vec<Pos>, Error>(Error::NoStartFound))
            <==> scan_first(g, g.len() as int, g[0].len() as int, CellPick::End) is None),
        spec_parse(content@) matches Ok(g) ==> (r matches Ok(path) ==> scan_first(
            g,
            g.len() as int,
            g[0].len() as int,
            CellPick::End,
        ) == Some(path@[0])),
        spec_parse(content@) matches Ok(g) ==> (scan_first(
            g,
            g.len() as int,
            g[0].len() as int,
            CellPick::End,
        ) matches Some(s) ==> ((r == Err::<Vec<Pos>, Error>(Error::NoPathFound)) <==> (forall|
            p: Pos,
            n: nat,
        |
            p.y < g.len() && p.x < g[0].len() && p != s && n >= 1 && #[trigger] reach(
                g,
                g.len() as int,
                g[0].len() as int,
                StepRule::Descent,
                s,
                p,
                n,
            ) ==> !picks(CellPick::Lowest, g[p.y as int][p.x as int])))),
{
    let topology = match Topology::parse(content) {
        Ok(t) => t,
        Err(e) => {
            return Err(e);
        },
    };
    proof {
        let g = spec_parse(content@)->Ok_0;
        assert(topology.grid() == g);
        assert(topology.rows as int == g.len() as int);
        assert(topology.columns as int == g[0].len() as int);
        lemma_scan_first(g, g.len() as int, g[0].len() as int, CellPick::End);
    }
    walk(&topology, CellPick::End, StepRule::Descent, CellPick::Lowest)
}

/// All-empty maps record nothing.
proof fn lemma_seen_count_none(v: Seq<Option<(Pos, usize)>>)
    requires
        forall|j: int| 0 <= j < v.len() ==> (#[trigger] v[j]) is None,
    ensures
        seen_count(v) == 0,
    decreases v.len(),
{
    if v.len() > 0 {
        assert(forall|j: int|
            0 <= j < v.drop_last().len() ==> (#[trigger] v.drop_last()[j]) is None);
        lemma_seen_count_none(v.drop_last());
    }
}

} // verus!
