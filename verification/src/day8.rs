//! Eighth puzzle: a rectangular grid of tree heights, one digit per tree.
//! The first answer counts the trees visible from outside the grid along a
//! row or column; the second finds the best scenic score, the product of the
//! viewing distances in the four directions.

use vstd::prelude::*;

use crate::text;

verus! {

/// A failure to read or use the grid.
#[derive(Clone, Copy, Debug, PartialEq, Eq, Structural)]
pub enum Error {
    /// This character of the input is not a digit.
    InvalidNumber(char),
    /// The input has no rows.
    EmptyInput,
    /// Two rows of the input differ in length.
    InvalidTreeLines,
}

/// The grid of tree heights: `rows` lines of `columns` digits each.
pub struct Trees {
    pub trees: Vec<Vec<u32>>,
    pub rows: usize,
    pub columns: usize,
}

impl Trees {
    /// The heights, row by row.
    pub open spec fn grid(self) -> Seq<Seq<u32>> {
        self.trees.deep_view()
    }

    /// The counts match the stored rows, and the grid is rectangular and not
    /// empty.
    pub open spec fn wf(self) -> bool {
        &&& self.rows == self.grid().len()
        &&& self.rows > 0
        &&& forall|y: int| 0 <= y < self.rows ==> (#[trigger] self.grid()[y]).len() == self.columns
    }
}

/// The offset of the first character that is not a digit (the length when all
/// are digits).
pub open spec fn first_nondigit(s: Seq<char>) -> int
    decreases s.len(),
{
    if s.len() == 0 {
        0
    } else if !text::is_digit_char(s[0]) {
        0
    } else {
        1 + first_nondigit(s.drop_first())
    }
}

/// The first character in the lines from `i` on that is not a digit, in
/// reading order, if any.
pub open spec fn bad_char_from(ls: Seq<Seq<char>>, i: int) -> Option<char>
    decreases ls.len() - i,
{
    if i < 0 || i >= ls.len() {
        None
    } else if !text::all_digits(ls[i]) {
        Some(ls[i][first_nondigit(ls[i])])
    } else {
        bad_char_from(ls, i + 1)
    }
}

/// A line of digits, as heights.
pub open spec fn row_vals(l: Seq<char>) -> Seq<u32> {
    l.map_values(|c: char| text::digit_of(c) as u32)
}

/// What the whole input means: the grid of heights, or the first failure.  A
/// non-digit character is reported first, then an empty input, then a ragged
/// one.
pub open spec fn spec_read(content: Seq<char>) -> Result<Seq<Seq<u32>>, Error> {
    let ls = text::spec_lines(content);
    match bad_char_from(ls, 0) {
        Some(c) => Err(Error::InvalidNumber(c)),
        None => if ls.len() == 0 {
            Err(Error::EmptyInput)
        } else if forall|y: int| 0 <= y < ls.len() ==> (#[trigger] ls[y]).len() == ls[0].len() {
            Ok(ls.map_values(|l: Seq<char>| row_vals(l)))
        } else {
            Err(Error::InvalidTreeLines)
        },
    }
}

/// Parsing keeps the shape of the input: a parsed grid has exactly one row
/// per input line and one height per digit, so measuring the rows of the
/// result reproduces the original line and column counts; and an input whose
/// digit lines differ in length always fails as ragged, never with a partial
/// grid.
pub proof fn lemma_parse_round_trip(content: Seq<char>)
    ensures
        spec_read(content) matches Ok(g) ==> {
            let ls = text::spec_lines(content);
            &&& g.len() == ls.len()
            &&& forall|y: int| 0 <= y < g.len() ==> (#[trigger] g[y]).len() == ls[y].len()
        },
        (text::spec_lines(content).len() > 0 && bad_char_from(text::spec_lines(content), 0)
            is None && !(forall|y: int|
            0 <= y < text::spec_lines(content).len() ==> (#[trigger] text::spec_lines(
                content,
            )[y]).len() == text::spec_lines(content)[0].len())) <==> spec_read(content) == Err::<
            Seq<Seq<u32>>,
            Error,
        >(Error::InvalidTreeLines),
{
    let ls = text::spec_lines(content);
    if let Ok(g) = spec_read(content) {
        assert(g == ls.map_values(|l: Seq<char>| row_vals(l)));
        assert forall|y: int| 0 <= y < g.len() implies (#[trigger] g[y]).len() == ls[y].len() by {
            assert(g[y] == row_vals(ls[y]));
        }
    }
}

/// Reads one line of digits as heights, or reports its first bad character.
fn parse_row(line: &Vec<char>) -> (r: Result<Vec<u32>, Error>)
    ensures
        text::all_digits(line@) ==> (r matches Ok(v) && v@ == row_vals(line@)),
        !text::all_digits(line@) ==> r == Err::<Vec<u32>, Error>(
            Error::InvalidNumber(line@[first_nondigit(line@)]),
        ),
{
    let mut row: Vec<u32> = Vec::new();
    let mut k: usize = 0;
    proof {
        assert(line@.skip(0) =~= line@);
    }
    while k < line.len()
        invariant
            k <= line@.len(),
            row@.len() == k,
            forall|j: int| 0 <= j < k ==> text::is_digit_char(#[trigger] line@[j]),
            forall|j: int| 0 <= j < k ==> row@[j] == text::digit_of(line@[j]) as u32,
            first_nondigit(line@.skip(k as int)) + k == first_nondigit(line@),
        decreases line@.len() - k,
    {
        let ghost rest = line@.skip(k as int);
        assert(rest[0] == line@[k as int]);
        assert(rest.drop_first() =~= line@.skip(k + 1));
        let c = line[k];
        if c < '0' || c > '9' {
            assert(!text::all_digits(line@));
            assert(first_nondigit(line@) == k as int);
            return Err(Error::InvalidNumber(c));
        }
        row.push((c as u32) - 48);
        assert(row@.last() == text::digit_of(c) as u32);
        k = k + 1;
    }
    assert(row@ =~= row_vals(line@));
    Ok(row)
}

/// Reads the whole input into a grid of heights.
pub fn read_input(content: &str) -> (r: Result<Trees, Error>)
    ensures
        spec_read(content@) matches Ok(g) ==> (r matches Ok(t) && t.wf() && t.grid() == g
            && t.rows == g.len() && t.columns == g[0].len()),
        spec_read(content@) matches Err(e) ==> r == Err::<Trees, Error>(e),
{
    let ls = text::lines_of(content);
    let ghost lsv = ls.deep_view();
    let mut trees: Vec<Vec<u32>> = Vec::new();
    let mut i: usize = 0;
    while i < ls.len()
        invariant
            i <= ls@.len(),
            trees@.len() == i,
            bad_char_from(lsv, 0) == bad_char_from(lsv, i as int),
            forall|y: int| 0 <= y < i ==> text::all_digits(#[trigger] lsv[y]),
            forall|y: int| 0 <= y < i ==> trees@[y]@ == row_vals(lsv[y]),
        decreases ls@.len() - i,
    {
        let line = &ls[i];
        assert(line@ == lsv[i as int]);
        match parse_row(line) {
            Ok(row) => {
                trees.push(row);
            },
            Err(e) => {
                return Err(e);
            },
        }
        i = i + 1;
    }
    if trees.len() == 0 {
        return Err(Error::EmptyInput);
    }
    let columns = trees[0].len();
    let rows = trees.len();
    let mut y: usize = 1;
    while y < rows
        invariant
            1 <= y <= rows,
            rows == trees@.len(),
            columns == trees@[0]@.len(),
            forall|k: int| 0 <= k < y ==> (#[trigger] trees@[k])@.len() == columns,
        decreases rows - y,
    {
        if trees[y].len() != columns {
            assert(lsv[y as int].len() == trees@[y as int]@.len());
            assert(lsv[0].len() == trees@[0]@.len());
            return Err(Error::InvalidTreeLines);
        }
        y = y + 1;
    }
    let t = Trees { trees, rows, columns };
    proof {
        assert(forall|k: int| 0 <= k < rows ==> lsv[k].len() == (#[trigger] t.grid()[k]).len());
        assert(t.grid() =~~= lsv.map_values(|l: Seq<char>| row_vals(l)));
    }
    Ok(t)
}

/// Whether `size` tops every tree of `trees`.
pub fn is_visible(size: u32, trees: &Vec<u32>) -> (r: bool)
    ensures
        r == forall|k: int| 0 <= k < trees@.len() ==> #[trigger] trees@[k] < size,
{
    let mut k: usize = 0;
    while k < trees.len()
        invariant
            k <= trees@.len(),
            forall|j: int| 0 <= j < k ==> #[trigger] trees@[j] < size,
        decreases trees@.len() - k,
    {
        if trees[k] >= size {
            return false;
        }
        k = k + 1;
    }
    true
}

/// How far a tree of height `size` sees along `ts`: the trees up to and
/// including the first one at least as tall.
pub open spec fn spec_scenic(size: u32, ts: Seq<u32>) -> int
    decreases ts.len(),
{
    if ts.len() == 0 {
        0
    } else if ts[0] >= size {
        1
    } else {
        1 + spec_scenic(size, ts.drop_first())
    }
}

/// The viewing distance never exceeds the number of trees looked at.
pub proof fn lemma_scenic_bound(size: u32, ts: Seq<u32>)
    ensures
        0 <= spec_scenic(size, ts) <= ts.len(),
    decreases ts.len(),
{
    if ts.len() > 0 && ts[0] < size {
        lemma_scenic_bound(size, ts.drop_first());
    }
}

/// Counts the trees seen from one of height `size` looking along `trees`.
pub fn scenic_score(size: u32, trees: &Vec<u32>) -> (r: usize)
    ensures
        r == spec_scenic(size, trees@),
{
    proof {
        lemma_scenic_bound(size, trees@);
        assert(trees@.skip(0) =~= trees@);
    }
    let mut count: usize = 0;
    let mut k: usize = 0;
    while k < trees.len()
        invariant
            k <= trees@.len(),
            count == k,
            spec_scenic(size, trees@) == k + spec_scenic(size, trees@.skip(k as int)),
            forall|j: int| 0 <= j < k ==> trees@[j] < size,
        decreases trees@.len() - k,
    {
        let ghost rest = trees@.skip(k as int);
        assert(rest[0] == trees@[k as int]);
        assert(rest.drop_first() =~= trees@.skip(k + 1));
        count = count + 1;
        if trees[k] >= size {
            assert(spec_scenic(size, rest) == 1);
            return count;
        }
        k = k + 1;
    }
    assert(trees@.skip(trees@.len() as int) =~= Seq::<u32>::empty());
    count
}

/// The heights of the block with columns `[fx, tx)` and rows `[fy, ty)` of
/// the grid, row by row.
pub open spec fn block_rows(g: Seq<Seq<u32>>, fx: int, tx: int, fy: int, ty: int) -> Seq<u32>
    decreases ty - fy,
{
    if fy >= ty {
        Seq::empty()
    } else {
        g[fy].subrange(fx, tx) + block_rows(g, fx, tx, fy + 1, ty)
    }
}

/// A block grows at the bottom one row at a time.
proof fn lemma_block_snoc(g: Seq<Seq<u32>>, fx: int, tx: int, fy: int, ty: int)
    requires
        fy <= ty,
    ensures
        block_rows(g, fx, tx, fy, ty + 1) == block_rows(g, fx, tx, fy, ty) + g[ty].subrange(
            fx,
            tx,
        ),
    decreases ty - fy,
{
    if fy == ty {
        assert(block_rows(g, fx, tx, ty + 1, ty + 1) =~= Seq::<u32>::empty());
        assert(block_rows(g, fx, tx, fy, ty) =~= Seq::<u32>::empty());
        assert(g[ty].subrange(fx, tx) + Seq::<u32>::empty() =~= g[ty].subrange(fx, tx));
        assert(Seq::<u32>::empty() + g[ty].subrange(fx, tx) =~= g[ty].subrange(fx, tx));
    } else {
        lemma_block_snoc(g, fx, tx, fy + 1, ty);
        assert((g[fy].subrange(fx, tx) + block_rows(g, fx, tx, fy + 1, ty)) + g[ty].subrange(
            fx,
            tx,
        ) =~= g[fy].subrange(fx, tx) + (block_rows(g, fx, tx, fy + 1, ty) + g[ty].subrange(
            fx,
            tx,
        )));
    }
}

/// A one-column block is the column itself, top down.
proof fn lemma_block_column(g: Seq<Seq<u32>>, x: int, fy: int, ty: int)
    requires
        0 <= fy <= ty <= g.len(),
        0 <= x,
        forall|r: int| fy <= r < ty ==> x < (#[trigger] g[r]).len(),
    ensures
        block_rows(g, x, x + 1, fy, ty).len() == ty - fy,
        forall|k: int|
            0 <= k < ty - fy ==> #[trigger] block_rows(g, x, x + 1, fy, ty)[k] == g[fy + k][x],
    decreases ty - fy,
{
    if fy < ty {
        assert forall|r: int| fy + 1 <= r < ty implies x < (#[trigger] g[r]).len() by {
            assert(x < g[r].len());
        }
        lemma_block_column(g, x, fy + 1, ty);
        assert(g[fy].subrange(x, x + 1).len() == 1);
        assert(g[fy].subrange(x, x + 1)[0] == g[fy][x]);
    }
}

impl Trees {
    /// The heights of the block of cells with columns `[from_x, to_x)` and
    /// rows `[from_y, to_y)`, row by row.
    pub fn get_trees(&self, from_x: usize, to_x: usize, from_y: usize, to_y: usize) -> (r: Vec<
        u32,
    >)
        requires
            self.wf(),
            from_x <= to_x <= self.columns,
            from_y <= to_y <= self.rows,
        ensures
            r@ == block_rows(
                self.grid(),
                from_x as int,
                to_x as int,
                from_y as int,
                to_y as int,
            ),
    {
        let ghost g = self.grid();
        let mut r: Vec<u32> = Vec::new();
        let mut y: usize = from_y;
        assert(r@ =~= block_rows(g, from_x as int, to_x as int, from_y as int, from_y as int));
        while y < to_y
            invariant
                from_y <= y <= to_y,
                r@ == block_rows(g, from_x as int, to_x as int, from_y as int, y as int),
            decreases to_y - y,
        {
            proof {
                lemma_block_snoc(g, from_x as int, to_x as int, from_y as int, y as int);
            }
            let ghost base = r@;
            let mut x: usize = from_x;
            while x < to_x
                invariant
                    from_y <= y < to_y,
                    from_x <= x <= to_x,
                    r@ == base + g[y as int].subrange(from_x as int, x as int),
                decreases to_x - x,
            {
                assert(g[y as int] == self.trees@[y as int]@);
                let v = self.trees[y][x];
                r.push(v);
                assert(r@ =~= base + g[y as int].subrange(from_x as int, x + 1));
                x = x + 1;
            }
            y = y + 1;
        }
        r
    }

    /// The trees left of `(x, y)` on its row, leftmost first.
    pub fn left_trees(&self, x: usize, y: usize) -> (r: Vec<u32>)
        requires
            self.wf(),
            x <= self.columns,
            y < self.rows,
        ensures
            r@.len() == x,
            forall|k: int| 0 <= k < x ==> r@[k] == self.grid()[y as int][k],
    {
        let r = self.get_trees(0, x, y, y + 1);
        proof {
            let g = self.grid();
            lemma_block_snoc(g, 0, x as int, y as int, y as int);
            assert(block_rows(g, 0, x as int, y as int, y as int) =~= Seq::<u32>::empty());
            assert(Seq::<u32>::empty() + g[y as int].subrange(0, x as int) =~= g[y as int].subrange(0, x as int));
        }
        r
    }

    /// The trees right of `(x, y)` on its row, nearest first.
    pub fn right_trees(&self, x: usize, y: usize) -> (r: Vec<u32>)
        requires
            self.wf(),
            x < self.columns,
            y < self.rows,
        ensures
            r@.len() == self.columns - (x + 1),
            forall|k: int| 0 <= k < r@.len() ==> r@[k] == self.grid()[y as int][x + 1 + k],
    {
        let r = self.get_trees(x + 1, self.columns, y, y + 1);
        proof {
            let g = self.grid();
            lemma_block_snoc(g, x + 1, self.columns as int, y as int, y as int);
            assert(block_rows(g, x + 1, self.columns as int, y as int, y as int)
                =~= Seq::<u32>::empty());
            assert(Seq::<u32>::empty() + g[y as int].subrange(x + 1, self.columns as int) =~= g[y as int].subrange(x + 1, self.columns as int));
        }
        r
    }

    /// The trees above `(x, y)` on its column, topmost first.
    pub fn up_trees(&self, x: usize, y: usize) -> (r: Vec<u32>)
        requires
            self.wf(),
            x < self.columns,
            y < self.rows,
        ensures
            r@.len() == y,
            forall|k: int| 0 <= k < y ==> r@[k] == self.grid()[k][x as int],
    {
        let r = self.get_trees(x, x + 1, 0, y);
        proof {
            lemma_block_column(self.grid(), x as int, 0, y as int);
        }
        r
    }

    /// The trees below `(x, y)` on its column, nearest first.
    pub fn bottom_trees(&self, x: usize, y: usize) -> (r: Vec<u32>)
        requires
            self.wf(),
            x < self.columns,
            y < self.rows,
        ensures
            r@.len() == self.rows - (y + 1),
            forall|k: int| 0 <= k < r@.len() ==> r@[k] == self.grid()[y + 1 + k][x as int],
    {
        let r = self.get_trees(x, x + 1, y + 1, self.rows);
        proof {
            lemma_block_column(self.grid(), x as int, y + 1, self.rows as int);
        }
        r
    }
}

/// The column count of a grid (zero for one with no rows).
pub open spec fn grid_cols(g: Seq<Seq<u32>>) -> int {
    if g.len() > 0 {
        g[0].len() as int
    } else {
        0
    }
}

/// Whether the tree at `(x, y)` tops everything on one of the four straight
/// ways out of the grid.
pub open spec fn spec_visible(g: Seq<Seq<u32>>, x: int, y: int) -> bool {
    let h = g[y][x];
    ||| forall|k: int| 0 <= k < x ==> g[y][k] < h
    ||| forall|k: int| x < k < grid_cols(g) ==> g[y][k] < h
    ||| forall|k: int| 0 <= k < y ==> g[k][x] < h
    ||| forall|k: int| y < k < g.len() ==> g[k][x] < h
}

/// How many trees of row `y` before column `upto` are visible.
pub open spec fn row_visible_count(g: Seq<Seq<u32>>, y: int, upto: int) -> int
    decreases upto,
{
    if upto <= 0 {
        0
    } else {
        row_visible_count(g, y, upto - 1) + if spec_visible(g, upto - 1, y) {
            1int
        } else {
            0int
        }
    }
}

/// How many trees of the rows before `upto` are visible.
pub open spec fn visible_count(g: Seq<Seq<u32>>, upto: int) -> int
    decreases upto,
{
    if upto <= 0 {
        0
    } else {
        visible_count(g, upto - 1) + row_visible_count(g, upto - 1, grid_cols(g))
    }
}

/// The counts lie between zero and the number of cells counted.
proof fn lemma_visible_count_bounds(g: Seq<Seq<u32>>, upto: int)
    requires
        0 <= upto,
    ensures
        0 <= visible_count(g, upto) <= upto * grid_cols(g),
        forall|y: int, u: int|
            0 <= u ==> 0 <= #[trigger] row_visible_count(g, y, u) <= u,
    decreases upto,
{
    assert forall|y: int, u: int| 0 <= u implies 0 <= #[trigger] row_visible_count(g, y, u)
        <= u by {
        lemma_row_visible_count_bounds(g, y, u);
    }
    if upto > 0 {
        lemma_visible_count_bounds(g, upto - 1);
        assert((upto - 1) * grid_cols(g) + grid_cols(g) == upto * grid_cols(g))
            by (nonlinear_arith);
    }
}

/// A row's count lies between zero and the number of cells counted.
proof fn lemma_row_visible_count_bounds(g: Seq<Seq<u32>>, y: int, upto: int)
    requires
        0 <= upto,
    ensures
        0 <= row_visible_count(g, y, upto) <= upto,
    decreases upto,
{
    if upto > 0 {
        lemma_row_visible_count_bounds(g, y, upto - 1);
    }
}

impl Trees {
    /// Counts the trees visible from outside the grid.
    pub fn visible_trees(&self) -> (r: usize)
        requires
            self.wf(),
            self.rows * self.columns <= usize::MAX,
        ensures
            r == visible_count(self.grid(), self.rows as int),
    {
        let ghost g = self.grid();
        proof {
            assert(grid_cols(g) == self.columns);
            lemma_visible_count_bounds(g, self.rows as int);
        }
        let mut count: usize = 0;
        let mut y: usize = 0;
        while y < self.rows
            invariant
                y <= self.rows,
                count == visible_count(g, y as int),
            decreases self.rows - y,
        {
            proof {
                lemma_visible_count_bounds(g, y + 1);
                assert(y * self.columns + self.columns == (y + 1) * self.columns)
                    by (nonlinear_arith);
                assert((y + 1) * self.columns <= self.rows * self.columns) by (nonlinear_arith)
                    requires
                        0 <= y + 1 <= self.rows,
                        0 <= self.columns,
                ;
            }
            let mut x: usize = 0;
            while x < self.columns
                invariant
                    y < self.rows,
                    x <= self.columns,
                    count == visible_count(g, y as int) + row_visible_count(
                        g,
                        y as int,
                        x as int,
                    ),
                decreases self.columns - x,
            {
                let vis = self.cell_visible(x, y);
                proof {
                    lemma_row_visible_count_bounds(g, y as int, x + 1);
                }
                if vis {
                    proof {
                        lemma_visible_count_bounds(g, y as int);
                        lemma_row_visible_count_bounds(g, y as int, x as int);
                        assert(grid_cols(g) == self.columns);
                        assert(y * self.columns + x < self.rows * self.columns) by (
                        nonlinear_arith)
                            requires
                                0 <= y < self.rows,
                                0 <= x < self.columns,
                        ;
                        assert(count < usize::MAX);
                    }
                    count = count + 1;
                }
                x = x + 1;
            }
            y = y + 1;
        }
        count
    }
}

impl Trees {
    /// Checks whether the tree at `(x, y)` is visible from outside the grid.
    fn cell_visible(&self, x: usize, y: usize) -> (r: bool)
        requires
            self.wf(),
            x < self.columns,
            y < self.rows,
        ensures
            r == spec_visible(self.grid(), x as int, y as int),
    {
        let ghost g = self.grid();
        proof {
            assert(grid_cols(g) == self.columns);
        }
        assert(g[y as int] == self.trees@[y as int]@);
        let h = self.trees[y][x];
        let left = self.left_trees(x, y);
        let right = self.right_trees(x, y);
        let up = self.up_trees(x, y);
        let bottom = self.bottom_trees(x, y);
        let vl = is_visible(h, &left);
        let vr = is_visible(h, &right);
        let vu = is_visible(h, &up);
        let vb = is_visible(h, &bottom);
        proof {
            assert(forall|k: int| 0 <= k < x ==> left@[k] == #[trigger] g[y as int][k]);
            assert(vl == (forall|k: int| 0 <= k < x ==> #[trigger] g[y as int][k] < h));
            assert(forall|k: int|
                x < k < self.columns ==> right@[k - x - 1] == #[trigger] g[y as int][k]);
            assert(vr == (forall|k: int|
                x < k < grid_cols(g) ==> #[trigger] g[y as int][k] < h));
            assert(forall|k: int| 0 <= k < y ==> up@[k] == #[trigger] g[k][x as int]);
            assert(vu == (forall|k: int| 0 <= k < y ==> #[trigger] g[k][x as int] < h));
            assert(forall|k: int|
                y < k < self.rows ==> bottom@[k - y - 1] == #[trigger] g[k][x as int]);
            assert(vb == (forall|k: int| y < k < g.len() ==> #[trigger] g[k][x as int] < h));
        }
        vl || vr || vu || vb
    }
}

/// What the tree at `(x, y)` sees, looking left, right, up and down in turn:
/// the four runs of heights, nearest tree first.
pub open spec fn looking_left(g: Seq<Seq<u32>>, x: int, y: int) -> Seq<u32> {
    Seq::new(x as nat, |k: int| g[y][x - 1 - k])
}

pub open spec fn looking_right(g: Seq<Seq<u32>>, x: int, y: int) -> Seq<u32> {
    Seq::new((grid_cols(g) - x - 1) as nat, |k: int| g[y][x + 1 + k])
}

pub open spec fn looking_up(g: Seq<Seq<u32>>, x: int, y: int) -> Seq<u32> {
    Seq::new(y as nat, |k: int| g[y - 1 - k][x])
}

pub open spec fn looking_down(g: Seq<Seq<u32>>, x: int, y: int) -> Seq<u32> {
    Seq::new((g.len() - y - 1) as nat, |k: int| g[y + 1 + k][x])
}

/// The scenic score of the tree at `(x, y)`: the product of its four viewing
/// distances.
pub open spec fn cell_score(g: Seq<Seq<u32>>, x: int, y: int) -> int {
    let h = g[y][x];
    spec_scenic(h, looking_left(g, x, y)) * spec_scenic(h, looking_right(g, x, y)) * spec_scenic(
        h,
        looking_up(g, x, y),
    ) * spec_scenic(h, looking_down(g, x, y))
}

/// Reverses a run of heights.
fn reversed(v: &Vec<u32>) -> (r: Vec<u32>)
    ensures
        r@.len() == v@.len(),
        forall|k: int| 0 <= k < v@.len() ==> r@[k] == v@[v@.len() - 1 - k],
{
    let mut r: Vec<u32> = Vec::new();
    let mut k: usize = v.len();
    while k > 0
        invariant
            k <= v@.len(),
            r@.len() == v@.len() - k,
            forall|j: int| 0 <= j < r@.len() ==> r@[j] == v@[v@.len() - 1 - j],
        decreases k,
    {
        k = k - 1;
        let x = v[k];
        r.push(x);
    }
    r
}

impl Trees {
    /// The best scenic score anywhere in the grid; nothing on a grid with no
    /// columns.
    pub fn max_scenic_score(&self) -> (r: Option<usize>)
        requires
            self.wf(),
            self.rows * self.rows * self.columns * self.columns <= usize::MAX,
        ensures
            (r is None) <==> self.columns == 0,
            r matches Some(m) ==> (exists|x: int, y: int|
                0 <= x < self.columns && 0 <= y < self.rows && #[trigger] cell_score(
                    self.grid(),
                    x,
                    y,
                ) == m) && (forall|x: int, y: int|
                0 <= x < self.columns && 0 <= y < self.rows ==> #[trigger] cell_score(
                    self.grid(),
                    x,
                    y,
                ) <= m),
    {
        if self.columns == 0 {
            return None;
        }
        let ghost g = self.grid();
        let mut best: usize = 0;
        let ghost mut bx: int = 0;
        let ghost mut by: int = 0;
        let mut started = false;
        let mut y: usize = 0;
        while y < self.rows
            invariant
                y <= self.rows,
                0 < self.columns,
                !started ==> y == 0 && best == 0,
                started ==> 0 <= bx < self.columns && 0 <= by < self.rows && best == cell_score(
                    g,
                    bx,
                    by,
                ),
                started ==> y > 0,
                forall|xx: int, yy: int|
                    0 <= xx < self.columns && 0 <= yy < y ==> #[trigger] cell_score(g, xx, yy)
                        <= best,
            decreases self.rows - y,
        {
            let mut x: usize = 0;
            while x < self.columns
                invariant
                    y < self.rows,
                    x <= self.columns,
                    0 < self.columns,
                    !started ==> y == 0 && x == 0 && best == 0,
                    started ==> 0 <= bx < self.columns && 0 <= by < self.rows && best
                        == cell_score(g, bx, by),
                    started ==> (y > 0 || x > 0),
                    forall|xx: int, yy: int|
                        0 <= xx < self.columns && 0 <= yy < y ==> #[trigger] cell_score(
                            g,
                            xx,
                            yy,
                        ) <= best,
                    forall|xx: int|
                        0 <= xx < x ==> #[trigger] cell_score(g, xx, y as int) <= best,
                decreases self.columns - x,
            {
                let s = self.cell_scenic(x, y);
                if !started || s > best {
                    best = s;
                    proof {
                        bx = x as int;
                        by = y as int;
                    }
                    started = true;
                }
                x = x + 1;
            }
            y = y + 1;
        }
        Some(best)
    }

    /// The scenic score of the tree at `(x, y)`.
    fn cell_scenic(&self, x: usize, y: usize) -> (r: usize)
        requires
            self.wf(),
            x < self.columns,
            y < self.rows,
            self.rows * self.rows * self.columns * self.columns <= usize::MAX,
        ensures
            r == cell_score(self.grid(), x as int, y as int),
    {
        let ghost g = self.grid();
        proof {
            assert(grid_cols(g) == self.columns);
        }
        assert(self.grid()[y as int] == self.trees@[y as int]@);
        let h = self.trees[y][x];
        let left_in = self.left_trees(x, y);
        let left = reversed(&left_in);
        let right = self.right_trees(x, y);
        let up_in = self.up_trees(x, y);
        let up = reversed(&up_in);
        let bottom = self.bottom_trees(x, y);
        assert(left@ =~= looking_left(g, x as int, y as int));
        assert(right@ =~= looking_right(g, x as int, y as int));
        assert(up@ =~= looking_up(g, x as int, y as int));
        assert(bottom@ =~= looking_down(g, x as int, y as int));
        let a = scenic_score(h, &left);
        let b = scenic_score(h, &right);
        let c = scenic_score(h, &up);
        let d = scenic_score(h, &bottom);
        proof {
            lemma_scenic_bound(h, left@);
            lemma_scenic_bound(h, right@);
            lemma_scenic_bound(h, up@);
            lemma_scenic_bound(h, bottom@);
            assert(a * b * c * d <= self.rows * self.rows * self.columns * self.columns) by (
            nonlinear_arith)
                requires
                    0 <= a <= self.columns,
                    0 <= b <= self.columns,
                    0 <= c <= self.rows,
                    0 <= d <= self.rows,
            ;
            assert(a * b <= usize::MAX) by (nonlinear_arith)
                requires
                    0 <= a <= self.columns,
                    0 <= b <= self.columns,
                    0 <= c <= self.rows,
                    0 <= d <= self.rows,
                    1 <= self.rows,
                    1 <= self.columns,
                    self.rows * self.rows * self.columns * self.columns <= usize::MAX,
            ;
            assert(a * b * c <= usize::MAX) by (nonlinear_arith)
                requires
                    0 <= a <= self.columns,
                    0 <= b <= self.columns,
                    0 <= c <= self.rows,
                    0 <= d <= self.rows,
                    1 <= self.rows,
                    1 <= self.columns,
                    self.rows * self.rows * self.columns * self.columns <= usize::MAX,
            ;
        }
        a * b * c * d
    }
}

/// Whether the input parses and its cell counts stay within the machine's
/// reach.
pub open spec fn dims_fit_1(content: Seq<char>) -> bool {
    match spec_read(content) {
        Ok(g) => g.len() * g[0].len() <= usize::MAX,
        Err(_) => true,
    }
}

/// Whether the scenic products stay within the machine's reach.
pub open spec fn dims_fit_2(content: Seq<char>) -> bool {
    match spec_read(content) {
        Ok(g) => g.len() * g.len() * g[0].len() * g[0].len() <= usize::MAX,
        Err(_) => true,
    }
}

/// Counts the visible trees of the grid in the input.
pub fn run_challenge1(content: &str) -> (r: Result<usize, Error>)
    requires
        dims_fit_1(content@),
    ensures
        spec_read(content@) matches Ok(g) ==> (r matches Ok(c) && c == visible_count(
            g,
            g.len() as int,
        )),
        spec_read(content@) matches Err(e) ==> r == Err::<usize, Error>(e),
{
    let trees = match read_input(content) {
        Ok(t) => t,
        Err(e) => {
            return Err(e);
        },
    };
    let c = trees.visible_trees();
    Ok(c)
}

/// Finds the best scenic score of the grid in the input.
pub fn run_challenge2(content: &str) -> (r: Result<usize, Error>)
    requires
        dims_fit_2(content@),
    ensures
        spec_read(content@) matches Ok(g) ==> (g[0].len() == 0 ==> r == Err::<usize, Error>(
            Error::EmptyInput,
        )),
        spec_read(content@) matches Ok(g) ==> (g[0].len() > 0 ==> (r matches Ok(m) && (
        exists|x: int, y: int|
            0 <= x < g[0].len() && 0 <= y < g.len() && #[trigger] cell_score(g, x, y) == m) && (
        forall|x: int, y: int|
            0 <= x < g[0].len() && 0 <= y < g.len() ==> #[trigger] cell_score(g, x, y) <= m))),
        spec_read(content@) matches Err(e) ==> r == Err::<usize, Error>(e),
{
    let trees = match read_input(content) {
        Ok(t) => t,
        Err(e) => {
            return Err(e);
        },
    };
    match trees.max_scenic_score() {
        Some(m) => Ok(m),
        None => Err(Error::EmptyInput),
    }
}

} // verus!
