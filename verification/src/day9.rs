//! Ninth puzzle: a rope of knots on a grid.  Each input line moves the head
//! knot some steps in one direction; every other knot follows the one before
//! it by the adjacency rule.  The answers count the distinct positions the
//! last knot visits, for ropes of two and of ten knots.

use vstd::prelude::*;

use crate::text;

verus! {

/// A failure to read the input.
#[derive(Clone, Copy, Debug, PartialEq, Eq, Structural)]
pub enum Error {
    /// The line at this index is not a direction and a step count.
    Parse(usize),
}

/// A direction of a head move.
#[derive(Clone, Copy, Debug, PartialEq, Eq, Structural)]
pub enum Direction {
    Up,
    Down,
    Left,
    Right,
}

/// A position on the grid.
#[derive(Clone, Copy, Debug, Eq, Hash, PartialEq, Structural)]
pub struct Pos {
    pub x: i32,
    pub y: i32,
}

/// The unit move of a direction.
pub open spec fn spec_as_pos(d: Direction) -> Pos {
    match d {
        Direction::Up => Pos { x: 0, y: 1 },
        Direction::Down => Pos { x: 0, y: -1i32 },
        Direction::Left => Pos { x: -1i32, y: 0 },
        Direction::Right => Pos { x: 1, y: 0 },
    }
}

impl Direction {
    /// The unit move of this direction.
    pub fn as_pos(&self) -> (r: Pos)
        ensures
            r == spec_as_pos(*self),
    {
        match self {
            Direction::Up => Pos { x: 0, y: 1 },
            Direction::Down => Pos { x: 0, y: -1 },
            Direction::Left => Pos { x: -1, y: 0 },
            Direction::Right => Pos { x: 1, y: 0 },
        }
    }
}

impl Pos {
    /// Componentwise sum.
    pub fn add(self, rhs: Pos) -> (r: Pos)
        requires
            i32::MIN <= self.x + rhs.x <= i32::MAX,
            i32::MIN <= self.y + rhs.y <= i32::MAX,
        ensures
            r.x == self.x + rhs.x,
            r.y == self.y + rhs.y,
    {
        Pos { x: self.x + rhs.x, y: self.y + rhs.y }
    }

    /// Componentwise difference.
    pub fn sub(self, rhs: Pos) -> (r: Pos)
        requires
            i32::MIN <= self.x - rhs.x <= i32::MAX,
            i32::MIN <= self.y - rhs.y <= i32::MAX,
        ensures
            r.x == self.x - rhs.x,
            r.y == self.y - rhs.y,
    {
        Pos { x: self.x - rhs.x, y: self.y - rhs.y }
    }
}

/// Whether two positions are within one step of each other, diagonals
/// included.
pub open spec fn near(a: Pos, b: Pos) -> bool {
    -1 <= a.x - b.x <= 1 && -1 <= a.y - b.y <= 1
}

/// Whether every knot is near the one before it.
pub open spec fn linked(ks: Seq<Pos>) -> bool {
    forall|i: int| 0 <= i < ks.len() - 1 ==> near(#[trigger] ks[i], ks[i + 1])
}

/// Whether every knot lies within `b` of the origin on both axes.
pub open spec fn bounded(ks: Seq<Pos>, b: int) -> bool {
    forall|i: int| 0 <= i < ks.len() ==> -b <= (#[trigger] ks[i]).x <= b && -b <= ks[i].y <= b
}

pub open spec fn sgn(d: int) -> int {
    if d > 0 {
        1
    } else if d < 0 {
        -1
    } else {
        0
    }
}

/// Where a knot at `cur` moves when the knot before it stands at `prev`: it
/// stays while `prev` is near, and otherwise takes one step toward it on each
/// axis on which they differ.
pub open spec fn spec_follow(prev: Pos, cur: Pos) -> Pos {
    let dx = prev.x - cur.x;
    let dy = prev.y - cur.y;
    if -1 <= dx <= 1 && -1 <= dy <= 1 {
        cur
    } else {
        Pos { x: (cur.x + sgn(dx)) as i32, y: (cur.y + sgn(dy)) as i32 }
    }
}

/// The knots after `rest`, in order, each following the knot before it, the
/// first following `prev`.
pub open spec fn chain(prev: Pos, rest: Seq<Pos>) -> Seq<Pos>
    decreases rest.len(),
{
    if rest.len() == 0 {
        Seq::empty()
    } else {
        let c = spec_follow(prev, rest[0]);
        seq![c] + chain(c, rest.drop_first())
    }
}

/// All the knots after the head takes one step in `dir` and the others follow
/// in order.
pub open spec fn step_knots(ks: Seq<Pos>, dir: Direction) -> Seq<Pos> {
    if ks.len() == 0 {
        ks
    } else {
        let d = spec_as_pos(dir);
        let h = Pos { x: (ks[0].x + d.x) as i32, y: (ks[0].y + d.y) as i32 };
        seq![h] + chain(h, ks.drop_first())
    }
}

/// How a chain of followers behaves: each follower ends near its leader and
/// near where it stood, and it stays within the box holding the leader and
/// all the old positions.
proof fn lemma_chain(prev: Pos, rest: Seq<Pos>, b: int)
    requires
        linked(rest),
        rest.len() > 0 ==> -2 <= prev.x - rest[0].x <= 2 && -2 <= prev.y - rest[0].y <= 2,
        -b <= prev.x <= b && -b <= prev.y <= b,
        bounded(rest, b),
    ensures
        chain(prev, rest).len() == rest.len(),
        rest.len() > 0 ==> near(prev, chain(prev, rest)[0]),
        rest.len() > 0 ==> chain(prev, rest)[0] == spec_follow(prev, rest[0]),
        forall|j: int|
            0 <= j < rest.len() - 1 ==> near(
                #[trigger] chain(prev, rest)[j],
                chain(prev, rest)[j + 1],
            ),
        forall|j: int|
            0 <= j < rest.len() - 1 ==> #[trigger] chain(prev, rest)[j + 1] == spec_follow(
                chain(prev, rest)[j],
                rest[j + 1],
            ),
        forall|j: int| 0 <= j < rest.len() ==> near(#[trigger] chain(prev, rest)[j], rest[j]),
        bounded(chain(prev, rest), b),
    decreases rest.len(),
{
    if rest.len() > 0 {
        let c0 = spec_follow(prev, rest[0]);
        let tail = rest.drop_first();
        assert(linked(tail)) by {
            assert forall|i: int| 0 <= i < tail.len() - 1 implies near(
                #[trigger] tail[i],
                tail[i + 1],
            ) by {
                assert(tail[i] == rest[i + 1]);
                assert(tail[i + 1] == rest[i + 2]);
                assert(near(rest[i + 1], rest[i + 2]));
            }
        }
        assert(near(c0, rest[0]));
        assert(near(prev, c0));
        assert(-b <= c0.x <= b && -b <= c0.y <= b);
        if tail.len() > 0 {
            assert(tail[0] == rest[1]);
            assert(near(rest[0], rest[1]));
            assert(-2 <= c0.x - tail[0].x <= 2 && -2 <= c0.y - tail[0].y <= 2);
        }
        assert(bounded(tail, b)) by {
            assert forall|i: int| 0 <= i < tail.len() implies -b <= (#[trigger] tail[i]).x <= b
                && -b <= tail[i].y <= b by {
                assert(tail[i] == rest[i + 1]);
            }
        }
        lemma_chain(c0, tail, b);
        let c = chain(prev, rest);
        let ct = chain(c0, tail);
        assert(c == seq![c0] + ct);
        assert(c[0] == c0);
        assert(forall|j: int| 0 <= j < tail.len() ==> #[trigger] c[j + 1] == ct[j]);
        assert(forall|j: int| 0 <= j < tail.len() ==> #[trigger] rest[j + 1] == tail[j]);
        assert forall|j: int| 0 <= j < rest.len() - 1 implies near(#[trigger] c[j], c[j + 1]) by {
            if j == 0 {
                assert(c[1] == ct[0]);
                assert(near(c0, ct[0]));
            } else {
                assert(c[j] == ct[j - 1] && c[j + 1] == ct[j]);
                assert(near(ct[j - 1], ct[j]));
            }
        }
        assert forall|j: int| 0 <= j < rest.len() - 1 implies #[trigger] c[j + 1] == spec_follow(
            c[j],
            rest[j + 1],
        ) by {
            if j == 0 {
                assert(c[1] == ct[0] && ct[0] == spec_follow(c0, tail[0]));
            } else {
                assert(c[j] == ct[j - 1] && c[j + 1] == ct[j]);
                assert(ct[j] == spec_follow(ct[j - 1], tail[j]));
                assert(tail[j] == rest[j + 1]);
            }
        }
        assert forall|j: int| 0 <= j < rest.len() implies near(#[trigger] c[j], rest[j]) by {
            if j > 0 {
                assert(c[j] == ct[j - 1] && rest[j] == tail[j - 1]);
                assert(near(ct[j - 1], tail[j - 1]));
            }
        }
        assert forall|j: int| 0 <= j < rest.len() implies -b <= (#[trigger] c[j]).x <= b && -b
            <= c[j].y <= b by {
            if j > 0 {
                assert(c[j] == ct[j - 1]);
                assert(-b <= ct[j - 1].x <= b && -b <= ct[j - 1].y <= b);
            }
        }
    }
}

/// How one whole step behaves: the head takes its one step, every knot ends
/// near both its leader and its old position, and the rope stays linked and
/// within one more step of the origin.
proof fn lemma_step(ks: Seq<Pos>, dir: Direction, b: int)
    requires
        ks.len() >= 1,
        linked(ks),
        bounded(ks, b),
        i32::MIN < ks[0].x < i32::MAX,
        i32::MIN < ks[0].y < i32::MAX,
    ensures
        step_knots(ks, dir).len() == ks.len(),
        step_knots(ks, dir)[0].x == ks[0].x + spec_as_pos(dir).x,
        step_knots(ks, dir)[0].y == ks[0].y + spec_as_pos(dir).y,
        forall|j: int|
            0 <= j < ks.len() - 1 ==> #[trigger] step_knots(ks, dir)[j + 1] == spec_follow(
                step_knots(ks, dir)[j],
                ks[j + 1],
            ),
        forall|j: int|
            0 <= j < ks.len() - 1 ==> near(#[trigger] step_knots(ks, dir)[j + 1], ks[j + 1]),
        linked(step_knots(ks, dir)),
        bounded(step_knots(ks, dir), b + 1),
{
    let d = spec_as_pos(dir);
    let h = Pos { x: (ks[0].x + d.x) as i32, y: (ks[0].y + d.y) as i32 };
    let rest = ks.drop_first();
    assert(linked(rest)) by {
        assert forall|i: int| 0 <= i < rest.len() - 1 implies near(
            #[trigger] rest[i],
            rest[i + 1],
        ) by {
            assert(rest[i] == ks[i + 1]);
            assert(rest[i + 1] == ks[i + 2]);
            assert(near(ks[i + 1], ks[i + 2]));
        }
    }
    assert(bounded(rest, b + 1)) by {
        assert forall|i: int| 0 <= i < rest.len() implies -(b + 1) <= (#[trigger] rest[i]).x <= b
            + 1 && -(b + 1) <= rest[i].y <= b + 1 by {
            assert(rest[i] == ks[i + 1]);
        }
    }
    if rest.len() > 0 {
        assert(rest[0] == ks[1]);
        assert(near(ks[0], ks[1]));
        assert(-2 <= h.x - rest[0].x <= 2 && -2 <= h.y - rest[0].y <= 2);
    }
    lemma_chain(h, rest, b + 1);
    let t = step_knots(ks, dir);
    let c = chain(h, rest);
    assert(t == seq![h] + c);
    assert(t[0] == h);
    assert(forall|j: int| 0 <= j < rest.len() ==> #[trigger] t[j + 1] == c[j]);
    assert(forall|j: int| 0 <= j < rest.len() ==> #[trigger] ks[j + 1] == rest[j]);
    assert forall|j: int| 0 <= j < ks.len() - 1 implies #[trigger] t[j + 1] == spec_follow(
        t[j],
        ks[j + 1],
    ) by {
        if j == 0 {
            assert(t[1] == c[0] && c[0] == spec_follow(h, rest[0]));
        } else {
            assert(t[j] == c[j - 1] && t[j + 1] == c[j]);
            assert(c[j] == spec_follow(c[j - 1], rest[j]));
        }
    }
    assert forall|j: int| 0 <= j < ks.len() - 1 implies near(#[trigger] t[j + 1], ks[j + 1]) by {
        assert(t[j + 1] == c[j] && ks[j + 1] == rest[j]);
        assert(near(c[j], rest[j]));
    }
    assert forall|i: int| 0 <= i < t.len() - 1 implies near(#[trigger] t[i], t[i + 1]) by {
        if i == 0 {
            assert(t[1] == c[0]);
            assert(near(h, c[0]));
        } else {
            assert(t[i] == c[i - 1] && t[i + 1] == c[i]);
            assert(near(c[i - 1], c[i]));
        }
    }
    assert forall|i: int| 0 <= i < t.len() implies -(b + 1) <= (#[trigger] t[i]).x <= b + 1 && -(b
        + 1) <= t[i].y <= b + 1 by {
        if i > 0 {
            assert(t[i] == c[i - 1]);
            assert(-(b + 1) <= c[i - 1].x <= b + 1 && -(b + 1) <= c[i - 1].y <= b + 1);
        }
    }
}

/// The rope: its knots, head first.
pub struct Grid {
    pub knots: Vec<Pos>,
}

impl Grid {
    /// A rope of `knots` knots, all at the origin.
    pub fn new(knots: usize) -> (r: Grid)
        ensures
            r.knots@.len() == knots,
            forall|i: int| 0 <= i < knots ==> #[trigger] r.knots@[i] == (Pos { x: 0, y: 0 }),
    {
        let mut v: Vec<Pos> = Vec::new();
        let mut i: usize = 0;
        while i < knots
            invariant
                i <= knots,
                v@.len() == i,
                forall|j: int| 0 <= j < i ==> #[trigger] v@[j] == (Pos { x: 0, y: 0 }),
            decreases knots - i,
        {
            v.push(Pos { x: 0, y: 0 });
            i = i + 1;
        }
        Grid { knots: v }
    }

    /// Moves the head one step in `direction` and lets every knot follow the
    /// one before it, in order.
    #[verifier::rlimit(50)]
    pub fn move_head(&mut self, direction: Direction)
        requires
            old(self).knots@.len() >= 1,
            linked(old(self).knots@),
            i32::MIN < old(self).knots@[0].x < i32::MAX,
            i32::MIN < old(self).knots@[0].y < i32::MAX,
        ensures
            final(self).knots@ == step_knots(old(self).knots@, direction),
            final(self).knots@.len() == old(self).knots@.len(),
            linked(final(self).knots@),
    {
        let ghost old_ks = self.knots@;
        let ghost target = step_knots(old_ks, direction);
        proof {
            let b = max_coord(old_ks);
            lemma_max_coord(old_ks);
            lemma_step(old_ks, direction, b);
        }
        let d = direction.as_pos();
        let head = self.knots[0];
        let new_head = head.add(d);
        self.knots[0] = new_head;
        assert(self.knots@[0] == target[0]);
        let n = self.knots.len();
        let mut i: usize = 1;
        while i < n
            invariant
                1 <= i <= n == self.knots@.len() == old_ks.len(),
                forall|j: int| 0 <= j < i ==> #[trigger] self.knots@[j] == target[j],
                forall|j: int| i <= j < n ==> #[trigger] self.knots@[j] == old_ks[j],
            decreases n - i,
        {
            let prev = self.knots[i - 1];
            let cur = self.knots[i];
            assert(prev == target[i - 1] && cur == old_ks[i as int]);
            proof {
                if i == 1 {
                    assert(target[0].x - old_ks[0].x == spec_as_pos(direction).x);
                    assert(target[0].y - old_ks[0].y == spec_as_pos(direction).y);
                } else {
                    assert(near(target[(i - 2) + 1], old_ks[(i - 2) + 1]));
                }
                assert(near(old_ks[i - 1], old_ks[i as int]));
                assert(-2 <= prev.x - cur.x <= 2 && -2 <= prev.y - cur.y <= 2);
            }
            let diff = prev.sub(cur);
            let delta_tail = follow_delta(diff);
            assert(i32::MIN <= cur.x + delta_tail.x <= i32::MAX && i32::MIN <= cur.y
                + delta_tail.y <= i32::MAX) by {
                assert(spec_follow(prev, cur).x - cur.x == sgn(prev.x - cur.x)
                    || spec_follow(prev, cur) == cur);
            }
            let moved = cur.add(delta_tail);
            assert(moved == spec_follow(prev, cur));
            assert(target[(i - 1) + 1] == spec_follow(target[i - 1], old_ks[(i - 1) + 1]));
            assert(moved == target[i as int]);
            self.knots[i] = moved;
            i = i + 1;
        }
        proof {
            assert(self.knots@ =~= target);
        }
    }
}

/// The largest coordinate magnitude among the knots.
pub open spec fn max_coord(ks: Seq<Pos>) -> int
    decreases ks.len(),
{
    if ks.len() == 0 {
        0
    } else {
        let m = max_coord(ks.drop_last());
        let c = ks.last();
        let cx = if c.x >= 0 {
            c.x as int
        } else {
            -(c.x as int)
        };
        let cy = if c.y >= 0 {
            c.y as int
        } else {
            -(c.y as int)
        };
        let cm = if cx >= cy {
            cx
        } else {
            cy
        };
        if m >= cm {
            m
        } else {
            cm
        }
    }
}

/// Every rope is bounded by its largest coordinate, which itself stays below
/// the type's limit.
proof fn lemma_max_coord(ks: Seq<Pos>)
    ensures
        0 <= max_coord(ks),
        bounded(ks, max_coord(ks)),
    decreases ks.len(),
{
    if ks.len() > 0 {
        lemma_max_coord(ks.drop_last());
        assert(forall|i: int| 0 <= i < ks.len() - 1 ==> #[trigger] ks[i] == ks.drop_last()[i]);
    }
}

/// A head move: a direction and how many steps to take.
#[derive(Clone, Copy, Debug, PartialEq, Eq, Structural)]
pub struct Command {
    pub direction: Direction,
    pub delta: u32,
}

/// The direction a letter names.
pub open spec fn dir_of(c: char) -> Option<Direction> {
    if c == 'U' {
        Some(Direction::Up)
    } else if c == 'D' {
        Some(Direction::Down)
    } else if c == 'L' {
        Some(Direction::Left)
    } else if c == 'R' {
        Some(Direction::Right)
    } else {
        None
    }
}

/// What a line means: a direction letter, blanks, and a step count.
pub open spec fn spec_parse_command(line: Seq<char>) -> Option<Command> {
    if line.len() >= 1 && dir_of(line[0]) is Some {
        let j = text::spaces_end(line, 1);
        if j > 1 && j < line.len() && text::parses_u32(line.subrange(j, line.len() as int)) {
            Some(
                Command {
                    direction: dir_of(line[0])->0,
                    delta: text::digits_val(line.subrange(j, line.len() as int)) as u32,
                },
            )
        } else {
            None
        }
    } else {
        None
    }
}

impl Command {
    /// Reads a line as a head move.
    pub fn parse(line: &Vec<char>) -> (r: Option<Command>)
        ensures
            r == spec_parse_command(line@),
    {
        if line.len() == 0 {
            return None;
        }
        let c = line[0];
        let direction = if c == 'U' {
            Direction::Up
        } else if c == 'D' {
            Direction::Down
        } else if c == 'L' {
            Direction::Left
        } else if c == 'R' {
            Direction::Right
        } else {
            return None;
        };
        let mut j: usize = 1;
        while j < line.len() && (line[j] == ' ' || line[j] == '\t')
            invariant
                1 <= j <= line@.len(),
                text::spaces_end(line@, 1) == text::spaces_end(line@, j as int),
            decreases line@.len() - j,
        {
            j = j + 1;
        }
        assert(text::spaces_end(line@, j as int) == j);
        if j == 1 || j >= line.len() {
            return None;
        }
        match text::parse_u32_range(line, j, line.len()) {
            Some(delta) => Some(Command { direction, delta }),
            None => None,
        }
    }
}

/// Reading every line as a head move, from line `i` on; the index of the
/// first line that is none otherwise.  An empty input is an empty list of
/// moves.
pub open spec fn commands_from(ls: Seq<Seq<char>>, i: int) -> Result<Seq<Command>, int>
    decreases ls.len() - i,
{
    if i < 0 || i >= ls.len() {
        Ok(Seq::empty())
    } else {
        match spec_parse_command(ls[i]) {
            Some(c) => match commands_from(ls, i + 1) {
                Ok(rest) => Ok(seq![c] + rest),
                Err(e) => Err(e),
            },
            None => Err(i),
        }
    }
}

/// What the whole input means: the head moves, or the offending line.
pub open spec fn parse_result(content: Seq<char>) -> Result<Seq<Command>, int> {
    commands_from(text::spec_lines(content), 0)
}

/// Reads the input into head moves, or reports the offending line.
pub fn read_input(content: &str) -> (r: Result<Vec<Command>, Error>)
    ensures
        parse_result(content@) matches Ok(cs) ==> (r matches Ok(v) && v@ == cs),
        parse_result(content@) matches Err(e) ==> r == Err::<Vec<Command>, Error>(
            Error::Parse(e as usize),
        ),
{
    let ls = text::lines_of(content);
    let ghost lsv = ls.deep_view();
    let mut commands: Vec<Command> = Vec::new();
    let mut i: usize = 0;
    while i < ls.len()
        invariant
            i <= ls@.len(),
            commands_from(lsv, 0) matches Ok(all) ==> (commands_from(lsv, i as int) matches Ok(
                rest,
            ) && all == commands@ + rest),
            commands_from(lsv, 0) is Err ==> commands_from(lsv, i as int) is Err,
            commands_from(lsv, i as int) matches Err(e) ==> commands_from(lsv, 0) == Err::<
                Seq<Command>,
                int,
            >(e),
        decreases ls@.len() - i,
    {
        let line = &ls[i];
        assert(line@ == lsv[i as int]);
        match Command::parse(line) {
            Some(c) => {
                let ghost before = commands@;
                commands.push(c);
                proof {
                    if let Ok(rest) = commands_from(lsv, i + 1) {
                        assert(before + (seq![c] + rest) =~= commands@ + rest);
                    }
                }
            },
            None => {
                return Err(Error::Parse(i));
            },
        }
        i = i + 1;
    }
    assert(commands@ + Seq::<Command>::empty() =~= commands@);
    Ok(commands)
}

/// All the single steps the moves from `i` on call for, in order.
pub open spec fn expand_from(cmds: Seq<Command>, i: int) -> Seq<Direction>
    decreases cmds.len() - i,
{
    if i < 0 || i >= cmds.len() {
        Seq::empty()
    } else {
        Seq::new(cmds[i].delta as nat, |k: int| cmds[i].direction) + expand_from(cmds, i + 1)
    }
}

/// A rope of `n` knots at the origin.
pub open spec fn zero_knots(n: int) -> Seq<Pos> {
    Seq::new(n as nat, |k: int| Pos { x: 0, y: 0 })
}

/// The knots after the first `t` steps of `dirs`, starting from `start`.
pub open spec fn run_states(start: Seq<Pos>, dirs: Seq<Direction>, t: int) -> Seq<Pos>
    decreases t,
{
    if t <= 0 {
        start
    } else {
        step_knots(run_states(start, dirs, t - 1), dirs[t - 1])
    }
}

/// Every position the last knot stands on after one of the first `t` steps.
pub open spec fn visited_set(start: Seq<Pos>, dirs: Seq<Direction>, t: int) -> Set<Pos>
    decreases t,
{
    if t <= 0 {
        Set::empty()
    } else {
        visited_set(start, dirs, t - 1).insert(run_states(start, dirs, t).last())
    }
}

/// Pushing extends membership by exactly the new position.
proof fn lemma_push_contains_pos(s: Seq<Pos>, x: Pos)
    ensures
        forall|y: Pos| #[trigger] s.push(x).contains(y) <==> (s.contains(y) || y == x),
{
    assert forall|y: Pos| #[trigger] s.push(x).contains(y) implies (s.contains(y) || y == x) by {
        let j = choose|j: int| 0 <= j < s.push(x).len() && #[trigger] s.push(x)[j] == y;
        if j < s.len() {
            assert(s[j] == y);
        }
    }
    assert forall|y: Pos| s.contains(y) || y == x implies #[trigger] s.push(x).contains(y) by {
        if y == x {
            assert(s.push(x)[s.len() as int] == y);
        } else {
            let j = choose|j: int| 0 <= j < s.len() && #[trigger] s[j] == y;
            assert(s.push(x)[j] == y);
        }
    }
}

/// Checks whether `x` is among `v`.
fn contains_pos(v: &Vec<Pos>, x: Pos) -> (r: bool)
    ensures
        r == v@.contains(x),
{
    let mut k: usize = 0;
    while k < v.len()
        invariant
            k <= v@.len(),
            forall|j: int| 0 <= j < k ==> v@[j] != x,
        decreases v@.len() - k,
    {
        if v[k].x == x.x && v[k].y == x.y {
            assert(v@[k as int] == x);
            return true;
        }
        k = k + 1;
    }
    false
}

/// Whether the total number of single steps leaves every coordinate
/// representable.
pub open spec fn steps_fit(content: Seq<char>) -> bool {
    match parse_result(content) {
        Ok(cs) => expand_from(cs, 0).len() <= i32::MAX - 1,
        Err(_) => true,
    }
}

/// Walks a rope of `knot_count` knots through all the moves of the input and
/// collects the distinct positions its last knot visits.
fn run_trail(content: &str, knot_count: usize) -> (r: Result<Vec<Pos>, Error>)
    requires
        knot_count >= 1,
        steps_fit(content@),
    ensures
        parse_result(content@) matches Err(e) ==> r == Err::<Vec<Pos>, Error>(
            Error::Parse(e as usize),
        ),
        parse_result(content@) matches Ok(cs) ==> (r matches Ok(v) && (forall|a: int, b: int|
            0 <= a < b < v@.len() ==> v@[a] != v@[b]) && (forall|p: Pos|
            v@.contains(p) <==> visited_set(
                zero_knots(knot_count as int),
                expand_from(cs, 0),
                expand_from(cs, 0).len() as int,
            ).contains(p))),
{
    let commands = match read_input(content) {
        Ok(v) => v,
        Err(e) => {
            return Err(e);
        },
    };
    let ghost cs = commands@;
    let ghost dirs = expand_from(cs, 0);
    let ghost start = zero_knots(knot_count as int);
    let mut grid = Grid::new(knot_count);
    let mut visited: Vec<Pos> = Vec::new();
    let ghost mut t: int = 0;
    proof {
        assert(grid.knots@ =~= start);
        assert(linked(grid.knots@));
        assert(bounded(grid.knots@, 0));
        assert(dirs.skip(0) =~= dirs);
    }
    let mut i: usize = 0;
    while i < commands.len()
        invariant
            i <= cs.len(),
            cs == commands@,
            knot_count >= 1,
            0 <= t <= dirs.len() <= i32::MAX - 1,
            dirs == expand_from(cs, 0),
            grid.knots@ == run_states(start, dirs, t),
            grid.knots@.len() == knot_count,
            linked(grid.knots@),
            bounded(grid.knots@, t),
            dirs.skip(t) == expand_from(cs, i as int),
            forall|a: int, b: int| 0 <= a < b < visited@.len() ==> visited@[a] != visited@[b],
            forall|p: Pos| visited@.contains(p) <==> visited_set(start, dirs, t).contains(p),
        decreases cs.len() - i,
    {
        let cmd = commands[i];
        let mut s: u32 = 0;
        while s < cmd.delta
            invariant
                i < cs.len(),
                cs == commands@,
                cmd == cs[i as int],
                knot_count >= 1,
                s <= cmd.delta,
                0 <= t <= dirs.len() <= i32::MAX - 1,
                dirs == expand_from(cs, 0),
                grid.knots@ == run_states(start, dirs, t),
                grid.knots@.len() == knot_count,
                linked(grid.knots@),
                bounded(grid.knots@, t),
                dirs.skip(t) == Seq::new((cmd.delta - s) as nat, |k: int| cmd.direction)
                    + expand_from(cs, i + 1),
                forall|a: int, b: int| 0 <= a < b < visited@.len() ==> visited@[a] != visited@[b],
                forall|p: Pos| visited@.contains(p) <==> visited_set(start, dirs, t).contains(p),
            decreases cmd.delta - s,
        {
            proof {
                assert(dirs.skip(t).len() > 0);
                assert(t < dirs.len());
                assert(dirs.skip(t)[0] == dirs[t]);
                assert(dirs[t] == cmd.direction);
                assert(-t <= grid.knots@[0].x <= t && -t <= grid.knots@[0].y <= t);
            }
            let ghost before_knots = grid.knots@;
            grid.move_head(cmd.direction);
            proof {
                lemma_step(before_knots, cmd.direction, t);
                t = t + 1;
                assert(grid.knots@ == run_states(start, dirs, t));
                assert(bounded(grid.knots@, t));
                assert(dirs.skip(t) =~= dirs.skip(t - 1).drop_first());
                assert(Seq::new((cmd.delta - s) as nat, |k: int| cmd.direction).drop_first()
                    =~= Seq::new((cmd.delta - (s + 1)) as nat, |k: int| cmd.direction));
                assert(dirs.skip(t) =~= Seq::new((cmd.delta - (s + 1)) as nat, |k: int| cmd.direction)
                    + expand_from(cs, i + 1));
            }
            let tail = grid.knots[knot_count - 1];
            assert(tail == run_states(start, dirs, t).last());
            let ghost before = visited@;
            if !contains_pos(&visited, tail) {
                visited.push(tail);
                proof {
                    lemma_push_contains_pos(before, tail);
                    assert forall|a: int, b: int| 0 <= a < b < visited@.len() implies visited@[a]
                        != visited@[b] by {
                        if b == visited@.len() - 1 {
                            assert(visited@[a] == before[a]);
                            assert(before.contains(before[a]));
                        }
                    }
                }
            }
            proof {
                assert(visited_set(start, dirs, t) == visited_set(start, dirs, t - 1).insert(
                    tail,
                ));
                assert forall|p: Pos| visited@.contains(p) <==> visited_set(
                    start,
                    dirs,
                    t,
                ).contains(p) by {}
            }
            s = s + 1;
        }
        proof {
            assert(Seq::new(0nat, |k: int| cmd.direction) + expand_from(cs, i + 1)
                =~= expand_from(cs, i + 1));
        }
        i = i + 1;
    }
    proof {
        assert(expand_from(cs, cs.len() as int) =~= Seq::<Direction>::empty());
        assert(dirs.skip(t).len() == dirs.len() - t);
        assert(t == dirs.len());
    }
    Ok(visited)
}

/// The distinct positions the tail of a two-knot rope visits.
pub fn run_challenge1(content: &str) -> (r: Result<Vec<Pos>, Error>)
    requires
        steps_fit(content@),
    ensures
        parse_result(content@) matches Err(e) ==> r == Err::<Vec<Pos>, Error>(
            Error::Parse(e as usize),
        ),
        parse_result(content@) matches Ok(cs) ==> (r matches Ok(v) && (forall|a: int, b: int|
            0 <= a < b < v@.len() ==> v@[a] != v@[b]) && (forall|p: Pos|
            v@.contains(p) <==> visited_set(
                zero_knots(2),
                expand_from(cs, 0),
                expand_from(cs, 0).len() as int,
            ).contains(p))),
{
    run_trail(content, 2)
}

/// The distinct positions the last knot of a ten-knot rope visits.
pub fn run_challenge2(content: &str) -> (r: Result<Vec<Pos>, Error>)
    requires
        steps_fit(content@),
    ensures
        parse_result(content@) matches Err(e) ==> r == Err::<Vec<Pos>, Error>(
            Error::Parse(e as usize),
        ),
        parse_result(content@) matches Ok(cs) ==> (r matches Ok(v) && (forall|a: int, b: int|
            0 <= a < b < v@.len() ==> v@[a] != v@[b]) && (forall|p: Pos|
            v@.contains(p) <==> visited_set(
                zero_knots(10),
                expand_from(cs, 0),
                expand_from(cs, 0).len() as int,
            ).contains(p))),
{
    run_trail(content, 10)
}

/// The step a follower takes, from the offset to its leader.
fn follow_delta(diff: Pos) -> (r: Pos)
    requires
        -2 <= diff.x <= 2,
        -2 <= diff.y <= 2,
    ensures
        r.x == if -1 <= diff.x <= 1 && -1 <= diff.y <= 1 {
            0int
        } else {
            sgn(diff.x as int)
        },
        r.y == if -1 <= diff.x <= 1 && -1 <= diff.y <= 1 {
            0int
        } else {
            sgn(diff.y as int)
        },
{
    match (diff.x, diff.y) {
        (0, 0) | (0, -1) | (0, 1) | (-1, 0) | (1, 0) | (-1, 1) | (-1, -1) | (1, -1) | (1, 1) => Pos {
            x: 0,
            y: 0,
        },
        (0, 2) => Pos { x: 0, y: 1 },
        (0, -2) => Pos { x: 0, y: -1 },
        (2, 0) => Pos { x: 1, y: 0 },
        (-2, 0) => Pos { x: -1, y: 0 },
        (2, 1) | (1, 2) | (2, 2) => Pos { x: 1, y: 1 },
        (2, -1) | (1, -2) | (2, -2) => Pos { x: 1, y: -1 },
        (-2, 1) | (-1, 2) | (-2, 2) => Pos { x: -1, y: 1 },
        (-2, -1) | (-1, -2) | (-2, -2) => Pos { x: -1, y: -1 },
        _ => {
            proof {
                assert(false);
            }
            Pos { x: 0, y: 0 }
        },
    }
}

} // verus!
