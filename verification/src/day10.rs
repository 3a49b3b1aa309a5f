//! Tenth puzzle: a one-register machine driven by `noop` (one cycle) and
//! `addx N` (two cycles, adding to the register at the end of the second).
//! The first answer sums the signal strengths at cycles 20, 60, 100 and so
//! on; the second is the picture a beam draws on a 40-by-6 screen, lighting a
//! pixel when the register is within one of the beam's column.

use vstd::prelude::*;

use crate::text;

verus! {

/// A failure to read the input.
#[derive(Clone, Copy, Debug, PartialEq, Eq, Structural)]
pub enum Error {
    /// The line at this index is neither `noop` nor `addx` with a number.
    Parse(usize),
}

/// One instruction of the program.
#[derive(Clone, Copy, Debug, PartialEq, Eq, Structural)]
pub enum Command {
    NoOp,
    Addx(i64),
}

/// Whether a line is a signed number that fits in an `i64`, with an optional
/// leading sign.
pub open spec fn parses_i64(s: Seq<char>) -> bool {
    if s.len() > 0 && (s[0] == '-' || s[0] == '+') {
        let ds = s.drop_first();
        ds.len() > 0 && text::all_digits(ds) && (if s[0] == '-' {
            text::digits_val(ds) <= 0x8000_0000_0000_0000
        } else {
            text::digits_val(ds) <= i64::MAX
        })
    } else {
        s.len() > 0 && text::all_digits(s) && text::digits_val(s) <= i64::MAX
    }
}

/// The value of such a line.
pub open spec fn i64_val(s: Seq<char>) -> int {
    if s.len() > 0 && s[0] == '-' {
        -(text::digits_val(s.drop_first()) as int)
    } else if s.len() > 0 && s[0] == '+' {
        text::digits_val(s.drop_first()) as int
    } else {
        text::digits_val(s) as int
    }
}

/// Reads `line[lo..]` as a signed 64-bit number.
fn parse_i64_from(line: &Vec<char>, lo: usize) -> (r: Option<i64>)
    requires
        lo <= line@.len(),
    ensures
        r is Some <==> parses_i64(line@.skip(lo as int)),
        parses_i64(line@.skip(lo as int)) ==> r == Some(i64_val(line@.skip(lo as int)) as i64),
{
    let ghost s = line@.skip(lo as int);
    if lo == line.len() {
        return None;
    }
    assert(s[0] == line@[lo as int]);
    let first = line[lo];
    if first == '-' || first == '+' {
        assert(s.drop_first() =~= line@.skip(lo + 1));
        match text::parse_u64_range(line, lo + 1, line.len()) {
            Some(v) => {
                assert(line@.subrange(lo + 1, line@.len() as int) =~= line@.skip(lo + 1));
                if first == '-' {
                    if v <= 0x8000_0000_0000_0000u64 {
                        if v == 0x8000_0000_0000_0000u64 {
                            Some(i64::MIN)
                        } else {
                            Some(-(v as i64))
                        }
                    } else {
                        None
                    }
                } else {
                    if v <= i64::MAX as u64 {
                        Some(v as i64)
                    } else {
                        None
                    }
                }
            },
            None => None,
        }
    } else {
        assert(line@.subrange(lo as int, line@.len() as int) =~= s);
        match text::parse_u64_range(line, lo, line.len()) {
            Some(v) => if v <= i64::MAX as u64 {
                Some(v as i64)
            } else {
                None
            },
            None => None,
        }
    }
}

/// What a line means: `noop`, or `addx` and a number.
pub open spec fn spec_parse_command(line: Seq<char>) -> Option<Command> {
    if line == seq!['n', 'o', 'o', 'p'] {
        Some(Command::NoOp)
    } else if line.len() > 5 && line.subrange(0, 5) == seq!['a', 'd', 'd', 'x', ' ']
        && parses_i64(line.skip(5)) {
        Some(Command::Addx(i64_val(line.skip(5)) as i64))
    } else {
        None
    }
}

impl Command {
    /// Reads a line as an instruction.
    pub fn parse(line: &Vec<char>) -> (r: Option<Command>)
        ensures
            r == spec_parse_command(line@),
    {
        if line.len() == 4 && line[0] == 'n' && line[1] == 'o' && line[2] == 'o' && line[3] == 'p' {
            assert(line@ =~= seq!['n', 'o', 'o', 'p']);
            return Some(Command::NoOp);
        }
        assert(line@ != seq!['n', 'o', 'o', 'p']) by {
            if line@ == seq!['n', 'o', 'o', 'p'] {
                assert(line@.len() == 4 && line@[0] == 'n' && line@[1] == 'o' && line@[2] == 'o'
                    && line@[3] == 'p');
            }
        }
        if line.len() > 5 && line[0] == 'a' && line[1] == 'd' && line[2] == 'd' && line[3] == 'x'
            && line[4] == ' ' {
            assert(line@.subrange(0, 5) =~= seq!['a', 'd', 'd', 'x', ' ']);
            match parse_i64_from(line, 5) {
                Some(v) => Some(Command::Addx(v)),
                None => None,
            }
        } else {
            proof {
                if line@.len() > 5 && line@.subrange(0, 5) == seq!['a', 'd', 'd', 'x', ' '] {
                    assert(line@[0] == line@.subrange(0, 5)[0]);
                    assert(line@[1] == line@.subrange(0, 5)[1]);
                    assert(line@[2] == line@.subrange(0, 5)[2]);
                    assert(line@[3] == line@.subrange(0, 5)[3]);
                    assert(line@[4] == line@.subrange(0, 5)[4]);
                }
            }
            None
        }
    }

    /// How many cycles this instruction takes.
    pub fn cycles(&self) -> (r: usize)
        ensures
            r == spec_cycles(*self),
    {
        match self {
            Command::NoOp => 1,
            Command::Addx(_) => 2,
        }
    }
}

/// How many cycles an instruction takes.
pub open spec fn spec_cycles(c: Command) -> int {
    match c {
        Command::NoOp => 1,
        Command::Addx(_) => 2,
    }
}

/// Reading every line as an instruction, from line `i` on.
pub open spec fn commands_from(ls: Seq<Seq<char>>, i: int) -> Result<Seq<Command>, int>
    decreases ls.len() - i,
{
    if i < 0 || i >= ls.len() {
        Ok(Seq::empty())
    } else {
        match spec_parse_command(ls[i]) {
            Some(c) => match commands_from(ls, i + 1) {
                Ok(rest) => Ok(seq![c] + rest),
                Err(e) => Err(e),
            },
            None => Err(i),
        }
    }
}

/// What the whole input means: the program, or the offending line.
pub open spec fn parse_result(content: Seq<char>) -> Result<Seq<Command>, int> {
    commands_from(text::spec_lines(content), 0)
}

/// Reads the input into a program, or reports the offending line.
pub fn read_input(content: &str) -> (r: Result<Vec<Command>, Error>)
    ensures
        parse_result(content@) matches Ok(cs) ==> (r matches Ok(v) && v@ == cs),
        parse_result(content@) matches Err(e) ==> r == Err::<Vec<Command>, Error>(
            Error::Parse(e as usize),
        ),
{
    let ls = text::lines_of(content);
    let ghost lsv = ls.deep_view();
    let mut commands: Vec<Command> = Vec::new();
    let mut i: usize = 0;
    while i < ls.len()
        invariant
            i <= ls@.len(),
            commands_from(lsv, 0) matches Ok(all) ==> (commands_from(lsv, i as int) matches Ok(
                rest,
            ) && all == commands@ + rest),
            commands_from(lsv, 0) is Err ==> commands_from(lsv, i as int) is Err,
            commands_from(lsv, i as int) matches Err(e) ==> commands_from(lsv, 0) == Err::<
                Seq<Command>,
                int,
            >(e),
        decreases ls@.len() - i,
    {
        let line = &ls[i];
        assert(line@ == lsv[i as int]);
        match Command::parse(line) {
            Some(c) => {
                let ghost before = commands@;
                commands.push(c);
                proof {
                    if let Ok(rest) = commands_from(lsv, i + 1) {
                        assert(before + (seq![c] + rest) =~= commands@ + rest);
                    }
                }
            },
            None => {
                return Err(Error::Parse(i));
            },
        }
        i = i + 1;
    }
    assert(commands@ + Seq::<Command>::empty() =~= commands@);
    Ok(commands)
}

/// The change applied to the register at the end of each cycle, for the
/// instructions from `i` on: `noop` contributes one zero, `addx d` a zero and
/// then `d`.
pub open spec fn cycles_of(cs: Seq<Command>, i: int) -> Seq<int>
    decreases cs.len() - i,
{
    if i < 0 || i >= cs.len() {
        Seq::empty()
    } else {
        (match cs[i] {
            Command::NoOp => seq![0int],
            Command::Addx(d) => seq![0int, d as int],
        }) + cycles_of(cs, i + 1)
    }
}

/// The register at the start of cycle `c` (it starts at one, and each cycle's
/// change lands at that cycle's end).
pub open spec fn reg_at(ds: Seq<int>, c: int) -> int
    decreases c,
{
    if c <= 1 {
        1
    } else {
        reg_at(ds, c - 1) + ds[c - 2]
    }
}

/// Whether strength is sampled at cycle `c`: at 20 and every 40 after.
pub open spec fn is_signal(c: int) -> bool {
    c == 20 || (c > 20 && (c - 20) % 40 == 0)
}

/// The strength accumulated through cycle `upto`: the sum of cycle number
/// times register over the sampled cycles.
pub open spec fn strength_sum(ds: Seq<int>, upto: int) -> int
    decreases upto,
{
    if upto <= 0 {
        0
    } else {
        strength_sum(ds, upto - 1) + if is_signal(upto) {
            upto * reg_at(ds, upto)
        } else {
            0int
        }
    }
}

/// Whether the beam lights its pixel during cycle `c`: the register is within
/// one of the beam's column.
pub open spec fn lit(ds: Seq<int>, c: int) -> bool {
    let x = (c - 1) % 40;
    reg_at(ds, c) - 1 <= x && x <= reg_at(ds, c) + 1
}

/// The screen after the cycles before `upto` have drawn: pixel `p` is lit
/// exactly when cycle `p + 1` has run and lit it.
pub open spec fn crt_upto(ds: Seq<int>, upto: int) -> Seq<bool> {
    Seq::new(240, |p: int| p < upto && lit(ds, p + 1))
}

/// Whether a program can run to completion on this machine: the register and
/// the strength stay within `i64`, the cycle count stays small, and the beam
/// never draws past the screen's last row.
pub open spec fn run_safe(ds: Seq<int>) -> bool {
    &&& ds.len() + 2 <= usize::MAX
    &&& ds.len() + 1 < i64::MAX
    &&& forall|c: int| 1 <= c <= ds.len() + 1 ==> i64::MIN < #[trigger] reg_at(ds, c) < i64::MAX
    &&& forall|c: int|
        1 <= c <= ds.len() + 1 ==> i64::MIN <= #[trigger] strength_sum(ds, c) <= i64::MAX
    &&& forall|c: int|
        1 <= c <= ds.len() + 1 && is_signal(c) ==> i64::MIN <= c * #[trigger] reg_at(ds, c)
            <= i64::MAX
    &&& forall|c: int| 240 < c <= ds.len() + 1 ==> !#[trigger] lit(ds, c)
}

/// The machine: its register and its 40-by-6 screen, rows flattened in
/// reading order.
pub struct Machine {
    pub register: i64,
    pub crt: Vec<bool>,
}

impl Machine {
    /// A fresh machine: register one, screen dark.
    pub fn new() -> (r: Machine)
        ensures
            r.register == 1,
            r.crt@ == Seq::new(240, |p: int| false),
    {
        let mut crt: Vec<bool> = Vec::new();
        let mut i: usize = 0;
        while i < 240
            invariant
                i <= 240,
                crt@.len() == i,
                forall|p: int| 0 <= p < i ==> !(#[trigger] crt@[p]),
            decreases 240 - i,
        {
            crt.push(false);
            i = i + 1;
        }
        proof {
            assert(crt@ =~= Seq::new(240, |p: int| false));
        }
        Machine { register: 1, crt }
    }

    /// Whether the beam at column `x` lights its pixel now.
    pub fn is_lighten_pixel(&self, x: i64) -> (r: bool)
        requires
            i64::MIN < self.register < i64::MAX,
        ensures
            r == (self.register - 1 <= x && x <= self.register + 1),
    {
        self.register - 1 <= x && x <= self.register + 1
    }

    /// The screen as text: six lines of `#` (lit) and `.` (dark).
    pub fn render(&self) -> (r: String)
        requires
            self.crt@.len() == 240,
        ensures
            r@ == spec_render(self.crt@),
    {
        let mut out: Vec<char> = Vec::new();
        let mut row: usize = 0;
        while row < 6
            invariant
                row <= 6,
                self.crt@.len() == 240,
                out@ =~= spec_render(self.crt@).take(41 * row),
            decreases 6 - row,
        {
            let mut col: usize = 0;
            while col < 40
                invariant
                    row < 6,
                    col <= 40,
                    self.crt@.len() == 240,
                    out@ =~= spec_render(self.crt@).take(41 * row + col),
                decreases 40 - col,
            {
                let c = if self.crt[40 * row + col] {
                    '#'
                } else {
                    '.'
                };
                out.push(c);
                proof {
                    assert(spec_render(self.crt@)[41 * row + col] == c);
                    assert(out@ =~= spec_render(self.crt@).take(41 * row + col + 1));
                }
                col = col + 1;
            }
            out.push('\n');
            proof {
                assert(spec_render(self.crt@)[41 * row + 40] == '\n');
                assert(out@ =~= spec_render(self.crt@).take(41 * (row + 1)));
            }
            row = row + 1;
        }
        proof {
            assert(spec_render(self.crt@).take(246) =~= spec_render(self.crt@));
        }
        text::chars_to_string(&out)
    }
}

/// What the machine is about to do: fetch, or finish a running instruction.
pub enum Action {
    AwaitCommand,
    Defer(Command, usize),
}

/// Runs the program one cycle at a time, drawing the screen and sampling the
/// strength, and returns the total strength and the machine.
pub fn run_loop(commands: Vec<Command>) -> (r: Result<(i64, Machine), Error>)
    requires
        run_safe(cycles_of(commands@, 0)),
    ensures
        r matches Ok((strength, machine)) && {
            let ds = cycles_of(commands@, 0);
            &&& strength == strength_sum(ds, ds.len() as int + 1)
            &&& machine.register == reg_at(ds, ds.len() as int + 1)
            &&& machine.crt@ == crt_upto(ds, ds.len() as int + 1)
        },
{
    let ghost cs = commands@;
    let ghost ds = cycles_of(cs, 0);
    let mut machine = Machine::new();
    let mut current_action = Action::AwaitCommand;
    let mut cycle: usize = 1;
    let mut strength: i64 = 0;
    let mut j: usize = 0;
    proof {
        assert(machine.crt@ =~= crt_upto(ds, 0));
        assert(ds.skip(0) =~= ds);
    }
    let mut done = false;
    while !done
        invariant
            cs == commands@,
            run_safe(ds),
            ds == cycles_of(cs, 0),
            1 <= cycle <= ds.len() + 1,
            j <= cs.len(),
            machine.register == reg_at(ds, cycle as int),
            !done ==> machine.crt@ == crt_upto(ds, cycle - 1),
            !done ==> strength == strength_sum(ds, cycle - 1),
            done ==> machine.crt@ == crt_upto(ds, cycle as int) && strength == strength_sum(
                ds,
                cycle as int,
            ),
            current_action matches Action::AwaitCommand ==> ds.skip(cycle - 1) == cycles_of(
                cs,
                j as int,
            ),
            current_action matches Action::Defer(cmd, k) ==> (k == 1 && (cmd matches Command::Addx(
                d,
            ) && ds.skip(cycle - 1) == seq![d as int] + cycles_of(cs, j as int))),
            done ==> (current_action matches Action::AwaitCommand) && j == cs.len() && cycle
                == ds.len() + 1,
        decreases ds.len() + 2 - cycle + (if done {
            0int
        } else {
            1int
        }),
    {
        draw_and_sample(&mut machine, cycle, &mut strength, Ghost(ds));
        match current_action {
            Action::AwaitCommand => {
                if j < commands.len() {
                    let command = commands[j];
                    j = j + 1;
                    proof {
                        assert(cycles_of(cs, j - 1) == (match cs[j - 1] {
                            Command::NoOp => seq![0int],
                            Command::Addx(d) => seq![0int, d as int],
                        }) + cycles_of(cs, j as int));
                        assert(ds.skip(cycle - 1)[0] == ds[cycle - 1]);
                        assert(ds[cycle - 1] == 0);
                        assert(ds.skip(cycle as int) =~= ds.skip(cycle - 1).drop_first());
                    }
                    let cycles = command.cycles();
                    if cycles > 1 {
                        proof {
                            let d = cs[j - 1]->Addx_0;
                            assert(ds.skip(cycle - 1).drop_first() =~= seq![d as int]
                                + cycles_of(cs, j as int));
                        }
                        current_action = Action::Defer(command, cycles - 1);
                    } else {
                        proof {
                            assert(ds.skip(cycle - 1).drop_first() =~= cycles_of(cs, j as int));
                        }
                        current_action = Action::AwaitCommand;
                    }
                    assert(machine.register == reg_at(ds, cycle + 1));
                    cycle = cycle + 1;
                } else {
                    proof {
                        assert(cycles_of(cs, j as int) =~= Seq::<int>::empty());
                        assert(ds.skip(cycle - 1).len() == 0);
                        assert(cycle == ds.len() + 1);
                    }
                    done = true;
                }
            },
            Action::Defer(command, cycles) => {
                if cycles == 1 {
                    proof {
                        assert(ds.skip(cycle - 1)[0] == ds[cycle - 1]);
                        assert(ds.skip(cycle as int) =~= ds.skip(cycle - 1).drop_first());
                        assert(ds.skip(cycle - 1).drop_first() =~= cycles_of(cs, j as int));
                    }
                    match command {
                        Command::NoOp => (),
                        Command::Addx(delta) => {
                            assert(reg_at(ds, cycle + 1) == machine.register + delta);
                            machine.register = machine.register + delta;
                        },
                    }
                    current_action = Action::AwaitCommand;
                } else {
                    current_action = Action::Defer(command, cycles - 1);
                }
                cycle = cycle + 1;
            },
        }
    }
    Ok((strength, machine))
}

/// Draws this cycle's pixel and samples this cycle's strength.
fn draw_and_sample(machine: &mut Machine, cycle: usize, strength: &mut i64, Ghost(ds): Ghost<
    Seq<int>,
>)
    requires
        run_safe(ds),
        1 <= cycle <= ds.len() + 1,
        old(machine).register == reg_at(ds, cycle as int),
        old(machine).crt@ == crt_upto(ds, cycle - 1),
        *old(strength) == strength_sum(ds, cycle - 1),
    ensures
        final(machine).register == old(machine).register,
        final(machine).crt@ == crt_upto(ds, cycle as int),
        *final(strength) == strength_sum(ds, cycle as int),
{
    let x = (cycle - 1) % 40;
    if machine.is_lighten_pixel(x as i64) {
        assert(lit(ds, cycle as int));
        assert(cycle <= 240);
        let idx = cycle - 1;
        machine.crt[idx] = true;
        proof {
            assert(machine.crt@ =~= crt_upto(ds, cycle as int));
        }
    } else {
        proof {
            assert(!lit(ds, cycle as int));
            assert(machine.crt@ =~= crt_upto(ds, cycle as int));
        }
    }
    if cycle == 20 || cycle > 20 && (cycle - 20) % 40 == 0 {
        assert(is_signal(cycle as int));
        proof {
            assert(i64::MIN <= (cycle as int) * reg_at(ds, cycle as int) <= i64::MAX);
            assert(i64::MIN <= strength_sum(ds, cycle as int) <= i64::MAX);
        }
        let cycle_strength = (cycle as i64) * machine.register;
        *strength = *strength + cycle_strength;
    } else {
        assert(!is_signal(cycle as int));
    }
}

/// Whether the program of the input can run to completion on this machine.
pub open spec fn program_safe(content: Seq<char>) -> bool {
    match parse_result(content) {
        Ok(cs) => run_safe(cycles_of(cs, 0)),
        Err(_) => true,
    }
}

/// The total signal strength of the program in the input.
pub fn run_challenge1(content: &str) -> (r: Result<i64, Error>)
    requires
        program_safe(content@),
    ensures
        parse_result(content@) matches Ok(cs) ==> r == Ok::<i64, Error>(
            strength_sum(cycles_of(cs, 0), cycles_of(cs, 0).len() as int + 1) as i64,
        ),
        parse_result(content@) matches Err(e) ==> r == Err::<i64, Error>(Error::Parse(e as usize)),
{
    let commands = match read_input(content) {
        Ok(v) => v,
        Err(e) => {
            return Err(e);
        },
    };
    match run_loop(commands) {
        Ok((strength, _)) => Ok(strength),
        Err(e) => Err(e),
    }
}

/// The machine after the program in the input has run, its screen drawn.
pub fn run_challenge2(content: &str) -> (r: Result<Machine, Error>)
    requires
        program_safe(content@),
    ensures
        parse_result(content@) matches Ok(cs) ==> (r matches Ok(m) && {
            let ds = cycles_of(cs, 0);
            &&& m.register == reg_at(ds, ds.len() as int + 1)
            &&& m.crt@ == crt_upto(ds, ds.len() as int + 1)
        }),
        parse_result(content@) matches Err(e) ==> (r matches Err(er) && er == Error::Parse(
            e as usize,
        )),
{
    let commands = match read_input(content) {
        Ok(v) => v,
        Err(e) => {
            return Err(e);
        },
    };
    match run_loop(commands) {
        Ok((_, machine)) => Ok(machine),
        Err(e) => Err(e),
    }
}

/// The screen as text: six lines of forty `#` or `.` characters, each ended
/// by a line break.
pub open spec fn spec_render(crt: Seq<bool>) -> Seq<char> {
    Seq::new(
        246,
        |i: int|
            if i % 41 == 40 {
                '\n'
            } else if crt[(i / 41) * 40 + (i % 41)] {
                '#'
            } else {
                '.'
            },
    )
}

} // verus!
