//! Eleventh puzzle: a troop of item-throwing monkeys.  Each monkey holds a
//! queue of worry levels; each round it inspects every item, transforms it,
//! divides it by the worry divider, and throws it to another monkey chosen by
//! a divisibility test.  Worry levels are reduced modulo the product of all
//! the divisors first, which leaves every routing decision unchanged.  The
//! answer is the product of the two largest inspection counts.

use vstd::prelude::*;

use crate::text;

verus! {

/// A failure to read the input.
#[derive(Clone, Copy, Debug, PartialEq, Eq, Structural)]
pub enum Error {
    /// The line at this index does not fit its place in a monkey block.
    Parse(usize),
}

/// An operand of a transform: the old worry level or a constant.
#[derive(Clone, Copy, Debug, PartialEq, Eq, Structural)]
pub enum Var {
    Old,
    Num(u64),
}

/// What an operand stands for, given the old worry level.
pub open spec fn var_val(v: Var, old: u64) -> u64 {
    match v {
        Var::Old => old,
        Var::Num(n) => n,
    }
}

impl Var {
    /// The operand's value, given the old worry level.
    pub fn apply(self, old: u64) -> (r: u64)
        ensures
            r == var_val(self, old),
    {
        match self {
            Var::Old => old,
            Var::Num(num) => num,
        }
    }
}

/// A transform of the worry level: a sum or a product of two operands.
#[derive(Clone, Copy, Debug, PartialEq, Eq, Structural)]
pub enum Operation {
    Add(Var, Var),
    Mul(Var, Var),
}

/// The transformed worry level, as an unbounded integer.
pub open spec fn op_val(op: Operation, old: u64) -> int {
    match op {
        Operation::Add(a, b) => var_val(a, old) + var_val(b, old),
        Operation::Mul(a, b) => var_val(a, old) * var_val(b, old),
    }
}

impl Operation {
    /// Transforms the worry level.
    pub fn apply(self, old: u64) -> (r: u64)
        requires
            op_val(self, old) <= u64::MAX,
        ensures
            r == op_val(self, old),
    {
        match self {
            Operation::Add(left, right) => left.apply(old) + right.apply(old),
            Operation::Mul(left, right) => {
                let a = left.apply(old);
                let b = right.apply(old);
                a * b
            },
        }
    }
}

/// To whom a monkey throws, and what it tests.
#[derive(Clone, Copy, Debug, PartialEq, Eq, Structural)]
pub struct Test {
    pub divisible_by: u64,
    pub if_true_send_to: usize,
    pub if_false_send_to: usize,
}

/// Which monkey receives an item of worry level `v`.
pub open spec fn route(t: Test, v: u64) -> int {
    if v as int % t.divisible_by as int == 0 {
        t.if_true_send_to as int
    } else {
        t.if_false_send_to as int
    }
}

/// Reducing a worry level by any multiple of the divisor leaves the routing
/// decision unchanged: the throw goes to the same monkey whether or not the
/// level was first taken modulo the divisor product.
pub proof fn lemma_route_mod_product(t: Test, v: u64, p: u64)
    requires
        t.divisible_by >= 1,
        p >= 1,
        p as int % t.divisible_by as int == 0,
    ensures
        route(t, (v as int % p as int) as u64) == route(t, v),
{
    let d = t.divisible_by as int;
    let pi = p as int;
    let q = pi / d;
    vstd::arithmetic::div_mod::lemma_fundamental_div_mod(pi, d);
    assert(pi == d * q);
    assert(q > 0) by (nonlinear_arith)
        requires
            pi == d * q,
            pi >= 1,
            d >= 1,
    ;
    vstd::arithmetic::div_mod::lemma_mod_mod(v as int, d, q);
    assert((v as int % (d * q)) % d == (v as int) % d);
    assert((v as int % pi) as u64 as int == v as int % pi) by {
        vstd::arithmetic::div_mod::lemma_mod_bound(v as int, pi);
    }
}

/// A monkey: how often it has inspected, its number, its queue of worry
/// levels, its transform, and its throwing rule.
#[derive(Debug)]
pub struct Monkey {
    pub inspected: u64,
    pub index: u32,
    pub items: Vec<u64>,
    pub operation: Operation,
    pub test: Test,
}

/// The changing part of a monkey, for the simulation: its queue and its
/// count.
pub open spec fn monkey_items(ms: Seq<Monkey>) -> Seq<Seq<u64>> {
    ms.map_values(|m: Monkey| m.items@)
}

pub open spec fn monkey_counts(ms: Seq<Monkey>) -> Seq<u64> {
    ms.map_values(|m: Monkey| m.inspected)
}

/// Whether a `u64` number stands at `[i, e)` with `e` its maximal digit run.
pub open spec fn num_at(line: Seq<char>, i: int) -> bool {
    let e = text::digits_end(line, i);
    e > i && text::digits_val(line.subrange(i, e)) <= u64::MAX
}

/// The number standing at `i`.
pub open spec fn num_val(line: Seq<char>, i: int) -> int {
    text::digits_val(line.subrange(i, text::digits_end(line, i))) as int
}

/// What the `Monkey N:` line means: the monkey's number.
pub open spec fn header_val(line: Seq<char>) -> Option<u32> {
    let j = text::spaces_end(line, 6);
    let e = text::digits_end(line, j);
    if line.len() >= 6 && line.subrange(0, 6) == seq!['M', 'o', 'n', 'k', 'e', 'y'] && j > 6 && e
        > j && text::digits_val(line.subrange(j, e)) <= u32::MAX && e + 1 == line.len() && line[e]
        == ':' {
        Some(text::digits_val(line.subrange(j, e)) as u32)
    } else {
        None
    }
}

/// A comma-separated list of numbers from `i` to the end of the line.
pub open spec fn items_list(line: Seq<char>, i: int) -> Option<Seq<u64>>
    decreases line.len() - i,
    when 0 <= i <= line.len()
    via items_list_dec
{
    let e = text::digits_end(line, i);
    if e == i || text::digits_val(line.subrange(i, e)) > u64::MAX {
        None
    } else if e == line.len() {
        Some(seq![text::digits_val(line.subrange(i, e)) as u64])
    } else if line[e] == ',' {
        match items_list(line, text::spaces_end(line, e + 1)) {
            Some(rest) => Some(seq![text::digits_val(line.subrange(i, e)) as u64] + rest),
            None => None,
        }
    } else {
        None
    }
}

#[via_fn]
proof fn items_list_dec(line: Seq<char>, i: int) {
    text::lemma_digits_end(line, i);
    let e = text::digits_end(line, i);
    if e > i && e < line.len() && line[e] == ',' {
        text::lemma_spaces_end(line, e + 1);
    }
}

/// What the `Starting items:` line means: the initial worry levels.
pub open spec fn items_val(line: Seq<char>) -> Option<Seq<u64>> {
    let j0 = text::spaces_end(line, 0);
    let j1 = text::spaces_end(line, j0 + 15);
    if j0 > 0 && j0 + 15 <= line.len() && line.subrange(j0, j0 + 15) == seq![
        'S',
        't',
        'a',
        'r',
        't',
        'i',
        'n',
        'g',
        ' ',
        'i',
        't',
        'e',
        'm',
        's',
        ':',
    ] && j1 > j0 + 15 && j1 <= line.len() {
        items_list(line, j1)
    } else {
        None
    }
}

/// Where the operand starting at `i` ends.
pub open spec fn var_end(line: Seq<char>, i: int) -> int {
    if i + 3 <= line.len() && line.subrange(i, i + 3) == seq!['o', 'l', 'd'] {
        i + 3
    } else {
        text::digits_end(line, i)
    }
}

/// The operand starting at `i`, if any.
pub open spec fn var_at(line: Seq<char>, i: int) -> Option<Var> {
    if i + 3 <= line.len() && line.subrange(i, i + 3) == seq!['o', 'l', 'd'] {
        Some(Var::Old)
    } else if num_at(line, i) {
        Some(Var::Num(num_val(line, i) as u64))
    } else {
        None
    }
}

/// What the `Operation:` line means: the transform.
pub open spec fn operation_val(line: Seq<char>) -> Option<Operation> {
    let j0 = text::spaces_end(line, 0);
    let j1 = text::spaces_end(line, j0 + 10);
    if j0 > 0 && j0 + 10 <= line.len() && line.subrange(j0, j0 + 10) == seq![
        'O',
        'p',
        'e',
        'r',
        'a',
        't',
        'i',
        'o',
        'n',
        ':',
    ] && j1 > j0 + 10 && j1 + 5 <= line.len() && line.subrange(j1, j1 + 5) == seq![
        'n',
        'e',
        'w',
        ' ',
        '=',
    ] {
        let k0 = text::spaces_end(line, j1 + 5);
        match var_at(line, k0) {
            Some(a) => {
                let k1 = text::spaces_end(line, var_end(line, k0));
                if k1 < line.len() && (line[k1] == '+' || line[k1] == '*') {
                    let k2 = text::spaces_end(line, k1 + 1);
                    match var_at(line, k2) {
                        Some(b) => if var_end(line, k2) == line.len() {
                            if line[k1] == '+' {
                                Some(Operation::Add(a, b))
                            } else {
                                Some(Operation::Mul(a, b))
                            }
                        } else {
                            None
                        },
                        None => None,
                    }
                } else {
                    None
                }
            },
            None => None,
        }
    } else {
        None
    }
}

/// What the `Test:` line means: the divisor.
pub open spec fn test_val(line: Seq<char>) -> Option<u64> {
    let j0 = text::spaces_end(line, 0);
    let j1 = text::spaces_end(line, j0 + 5);
    let j2 = text::spaces_end(line, j1 + 12);
    if j0 > 0 && j0 + 5 <= line.len() && line.subrange(j0, j0 + 5) == seq![
        'T',
        'e',
        's',
        't',
        ':',
    ] && j1 > j0 + 5 && j1 + 12 <= line.len() && line.subrange(j1, j1 + 12) == seq![
        'd',
        'i',
        'v',
        'i',
        's',
        'i',
        'b',
        'l',
        'e',
        ' ',
        'b',
        'y',
    ] && j2 > j1 + 12 && j2 <= line.len() && num_at(line, j2) && text::digits_end(line, j2)
        == line.len() {
        Some(num_val(line, j2) as u64)
    } else {
        None
    }
}

/// The words of a throw line, by branch.
pub open spec fn throw_words(which: bool) -> Seq<char> {
    if which {
        seq![
            'I',
            'f',
            ' ',
            't',
            'r',
            'u',
            'e',
            ':',
            ' ',
            't',
            'h',
            'r',
            'o',
            'w',
            ' ',
            't',
            'o',
            ' ',
            'm',
            'o',
            'n',
            'k',
            'e',
            'y',
        ]
    } else {
        seq![
            'I',
            'f',
            ' ',
            'f',
            'a',
            'l',
            's',
            'e',
            ':',
            ' ',
            't',
            'h',
            'r',
            'o',
            'w',
            ' ',
            't',
            'o',
            ' ',
            'm',
            'o',
            'n',
            'k',
            'e',
            'y',
        ]
    }
}

/// What a throw line means: the target monkey's number.
pub open spec fn throw_val(line: Seq<char>, which: bool) -> Option<u32> {
    let w = throw_words(which).len() as int;
    let j0 = text::spaces_end(line, 0);
    let j1 = text::spaces_end(line, j0 + w);
    if j0 > 0 && j0 + w <= line.len() && line.subrange(j0, j0 + w) == throw_words(which) && j1 > j0
        + w && j1 <= line.len() && num_at(line, j1) && num_val(line, j1) <= u32::MAX
        && text::digits_end(line, j1) == line.len() {
        Some(num_val(line, j1) as u32)
    } else {
        None
    }
}

/// What one six-line monkey block starting at line `b` means, or the index of
/// its first bad or missing line.
pub open spec fn parse_block(ls: Seq<Seq<char>>, b: int) -> Result<
    (u32, Seq<u64>, Operation, Test),
    int,
> {
    if b >= ls.len() || header_val(ls[b]) is None {
        Err(b)
    } else if b + 1 >= ls.len() || items_val(ls[b + 1]) is None {
        Err(b + 1)
    } else if b + 2 >= ls.len() || operation_val(ls[b + 2]) is None {
        Err(b + 2)
    } else if b + 3 >= ls.len() || test_val(ls[b + 3]) is None {
        Err(b + 3)
    } else if b + 4 >= ls.len() || throw_val(ls[b + 4], true) is None {
        Err(b + 4)
    } else if b + 5 >= ls.len() || throw_val(ls[b + 5], false) is None {
        Err(b + 5)
    } else {
        Ok(
            (
                header_val(ls[b])->0,
                items_val(ls[b + 1])->0,
                operation_val(ls[b + 2])->0,
                Test {
                    divisible_by: test_val(ls[b + 3])->0,
                    if_true_send_to: throw_val(ls[b + 4], true)->0 as usize,
                    if_false_send_to: throw_val(ls[b + 5], false)->0 as usize,
                },
            ),
        )
    }
}

/// Reading blocks separated by one blank line, from line `i` on.
pub open spec fn blocks_from(ls: Seq<Seq<char>>, i: int) -> Result<
    Seq<(u32, Seq<u64>, Operation, Test)>,
    int,
>
    decreases ls.len() - i,
{
    match parse_block(ls, i) {
        Err(e) => Err(e),
        Ok(mv) => if i + 6 >= ls.len() {
            Ok(seq![mv])
        } else if ls[i + 6].len() == 0 {
            match blocks_from(ls, i + 7) {
                Ok(rest) => Ok(seq![mv] + rest),
                Err(e) => Err(e),
            }
        } else {
            Err(i + 6)
        },
    }
}

/// What the whole input means: the monkeys in input order, or the first line
/// that breaks the format.
pub open spec fn parse_result(content: Seq<char>) -> Result<
    Seq<(u32, Seq<u64>, Operation, Test)>,
    int,
> {
    blocks_from(text::spec_lines(content), 0)
}

/// Reads a `Monkey N:` line.
fn parse_header(line: &Vec<char>) -> (r: Option<u32>)
    ensures
        r == header_val(line@),
{
    let n = line.len();
    let w = text::chars_of("Monkey");
    proof {
        reveal_strlit("Monkey");
        assert(w@ =~= seq!['M', 'o', 'n', 'k', 'e', 'y']);
    }
    if !text::word_here(line, 0, &w) {
        return None;
    }
    assert(line@.subrange(0, 6) == seq!['M', 'o', 'n', 'k', 'e', 'y']);
    let j = text::skip_spaces(line, 6);
    if j == 6 {
        return None;
    }
    let e = text::scan_digits(line, j);
    if e == j {
        return None;
    }
    proof {
        text::lemma_digit_run(line@, j as int, e as int);
    }
    let v = match text::parse_u64_range(line, j, e) {
        Some(v) => v,
        None => {
            return None;
        },
    };
    if v <= u32::MAX as u64 && n - e == 1 && line[e] == ':' {
        Some(v as u32)
    } else {
        None
    }
}

/// Reads a `Starting items:` line.
fn parse_items(line: &Vec<char>) -> (r: Option<Vec<u64>>)
    ensures
        items_val(line@) is Some ==> (r matches Some(v) && v@ == items_val(line@)->0),
        items_val(line@) is None ==> r is None,
{
    let n = line.len();
    let w = text::chars_of("Starting items:");
    proof {
        reveal_strlit("Starting items:");
        assert(w@ =~= seq![
            'S',
            't',
            'a',
            'r',
            't',
            'i',
            'n',
            'g',
            ' ',
            'i',
            't',
            'e',
            'm',
            's',
            ':',
        ]);
    }
    let j0 = text::skip_spaces(line, 0);
    if j0 == 0 || !text::word_here(line, j0, &w) {
        return None;
    }
    let j1 = text::skip_spaces(line, j0 + 15);
    if j1 == j0 + 15 {
        return None;
    }
    let mut items: Vec<u64> = Vec::new();
    let mut i: usize = j1;
    while i <= n
        invariant
            i <= n == line@.len(),
            items_val(line@) == (match items_list(line@, i as int) {
                Some(rest) => Some(items@ + rest),
                None => None::<Seq<u64>>,
            }),
        decreases line@.len() - i,
    {
        let e = text::scan_digits(line, i);
        if e == i {
            return None;
        }
        proof {
            text::lemma_digit_run(line@, i as int, e as int);
        }
        let v = match text::parse_u64_range(line, i, e) {
            Some(v) => v,
            None => {
                return None;
            },
        };
        let ghost before = items@;
        items.push(v);
        if e == n {
            proof {
                assert(items_list(line@, i as int) == Some(
                    seq![text::digits_val(line@.subrange(i as int, e as int)) as u64],
                ));
                assert(before + seq![v] =~= items@);
            }
            return Some(items);
        }
        if line[e] != ',' {
            return None;
        }
        let next = text::skip_spaces(line, e + 1);
        proof {
            if let Some(rest) = items_list(line@, next as int) {
                assert(items_list(line@, i as int) == Some(seq![v] + rest));
                assert(before + (seq![v] + rest) =~= items@ + rest);
            }
        }
        i = next;
    }
    proof {
        assert(text::digits_end(line@, i as int) == i);
    }
    None
}

/// Reads an operand at `i`, and where it ends.
fn parse_var(line: &Vec<char>, i: usize) -> (r: (Option<Var>, usize))
    requires
        i <= line@.len(),
    ensures
        r.0 == var_at(line@, i as int),
        r.1 == var_end(line@, i as int),
        i <= r.1 <= line@.len(),
{
    let n = line.len();
    let w = text::chars_of("old");
    proof {
        reveal_strlit("old");
        assert(w@ =~= seq!['o', 'l', 'd']);
    }
    if text::word_here(line, i, &w) {
        (Some(Var::Old), i + 3)
    } else {
        let e = text::scan_digits(line, i);
        if e == i {
            return (None, e);
        }
        proof {
            text::lemma_digit_run(line@, i as int, e as int);
        }
        match text::parse_u64_range(line, i, e) {
            Some(v) => (Some(Var::Num(v)), e),
            None => (None, e),
        }
    }
}

/// Reads an `Operation:` line.
fn parse_operation(line: &Vec<char>) -> (r: Option<Operation>)
    ensures
        r == operation_val(line@),
{
    let n = line.len();
    let w = text::chars_of("Operation:");
    proof {
        reveal_strlit("Operation:");
        assert(w@ =~= seq!['O', 'p', 'e', 'r', 'a', 't', 'i', 'o', 'n', ':']);
    }
    let neww = text::chars_of("new =");
    proof {
        reveal_strlit("new =");
        assert(neww@ =~= seq!['n', 'e', 'w', ' ', '=']);
    }
    let j0 = text::skip_spaces(line, 0);
    if j0 == 0 || !text::word_here(line, j0, &w) {
        return None;
    }
    let j1 = text::skip_spaces(line, j0 + 10);
    if j1 == j0 + 10 || !text::word_here(line, j1, &neww) {
        return None;
    }
    let k0 = text::skip_spaces(line, j1 + 5);
    let (va, p1) = parse_var(line, k0);
    let a = match va {
        Some(a) => a,
        None => {
            return None;
        },
    };
    let k1 = text::skip_spaces(line, p1);
    if k1 >= n {
        return None;
    }
    let opc = line[k1];
    if opc != '+' && opc != '*' {
        return None;
    }
    let k2 = text::skip_spaces(line, k1 + 1);
    let (vb, p2) = parse_var(line, k2);
    let b = match vb {
        Some(b) => b,
        None => {
            return None;
        },
    };
    if p2 != n {
        return None;
    }
    if opc == '+' {
        Some(Operation::Add(a, b))
    } else {
        Some(Operation::Mul(a, b))
    }
}

/// Reads a `Test:` line.
fn parse_test(line: &Vec<char>) -> (r: Option<u64>)
    ensures
        r == test_val(line@),
{
    let n = line.len();
    let w = text::chars_of("Test:");
    proof {
        reveal_strlit("Test:");
        assert(w@ =~= seq!['T', 'e', 's', 't', ':']);
    }
    let dw = text::chars_of("divisible by");
    proof {
        reveal_strlit("divisible by");
        assert(dw@ =~= seq!['d', 'i', 'v', 'i', 's', 'i', 'b', 'l', 'e', ' ', 'b', 'y']);
    }
    let j0 = text::skip_spaces(line, 0);
    if j0 == 0 || !text::word_here(line, j0, &w) {
        return None;
    }
    let j1 = text::skip_spaces(line, j0 + 5);
    if j1 == j0 + 5 || !text::word_here(line, j1, &dw) {
        return None;
    }
    let j2 = text::skip_spaces(line, j1 + 12);
    if j2 == j1 + 12 {
        return None;
    }
    let e = text::scan_digits(line, j2);
    if e == j2 || e != n {
        return None;
    }
    proof {
        text::lemma_digit_run(line@, j2 as int, e as int);
    }
    text::parse_u64_range(line, j2, e)
}

/// Reads a throw line of the given branch.
fn parse_throw(line: &Vec<char>, which: bool) -> (r: Option<u32>)
    ensures
        r == throw_val(line@, which),
{
    let n = line.len();
    let w = if which {
        text::chars_of("If true: throw to monkey")
    } else {
        text::chars_of("If false: throw to monkey")
    };
    proof {
        if which {
            reveal_strlit("If true: throw to monkey");
        } else {
            reveal_strlit("If false: throw to monkey");
        }
        assert(w@ =~= throw_words(which));
    }
    let j0 = text::skip_spaces(line, 0);
    if j0 == 0 || !text::word_here(line, j0, &w) {
        return None;
    }
    let j1 = text::skip_spaces(line, j0 + w.len());
    if j1 == j0 + w.len() {
        return None;
    }
    let e = text::scan_digits(line, j1);
    if e == j1 || e != n {
        return None;
    }
    proof {
        text::lemma_digit_run(line@, j1 as int, e as int);
    }
    match text::parse_u64_range(line, j1, e) {
        Some(v) => if v <= u32::MAX as u64 {
            Some(v as u32)
        } else {
            None
        },
        None => None,
    }
}

/// The visible state of a monkey: number, queue, transform, rule and count.
pub open spec fn mview(m: Monkey) -> (u32, Seq<u64>, Operation, Test, u64) {
    (m.index, m.items@, m.operation, m.test, m.inspected)
}

/// The visible states of a troop.
pub open spec fn views(ms: Seq<Monkey>) -> Seq<(u32, Seq<u64>, Operation, Test, u64)> {
    ms.map_values(|m: Monkey| mview(m))
}

/// A fresh monkey from a parsed block: nothing inspected yet.
pub open spec fn block_view(b: (u32, Seq<u64>, Operation, Test)) -> (
    u32,
    Seq<u64>,
    Operation,
    Test,
    u64,
) {
    (b.0, b.1, b.2, b.3, 0u64)
}

/// Whether the monkeys stand in nondecreasing order of their numbers.
pub open spec fn sorted_by_index(vs: Seq<(u32, Seq<u64>, Operation, Test, u64)>) -> bool {
    forall|a: int, b: int| 0 <= a < b < vs.len() ==> (#[trigger] vs[a]).0 <= (#[trigger] vs[b]).0
}

/// Two orderings of the same monkeys, both sorted, agree wherever the numbers
/// are distinct; with all numbers distinct they are the same ordering.
pub proof fn lemma_sorted_views_unique(
    x: Seq<(u32, Seq<u64>, Operation, Test, u64)>,
    y: Seq<(u32, Seq<u64>, Operation, Test, u64)>,
)
    requires
        sorted_by_index(x),
        sorted_by_index(y),
        x.to_multiset() == y.to_multiset(),
        forall|a: int, b: int| 0 <= a < b < x.len() ==> (#[trigger] x[a]).0 != (#[trigger] x[b]).0,
    ensures
        x == y,
    decreases x.len(),
{
    broadcast use vstd::seq_lib::group_to_multiset_ensures;
    broadcast use vstd::multiset::group_multiset_axioms;

    if x.len() == 0 {
        assert(y.len() == y.to_multiset().len());
        assert(x =~= y);
    } else {
        assert(x.len() == x.to_multiset().len());
        assert(y.len() == y.to_multiset().len());
        assert(x.to_multiset().contains(x[0]));
        assert(y.to_multiset().contains(x[0]));
        assert(y.contains(x[0]));
        assert(x.to_multiset().contains(y[0]));
        assert(x.contains(y[0]));
        let i = choose|i: int| 0 <= i < y.len() && y[i] == x[0];
        let j = choose|j: int| 0 <= j < x.len() && x[j] == y[0];
        assert(y[0].0 <= y[i].0);
        assert(x[0].0 <= x[j].0);
        assert(x[0] == y[0]) by {
            if j > 0 {
                assert(x[0].0 != x[j].0);
                assert(x[0].0 < y[0].0);
                assert(y[0].0 <= x[0].0);
            } else {
                assert(x[0] == y[0]);
            }
        }
        assert(x.drop_first() =~= x.remove(0));
        assert(y.drop_first() =~= y.remove(0));
        assert(x.remove(0).to_multiset() =~= x.to_multiset().remove(x[0]));
        assert(y.remove(0).to_multiset() =~= y.to_multiset().remove(y[0]));
        assert(x.drop_first().to_multiset() == x.to_multiset().remove(x[0]));
        assert(y.drop_first().to_multiset() == y.to_multiset().remove(y[0]));
        assert forall|a: int, b: int| 0 <= a < b < x.drop_first().len() implies (
        #[trigger] x.drop_first()[a]).0 != (#[trigger] x.drop_first()[b]).0 by {
            assert(x.drop_first()[a] == x[a + 1]);
            assert(x.drop_first()[b] == x[b + 1]);
        }
        assert(sorted_by_index(x.drop_first())) by {
            assert(forall|a: int|
                0 <= a < x.drop_first().len() ==> #[trigger] x.drop_first()[a] == x[a + 1]);
        }
        assert(sorted_by_index(y.drop_first())) by {
            assert(forall|a: int|
                0 <= a < y.drop_first().len() ==> #[trigger] y.drop_first()[a] == y[a + 1]);
        }
        lemma_sorted_views_unique(x.drop_first(), y.drop_first());
        assert forall|k: int| 0 <= k < x.len() implies x[k] == #[trigger] y[k] by {
            if k > 0 {
                assert(x.drop_first()[k - 1] == x[k]);
                assert(y.drop_first()[k - 1] == y[k]);
            }
        }
        assert(x =~= y);
    }
}

/// Reads the input into monkeys, ordered by their numbers, or reports the
/// first offending line.
#[verifier::rlimit(80)]
pub fn read_input(content: &str) -> (r: Result<Vec<Monkey>, Error>)
    ensures
        parse_result(content@) matches Ok(blocks) ==> (r matches Ok(v) && sorted_by_index(
            views(v@),
        ) && views(v@).to_multiset() == blocks.map_values(
            |b: (u32, Seq<u64>, Operation, Test)| block_view(b),
        ).to_multiset()),
        parse_result(content@) matches Err(e) ==> r == Err::<Vec<Monkey>, Error>(
            Error::Parse(e as usize),
        ),
{
    broadcast use vstd::seq_lib::group_to_multiset_ensures;
    broadcast use vstd::multiset::group_multiset_axioms;

    let ls = text::lines_of(content);
    let ghost lsv = ls.deep_view();
    let mut monkeys: Vec<Monkey> = Vec::new();
    let mut b: usize = 0;
    let ghost target = blocks_from(lsv, 0);
    let ghost mut complete = false;
    while b < ls.len()
        invariant
            b <= ls@.len(),
            lsv == ls.deep_view(),
            target == blocks_from(lsv, 0),
            !complete ==> (target matches Ok(all) ==> (blocks_from(lsv, b as int) matches Ok(rest)
                && all == views_of_blocks(views(monkeys@)) + rest)),
            !complete ==> (target is Err ==> blocks_from(lsv, b as int) is Err),
            !complete ==> (blocks_from(lsv, b as int) matches Err(e) ==> target == Err::<
                Seq<(u32, Seq<u64>, Operation, Test)>,
                int,
            >(e)),
            complete ==> b == ls@.len() && (target matches Ok(all) && all == views_of_blocks(
                views(monkeys@),
            )),
            b == 0 ==> monkeys@.len() == 0,
            !complete ==> b < ls@.len() || b == 0,
            forall|k: int| 0 <= k < monkeys@.len() ==> (#[trigger] monkeys@[k]).inspected == 0,
        decreases ls@.len() - b,
    {
        let header = parse_header(&ls[b]);
        assert(ls[b as int]@ == lsv[b as int]);
        let index = match header {
            Some(v) => v,
            None => {
                return Err(Error::Parse(b));
            },
        };
        if b + 1 >= ls.len() {
            return Err(Error::Parse(b + 1));
        }
        assert(ls[b + 1]@ == lsv[b + 1]);
        let items = match parse_items(&ls[b + 1]) {
            Some(v) => v,
            None => {
                return Err(Error::Parse(b + 1));
            },
        };
        if b + 2 >= ls.len() {
            return Err(Error::Parse(b + 2));
        }
        assert(ls[b + 2]@ == lsv[b + 2]);
        let operation = match parse_operation(&ls[b + 2]) {
            Some(v) => v,
            None => {
                return Err(Error::Parse(b + 2));
            },
        };
        if b + 3 >= ls.len() {
            return Err(Error::Parse(b + 3));
        }
        assert(ls[b + 3]@ == lsv[b + 3]);
        let divisible_by = match parse_test(&ls[b + 3]) {
            Some(v) => v,
            None => {
                return Err(Error::Parse(b + 3));
            },
        };
        if b + 4 >= ls.len() {
            return Err(Error::Parse(b + 4));
        }
        assert(ls[b + 4]@ == lsv[b + 4]);
        let if_true = match parse_throw(&ls[b + 4], true) {
            Some(v) => v,
            None => {
                return Err(Error::Parse(b + 4));
            },
        };
        if b + 5 >= ls.len() {
            return Err(Error::Parse(b + 5));
        }
        assert(ls[b + 5]@ == lsv[b + 5]);
        let if_false = match parse_throw(&ls[b + 5], false) {
            Some(v) => v,
            None => {
                return Err(Error::Parse(b + 5));
            },
        };
        let test = Test {
            divisible_by,
            if_true_send_to: if_true as usize,
            if_false_send_to: if_false as usize,
        };
        let monkey = Monkey { inspected: 0, index, items, operation, test };
        let ghost before = views(monkeys@);
        let ghost blk = parse_block(lsv, b as int)->Ok_0;
        monkeys.push(monkey);
        proof {
            assert(mview(monkey) == block_view(blk));
            assert(views(monkeys@) =~= before.push(block_view(blk)));
            assert(views_of_blocks(views(monkeys@)) =~= views_of_blocks(before).push(blk));
        }
        if b + 6 >= ls.len() {
            proof {
                assert(blocks_from(lsv, b as int) == Ok::<
                    Seq<(u32, Seq<u64>, Operation, Test)>,
                    int,
                >(seq![blk]));
                assert(views_of_blocks(before) + seq![blk] =~= views_of_blocks(views(monkeys@)));
                complete = true;
            }
            b = ls.len();
        } else {
            assert(ls[b + 6]@ == lsv[b + 6]);
            if ls[b + 6].len() != 0 {
                return Err(Error::Parse(b + 6));
            }
            proof {
                if let Ok(rest) = blocks_from(lsv, b + 7) {
                    assert(views_of_blocks(before) + (seq![blk] + rest) =~= views_of_blocks(
                        views(monkeys@),
                    ) + rest);
                }
            }
            b = b + 7;
            if b >= ls.len() {
                proof {
                    assert(blocks_from(lsv, b as int) is Err);
                }
                return Err(Error::Parse(b));
            }
        }
    }
    if b == 0 {
        assert(blocks_from(lsv, 0) is Err);
        return Err(Error::Parse(0));
    }
    let ghost original = views(monkeys@);
    let ghost blocks = target->Ok_0;
    proof {
        assert(complete);
        let mapped = blocks.map_values(|blk: (u32, Seq<u64>, Operation, Test)| block_view(blk));
        assert(original =~= mapped) by {
            assert(forall|k: int|
                0 <= k < original.len() ==> #[trigger] views_of_blocks(original)[k] == (
                original[k].0,
                original[k].1,
                original[k].2,
                original[k].3,
            ));
            assert forall|k: int| 0 <= k < original.len() implies #[trigger] original[k]
                == mapped[k] by {
                assert(original[k] == mview(monkeys@[k]));
                assert(monkeys@[k].inspected == 0);
                assert(original[k].4 == 0);
                assert(blocks[k] == views_of_blocks(original)[k]);
                assert(mapped[k] == block_view(blocks[k]));
            }
        }
    }
    let sorted = sort_monkeys(monkeys);
    Ok(sorted)
}

/// The parsed blocks a troop's views came from.
pub open spec fn views_of_blocks(vs: Seq<(u32, Seq<u64>, Operation, Test, u64)>) -> Seq<
    (u32, Seq<u64>, Operation, Test),
> {
    vs.map_values(|v: (u32, Seq<u64>, Operation, Test, u64)| (v.0, v.1, v.2, v.3))
}

/// Orders the monkeys by their numbers, keeping the troop's members.
fn sort_monkeys(monkeys: Vec<Monkey>) -> (r: Vec<Monkey>)
    ensures
        sorted_by_index(views(r@)),
        views(r@).to_multiset() == views(monkeys@).to_multiset(),
        r@.len() == monkeys@.len(),
{
    broadcast use vstd::seq_lib::group_to_multiset_ensures;
    broadcast use vstd::multiset::group_multiset_axioms;

    let mut rest = monkeys;
    let mut out: Vec<Monkey> = Vec::new();
    while rest.len() > 0
        invariant
            views(out@).to_multiset().add(views(rest@).to_multiset()) == views(
                monkeys@,
            ).to_multiset(),
            out@.len() + rest@.len() == monkeys@.len(),
            sorted_by_index(views(out@)),
            forall|a: int, b: int|
                0 <= a < out@.len() && 0 <= b < rest@.len() ==> (#[trigger] views(out@)[a]).0 <= (
                #[trigger] views(rest@)[b]).0,
        decreases rest@.len(),
    {
        let mut best: usize = 0;
        let mut k: usize = 1;
        while k < rest.len()
            invariant
                best < k <= rest@.len(),
                forall|j: int|
                    0 <= j < k ==> (#[trigger] views(rest@)[best as int]).0 <= views(rest@)[j].0,
            decreases rest@.len() - k,
        {
            if rest[k].index < rest[best].index {
                best = k;
            }
            k = k + 1;
        }
        let ghost old_out = views(out@);
        let ghost old_rest = views(rest@);
        let picked = rest.remove(best);
        out.push(picked);
        proof {
            assert(views(out@) =~= old_out.push(old_rest[best as int]));
            assert(views(rest@) =~= old_rest.remove(best as int));
            assert(old_rest.to_multiset().contains(old_rest[best as int])) by {
                assert(old_rest.contains(old_rest[best as int]));
            }
            assert(views(out@).to_multiset().add(views(rest@).to_multiset()) =~= views(
                monkeys@,
            ).to_multiset());
            assert forall|a: int, b: int|
                0 <= a < out@.len() && 0 <= b < rest@.len() implies (#[trigger] views(
                out@,
            )[a]).0 <= (#[trigger] views(rest@)[b]).0 by {
                assert(views(rest@)[b] == old_rest[if b < best { b } else { b + 1 }]);
                if a < old_out.len() {
                    assert(views(out@)[a] == old_out[a]);
                } else {
                    assert(views(out@)[a] == old_rest[best as int]);
                }
            }
            assert forall|a: int, b: int| 0 <= a < b < out@.len() implies (#[trigger] views(
                out@,
            )[a]).0 <= (#[trigger] views(out@)[b]).0 by {
                if b == out@.len() - 1 {
                    assert(views(out@)[a] == old_out[a]);
                    assert(old_out[a].0 <= old_rest[best as int].0);
                }
            }
        }
    }
    proof {
        assert(views(rest@).to_multiset().len() == 0);
        assert(views(out@).to_multiset() =~= views(monkeys@).to_multiset());
    }
    out
}

/// The worry level of an item after one inspection: reduced modulo the
/// divisor product, transformed, then divided by the worry divider.
pub open spec fn worry_after(item: u64, op: Operation, p: u64, div: u64) -> int {
    op_val(op, (item as int % p as int) as u64) / div as int
}

/// One monkey's queue routed away: each item is inspected in order and pushed
/// onto its target's queue.
pub open spec fn route_all(
    st: Seq<Seq<u64>>,
    out: Seq<u64>,
    op: Operation,
    t: Test,
    p: u64,
    div: u64,
) -> Seq<Seq<u64>>
    decreases out.len(),
{
    if out.len() == 0 {
        st
    } else {
        let w = worry_after(out[0], op, p, div) as u64;
        let tgt = route(t, w);
        route_all(st.update(tgt, st[tgt].push(w)), out.drop_first(), op, t, p, div)
    }
}

/// One monkey's turn: it inspects and throws everything it holds.
pub open spec fn turn_state(
    ss: Seq<(Operation, Test)>,
    st: (Seq<Seq<u64>>, Seq<int>),
    m: int,
    p: u64,
    div: u64,
) -> (Seq<Seq<u64>>, Seq<int>) {
    let out = st.0[m];
    let emptied = st.0.update(m, Seq::empty());
    let counted = st.1.update(m, st.1[m] + out.len());
    (route_all(emptied, out, ss[m].0, ss[m].1, p, div), counted)
}

/// The turns of the monkeys before `upto`, in order.
pub open spec fn round_state(
    ss: Seq<(Operation, Test)>,
    st: (Seq<Seq<u64>>, Seq<int>),
    upto: int,
    p: u64,
    div: u64,
) -> (Seq<Seq<u64>>, Seq<int>)
    decreases upto,
{
    if upto <= 0 {
        st
    } else {
        turn_state(ss, round_state(ss, st, upto - 1, p, div), upto - 1, p, div)
    }
}

/// The state after `r` whole rounds.
pub open spec fn run_state(
    ss: Seq<(Operation, Test)>,
    st: (Seq<Seq<u64>>, Seq<int>),
    r: int,
    p: u64,
    div: u64,
) -> (Seq<Seq<u64>>, Seq<int>)
    decreases r,
{
    if r <= 0 {
        st
    } else {
        round_state(ss, run_state(ss, st, r - 1, p, div), ss.len() as int, p, div)
    }
}

/// The product of every monkey's divisor, over the monkeys before `upto`.
pub open spec fn divisor_product(ss: Seq<(Operation, Test)>, upto: int) -> int
    decreases upto,
{
    if upto <= 0 {
        1
    } else {
        divisor_product(ss, upto - 1) * ss[upto - 1].1.divisible_by
    }
}

/// How many items all the queues hold together.
pub open spec fn items_total(st: Seq<Seq<u64>>) -> int
    decreases st.len(),
{
    if st.len() == 0 {
        0
    } else {
        items_total(st.drop_last()) + st.last().len()
    }
}

/// Whether the troop can run: positive divisors whose product fits, a
/// positive worry divider, targets inside the troop, transforms that cannot
/// overflow on reduced levels, and room in the counters.
pub open spec fn sim_safe(
    ss: Seq<(Operation, Test)>,
    st: (Seq<Seq<u64>>, Seq<int>),
    r: int,
    div: u64,
) -> bool {
    let p = divisor_product(ss, ss.len() as int);
    &&& div >= 1
    &&& 1 <= p <= u64::MAX
    &&& forall|m: int| 0 <= m < ss.len() ==> (#[trigger] ss[m].1).divisible_by >= 1
    &&& forall|m: int|
        0 <= m < ss.len() ==> (#[trigger] ss[m].1).if_true_send_to < ss.len()
            && ss[m].1.if_false_send_to < ss.len()
    &&& forall|m: int, v: u64|
        0 <= m < ss.len() && v < p ==> 0 <= #[trigger] op_val(ss[m].0, v) <= u64::MAX
    &&& st.0.len() == ss.len()
    &&& st.1.len() == ss.len()
    &&& forall|m: int|
        0 <= m < ss.len() ==> 0 <= #[trigger] st.1[m] && st.1[m] + r * items_total(st.0)
            <= u64::MAX
}

/// Routing every item grows the total by exactly the number routed and keeps
/// the queue count.
proof fn lemma_route_all_total(
    st: Seq<Seq<u64>>,
    out: Seq<u64>,
    op: Operation,
    t: Test,
    p: u64,
    div: u64,
)
    requires
        forall|v: u64| 0 <= #[trigger] route(t, v) < st.len(),
    ensures
        route_all(st, out, op, t, p, div).len() == st.len(),
        items_total(route_all(st, out, op, t, p, div)) == items_total(st) + out.len(),
    decreases out.len(),
{
    if out.len() > 0 {
        let w = worry_after(out[0], op, p, div) as u64;
        let tgt = route(t, w);
        let st2 = st.update(tgt, st[tgt].push(w));
        lemma_items_total_update(st, tgt, st[tgt].push(w));
        lemma_route_all_total(st2, out.drop_first(), op, t, p, div);
    }
}

/// Changing one queue changes the total by the change in that queue.
proof fn lemma_items_total_update(st: Seq<Seq<u64>>, i: int, q: Seq<u64>)
    requires
        0 <= i < st.len(),
    ensures
        items_total(st.update(i, q)) == items_total(st) - st[i].len() + q.len(),
    decreases st.len(),
{
    let st2 = st.update(i, q);
    if i == st.len() - 1 {
        assert(st2.drop_last() =~= st.drop_last());
    } else {
        assert(st2.drop_last() =~= st.drop_last().update(i, q));
        lemma_items_total_update(st.drop_last(), i, q);
    }
}

/// A turn keeps the total, touches only the acting monkey's counter, and
/// raises it by at most the old total.
proof fn lemma_turn_state(
    ss: Seq<(Operation, Test)>,
    st: (Seq<Seq<u64>>, Seq<int>),
    m: int,
    p: u64,
    div: u64,
)
    requires
        st.0.len() == ss.len(),
        st.1.len() == ss.len(),
        0 <= m < ss.len(),
        forall|k: int|
            0 <= k < ss.len() ==> (#[trigger] ss[k].1).if_true_send_to < ss.len()
                && ss[k].1.if_false_send_to < ss.len(),
    ensures
        turn_state(ss, st, m, p, div).0.len() == ss.len(),
        turn_state(ss, st, m, p, div).1.len() == ss.len(),
        items_total(turn_state(ss, st, m, p, div).0) == items_total(st.0),
        forall|k: int|
            0 <= k < ss.len() && k != m ==> #[trigger] turn_state(ss, st, m, p, div).1[k]
                == st.1[k],
        turn_state(ss, st, m, p, div).1[m] == st.1[m] + st.0[m].len(),
        st.0[m].len() <= items_total(st.0),
        0 <= items_total(st.0),
{
    let out = st.0[m];
    let emptied = st.0.update(m, Seq::empty());
    lemma_items_total_update(st.0, m, Seq::empty());
    assert(forall|v: u64| 0 <= #[trigger] route(ss[m].1, v) < emptied.len());
    lemma_route_all_total(emptied, out, ss[m].0, ss[m].1, p, div);
    lemma_items_total_nonneg(st.0);
    lemma_queue_le_total(st.0, m);
}

/// The total is never negative.
proof fn lemma_items_total_nonneg(st: Seq<Seq<u64>>)
    ensures
        items_total(st) >= 0,
    decreases st.len(),
{
    if st.len() > 0 {
        lemma_items_total_nonneg(st.drop_last());
    }
}

/// No queue holds more than the total.
proof fn lemma_queue_le_total(st: Seq<Seq<u64>>, m: int)
    requires
        0 <= m < st.len(),
    ensures
        st[m].len() <= items_total(st),
    decreases st.len(),
{
    lemma_items_total_nonneg(st.drop_last());
    if m < st.len() - 1 {
        lemma_queue_le_total(st.drop_last(), m);
    }
}

/// A partial round keeps the sizes and the total, and raises each counter by
/// at most the total.
proof fn lemma_round_state(
    ss: Seq<(Operation, Test)>,
    st: (Seq<Seq<u64>>, Seq<int>),
    upto: int,
    p: u64,
    div: u64,
)
    requires
        st.0.len() == ss.len(),
        st.1.len() == ss.len(),
        0 <= upto <= ss.len(),
        forall|k: int|
            0 <= k < ss.len() ==> (#[trigger] ss[k].1).if_true_send_to < ss.len()
                && ss[k].1.if_false_send_to < ss.len(),
    ensures
        round_state(ss, st, upto, p, div).0.len() == ss.len(),
        round_state(ss, st, upto, p, div).1.len() == ss.len(),
        items_total(round_state(ss, st, upto, p, div).0) == items_total(st.0),
        forall|k: int|
            0 <= k < ss.len() ==> st.1[k] <= #[trigger] round_state(ss, st, upto, p, div).1[k]
                <= st.1[k] + items_total(st.0),
    decreases upto,
{
    lemma_items_total_nonneg(st.0);
    if upto > 0 {
        lemma_round_state(ss, st, upto - 1, p, div);
        let prev = round_state(ss, st, upto - 1, p, div);
        lemma_turn_state(ss, prev, upto - 1, p, div);
        assert forall|k: int| 0 <= k < ss.len() implies st.1[k] <= #[trigger] round_state(
            ss,
            st,
            upto,
            p,
            div,
        ).1[k] <= st.1[k] + items_total(st.0) by {
            if k == upto - 1 {
                assert(prev.1[k] == st.1[k]) by {
                    lemma_round_untouched(ss, st, upto - 1, p, div, k);
                }
                assert(prev.0[k].len() <= items_total(prev.0));
            }
        }
    }
}

/// A monkey's counter is untouched until its own turn.
proof fn lemma_round_untouched(
    ss: Seq<(Operation, Test)>,
    st: (Seq<Seq<u64>>, Seq<int>),
    upto: int,
    p: u64,
    div: u64,
    k: int,
)
    requires
        st.0.len() == ss.len(),
        st.1.len() == ss.len(),
        0 <= upto <= ss.len(),
        upto <= k < ss.len(),
        forall|j: int|
            0 <= j < ss.len() ==> (#[trigger] ss[j].1).if_true_send_to < ss.len()
                && ss[j].1.if_false_send_to < ss.len(),
    ensures
        round_state(ss, st, upto, p, div).1[k] == st.1[k],
    decreases upto,
{
    if upto > 0 {
        lemma_round_untouched(ss, st, upto - 1, p, div, k);
        lemma_round_state(ss, st, upto - 1, p, div);
        lemma_turn_state(ss, round_state(ss, st, upto - 1, p, div), upto - 1, p, div);
    }
}

/// A full run keeps the sizes and the total, and raises each counter by at
/// most the total per round.
proof fn lemma_run_state(
    ss: Seq<(Operation, Test)>,
    st: (Seq<Seq<u64>>, Seq<int>),
    r: int,
    p: u64,
    div: u64,
)
    requires
        st.0.len() == ss.len(),
        st.1.len() == ss.len(),
        0 <= r,
        forall|k: int|
            0 <= k < ss.len() ==> (#[trigger] ss[k].1).if_true_send_to < ss.len()
                && ss[k].1.if_false_send_to < ss.len(),
    ensures
        run_state(ss, st, r, p, div).0.len() == ss.len(),
        run_state(ss, st, r, p, div).1.len() == ss.len(),
        items_total(run_state(ss, st, r, p, div).0) == items_total(st.0),
        forall|k: int|
            0 <= k < ss.len() ==> st.1[k] <= #[trigger] run_state(ss, st, r, p, div).1[k]
                <= st.1[k] + r * items_total(st.0),
    decreases r,
{
    lemma_items_total_nonneg(st.0);
    if r > 0 {
        lemma_run_state(ss, st, r - 1, p, div);
        let prev = run_state(ss, st, r - 1, p, div);
        lemma_round_state(ss, prev, ss.len() as int, p, div);
        assert forall|k: int| 0 <= k < ss.len() implies st.1[k] <= #[trigger] run_state(
            ss,
            st,
            r,
            p,
            div,
        ).1[k] <= st.1[k] + r * items_total(st.0) by {
            assert(prev.1[k] <= st.1[k] + (r - 1) * items_total(st.0));
            assert((r - 1) * items_total(st.0) + items_total(st.0) == r * items_total(st.0)) by (
            nonlinear_arith);
        }
    }
}

/// A product of divisors at least one is at least one.
proof fn lemma_divisor_product_pos(ss: Seq<(Operation, Test)>, upto: int)
    requires
        0 <= upto <= ss.len(),
        forall|m: int| 0 <= m < ss.len() ==> (#[trigger] ss[m].1).divisible_by >= 1,
    ensures
        1 <= divisor_product(ss, upto),
    decreases upto,
{
    if upto > 0 {
        lemma_divisor_product_pos(ss, upto - 1);
        lemma_mul_ge(divisor_product(ss, upto - 1), ss[upto - 1].1.divisible_by as int);
    }
}

/// Every prefix of the divisor product divides and stays within the whole.
proof fn lemma_divisor_product_bounds(ss: Seq<(Operation, Test)>, upto: int)
    requires
        0 <= upto <= ss.len(),
        forall|m: int| 0 <= m < ss.len() ==> (#[trigger] ss[m].1).divisible_by >= 1,
    ensures
        1 <= divisor_product(ss, upto) <= divisor_product(ss, ss.len() as int),
        divisor_product(ss, ss.len() as int) % divisor_product(ss, upto) == 0,
    decreases ss.len() - upto,
{
    lemma_divisor_product_pos(ss, upto);
    if upto < ss.len() {
        lemma_mul_ge(divisor_product(ss, upto), ss[upto].1.divisible_by as int);
        lemma_divisor_product_bounds(ss, upto + 1);
        let a = divisor_product(ss, upto);
        let b = divisor_product(ss, upto + 1);
        let n = divisor_product(ss, ss.len() as int);
        assert(b == a * ss[upto].1.divisible_by as int);
        assert(n % b == 0);
        assert(n % a == 0) by {
            let q = n / b;
            vstd::arithmetic::div_mod::lemma_fundamental_div_mod(n, b);
            assert(n == b * q + n % b);
            assert(n == a * (ss[upto].1.divisible_by as int * q)) by (nonlinear_arith)
                requires
                    n == b * q,
                    b == a * ss[upto].1.divisible_by as int,
            ;
            vstd::arithmetic::div_mod::lemma_mod_multiples_basic(
                ss[upto].1.divisible_by as int * q,
                a,
            );
        }
    } else {
        vstd::arithmetic::div_mod::lemma_mod_self_0(divisor_product(ss, upto));
    }
}

/// The fixed part of each monkey: its transform and its rule.
pub open spec fn statics_of(ms: Seq<Monkey>) -> Seq<(Operation, Test)> {
    ms.map_values(|m: Monkey| (m.operation, m.test))
}

/// The counters, as unbounded integers.
pub open spec fn counts_int(ms: Seq<Monkey>) -> Seq<int> {
    ms.map_values(|m: Monkey| m.inspected as int)
}

/// Copies a queue of worry levels.
fn copy_u64s(v: &Vec<u64>) -> (r: Vec<u64>)
    ensures
        r@ == v@,
{
    let mut r: Vec<u64> = Vec::new();
    let mut k: usize = 0;
    while k < v.len()
        invariant
            k <= v@.len(),
            r@ == v@.take(k as int),
        decreases v@.len() - k,
    {
        r.push(v[k]);
        assert(r@ =~= v@.take(k + 1));
        k = k + 1;
    }
    assert(v@.take(v@.len() as int) =~= v@);
    r
}

/// Runs the troop for the given number of rounds with the given worry
/// divider, reducing every level modulo the divisor product first.
#[verifier::rlimit(100)]
pub fn run_loop(iterations: usize, worry_level_divider: u64, monkeys: Vec<Monkey>) -> (r: Vec<
    Monkey,
>)
    requires
        sim_safe(
            statics_of(monkeys@),
            (monkey_items(monkeys@), counts_int(monkeys@)),
            iterations as int,
            worry_level_divider,
        ),
    ensures
        r@.len() == monkeys@.len(),
        statics_of(r@) == statics_of(monkeys@),
        forall|k: int| 0 <= k < r@.len() ==> (#[trigger] r@[k]).index == monkeys@[k].index,
        (monkey_items(r@), counts_int(r@)) == run_state(
            statics_of(monkeys@),
            (monkey_items(monkeys@), counts_int(monkeys@)),
            iterations as int,
            divisor_product(statics_of(monkeys@), monkeys@.len() as int) as u64,
            worry_level_divider,
        ),
{
    let ghost orig = monkeys@;
    let ghost ss = statics_of(monkeys@);
    let ghost init = (monkey_items(monkeys@), counts_int(monkeys@));
    let ghost pspec = divisor_product(ss, monkeys@.len() as int);
    let ghost total = items_total(init.0);
    let mut monkeys = monkeys;
    let n = monkeys.len();
    let mut product: u64 = 1;
    let mut pi: usize = 0;
    proof {
        lemma_items_total_nonneg(init.0);
    }
    while pi < n
        invariant
            pi <= n == monkeys@.len(),
            ss == statics_of(monkeys@),
            1 <= pspec <= u64::MAX,
            forall|m: int| 0 <= m < ss.len() ==> (#[trigger] ss[m].1).divisible_by >= 1,
            product == divisor_product(ss, pi as int),
            1 <= product,
        decreases n - pi,
    {
        proof {
            lemma_divisor_product_bounds(ss, pi + 1);
            assert(ss[pi as int].1 == monkeys@[pi as int].test);
        }
        let d = monkeys[pi].test.divisible_by;
        assert(product * d == divisor_product(ss, pi + 1));
        product = product * d;
        pi = pi + 1;
    }
    assert(product == pspec);
    let mut it: usize = 0;
    while it < iterations
        invariant
            it <= iterations,
            n == monkeys@.len(),
            ss == statics_of(monkeys@),
            product == pspec,
            sim_safe(ss, init, iterations as int, worry_level_divider),
            total == items_total(init.0),
            (monkey_items(monkeys@), counts_int(monkeys@)) == run_state(
                ss,
                init,
                it as int,
                product,
                worry_level_divider,
            ),
            forall|k: int|
                0 <= k < n ==> (#[trigger] monkeys@[k]).index == orig[k].index,
        decreases iterations - it,
    {
        proof {
            lemma_run_state(ss, init, it as int, product, worry_level_divider);
        }
        let ghost round_base = run_state(ss, init, it as int, product, worry_level_divider);
        let mut m: usize = 0;
        while m < n
            invariant
                m <= n == monkeys@.len(),
                ss == statics_of(monkeys@),
                product == pspec,
                sim_safe(ss, init, iterations as int, worry_level_divider),
                total == items_total(init.0),
                it < iterations,
                round_base == run_state(ss, init, it as int, product, worry_level_divider),
                round_base.0.len() == n && round_base.1.len() == n,
                items_total(round_base.0) == total,
                forall|k: int|
                    0 <= k < n ==> init.1[k] <= #[trigger] round_base.1[k] <= init.1[k] + it
                        * total,
                (monkey_items(monkeys@), counts_int(monkeys@)) == round_state(
                    ss,
                    round_base,
                    m as int,
                    product,
                    worry_level_divider,
                ),
                forall|k: int|
                    0 <= k < n ==> (#[trigger] monkeys@[k]).index == orig[k].index,
            decreases n - m,
        {
            let ghost st_now = round_state(ss, round_base, m as int, product, worry_level_divider);
            proof {
                lemma_round_state(ss, round_base, m as int, product, worry_level_divider);
                lemma_round_untouched(
                    ss,
                    round_base,
                    m as int,
                    product,
                    worry_level_divider,
                    m as int,
                );
                lemma_turn_state(ss, st_now, m as int, product, worry_level_divider);
                assert(st_now.1[m as int] == round_base.1[m as int]);
                assert(monkey_items(monkeys@)[m as int] == monkeys@[m as int].items@);
                assert(counts_int(monkeys@)[m as int] == monkeys@[m as int].inspected as int);
            }
            let operation = monkeys[m].operation;
            let test = monkeys[m].test;
            let index = monkeys[m].index;
            let count = monkeys[m].inspected;
            let out = copy_u64s(&monkeys[m].items);
            proof {
                lemma_queue_le_total(st_now.0, m as int);
                assert(st_now.1[m as int] + st_now.0[m as int].len() <= init.1[m as int] + it
                    * total + total);
                assert(it * total + total == (it + 1) * total) by (nonlinear_arith);
                assert((it + 1) * total <= iterations as int * total) by (nonlinear_arith)
                    requires
                        0 <= total,
                        it + 1 <= iterations,
                ;
            }
            let new_count = count + (out.len() as u64);
            let ghost before = monkeys@;
            monkeys[m] = Monkey {
                inspected: new_count,
                index,
                items: Vec::new(),
                operation,
                test,
            };
            proof {
                assert(statics_of(monkeys@) =~= ss);
                assert(monkey_items(monkeys@) =~= st_now.0.update(m as int, Seq::empty()));
                assert(counts_int(monkeys@) =~= st_now.1.update(
                    m as int,
                    st_now.1[m as int] + out@.len(),
                ));
            }
            let ghost emptied = st_now.0.update(m as int, Seq::empty());
            proof {
                assert(out@.skip(0) =~= out@);
            }
            let mut j: usize = 0;
            while j < out.len()
                invariant
                    j <= out@.len(),
                    n == monkeys@.len(),
                    ss == statics_of(monkeys@),
                    product == pspec,
                    sim_safe(ss, init, iterations as int, worry_level_divider),
                    m < n,
                    operation == ss[m as int].0,
                    test == ss[m as int].1,
                    counts_int(monkeys@) == st_now.1.update(
                        m as int,
                        st_now.1[m as int] + out@.len(),
                    ),
                    route_all(
                        monkey_items(monkeys@),
                        out@.skip(j as int),
                        operation,
                        test,
                        product,
                        worry_level_divider,
                    ) == route_all(
                        emptied,
                        out@,
                        operation,
                        test,
                        product,
                        worry_level_divider,
                    ),
                    forall|k: int|
                        0 <= k < n ==> (#[trigger] monkeys@[k]).index == orig[k].index,
                decreases out@.len() - j,
            {
                let ghost items_now = monkey_items(monkeys@);
                let ghost rest = out@.skip(j as int);
                proof {
                    assert(rest[0] == out@[j as int]);
                    assert(rest.drop_first() =~= out@.skip(j + 1));
                }
                let item = out[j];
                let reduced = item % product;
                proof {
                    vstd::arithmetic::div_mod::lemma_mod_bound(item as int, product as int);
                    assert(reduced < product);
                    assert(0 <= op_val(operation, reduced) <= u64::MAX);
                }
                let transformed = operation.apply(reduced);
                let worried = transformed / worry_level_divider;
                proof {
                    assert(worried == worry_after(item, operation, product, worry_level_divider));
                }
                let target = if worried % test.divisible_by == 0 {
                    test.if_true_send_to
                } else {
                    test.if_false_send_to
                };
                proof {
                    assert(target as int == route(test, worried));
                    assert(target < n);
                }
                let ghost before_push = monkeys@;
                let moved = worried;
                let mut q = copy_u64s(&monkeys[target].items);
                q.push(moved);
                let tm = Monkey {
                    inspected: monkeys[target].inspected,
                    index: monkeys[target].index,
                    items: q,
                    operation: monkeys[target].operation,
                    test: monkeys[target].test,
                };
                monkeys[target] = tm;
                proof {
                    assert(statics_of(monkeys@) =~= ss);
                    assert(counts_int(monkeys@) =~= counts_int(before_push));
                    assert(monkey_items(monkeys@) =~= items_now.update(
                        target as int,
                        items_now[target as int].push(moved),
                    ));
                    assert(forall|k: int|
                        0 <= k < n ==> (#[trigger] monkeys@[k]).index == before_push[k].index);
                }
                j = j + 1;
            }
            proof {
                assert(out@.skip(out@.len() as int) =~= Seq::<u64>::empty());
                assert((monkey_items(monkeys@), counts_int(monkeys@)) == turn_state(
                    ss,
                    st_now,
                    m as int,
                    product,
                    worry_level_divider,
                ));
            }
            m = m + 1;
        }
        it = it + 1;
    }
    monkeys
}

/// Whether `t` is the parsed troop in some order sorted by monkey number.
pub open spec fn valid_arrangement(
    blocks: Seq<(u32, Seq<u64>, Operation, Test)>,
    t: Seq<(u32, Seq<u64>, Operation, Test, u64)>,
) -> bool {
    sorted_by_index(t) && t.to_multiset() == blocks.map_values(
        |b: (u32, Seq<u64>, Operation, Test)| block_view(b),
    ).to_multiset()
}

/// The fixed parts of an arrangement.
pub open spec fn view_statics(vs: Seq<(u32, Seq<u64>, Operation, Test, u64)>) -> Seq<
    (Operation, Test),
> {
    vs.map_values(|v: (u32, Seq<u64>, Operation, Test, u64)| (v.2, v.3))
}

/// The starting state of an arrangement: its queues and its counters.
pub open spec fn view_state(vs: Seq<(u32, Seq<u64>, Operation, Test, u64)>) -> (
    Seq<Seq<u64>>,
    Seq<int>,
) {
    (
        vs.map_values(|v: (u32, Seq<u64>, Operation, Test, u64)| v.1),
        vs.map_values(|v: (u32, Seq<u64>, Operation, Test, u64)| v.4 as int),
    )
}

/// The answer read off a finished run: the product of the two largest
/// counters (the single counter alone, or one with no monkeys at all).
pub open spec fn spec_answer(
    vs: Seq<(u32, Seq<u64>, Operation, Test, u64)>,
    r: int,
    div: u64,
) -> int {
    let ss = view_statics(vs);
    let p = divisor_product(ss, ss.len() as int) as u64;
    let fc = run_state(ss, view_state(vs), r, p, div).1;
    let cu = Seq::new(fc.len(), |k: int| fc[k] as u64);
    let s = text::sorted_u64(cu);
    if s.len() == 0 {
        1
    } else if s.len() == 1 {
        s[0] as int
    } else {
        s[s.len() - 1] as int * s[s.len() - 2] as int
    }
}

/// Whether every sorted arrangement of the parsed troop can run for `r`
/// rounds with divider `div`, and its answer fits.
pub open spec fn challenge_safe(content: Seq<char>, r: int, div: u64) -> bool {
    match parse_result(content) {
        Ok(blocks) => forall|t: Seq<(u32, Seq<u64>, Operation, Test, u64)>|
            #[trigger] valid_arrangement(blocks, t) ==> (sim_safe(
                view_statics(t),
                view_state(t),
                r,
                div,
            ) && 0 <= spec_answer(t, r, div) <= u64::MAX),
        Err(_) => true,
    }
}

/// Runs the whole challenge: parse, simulate, and read off the answer.
fn run_challenge(content: &str, iterations: usize, div: u64) -> (r: Result<u64, Error>)
    requires
        challenge_safe(content@, iterations as int, div),
    ensures
        parse_result(content@) matches Err(e) ==> r == Err::<u64, Error>(Error::Parse(e as usize)),
        parse_result(content@) matches Ok(blocks) ==> (r matches Ok(ans) && exists|
            t: Seq<(u32, Seq<u64>, Operation, Test, u64)>,
        |
            #[trigger] valid_arrangement(blocks, t) && ans == spec_answer(
                t,
                iterations as int,
                div,
            )),
{
    let monkeys = match read_input(content) {
        Ok(v) => v,
        Err(e) => {
            return Err(e);
        },
    };
    let ghost blocks = parse_result(content@)->Ok_0;
    let ghost t = views(monkeys@);
    proof {
        assert(valid_arrangement(blocks, t));
        assert(view_statics(t) =~= statics_of(monkeys@));
        assert(view_state(t).0 =~= monkey_items(monkeys@));
        assert(view_state(t).1 =~= counts_int(monkeys@));
    }
    let finished = run_loop(iterations, div, monkeys);
    let ghost ss = view_statics(t);
    let ghost p = divisor_product(ss, ss.len() as int) as u64;
    let ghost fc = run_state(ss, view_state(t), iterations as int, p, div).1;
    proof {
        lemma_items_total_nonneg(view_state(t).0);
        lemma_run_state(ss, view_state(t), iterations as int, p, div);
    }
    let mut counts: Vec<u64> = Vec::new();
    let mut k: usize = 0;
    while k < finished.len()
        invariant
            k <= finished@.len() == fc.len(),
            counts_int(finished@) == fc,
            counts@.len() == k,
            forall|j: int| 0 <= j < k ==> counts@[j] as int == fc[j],
        decreases finished@.len() - k,
    {
        assert(counts_int(finished@)[k as int] == finished@[k as int].inspected as int);
        let c = finished[k].inspected;
        counts.push(c);
        k = k + 1;
    }
    let ghost cu = Seq::new(fc.len(), |q: int| fc[q] as u64);
    proof {
        assert(counts@ =~= cu);
    }
    text::sort_u64(&mut counts);
    let n = counts.len();
    let answer = if n == 0 {
        1u64
    } else if n == 1 {
        counts[n - 1]
    } else {
        proof {
            text::lemma_sorted_u64_ensures(cu);
            assert(counts@[n - 1] as int * counts@[n - 2] as int == spec_answer(
                t,
                iterations as int,
                div,
            ));
            assert(0 <= spec_answer(t, iterations as int, div) <= u64::MAX);
        }
        counts[n - 1] * counts[n - 2]
    };
    Ok(answer)
}

/// The product of the two largest inspection counts after twenty rounds with
/// the worry divider of three.
pub fn run_challenge1(content: &str) -> (r: Result<u64, Error>)
    requires
        challenge_safe(content@, 20, 3),
    ensures
        parse_result(content@) matches Err(e) ==> r == Err::<u64, Error>(Error::Parse(e as usize)),
        parse_result(content@) matches Ok(blocks) ==> (r matches Ok(ans) && exists|
            t: Seq<(u32, Seq<u64>, Operation, Test, u64)>,
        | #[trigger] valid_arrangement(blocks, t) && ans == spec_answer(t, 20, 3)),
{
    run_challenge(content, 20, 3)
}

/// The product of the two largest inspection counts after ten thousand rounds
/// with no worry division beyond the modulo reduction.
pub fn run_challenge2(content: &str) -> (r: Result<u64, Error>)
    requires
        challenge_safe(content@, 10000, 1),
    ensures
        parse_result(content@) matches Err(e) ==> r == Err::<u64, Error>(Error::Parse(e as usize)),
        parse_result(content@) matches Ok(blocks) ==> (r matches Ok(ans) && exists|
            t: Seq<(u32, Seq<u64>, Operation, Test, u64)>,
        | #[trigger] valid_arrangement(blocks, t) && ans == spec_answer(t, 10000, 1)),
{
    run_challenge(content, 10000, 1)
}

/// A product of factors at least one is at least either factor.
proof fn lemma_mul_ge(a: int, b: int)
    requires
        1 <= a,
        1 <= b,
    ensures
        a <= a * b,
        b <= a * b,
        1 <= a * b,
{
    assert(a <= a * b && b <= a * b && 1 <= a * b) by (nonlinear_arith)
        requires
            1 <= a,
            1 <= b,
    ;
}

} // verus!
