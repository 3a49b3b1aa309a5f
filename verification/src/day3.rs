//! Third puzzle: rucksacks of letter-named items, one per line, each line
//! split into two equal compartments.  The first answer sums the priorities
//! of the item common to both compartments of each rucksack; the second sums
//! the priorities of the one item common to each group of three rucksacks.

use vstd::prelude::*;

use crate::text;

verus! {

/// An item, named by a letter.
#[derive(Clone, Copy, Debug, Eq, Hash, PartialEq, Structural)]
pub struct Item {
    pub id: char,
}

pub open spec fn is_alpha(c: char) -> bool {
    ('a' <= c && c <= 'z') || ('A' <= c && c <= 'Z')
}

/// The priority of an item: 1 to 26 for the lower-case letters, 27 to 52 for
/// the upper-case ones.
pub open spec fn spec_priority(c: char) -> int {
    if 'a' <= c && c <= 'z' {
        c as int - 'a' as int + 1
    } else {
        c as int - 'A' as int + 27
    }
}

impl Item {
    /// The priority of this item.
    pub fn priority(&self) -> (r: u32)
        requires
            is_alpha(self.id),
        ensures
            r == spec_priority(self.id),
    {
        if self.id >= 'a' && self.id <= 'z' {
            (self.id as u32) - ('a' as u32) + 1
        } else {
            (self.id as u32) - ('A' as u32) + 27
        }
    }
}

/// A rucksack: two compartments of items.
#[derive(Clone, Debug)]
pub struct Rucksack {
    pub first_compartment: Vec<Item>,
    pub second_compartment: Vec<Item>,
}

/// The item a letter names.
pub open spec fn item_of(c: char) -> Item {
    Item { id: c }
}

/// The items of a line of letters.
pub open spec fn items_of(s: Seq<char>) -> Seq<Item> {
    s.map_values(|c: char| item_of(c))
}

/// What a line means: a rucksack whose first compartment is the first half of
/// its letters and whose second compartment is the rest.  A line that is
/// empty or holds anything but letters is rejected.
pub open spec fn spec_parse_rucksack(line: Seq<char>) -> Option<(Seq<Item>, Seq<Item>)> {
    if line.len() >= 1 && (forall|k: int| 0 <= k < line.len() ==> is_alpha(#[trigger] line[k])) {
        Some(
            (
                items_of(line.take(line.len() as int / 2)),
                items_of(line.skip(line.len() as int / 2)),
            ),
        )
    } else {
        None
    }
}

/// The item sequences of a sequence of item vectors.
pub open spec fn tail_views(tail: Seq<Vec<Item>>) -> Seq<Seq<Item>> {
    tail.map_values(|v: Vec<Item>| v@)
}

/// Whether `x` is in `head` and in every sequence of `tail`.
pub open spec fn is_common(x: Item, head: Seq<Item>, tail: Seq<Seq<Item>>) -> bool {
    head.contains(x) && forall|k: int| 0 <= k < tail.len() ==> (#[trigger] tail[k]).contains(x)
}

/// Whether exactly one item is common to `head` and all of `tail`.
pub open spec fn unique_common(head: Seq<Item>, tail: Seq<Seq<Item>>) -> bool {
    (exists|x: Item| is_common(x, head, tail)) && (forall|x: Item, y: Item|
        is_common(x, head, tail) && is_common(y, head, tail) ==> x == y)
}

/// The one item common to `head` and all of `tail` (meaningful when it is
/// unique).
pub open spec fn the_common(head: Seq<Item>, tail: Seq<Seq<Item>>) -> Item {
    choose|x: Item| is_common(x, head, tail)
}

/// A failed search for a common element.
#[derive(Clone, Debug)]
pub enum CommonElementError {
    /// Nothing is common to all the sequences.
    NoCommonItem,
    /// All these items are common to all the sequences.
    TooManyCommonItems(Vec<Item>),
}

/// A failure of a whole challenge.
#[derive(Clone, Debug)]
pub enum Error {
    /// The line at this index is not a line of letters (an empty input
    /// reports line zero).
    Parse(usize),
    /// This rucksack does not have exactly one item in both compartments.
    InvalidRuckSack(Rucksack, CommonElementError),
    /// This group of rucksacks does not have exactly one item in common.
    InvalidGroup(Vec<Rucksack>, CommonElementError),
}

/// Copies a vector of items.
fn copy_items(v: &Vec<Item>) -> (r: Vec<Item>)
    ensures
        r@ == v@,
{
    let mut r: Vec<Item> = Vec::new();
    let mut k: usize = 0;
    while k < v.len()
        invariant
            k <= v@.len(),
            r@ == v@.take(k as int),
        decreases v@.len() - k,
    {
        r.push(v[k]);
        assert(r@ =~= v@.take(k + 1));
        k = k + 1;
    }
    assert(v@.take(v@.len() as int) =~= v@);
    r
}

impl Rucksack {
    /// A copy of the rucksack, compartment by compartment.
    pub fn duplicate(&self) -> (r: Rucksack)
        ensures
            r.first_compartment@ == self.first_compartment@,
            r.second_compartment@ == self.second_compartment@,
    {
        Rucksack {
            first_compartment: copy_items(&self.first_compartment),
            second_compartment: copy_items(&self.second_compartment),
        }
    }
}

/// Checks whether `x` is among `v`.
fn contains_item(v: &Vec<Item>, x: Item) -> (r: bool)
    ensures
        r == v@.contains(x),
{
    let mut k: usize = 0;
    while k < v.len()
        invariant
            k <= v@.len(),
            forall|j: int| 0 <= j < k ==> v@[j] != x,
        decreases v@.len() - k,
    {
        if v[k].id == x.id {
            assert(v@[k as int] == x);
            return true;
        }
        k = k + 1;
    }
    false
}

/// Pushing extends membership by exactly the new item.
proof fn lemma_push_contains(s: Seq<Item>, x: Item)
    ensures
        forall|y: Item| #[trigger] s.push(x).contains(y) <==> (s.contains(y) || y == x),
{
    assert forall|y: Item| #[trigger] s.push(x).contains(y) implies (s.contains(y) || y == x) by {
        let j = choose|j: int| 0 <= j < s.push(x).len() && #[trigger] s.push(x)[j] == y;
        if j < s.len() {
            assert(s[j] == y);
        }
    }
    assert forall|y: Item| s.contains(y) || y == x implies #[trigger] s.push(x).contains(y) by {
        if y == x {
            assert(s.push(x)[s.len() as int] == y);
        } else {
            let j = choose|j: int| 0 <= j < s.len() && #[trigger] s[j] == y;
            assert(s.push(x)[j] == y);
        }
    }
}

/// A one-longer prefix holds exactly one more item.
proof fn lemma_take_succ_contains(s: Seq<Item>, i: int)
    requires
        0 <= i < s.len(),
    ensures
        forall|y: Item| #[trigger] s.take(i + 1).contains(y) <==> (s.take(i).contains(y) || y
            == s[i]),
{
    assert(s.take(i + 1) =~= s.take(i).push(s[i]));
    lemma_push_contains(s.take(i), s[i]);
}

/// The items common to `head` and every element of `tail`, each item once,
/// in the order of `head`.
pub fn intersect(head: &Vec<Item>, tail: &Vec<Vec<Item>>) -> (r: Vec<Item>)
    ensures
        forall|x: Item| r@.contains(x) <==> is_common(x, head@, tail_views(tail@)),
        forall|a: int, b: int| 0 <= a < b < r@.len() ==> r@[a] != r@[b],
{
    let ghost tv = tail_views(tail@);
    let mut r: Vec<Item> = Vec::new();
    let mut i: usize = 0;
    while i < head.len()
        invariant
            i <= head@.len(),
            forall|x: Item|
                r@.contains(x) <==> (head@.take(i as int).contains(x) && is_common(x, head@, tv)),
            forall|a: int, b: int| 0 <= a < b < r@.len() ==> r@[a] != r@[b],
        decreases head@.len() - i,
    {
        let x = head[i];
        let ghost r0 = r@;
        proof {
            lemma_take_succ_contains(head@, i as int);
        }
        if !contains_item(&r, x) {
            let mut all = true;
            let mut k: usize = 0;
            while k < tail.len()
                invariant
                    k <= tail@.len(),
                    all == forall|j: int| 0 <= j < k ==> (#[trigger] tv[j]).contains(x),
                decreases tail@.len() - k,
            {
                assert(tail@[k as int]@ == tv[k as int]);
                if !contains_item(&tail[k], x) {
                    all = false;
                    assert(!tv[k as int].contains(x));
                    k = tail.len();
                } else {
                    proof {
                        if all {
                            assert(forall|j: int|
                                0 <= j <= k ==> (#[trigger] tv[j]).contains(x));
                        }
                    }
                    k = k + 1;
                }
            }
            if all {
                r.push(x);
                proof {
                    assert(head@.contains(x)) by {
                        assert(head@[i as int] == x);
                    }
                    assert(is_common(x, head@, tv));
                    lemma_push_contains(r0, x);
                    assert(r@ == r0.push(x));
                    assert(forall|y: Item|
                        #[trigger] r@.contains(y) <==> (r0.contains(y) || y == x));
                }
            } else {
                proof {
                    assert(!is_common(x, head@, tv));
                    assert(forall|y: Item|
                        #[trigger] r@.contains(y) <==> (r0.contains(y) || (y == x && is_common(
                            y,
                            head@,
                            tv,
                        ))));
                }
            }
        } else {
            proof {
                assert(r0.contains(x));
                assert(is_common(x, head@, tv));
                assert(forall|y: Item|
                    #[trigger] r@.contains(y) <==> (r0.contains(y) || (y == x && is_common(
                        y,
                        head@,
                        tv,
                    ))));
            }
        }
        proof {
            assert forall|y: Item| #[trigger] r@.contains(y) <==> (head@.take(i + 1).contains(y)
                && is_common(y, head@, tv)) by {
                assert(head@.take(i + 1).contains(y) <==> (head@.take(i as int).contains(y) || y
                    == head@[i as int]));
            }
        }
        i = i + 1;
    }
    proof {
        assert(head@.take(head@.len() as int) =~= head@);
    }
    r
}

/// Finds the one item common to `head` and every element of `tail`: the item
/// when it is unique, and otherwise which way the search failed, with every
/// common item when there are several.
pub fn common_element(head: &Vec<Item>, tail: &Vec<Vec<Item>>) -> (r: Result<
    Item,
    CommonElementError,
>)
    ensures
        unique_common(head@, tail_views(tail@)) <==> r is Ok,
        r matches Ok(x) ==> is_common(x, head@, tail_views(tail@)) && x == the_common(
            head@,
            tail_views(tail@),
        ),
        r matches Err(e) ==> match e {
            CommonElementError::NoCommonItem => !exists|x: Item|
                is_common(x, head@, tail_views(tail@)),
            CommonElementError::TooManyCommonItems(v) => (exists|x: Item, y: Item|
                is_common(x, head@, tail_views(tail@)) && is_common(y, head@, tail_views(tail@))
                    && x != y) && (forall|x: Item|
                v@.contains(x) <==> is_common(x, head@, tail_views(tail@))),
        },
{
    let ghost tv = tail_views(tail@);
    let inter = intersect(head, tail);
    if inter.len() > 1 {
        assert(inter@[0] != inter@[1]);
        assert(is_common(inter@[0], head@, tv) && is_common(inter@[1], head@, tv)) by {
            assert(inter@.contains(inter@[0]));
            assert(inter@.contains(inter@[1]));
        }
        Err(CommonElementError::TooManyCommonItems(inter))
    } else if inter.len() == 0 {
        assert forall|x: Item| !is_common(x, head@, tv) by {
            if is_common(x, head@, tv) {
                assert(inter@.contains(x));
            }
        }
        Err(CommonElementError::NoCommonItem)
    } else {
        let x = inter[0];
        assert(is_common(x, head@, tv)) by {
            assert(inter@.contains(inter@[0]));
        }
        assert forall|y: Item| is_common(y, head@, tv) implies y == x by {
            assert(inter@.contains(y));
            let j = choose|j: int| 0 <= j < inter@.len() && inter@[j] == y;
            assert(j == 0);
        }
        assert(x == the_common(head@, tv));
        Ok(x)
    }
}

impl Rucksack {
    /// Reads a line of letters as a rucksack.
    pub fn parse(line: &Vec<char>) -> (r: Option<Rucksack>)
        ensures
            spec_parse_rucksack(line@) matches Some(p) ==> (r matches Some(rk)
                && rk.first_compartment@ == p.0 && rk.second_compartment@ == p.1),
            spec_parse_rucksack(line@) is None ==> r is None,
    {
        if line.len() == 0 {
            return None;
        }
        let mut items: Vec<Item> = Vec::new();
        let mut k: usize = 0;
        while k < line.len()
            invariant
                k <= line@.len(),
                items@.len() == k,
                forall|j: int| 0 <= j < k ==> is_alpha(#[trigger] line@[j]),
                forall|j: int| 0 <= j < k ==> items@[j] == (Item { id: line@[j] }),
            decreases line@.len() - k,
        {
            let c = line[k];
            let lower = c >= 'a' && c <= 'z';
            let upper = c >= 'A' && c <= 'Z';
            if !lower && !upper {
                return None;
            }
            items.push(Item { id: c });
            k = k + 1;
        }
        let half = line.len() / 2;
        let mut first: Vec<Item> = Vec::new();
        let mut second: Vec<Item> = Vec::new();
        let mut j: usize = 0;
        while j < half
            invariant
                j <= half <= items@.len(),
                first@ == items@.take(j as int),
            decreases half - j,
        {
            first.push(items[j]);
            assert(first@ =~= items@.take(j + 1));
            j = j + 1;
        }
        while j < items.len()
            invariant
                half <= j <= items@.len(),
                second@ == items@.subrange(half as int, j as int),
            decreases items@.len() - j,
        {
            second.push(items[j]);
            assert(second@ =~= items@.subrange(half as int, j + 1));
            j = j + 1;
        }
        proof {
            assert(spec_parse_rucksack(line@) is Some);
            let p = spec_parse_rucksack(line@)->Some_0;
            let h = line@.len() as int / 2;
            assert(0 <= h <= line@.len());
            assert(first@.len() == p.0.len());
            assert forall|q: int| 0 <= q < first@.len() implies first@[q] == p.0[q] by {
                assert(first@[q] == items@[q]);
                assert(items@[q] == item_of(line@[q]));
                assert(p.0[q] == item_of(line@.take(h)[q]));
                assert(line@.take(h)[q] == line@[q]);
            }
            assert(first@ =~= p.0);
            assert(second@.len() == p.1.len());
            assert forall|q: int| 0 <= q < second@.len() implies second@[q] == p.1[q] by {
                assert(second@[q] == items@[h + q]);
                assert(items@[h + q] == item_of(line@[h + q]));
                assert(p.1[q] == item_of(line@.skip(h)[q]));
                assert(line@.skip(h)[q] == line@[h + q]);
            }
            assert(second@ =~= p.1);
        }
        Some(Rucksack { first_compartment: first, second_compartment: second })
    }

    /// Finds the one item common to the two compartments, or how the search
    /// failed.
    pub fn common(&self) -> (r: Result<Item, Error>)
        ensures
            unique_common(self.first_compartment@, seq![self.second_compartment@]) <==> r is Ok,
            r matches Ok(x) ==> x == the_common(
                self.first_compartment@,
                seq![self.second_compartment@],
            ) && is_common(x, self.first_compartment@, seq![self.second_compartment@]),
            r matches Err(e) ==> (e matches Error::InvalidRuckSack(rk, ce)
                && rk.first_compartment@ == self.first_compartment@ && rk.second_compartment@
                == self.second_compartment@ && match ce {
                CommonElementError::NoCommonItem => !exists|x: Item|
                    is_common(x, self.first_compartment@, seq![self.second_compartment@]),
                CommonElementError::TooManyCommonItems(v) => !unique_common(
                    self.first_compartment@,
                    seq![self.second_compartment@],
                ) && (forall|x: Item|
                    v@.contains(x) <==> is_common(
                        x,
                        self.first_compartment@,
                        seq![self.second_compartment@],
                    )),
            }),
    {
        let mut tail: Vec<Vec<Item>> = Vec::new();
        tail.push(copy_items(&self.second_compartment));
        proof {
            assert(tail_views(tail@) =~= seq![self.second_compartment@]) by {
                assert(tail@[0]@ =~= self.second_compartment@);
            }
        }
        match common_element(&self.first_compartment, &tail) {
            Ok(x) => Ok(x),
            Err(ce) => Err(Error::InvalidRuckSack(self.duplicate(), ce)),
        }
    }

    /// All the items of the rucksack, first compartment first.
    pub fn elements(&self) -> (r: Vec<Item>)
        ensures
            r@ == self.first_compartment@ + self.second_compartment@,
    {
        let mut r: Vec<Item> = Vec::new();
        let mut k: usize = 0;
        while k < self.first_compartment.len()
            invariant
                k <= self.first_compartment@.len(),
                r@ == self.first_compartment@.take(k as int),
            decreases self.first_compartment@.len() - k,
        {
            r.push(self.first_compartment[k]);
            assert(r@ =~= self.first_compartment@.take(k + 1));
            k = k + 1;
        }
        k = 0;
        while k < self.second_compartment.len()
            invariant
                k <= self.second_compartment@.len(),
                r@ == self.first_compartment@.take(self.first_compartment@.len() as int)
                    + self.second_compartment@.take(k as int),
            decreases self.second_compartment@.len() - k,
        {
            r.push(self.second_compartment[k]);
            assert(r@ =~= self.first_compartment@.take(self.first_compartment@.len() as int)
                + self.second_compartment@.take(k + 1));
            k = k + 1;
        }
        proof {
            assert(self.first_compartment@.take(self.first_compartment@.len() as int)
                =~= self.first_compartment@);
            assert(self.second_compartment@.take(self.second_compartment@.len() as int)
                =~= self.second_compartment@);
        }
        r
    }
}

/// Reading every line as a rucksack, from line `i` on; the index of the first
/// line that is none otherwise.
pub open spec fn rucksacks_from(ls: Seq<Seq<char>>, i: int) -> Result<
    Seq<(Seq<Item>, Seq<Item>)>,
    int,
>
    decreases ls.len() - i,
{
    if i < 0 || i >= ls.len() {
        Ok(Seq::empty())
    } else {
        match spec_parse_rucksack(ls[i]) {
            Some(p) => match rucksacks_from(ls, i + 1) {
                Ok(rest) => Ok(seq![p] + rest),
                Err(e) => Err(e),
            },
            None => Err(i),
        }
    }
}

/// What the whole input means: at least one rucksack, one per line, or the
/// index of the offending line.
pub open spec fn parse_result(content: Seq<char>) -> Result<Seq<(Seq<Item>, Seq<Item>)>, int> {
    match rucksacks_from(text::spec_lines(content), 0) {
        Ok(rs) => if rs.len() > 0 {
            Ok(rs)
        } else {
            Err(0int)
        },
        Err(e) => Err(e),
    }
}

/// Reads the input into rucksacks, or reports the offending line.
pub fn read_input(content: &str) -> (r: Result<Vec<Rucksack>, Error>)
    ensures
        parse_result(content@) matches Ok(rs) ==> (r matches Ok(v) && v@.len() == rs.len() && (
        forall|k: int|
            0 <= k < rs.len() ==> (#[trigger] v@[k]).first_compartment@ == rs[k].0
                && v@[k].second_compartment@ == rs[k].1)),
        parse_result(content@) matches Err(e) ==> (r matches Err(er) && er == Error::Parse(
            e as usize,
        )),
{
    let ls = text::lines_of(content);
    let ghost lsv = ls.deep_view();
    let mut rucksacks: Vec<Rucksack> = Vec::new();
    let mut i: usize = 0;
    while i < ls.len()
        invariant
            i <= ls@.len(),
            rucksacks@.len() == i,
            rucksacks_from(lsv, 0) matches Ok(all) ==> (rucksacks_from(lsv, i as int) matches Ok(
                rest,
            ) && all.len() == i + rest.len() && (forall|k: int|
                0 <= k < i ==> all[k] == (
                    (#[trigger] rucksacks@[k]).first_compartment@,
                    rucksacks@[k].second_compartment@,
                )) && (forall|k: int| 0 <= k < rest.len() ==> all[i + k] == #[trigger] rest[k])),
            rucksacks_from(lsv, 0) is Err ==> rucksacks_from(lsv, i as int) is Err,
            rucksacks_from(lsv, i as int) matches Err(e) ==> rucksacks_from(lsv, 0) == Err::<
                Seq<(Seq<Item>, Seq<Item>)>,
                int,
            >(e),
        decreases ls@.len() - i,
    {
        let line = &ls[i];
        assert(line@ == lsv[i as int]);
        match Rucksack::parse(line) {
            Some(rk) => {
                rucksacks.push(rk);
                proof {
                    if let Ok(all) = rucksacks_from(lsv, 0) {
                        let rest_old = rucksacks_from(lsv, i as int)->Ok_0;
                        let rest_new = rucksacks_from(lsv, i + 1)->Ok_0;
                        let p = spec_parse_rucksack(lsv[i as int])->Some_0;
                        assert(rest_old == seq![p] + rest_new);
                        assert(all[i as int] == rest_old[0]);
                        assert(rest_old[0] == p);
                        assert(rucksacks@[i as int] == rk);
                        assert forall|k: int| 0 <= k < rest_new.len() implies all[i + 1 + k]
                            == #[trigger] rest_new[k] by {
                            assert(all[i + (k + 1)] == rest_old[k + 1]);
                            assert(rest_old[k + 1] == rest_new[k]);
                        }
                    }
                }
            },
            None => {
                return Err(Error::Parse(i));
            },
        }
        i = i + 1;
    }
    if rucksacks.len() == 0 {
        return Err(Error::Parse(0));
    }
    Ok(rucksacks)
}

/// Every item of a parsed rucksack is a letter.
pub proof fn lemma_parsed_alpha(ls: Seq<Seq<char>>, i: int)
    ensures
        rucksacks_from(ls, i) matches Ok(rs) ==> forall|k: int, x: Item|
            #![trigger rs[k].0.contains(x)]
            #![trigger rs[k].1.contains(x)]
            0 <= k < rs.len() && (rs[k].0.contains(x) || rs[k].1.contains(x)) ==> is_alpha(x.id),
    decreases ls.len() - i,
{
    if 0 <= i < ls.len() {
        lemma_parsed_alpha(ls, i + 1);
        if let Some(p) = spec_parse_rucksack(ls[i]) {
            if let Ok(rest) = rucksacks_from(ls, i + 1) {
                let rs = seq![p] + rest;
                assert forall|k: int, x: Item|
                    #![trigger rs[k].0.contains(x)]
                    #![trigger rs[k].1.contains(x)]
                    0 <= k < rs.len() && (rs[k].0.contains(x) || rs[k].1.contains(x)) implies
                    is_alpha(x.id) by {
                    if k == 0 {
                        let line = ls[i];
                        assert(rs[0] == p);
                        if p.0.contains(x) {
                            let j = choose|j: int| 0 <= j < p.0.len() && p.0[j] == x;
                            assert(x.id == line.take(line.len() as int / 2)[j]);
                            assert(line[j] == x.id);
                        } else {
                            let j = choose|j: int| 0 <= j < p.1.len() && p.1[j] == x;
                            assert(x.id == line.skip(line.len() as int / 2)[j]);
                            assert(line[line.len() as int / 2 + j] == x.id);
                        }
                    } else {
                        assert(rs[k] == rest[k - 1]);
                    }
                }
            }
        }
    }
}

/// The priorities of the item common to the compartments of each rucksack,
/// in order (meaningful when each is unique).
pub open spec fn sack_priorities(rs: Seq<(Seq<Item>, Seq<Item>)>) -> Seq<u64> {
    Seq::new(rs.len(), |k: int| spec_priority(the_common(rs[k].0, seq![rs[k].1]).id) as u64)
}

/// The first rucksack from `i` on without a unique common item, if any.
pub open spec fn first_bad_sack(rs: Seq<(Seq<Item>, Seq<Item>)>, i: int) -> Option<int>
    decreases rs.len() - i,
{
    if i < 0 || i >= rs.len() {
        None
    } else if !unique_common(rs[i].0, seq![rs[i].1]) {
        Some(i)
    } else {
        first_bad_sack(rs, i + 1)
    }
}

/// Whether the priority total of the first challenge fits in a `u32`.
pub open spec fn total_fits(content: Seq<char>) -> bool {
    match parse_result(content) {
        Ok(rs) => first_bad_sack(rs, 0) is None ==> text::sum_u64(sack_priorities(rs))
            <= u32::MAX,
        Err(_) => true,
    }
}

/// Sums the priorities of the common items of the rucksacks.
pub fn run_challenge1(content: &str) -> (r: Result<u32, Error>)
    requires
        total_fits(content@),
    ensures
        parse_result(content@) matches Err(e) ==> (r matches Err(er) && er == Error::Parse(
            e as usize,
        )),
        parse_result(content@) matches Ok(rs) ==> (first_bad_sack(rs, 0) is None ==> r == Ok::<
            u32,
            Error,
        >(text::sum_u64(sack_priorities(rs)) as u32)),
        parse_result(content@) matches Ok(rs) ==> (first_bad_sack(rs, 0) matches Some(b) ==> (
        r matches Err(er) && (er matches Error::InvalidRuckSack(rk, _)
            && rk.first_compartment@ == rs[b].0 && rk.second_compartment@ == rs[b].1))),
{
    let rucksacks = match read_input(content) {
        Ok(v) => v,
        Err(e) => {
            return Err(e);
        },
    };
    let ghost rs = parse_result(content@)->Ok_0;
    proof {
        lemma_parsed_alpha(text::spec_lines(content@), 0);
    }
    let mut commons: Vec<Item> = Vec::new();
    let mut i: usize = 0;
    while i < rucksacks.len()
        invariant
            i <= rucksacks@.len() == rs.len(),
            commons@.len() == i,
            first_bad_sack(rs, 0) == first_bad_sack(rs, i as int),
            forall|k: int|
                0 <= k < i ==> #[trigger] commons@[k] == the_common(rs[k].0, seq![rs[k].1])
                    && is_common(commons@[k], rs[k].0, seq![rs[k].1]),
        decreases rucksacks@.len() - i,
    {
        let sack = &rucksacks[i];
        assert(sack.first_compartment@ == rs[i as int].0);
        match sack.common() {
            Ok(item) => {
                commons.push(item);
            },
            Err(e) => {
                assert(first_bad_sack(rs, i as int) == Some(i as int));
                return Err(e);
            },
        }
        i = i + 1;
    }
    let ghost prios = sack_priorities(rs);
    proof {
        text::lemma_sum_u64_prefix_bounds(prios, prios.len() as int);
        assert(prios.take(prios.len() as int) =~= prios);
    }
    let mut acc: u32 = 0;
    let mut k: usize = 0;
    while k < commons.len()
        invariant
            k <= commons@.len() == rs.len(),
            first_bad_sack(rs, 0) is None,
            text::sum_u64(prios) <= u32::MAX,
            forall|j: int|
                0 <= j < rs.len() ==> #[trigger] commons@[j] == the_common(rs[j].0, seq![rs[j].1])
                    && is_common(commons@[j], rs[j].0, seq![rs[j].1]),
            acc == text::sum_u64(prios.take(k as int)),
        decreases commons@.len() - k,
    {
        let item = commons[k];
        assert(is_alpha(item.id)) by {
            assert(rs[k as int].0.contains(item));
        }
        let p = item.priority();
        proof {
            assert(prios.take(k + 1).drop_last() =~= prios.take(k as int));
            assert(prios.take(k + 1).last() == prios[k as int]);
            assert(text::sum_u64(prios.take(k + 1)) <= u32::MAX);
        }
        acc = acc + p;
        k = k + 1;
    }
    Ok(acc)
}

/// All the items of the rucksack at `k`, first compartment first.
pub open spec fn sack_elements(rs: Seq<(Seq<Item>, Seq<Item>)>, k: int) -> Seq<Item> {
    rs[k].0 + rs[k].1
}

/// The items of the two other members of group `g`.
pub open spec fn group_tail(rs: Seq<(Seq<Item>, Seq<Item>)>, g: int) -> Seq<Seq<Item>> {
    seq![sack_elements(rs, 3 * g + 1), sack_elements(rs, 3 * g + 2)]
}

/// The first group of three from `g` on without a unique common item, if any
/// (a final remainder of fewer than three rucksacks does not count).
pub open spec fn first_bad_group(rs: Seq<(Seq<Item>, Seq<Item>)>, g: int) -> Option<int>
    decreases rs.len() / 3 - g,
{
    if g < 0 || g >= rs.len() / 3 {
        None
    } else if !unique_common(sack_elements(rs, 3 * g), group_tail(rs, g)) {
        Some(g)
    } else {
        first_bad_group(rs, g + 1)
    }
}

/// The priorities of the item common to each group of three, in order.
pub open spec fn group_priorities(rs: Seq<(Seq<Item>, Seq<Item>)>) -> Seq<u64> {
    Seq::new(
        rs.len() / 3,
        |g: int| spec_priority(the_common(sack_elements(rs, 3 * g), group_tail(rs, g)).id) as u64,
    )
}

/// Whether the priority total of the second challenge fits in a `u32`.
pub open spec fn group_total_fits(content: Seq<char>) -> bool {
    match parse_result(content) {
        Ok(rs) => first_bad_group(rs, 0) is None ==> text::sum_u64(group_priorities(rs))
            <= u32::MAX,
        Err(_) => true,
    }
}

/// Sums the priorities of the items common to each group of three rucksacks.
pub fn run_challenge2(content: &str) -> (r: Result<u32, Error>)
    requires
        group_total_fits(content@),
    ensures
        parse_result(content@) matches Err(e) ==> (r matches Err(er) && er == Error::Parse(
            e as usize,
        )),
        parse_result(content@) matches Ok(rs) ==> (first_bad_group(rs, 0) is None ==> r == Ok::<
            u32,
            Error,
        >(text::sum_u64(group_priorities(rs)) as u32)),
        parse_result(content@) matches Ok(rs) ==> (first_bad_group(rs, 0) matches Some(b) ==> (
        r matches Err(er) && (er matches Error::InvalidGroup(grp, _) && grp@.len() == 3 && (
        forall|j: int|
            0 <= j < 3 ==> (#[trigger] grp@[j]).first_compartment@ == rs[3 * b + j].0
                && grp@[j].second_compartment@ == rs[3 * b + j].1)))),
{
    let rucksacks = match read_input(content) {
        Ok(v) => v,
        Err(e) => {
            return Err(e);
        },
    };
    let ghost rs = parse_result(content@)->Ok_0;
    proof {
        lemma_parsed_alpha(text::spec_lines(content@), 0);
    }
    let ngroups = rucksacks.len() / 3;
    let mut commons: Vec<Item> = Vec::new();
    let mut g: usize = 0;
    while g < ngroups
        invariant
            g <= ngroups == rucksacks@.len() / 3,
            rucksacks@.len() == rs.len(),
            commons@.len() == g,
            first_bad_group(rs, 0) == first_bad_group(rs, g as int),
            forall|k: int|
                0 <= k < g ==> #[trigger] commons@[k] == the_common(
                    sack_elements(rs, 3 * k),
                    group_tail(rs, k),
                ) && is_common(commons@[k], sack_elements(rs, 3 * k), group_tail(rs, k)),
        decreases ngroups - g,
    {
        let head = rucksacks[3 * g].elements();
        let mut tail: Vec<Vec<Item>> = Vec::new();
        tail.push(rucksacks[3 * g + 1].elements());
        tail.push(rucksacks[3 * g + 2].elements());
        proof {
            assert(head@ == sack_elements(rs, 3 * g));
            assert(tail_views(tail@) =~= group_tail(rs, g as int)) by {
                assert(tail@[0]@ == sack_elements(rs, 3 * g + 1));
                assert(tail@[1]@ == sack_elements(rs, 3 * g + 2));
            }
        }
        match common_element(&head, &tail) {
            Ok(item) => {
                commons.push(item);
            },
            Err(ce) => {
                assert(first_bad_group(rs, g as int) == Some(g as int));
                let mut grp: Vec<Rucksack> = Vec::new();
                grp.push(rucksacks[3 * g].duplicate());
                grp.push(rucksacks[3 * g + 1].duplicate());
                grp.push(rucksacks[3 * g + 2].duplicate());
                return Err(Error::InvalidGroup(grp, ce));
            },
        }
        g = g + 1;
    }
    let ghost prios = group_priorities(rs);
    proof {
        text::lemma_sum_u64_prefix_bounds(prios, prios.len() as int);
        assert(prios.take(prios.len() as int) =~= prios);
    }
    let mut acc: u32 = 0;
    let mut k: usize = 0;
    while k < commons.len()
        invariant
            k <= commons@.len() == rs.len() / 3,
            first_bad_group(rs, 0) is None,
            text::sum_u64(prios) <= u32::MAX,
            forall|j: int|
                0 <= j < rs.len() / 3 ==> #[trigger] commons@[j] == the_common(
                    sack_elements(rs, 3 * j),
                    group_tail(rs, j),
                ) && is_common(commons@[j], sack_elements(rs, 3 * j), group_tail(rs, j)),
            acc == text::sum_u64(prios.take(k as int)),
        decreases commons@.len() - k,
    {
        let item = commons[k];
        assert(is_alpha(item.id)) by {
            assert(sack_elements(rs, 3 * (k as int)).contains(item));
            let j = choose|j: int|
                0 <= j < sack_elements(rs, 3 * (k as int)).len() && #[trigger] sack_elements(
                    rs,
                    3 * (k as int),
                )[j] == item;
            if j < rs[3 * (k as int)].0.len() {
                assert(rs[3 * (k as int)].0.contains(item)) by {
                    assert(rs[3 * (k as int)].0[j] == item);
                }
            } else {
                assert(rs[3 * (k as int)].1.contains(item)) by {
                    assert(rs[3 * (k as int)].1[j - rs[3 * (k as int)].0.len()] == item);
                }
            }
        }
        let p = item.priority();
        proof {
            assert(prios.take(k + 1).drop_last() =~= prios.take(k as int));
            assert(prios.take(k + 1).last() == prios[k as int]);
            assert(text::sum_u64(prios.take(k + 1)) <= u32::MAX);
        }
        acc = acc + p;
        k = k + 1;
    }
    Ok(acc)
}

} // verus!
