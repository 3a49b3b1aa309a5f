//! Line-oriented text utilities shared by the solvers: turning input text into
//! characters, splitting it into lines, and reading unsigned decimal numbers.

use vstd::prelude::*;

verus! {

/// The characters of `s`, collected into a vector.
pub fn chars_of(s: &str) -> (r: Vec<char>)
    ensures
        r@ == s@,
{
    let n = s.unicode_len();
    let mut r: Vec<char> = Vec::new();
    let mut i: usize = 0;
    while i < n
        invariant
            n == s@.len(),
            i <= n,
            r@ == s@.take(i as int),
        decreases n - i,
    {
        r.push(s.get_char(i));
        i = i + 1;
        assert(r@ =~= s@.take(i as int));
    }
    assert(s@.take(n as int) =~= s@);
    r
}

/// A carriage return just before the line break is not part of the line.
pub open spec fn strip_cr(line: Seq<char>) -> Seq<char> {
    if line.len() > 0 && line[line.len() - 1] == '\r' {
        line.drop_last()
    } else {
        line
    }
}

/// The lines of `s`, accumulating the characters of the current line in `cur`:
/// a line ends at each '\n', and a final line without a terminator still
/// counts, while a trailing terminator adds no empty line.
pub open spec fn lines_from(s: Seq<char>, cur: Seq<char>) -> Seq<Seq<char>>
    decreases s.len(),
{
    if s.len() == 0 {
        if cur.len() == 0 {
            Seq::empty()
        } else {
            seq![strip_cr(cur)]
        }
    } else if s[0] == '\n' {
        seq![strip_cr(cur)] + lines_from(s.drop_first(), Seq::empty())
    } else {
        lines_from(s.drop_first(), cur.push(s[0]))
    }
}

/// The lines of `s`, split at '\n', with a '\r' before each break removed and
/// no empty final line after a trailing break.
pub open spec fn spec_lines(s: Seq<char>) -> Seq<Seq<char>> {
    lines_from(s, Seq::empty())
}

/// Splits `v` into its lines.
pub fn split_lines(v: &Vec<char>) -> (r: Vec<Vec<char>>)
    ensures
        r.deep_view() == spec_lines(v@),
{
    let mut r: Vec<Vec<char>> = Vec::new();
    let mut cur: Vec<char> = Vec::new();
    let mut i: usize = 0;
    proof {
        assert(v@.subrange(0, v@.len() as int) =~= v@);
        assert(r.deep_view() =~= Seq::<Seq<char>>::empty());
        assert(Seq::<Seq<char>>::empty() + lines_from(v@, Seq::empty()) =~= lines_from(
            v@,
            Seq::empty(),
        ));
    }
    while i < v.len()
        invariant
            i <= v.len(),
            spec_lines(v@) == r.deep_view() + lines_from(v@.subrange(i as int, v@.len() as int), cur@),
        decreases v.len() - i,
    {
        let ghost rest = v@.subrange(i as int, v@.len() as int);
        assert(rest[0] == v@[i as int]);
        assert(rest.drop_first() =~= v@.subrange(i + 1, v@.len() as int));
        let c = v[i];
        if c == '\n' {
            let line = finish_line(cur);
            cur = Vec::new();
            let ghost old_r = r.deep_view();
            assert(line.deep_view() =~= line@);
            r.push(line);
            assert(r.deep_view() =~= old_r.push(line@));
            assert(old_r.push(line@) =~= old_r + seq![line@]);
        } else {
            cur.push(c);
        }
        i = i + 1;
    }
    assert(v@.subrange(v@.len() as int, v@.len() as int) =~= Seq::<char>::empty());
    if cur.len() > 0 {
        let line = finish_line(cur);
        let ghost old_r = r.deep_view();
        assert(line.deep_view() =~= line@);
        r.push(line);
        assert(r.deep_view() =~= old_r.push(line@));
        assert(old_r.push(line@) =~= old_r + seq![line@]);
    }
    assert(r.deep_view() =~= spec_lines(v@));
    r
}

/// Removes a trailing carriage return from a finished line.
fn finish_line(line: Vec<char>) -> (r: Vec<char>)
    ensures
        r@ == strip_cr(line@),
{
    let mut line = line;
    if line.len() > 0 && line[line.len() - 1] == '\r' {
        let _ = line.pop();
    }
    line
}

/// The lines of the text `s`, as vectors of characters.
pub fn lines_of(s: &str) -> (r: Vec<Vec<char>>)
    ensures
        r.deep_view() == spec_lines(s@),
{
    let v = chars_of(s);
    split_lines(&v)
}

pub open spec fn is_digit_char(c: char) -> bool {
    '0' <= c && c <= '9'
}

pub open spec fn digit_of(c: char) -> nat {
    ((c as int) - ('0' as int)) as nat
}

pub open spec fn all_digits(s: Seq<char>) -> bool {
    forall|i: int| 0 <= i < s.len() ==> is_digit_char(#[trigger] s[i])
}

/// The value of a string of decimal digits, most significant first.
pub open spec fn digits_val(s: Seq<char>) -> nat
    decreases s.len(),
{
    if s.len() == 0 {
        0
    } else {
        digits_val(s.drop_last()) * 10 + digit_of(s.last())
    }
}

/// A longer digit string never has a smaller value.
pub proof fn lemma_digits_val_prefix(s: Seq<char>, i: int)
    requires
        0 <= i <= s.len(),
    ensures
        digits_val(s.take(i)) <= digits_val(s),
    decreases s.len() - i,
{
    if i < s.len() {
        assert(s.take(i + 1).drop_last() =~= s.take(i));
        assert(s.take(i + 1).last() == s[i]);
        assert(digits_val(s.take(i)) <= digits_val(s.take(i + 1)));
        lemma_digits_val_prefix(s, i + 1);
    } else {
        assert(s.take(i) =~= s);
    }
}

/// Whether a whole line is a decimal number that fits in a `u64`.
pub open spec fn parses_u64(s: Seq<char>) -> bool {
    s.len() > 0 && all_digits(s) && digits_val(s) <= u64::MAX
}

/// Reads a whole line of decimal digits as a `u64`; any other line, and a
/// value too large for a `u64`, is rejected.
pub fn parse_u64(line: &Vec<char>) -> (r: Option<u64>)
    ensures
        r is Some <==> parses_u64(line@),
        parses_u64(line@) ==> r == Some(digits_val(line@) as u64),
{
    assert(line@.subrange(0, line@.len() as int) =~= line@);
    parse_u64_range(line, 0, line.len())
}

/// Reads `line[lo..hi]` as a decimal `u64`, rejecting anything else.
pub fn parse_u64_range(line: &Vec<char>, lo: usize, hi: usize) -> (r: Option<u64>)
    requires
        lo <= hi <= line@.len(),
    ensures
        r is Some <==> parses_u64(line@.subrange(lo as int, hi as int)),
        parses_u64(line@.subrange(lo as int, hi as int)) ==> r == Some(
            digits_val(line@.subrange(lo as int, hi as int)) as u64,
        ),
{
    let ghost s = line@.subrange(lo as int, hi as int);
    if lo == hi {
        return None;
    }
    let mut acc: u64 = 0;
    let mut i: usize = lo;
    while i < hi
        invariant
            lo <= i <= hi <= line@.len(),
            s == line@.subrange(lo as int, hi as int),
            all_digits(s.take(i - lo)),
            acc == digits_val(s.take(i - lo)),
        decreases hi - i,
    {
        let c = line[i];
        assert(s[i - lo] == c);
        if c < '0' || c > '9' {
            assert(!all_digits(s));
            return None;
        }
        let d: u64 = (c as u32 as u64) - 48;
        assert(d == digit_of(c)) by {
            assert(c as u32 >= '0' as u32 && c as u32 <= '9' as u32);
        }
        assert(s.take(i - lo + 1).drop_last() =~= s.take(i - lo));
        assert(s.take(i - lo + 1).last() == c);
        if acc > (u64::MAX - d) / 10 {
            assert(acc * 10 + d > u64::MAX) by (nonlinear_arith)
                requires
                    acc > (u64::MAX - d) / 10,
                    d <= 9,
            ;
            proof {
                lemma_digits_val_prefix(s, i - lo + 1);
            }
            return None;
        }
        assert(acc * 10 + d <= u64::MAX) by (nonlinear_arith)
            requires
                acc <= (u64::MAX - d) / 10,
                d <= 9,
        ;
        acc = acc * 10 + d;
        i = i + 1;
    }
    assert(s.take(hi - lo) =~= s);
    Some(acc)
}

/// Relies on `String: FromIterator<char>`: collecting characters yields the
/// string of exactly those characters in order.
#[verifier::external_body]
pub fn chars_to_string(v: &Vec<char>) -> (s: String)
    ensures
        s@ == v@,
{
    v.iter().collect()
}

/// The offset of the first occurrence of `c` in `s` (the length of `s` when
/// `c` does not occur).
pub open spec fn spec_find(s: Seq<char>, c: char) -> int
    decreases s.len(),
{
    if s.len() == 0 {
        0
    } else if s[0] == c {
        0
    } else {
        1 + spec_find(s.drop_first(), c)
    }
}

/// Where the first occurrence of `c` in `s` stands: within bounds, on `c`,
/// and after no earlier `c`.
pub proof fn lemma_spec_find(s: Seq<char>, c: char)
    ensures
        0 <= spec_find(s, c) <= s.len(),
        spec_find(s, c) < s.len() ==> s[spec_find(s, c)] == c,
        forall|j: int| 0 <= j < spec_find(s, c) ==> s[j] != c,
    decreases s.len(),
{
    if s.len() > 0 && s[0] != c {
        lemma_spec_find(s.drop_first(), c);
        assert(forall|j: int| 0 < j < spec_find(s, c) ==> s[j] == s.drop_first()[j - 1]);
    }
}

/// Finds the first occurrence of `c` in `line` at or after `from`, returning
/// `from` plus its offset in the rest (the line length when `c` is absent).
pub fn find_from(line: &Vec<char>, from: usize, c: char) -> (r: usize)
    requires
        from <= line@.len(),
    ensures
        r == from + spec_find(line@.skip(from as int), c),
        from <= r <= line@.len(),
        r < line@.len() ==> line@[r as int] == c,
        forall|j: int| from <= j < r ==> line@[j] != c,
{
    let ghost s = line@.skip(from as int);
    proof {
        lemma_spec_find(s, c);
    }
    let mut i: usize = from;
    while i < line.len()
        invariant
            from <= i <= line@.len(),
            forall|j: int| from <= j < i ==> line@[j] != c,
        decreases line@.len() - i,
    {
        if line[i] == c {
            proof {
                assert(s[i - from] == c);
                assert(forall|j: int| 0 <= j < i - from ==> s[j] == line@[j + from] && s[j] != c);
                if spec_find(s, c) < i - from {
                    assert(s[spec_find(s, c)] == c);
                }
                if spec_find(s, c) > i - from {
                    assert(s[i - from] != c);
                }
            }
            return i;
        }
        i = i + 1;
    }
    proof {
        assert(forall|j: int| 0 <= j < s.len() ==> s[j] == line@[j + from] && s[j] != c);
        if spec_find(s, c) < s.len() {
            assert(s[spec_find(s, c)] == c);
        }
    }
    i
}

/// Whether a whole segment is a decimal number that fits in a `u32`.
pub open spec fn parses_u32(s: Seq<char>) -> bool {
    s.len() > 0 && all_digits(s) && digits_val(s) <= u32::MAX
}

/// Reads `line[lo..hi]` as a decimal `u32`, rejecting anything else.
pub fn parse_u32_range(line: &Vec<char>, lo: usize, hi: usize) -> (r: Option<u32>)
    requires
        lo <= hi <= line@.len(),
    ensures
        r is Some <==> parses_u32(line@.subrange(lo as int, hi as int)),
        parses_u32(line@.subrange(lo as int, hi as int)) ==> r == Some(
            digits_val(line@.subrange(lo as int, hi as int)) as u32,
        ),
{
    match parse_u64_range(line, lo, hi) {
        Some(v) => if v <= u32::MAX as u64 {
            Some(v as u32)
        } else {
            None
        },
        None => None,
    }
}

/// Where the run of blanks starting at `i` ends.
pub open spec fn spaces_end(s: Seq<char>, i: int) -> int
    decreases s.len() - i,
{
    if i < 0 || i >= s.len() {
        i
    } else if s[i] == ' ' || s[i] == '\t' {
        spaces_end(s, i + 1)
    } else {
        i
    }
}

/// A run of blanks ends at or after where it starts, within the line.
pub proof fn lemma_spaces_end(s: Seq<char>, i: int)
    requires
        0 <= i <= s.len(),
    ensures
        i <= spaces_end(s, i) <= s.len(),
    decreases s.len() - i,
{
    if i < s.len() && (s[i] == ' ' || s[i] == '\t') {
        lemma_spaces_end(s, i + 1);
    }
}

/// Finds where the run of blanks starting at `i` ends.
pub fn skip_spaces(line: &Vec<char>, i: usize) -> (r: usize)
    requires
        i <= line@.len(),
    ensures
        r == spaces_end(line@, i as int),
        i <= r <= line@.len(),
{
    let mut j: usize = i;
    while j < line.len() && (line[j] == ' ' || line[j] == '\t')
        invariant
            i <= j <= line@.len(),
            spaces_end(line@, i as int) == spaces_end(line@, j as int),
        decreases line@.len() - j,
    {
        j = j + 1;
    }
    j
}

/// The end of the run of digits starting at `i`.
pub open spec fn digits_end(s: Seq<char>, i: int) -> int
    decreases s.len() - i,
{
    if i < 0 || i >= s.len() {
        i
    } else if is_digit_char(s[i]) {
        digits_end(s, i + 1)
    } else {
        i
    }
}

/// A run of digits ends at or after where it starts, within the line.
pub proof fn lemma_digits_end(s: Seq<char>, i: int)
    requires
        0 <= i <= s.len(),
    ensures
        i <= digits_end(s, i) <= s.len(),
    decreases s.len() - i,
{
    if i < s.len() && is_digit_char(s[i]) {
        lemma_digits_end(s, i + 1);
    }
}

/// Finds the end of the digit run starting at `i`.
pub fn scan_digits(line: &Vec<char>, i: usize) -> (r: usize)
    requires
        i <= line@.len(),
    ensures
        r == digits_end(line@, i as int),
        i <= r <= line@.len(),
{
    let mut j: usize = i;
    while j < line.len() && line[j] >= '0' && line[j] <= '9'
        invariant
            i <= j <= line@.len(),
            digits_end(line@, i as int) == digits_end(line@, j as int),
        decreases line@.len() - j,
    {
        j = j + 1;
    }
    j
}

/// A maximal digit run of positive length is a number, short of the size
/// check.
pub proof fn lemma_digit_run(s: Seq<char>, lo: int, hi: int)
    requires
        0 <= lo <= hi <= s.len(),
        hi == digits_end(s, lo),
    ensures
        hi > lo ==> (s.subrange(lo, hi).len() > 0 && all_digits(s.subrange(lo, hi))),
    decreases hi - lo,
{
    if hi > lo {
        assert(is_digit_char(s[lo]));
        lemma_digit_run(s, lo + 1, hi);
        assert forall|j: int| 0 <= j < hi - lo implies is_digit_char(
            #[trigger] s.subrange(lo, hi)[j],
        ) by {
            if j > 0 {
                assert(s.subrange(lo + 1, hi)[j - 1] == s.subrange(lo, hi)[j]);
            }
        }
    }
}

/// Checks whether `word` stands at `at` in the line.
pub fn word_here(line: &Vec<char>, at: usize, word: &Vec<char>) -> (r: bool)
    requires
        at <= line@.len(),
    ensures
        r == (at + word@.len() <= line@.len() && line@.subrange(
            at as int,
            at + word@.len(),
        ) == word@),
{
    if line.len() - at < word.len() {
        return false;
    }
    let mut k: usize = 0;
    while k < word.len()
        invariant
            k <= word@.len(),
            at + word@.len() <= line@.len(),
            forall|j: int| 0 <= j < k ==> line@[at + j] == word@[j],
        decreases word@.len() - k,
    {
        if line[at + k] != word[k] {
            assert(line@.subrange(at as int, at + word@.len())[k as int] != word@[k as int]);
            return false;
        }
        k = k + 1;
    }
    assert(line@.subrange(at as int, at + word@.len()) =~= word@);
    true
}

/// The sum of a sequence of numbers, as an unbounded integer.
pub open spec fn sum_u64(s: Seq<u64>) -> int
    decreases s.len(),
{
    if s.len() == 0 {
        0
    } else {
        sum_u64(s.drop_last()) + s.last()
    }
}

/// Sums a vector of numbers whose total fits in a `u64`.
pub fn sum_all(v: &Vec<u64>) -> (r: u64)
    requires
        sum_u64(v@) <= u64::MAX,
    ensures
        r == sum_u64(v@),
{
    proof {
        lemma_sum_u64_prefix_bounds(v@, v@.len() as int);
        assert(v@.take(v@.len() as int) =~= v@);
    }
    let mut acc: u64 = 0;
    let mut i: usize = 0;
    while i < v.len()
        invariant
            i <= v@.len(),
            sum_u64(v@) <= u64::MAX,
            acc == sum_u64(v@.take(i as int)),
            forall|j: int| 0 <= j <= v@.len() ==> 0 <= #[trigger] sum_u64(v@.take(j)),
            forall|j: int| 0 <= j <= v@.len() ==> #[trigger] sum_u64(v@.take(j)) <= sum_u64(v@),
        decreases v@.len() - i,
    {
        assert(v@.take(i + 1).drop_last() =~= v@.take(i as int));
        assert(v@.take(i + 1).last() == v@[i as int]);
        assert(sum_u64(v@.take(i + 1)) <= u64::MAX);
        acc = acc + v[i];
        i = i + 1;
    }
    assert(v@.take(v@.len() as int) =~= v@);
    acc
}

/// Every prefix sum of a sequence of `u64` values is at least zero and at
/// most the whole sum.
pub proof fn lemma_sum_u64_prefix_bounds(s: Seq<u64>, n: int)
    requires
        0 <= n <= s.len(),
    ensures
        forall|j: int| 0 <= j <= n ==> 0 <= #[trigger] sum_u64(s.take(j)),
        forall|j: int| 0 <= j <= n ==> #[trigger] sum_u64(s.take(j)) <= sum_u64(s.take(n)),
    decreases n,
{
    if n > 0 {
        lemma_sum_u64_prefix_bounds(s, n - 1);
        assert(s.take(n).drop_last() =~= s.take(n - 1));
        assert(sum_u64(s.take(n - 1)) <= sum_u64(s.take(n)));
    }
    assert(s.take(0) =~= Seq::<u64>::empty());
}

/// Whether a sequence of numbers is in nondecreasing order.
pub open spec fn is_sorted_u64(s: Seq<u64>) -> bool {
    forall|a: int, b: int| 0 <= a < b < s.len() ==> s[a] <= s[b]
}

/// The nondecreasing rearrangement of `s`.  It exists and is unique, so this
/// picks out exactly one sequence.
pub open spec fn sorted_u64(s: Seq<u64>) -> Seq<u64> {
    choose|t: Seq<u64>| is_sorted_u64(t) && t.to_multiset() == s.to_multiset()
}

/// Two sorted sequences with the same elements are the same sequence.
pub proof fn lemma_sorted_u64_unique(x: Seq<u64>, y: Seq<u64>)
    requires
        is_sorted_u64(x),
        is_sorted_u64(y),
        x.to_multiset() == y.to_multiset(),
    ensures
        x == y,
{
    let leq = |a: u64, b: u64| a <= b;
    assert(vstd::relations::sorted_by(x, leq)) by {
        assert forall|i: int, j: int| 0 <= i < j < x.len() implies #[trigger] leq(x[i], x[j]) by {
            assert(x[i] <= x[j]);
        }
    }
    assert(vstd::relations::sorted_by(y, leq)) by {
        assert forall|i: int, j: int| 0 <= i < j < y.len() implies #[trigger] leq(y[i], y[j]) by {
            assert(y[i] <= y[j]);
        }
    }
    assert(vstd::relations::total_ordering(leq));
    vstd::seq_lib::lemma_sorted_unique(x, y, leq);
    assert(x =~= y);
}

/// The sorted rearrangement keeps the elements and their number, and is
/// sorted.
pub proof fn lemma_sorted_u64_ensures(s: Seq<u64>)
    ensures
        is_sorted_u64(sorted_u64(s)),
        sorted_u64(s).to_multiset() == s.to_multiset(),
        sorted_u64(s).len() == s.len(),
{
    broadcast use vstd::seq_lib::group_to_multiset_ensures;

    let leq = |a: u64, b: u64| a <= b;
    s.lemma_sort_by_ensures(leq);
    let t = s.sort_by(leq);
    assert(is_sorted_u64(t)) by {
        assert forall|a: int, b: int| #![trigger t[a], t[b]] 0 <= a < b < t.len() implies t[a]
            <= t[b] by {
            assert(leq(t[a], t[b]));
        }
    }
    assert(t.to_multiset() == s.to_multiset());
    assert(is_sorted_u64(sorted_u64(s)) && sorted_u64(s).to_multiset() == s.to_multiset()) by {
        assert(exists|t2: Seq<u64>|
            is_sorted_u64(t2) && t2.to_multiset() == s.to_multiset()) by {
            assert(is_sorted_u64(t) && t.to_multiset() == s.to_multiset());
        }
    }
    assert(sorted_u64(s).len() == sorted_u64(s).to_multiset().len());
    assert(s.len() == s.to_multiset().len());
}

/// Sorts a vector of numbers in nondecreasing order, by insertion.
pub fn sort_u64(v: &mut Vec<u64>)
    ensures
        final(v)@ == sorted_u64(old(v)@),
        final(v)@.to_multiset() == old(v)@.to_multiset(),
        is_sorted_u64(final(v)@),
        final(v)@.len() == old(v)@.len(),
{
    broadcast use vstd::seq_lib::to_multiset_update;
    broadcast use vstd::multiset::group_multiset_axioms;

    let n = v.len();
    if n == 0 {
        proof {
            broadcast use vstd::seq_lib::group_to_multiset_ensures;

            assert(is_sorted_u64(v@));
            lemma_sorted_u64_ensures(old(v)@);
            lemma_sorted_u64_unique(v@, sorted_u64(old(v)@));
        }
        return ;
    }
    let mut i: usize = 1;
    while i < n
        invariant
            1 <= i <= n,
            n == v@.len(),
            v@.to_multiset() == old(v)@.to_multiset(),
            is_sorted_u64(v@.take(i as int)),
        decreases n - i,
    {
        proof {
            assert forall|a: int, b: int|
                #![trigger v@[a], v@[b]]
                0 <= a < b <= i && b != i implies v@[a] <= v@[b] by {
                assert(v@.take(i as int)[a] == v@[a]);
                assert(v@.take(i as int)[b] == v@[b]);
            }
        }
        let mut j: usize = i;
        while j > 0 && v[j - 1] > v[j]
            invariant
                0 <= j <= i < n == v@.len(),
                v@.to_multiset() == old(v)@.to_multiset(),
                forall|a: int, b: int|
                    #![trigger v@[a], v@[b]]
                    0 <= a < b <= i && b != j ==> v@[a] <= v@[b],
            decreases j,
        {
            let x = v[j - 1];
            let y = v[j];
            let ghost before = v@;
            v[j - 1] = y;
            v[j] = x;
            assert(v@ == before.update(j - 1, y).update(j as int, x));
            assert(v@.to_multiset() == before.to_multiset()) by {
                let s1 = before.update(j - 1, y);
                assert(s1.to_multiset() == before.to_multiset().insert(y).remove(x));
                assert(s1[j as int] == y);
                assert(s1.update(j as int, x).to_multiset() == s1.to_multiset().insert(x).remove(
                    y,
                ));
                assert(before.to_multiset().insert(y).remove(x).insert(x).remove(y)
                    =~= before.to_multiset()) by {
                    assert(before.to_multiset().count(x) > 0) by {
                        broadcast use vstd::seq_lib::group_to_multiset_ensures;

                        assert(before.contains(x));
                    }
                }
            }
            j = j - 1;
        }
        assert forall|a: int, b: int| #![trigger v@[a], v@[b]] 0 <= a < b <= i implies v@[a]
            <= v@[b] by {
            if b == j {
                assert(v@[j - 1] <= v@[j as int]);
                if a < j - 1 {
                    assert(v@[a] <= v@[j - 1]);
                }
            }
        }
        assert(is_sorted_u64(v@.take(i + 1))) by {
            assert(forall|a: int| 0 <= a <= i ==> #[trigger] v@.take(i + 1)[a] == v@[a]);
        }
        i = i + 1;
    }
    proof {
        broadcast use vstd::seq_lib::group_to_multiset_ensures;

        assert(v@.take(n as int) =~= v@);
        assert(is_sorted_u64(v@));
        lemma_sorted_u64_ensures(old(v)@);
        lemma_sorted_u64_unique(v@, sorted_u64(old(v)@));
        assert(v@.len() == v@.to_multiset().len());
        assert(old(v)@.len() == old(v)@.to_multiset().len());
    }
}

} // verus!
