//! Sixth puzzle: a datastream per line.  A marker is the first window of a
//! given width whose characters are all different; the answers report where
//! the packet marker (width four) and the message marker (width fourteen) end
//! on each line.

use vstd::prelude::*;

use crate::text;

verus! {

/// A failure to find a marker.
#[derive(Debug)]
pub enum Error {
    /// This line holds no window of the asked width with all-different
    /// characters.
    NoPacketStart(String),
}

/// Whether the characters of `s[lo..hi]` are pairwise different.
pub open spec fn distinct_range(s: Seq<char>, lo: int, hi: int) -> bool {
    forall|a: int, b: int| lo <= a < b < hi ==> s[a] != s[b]
}

/// Where the first all-different window of width `size` starting at or after
/// `i` ends, if there is one.
pub open spec fn first_marker_from(s: Seq<char>, size: int, i: int) -> Option<int>
    decreases s.len() - i,
{
    if i < 0 || i + size > s.len() {
        None
    } else if distinct_range(s, i, i + size) {
        Some(i + size)
    } else {
        first_marker_from(s, size, i + 1)
    }
}

/// Where the first all-different window of width `size` ends, if any.
pub open spec fn spec_marker_end(s: Seq<char>, size: int) -> Option<int> {
    first_marker_from(s, size, 0)
}

/// Checks whether the window `line[i..i + size]` has all-different characters.
fn window_distinct(line: &Vec<char>, i: usize, size: usize) -> (r: bool)
    requires
        i + size <= line@.len(),
    ensures
        r == distinct_range(line@, i as int, i + size),
{
    let n = line.len();
    let end = i + size;
    let mut a: usize = i;
    while a < end
        invariant
            i <= a <= end,
            forall|x: int, y: int| i <= x < y < end && x < a ==> line@[x] != line@[y],
        decreases end - a,
    {
        let mut b: usize = a + 1;
        while b < end
            invariant
                i <= a < b <= end,
                forall|y: int| a < y < b ==> line@[a as int] != line@[y],
            decreases end - b,
        {
            if line[a] == line[b] {
                assert(!distinct_range(line@, i as int, i + size)) by {
                    assert(line@[a as int] == line@[b as int]);
                }
                return false;
            }
            b = b + 1;
        }
        a = a + 1;
    }
    true
}

/// Finds where the first all-different window of width `size` ends in the
/// line of characters, if anywhere.
fn marker_in_line(line: &Vec<char>, size: usize) -> (r: Option<usize>)
    requires
        size >= 1,
    ensures
        spec_marker_end(line@, size as int) matches Some(n) ==> (r matches Some(v) && v == n),
        spec_marker_end(line@, size as int) is None ==> r is None,
{
    let n = line.len();
    if n < size {
        return None;
    }
    let mut i: usize = 0;
    while i <= n - size
        invariant
            0 <= i <= n - size + 1,
            size <= n == line@.len(),
            spec_marker_end(line@, size as int) == first_marker_from(line@, size as int, i as int),
        decreases n - i,
    {
        if window_distinct(line, i, size) {
            return Some(i + size);
        }
        i = i + 1;
    }
    None
}

/// Finds where the first all-different window of width `packet_size` ends in
/// the line, or reports the line if there is none.
pub fn find_packet_distinct_chars(s: &str, packet_size: usize) -> (r: Result<usize, Error>)
    requires
        packet_size >= 1,
    ensures
        spec_marker_end(s@, packet_size as int) matches Some(n) ==> (r matches Ok(v) && v == n),
        spec_marker_end(s@, packet_size as int) is None ==> (r matches Err(e) && (e matches
            Error::NoPacketStart(t) && t@ == s@)),
{
    let line = text::chars_of(s);
    match marker_in_line(&line, packet_size) {
        Some(n) => Ok(n),
        None => Err(Error::NoPacketStart(String::from_str(s))),
    }
}

/// Finds where the packet marker (width four) ends.
pub fn find_packet_start(s: &str) -> (r: Result<usize, Error>)
    ensures
        spec_marker_end(s@, 4) matches Some(n) ==> (r matches Ok(v) && v == n),
        spec_marker_end(s@, 4) is None ==> (r matches Err(e) && (e matches Error::NoPacketStart(t)
            && t@ == s@)),
{
    find_packet_distinct_chars(s, 4)
}

/// Finds where the message marker (width fourteen) ends.
pub fn find_message_start(s: &str) -> (r: Result<usize, Error>)
    ensures
        spec_marker_end(s@, 14) matches Some(n) ==> (r matches Ok(v) && v == n),
        spec_marker_end(s@, 14) is None ==> (r matches Err(e) && (e matches Error::NoPacketStart(t)
            && t@ == s@)),
{
    find_packet_distinct_chars(s, 14)
}

/// The first line from `i` on without a marker of width `size`, if any.
pub open spec fn first_bad_line(ls: Seq<Seq<char>>, size: int, i: int) -> Option<int>
    decreases ls.len() - i,
{
    if i < 0 || i >= ls.len() {
        None
    } else if spec_marker_end(ls[i], size) is None {
        Some(i)
    } else {
        first_bad_line(ls, size, i + 1)
    }
}

/// Where the marker of width `size` ends on each line; every line has one
/// exactly when `first_bad_line` finds none.
pub open spec fn marker_ends(ls: Seq<Seq<char>>, size: int) -> Seq<int> {
    ls.map_values(|l: Seq<char>| spec_marker_end(l, size)->0)
}

/// Where the packet marker ends on each line, or the first line without one.
pub fn run_challenge1(content: &str) -> (r: Result<Vec<usize>, Error>)
    ensures
        first_bad_line(text::spec_lines(content@), 4, 0) is None ==> (r matches Ok(v) && {
            let ls = text::spec_lines(content@);
            &&& v@.len() == ls.len()
            &&& forall|k: int| 0 <= k < ls.len() ==> v@[k] as int == marker_ends(ls, 4)[k]
        }),
        first_bad_line(text::spec_lines(content@), 4, 0) matches Some(b) ==> (r matches Err(e) && (
        e matches Error::NoPacketStart(t) && t@ == text::spec_lines(content@)[b])),
{
    run_markers(content, 4)
}

/// Where the message marker ends on each line, or the first line without one.
pub fn run_challenge2(content: &str) -> (r: Result<Vec<usize>, Error>)
    ensures
        first_bad_line(text::spec_lines(content@), 14, 0) is None ==> (r matches Ok(v) && {
            let ls = text::spec_lines(content@);
            &&& v@.len() == ls.len()
            &&& forall|k: int| 0 <= k < ls.len() ==> v@[k] as int == marker_ends(ls, 14)[k]
        }),
        first_bad_line(text::spec_lines(content@), 14, 0) matches Some(b) ==> (r matches Err(e)
            && (e matches Error::NoPacketStart(t) && t@ == text::spec_lines(content@)[b])),
{
    run_markers(content, 14)
}

/// Finds the marker of width `size` on every line.
fn run_markers(content: &str, size: usize) -> (r: Result<Vec<usize>, Error>)
    requires
        size >= 1,
    ensures
        first_bad_line(text::spec_lines(content@), size as int, 0) is None ==> (r matches Ok(v)
            && {
            let ls = text::spec_lines(content@);
            &&& v@.len() == ls.len()
            &&& forall|k: int|
                0 <= k < ls.len() ==> v@[k] as int == marker_ends(ls, size as int)[k]
        }),
        first_bad_line(text::spec_lines(content@), size as int, 0) matches Some(b) ==> (r matches
            Err(e) && (e matches Error::NoPacketStart(t) && t@ == text::spec_lines(content@)[b])),
{
    let ls = text::lines_of(content);
    let ghost lsv = ls.deep_view();
    let mut indexes: Vec<usize> = Vec::new();
    let mut i: usize = 0;
    while i < ls.len()
        invariant
            i <= ls@.len(),
            lsv == ls.deep_view(),
            indexes@.len() == i,
            first_bad_line(lsv, size as int, 0) == first_bad_line(lsv, size as int, i as int),
            forall|k: int|
                0 <= k < i ==> indexes@[k] as int == marker_ends(lsv, size as int)[k],
        decreases ls@.len() - i,
    {
        let line = &ls[i];
        assert(line@ == lsv[i as int]);
        match marker_in_line(line, size) {
            Some(n) => {
                indexes.push(n);
            },
            None => {
                return Err(Error::NoPacketStart(text::chars_to_string(line)));
            },
        }
        i = i + 1;
    }
    Ok(indexes)
}

} // verus!
