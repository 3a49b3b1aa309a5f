//! Seventh puzzle: a shell transcript walking a directory tree.  `cd` and
//! `ls` lines move a cursor and list entries; entry lines add files and
//! directories under the cursor, once each, however often they are listed.
//! The answers sum the small directory totals and find the smallest directory
//! whose removal frees enough space.

use vstd::prelude::*;

use crate::text;

verus! {

/// A failure to read or use the transcript.
#[derive(Clone, Copy, Debug, PartialEq, Eq, Structural)]
pub enum Error {
    /// The line at this index is no command and no entry.
    Parse(usize),
    /// No directory frees enough space.
    NoDirectoryFound,
}

/// The `ls` command.
#[derive(Debug)]
pub struct List;

/// The `cd` command and its path argument.
#[derive(Debug)]
pub struct ChangeDirectory(pub Vec<char>);

/// A command line of the transcript.
#[derive(Debug)]
pub enum Command {
    List(List),
    ChangeDirectory(ChangeDirectory),
}

/// An entry line of the transcript.
#[derive(Debug)]
pub enum Entry {
    Dir(Vec<char>),
    File(u64, Vec<char>),
}

/// Any line of the transcript.
#[derive(Debug)]
pub enum Line {
    Command(Command),
    Entry(Entry),
}

/// What a transcript line says, over the line's characters.
pub enum LineView {
    Cd(Seq<char>),
    Ls,
    DirEntry(Seq<char>),
    FileEntry(u64, Seq<char>),
}

/// The characters a path may hold: letters, dots and slashes.
pub open spec fn is_path_char(c: char) -> bool {
    ('a' <= c && c <= 'z') || ('A' <= c && c <= 'Z') || c == '.' || c == '/'
}

pub open spec fn all_path_chars(s: Seq<char>) -> bool {
    forall|k: int| 0 <= k < s.len() ==> is_path_char(#[trigger] s[k])
}

/// What a line means: a file entry (`SIZE NAME`), a directory entry
/// (`dir NAME`), a listing (`$ ls`), or a move (`$ cd NAME`).
pub open spec fn spec_parse_line(line: Seq<char>) -> Option<LineView> {
    let e = text::digits_end(line, 0);
    if e > 0 && text::digits_val(line.subrange(0, e)) <= u64::MAX && e + 1 < line.len() && line[e]
        == ' ' && all_path_chars(line.skip(e + 1)) {
        Some(
            LineView::FileEntry(text::digits_val(line.subrange(0, e)) as u64, line.skip(e + 1)),
        )
    } else if line.len() > 4 && line.subrange(0, 4) == seq!['d', 'i', 'r', ' ']
        && all_path_chars(line.skip(4)) {
        Some(LineView::DirEntry(line.skip(4)))
    } else if line == seq!['$', ' ', 'l', 's'] {
        Some(LineView::Ls)
    } else if line.len() > 5 && line.subrange(0, 5) == seq!['$', ' ', 'c', 'd', ' ']
        && all_path_chars(line.skip(5)) {
        Some(LineView::Cd(line.skip(5)))
    } else {
        None
    }
}

/// Checks that a whole segment is path characters.
fn check_path(line: &Vec<char>, lo: usize) -> (r: bool)
    requires
        lo <= line@.len(),
    ensures
        r == all_path_chars(line@.skip(lo as int)),
{
    let ghost s = line@.skip(lo as int);
    let mut k: usize = lo;
    while k < line.len()
        invariant
            lo <= k <= line@.len(),
            s == line@.skip(lo as int),
            forall|j: int| 0 <= j < k - lo ==> is_path_char(#[trigger] s[j]),
        decreases line@.len() - k,
    {
        let c = line[k];
        let ok = (c >= 'a' && c <= 'z') || (c >= 'A' && c <= 'Z') || c == '.' || c == '/';
        if !ok {
            assert(s[k - lo] == c);
            return false;
        }
        assert(s[k - lo] == c);
        k = k + 1;
    }
    true
}

/// Copies the tail of a line from `lo` on.
fn tail_of(line: &Vec<char>, lo: usize) -> (r: Vec<char>)
    requires
        lo <= line@.len(),
    ensures
        r@ == line@.skip(lo as int),
{
    let mut r: Vec<char> = Vec::new();
    let mut k: usize = lo;
    while k < line.len()
        invariant
            lo <= k <= line@.len(),
            r@ == line@.subrange(lo as int, k as int),
        decreases line@.len() - k,
    {
        r.push(line[k]);
        assert(r@ =~= line@.subrange(lo as int, k + 1));
        k = k + 1;
    }
    assert(line@.subrange(lo as int, line@.len() as int) =~= line@.skip(lo as int));
    r
}

/// The view of an owned line value.
pub open spec fn line_view(l: Line) -> LineView {
    match l {
        Line::Command(Command::List(_)) => LineView::Ls,
        Line::Command(Command::ChangeDirectory(cd)) => LineView::Cd(cd.0@),
        Line::Entry(Entry::Dir(name)) => LineView::DirEntry(name@),
        Line::Entry(Entry::File(size, name)) => LineView::FileEntry(size, name@),
    }
}

/// Reads one transcript line.
pub fn parse_line(line: &Vec<char>) -> (r: Option<Line>)
    ensures
        spec_parse_line(line@) matches Some(lv) ==> (r matches Some(l) && line_view(l) == lv),
        spec_parse_line(line@) is None ==> r is None,
{
    let n = line.len();
    let e = text::scan_digits(line, 0);
    if e > 0 {
        proof {
            text::lemma_digit_run(line@, 0, e as int);
            assert(line@.subrange(0, e as int) =~= line@.take(e as int));
        }
        if e < n && n - e > 1 && line[e] == ' ' && check_path(line, e + 1) {
            match text::parse_u64_range(line, 0, e) {
                Some(size) => {
                    return Some(Line::Entry(Entry::File(size, tail_of(line, e + 1))));
                },
                None => {
                    return None;
                },
            }
        } else {
            return None;
        }
    }
    if n > 4 && line[0] == 'd' && line[1] == 'i' && line[2] == 'r' && line[3] == ' ' {
        assert(line@.subrange(0, 4) =~= seq!['d', 'i', 'r', ' ']);
        if check_path(line, 4) {
            return Some(Line::Entry(Entry::Dir(tail_of(line, 4))));
        } else {
            return None;
        }
    }
    proof {
        if line@.len() > 4 && line@.subrange(0, 4) == seq!['d', 'i', 'r', ' '] {
            assert(line@[0] == line@.subrange(0, 4)[0]);
            assert(line@[1] == line@.subrange(0, 4)[1]);
            assert(line@[2] == line@.subrange(0, 4)[2]);
            assert(line@[3] == line@.subrange(0, 4)[3]);
        }
    }
    if n == 4 && line[0] == '$' && line[1] == ' ' && line[2] == 'l' && line[3] == 's' {
        assert(line@ =~= seq!['$', ' ', 'l', 's']);
        return Some(Line::Command(Command::List(List)));
    }
    proof {
        if line@ == seq!['$', ' ', 'l', 's'] {
            assert(line@.len() == 4 && line@[0] == '$' && line@[1] == ' ' && line@[2] == 'l'
                && line@[3] == 's');
        }
    }
    if n > 5 && line[0] == '$' && line[1] == ' ' && line[2] == 'c' && line[3] == 'd' && line[4]
        == ' ' {
        assert(line@.subrange(0, 5) =~= seq!['$', ' ', 'c', 'd', ' ']);
        if check_path(line, 5) {
            return Some(Line::Command(Command::ChangeDirectory(ChangeDirectory(tail_of(line, 5)))));
        } else {
            return None;
        }
    }
    proof {
        if line@.len() > 5 && line@.subrange(0, 5) == seq!['$', ' ', 'c', 'd', ' '] {
            assert(line@[0] == line@.subrange(0, 5)[0]);
            assert(line@[1] == line@.subrange(0, 5)[1]);
            assert(line@[2] == line@.subrange(0, 5)[2]);
            assert(line@[3] == line@.subrange(0, 5)[3]);
            assert(line@[4] == line@.subrange(0, 5)[4]);
        }
    }
    None
}

/// One node of the tree: its parent, its path segment, its own size (zero for
/// a directory) and its children, as arena indexes.
#[derive(Debug)]
pub struct Node {
    pub parent: usize,
    pub name: Vec<char>,
    pub size: u64,
    pub children: Vec<usize>,
}

/// The whole tree: an arena of nodes, the root at index zero.
#[derive(Debug)]
pub struct Tree {
    pub nodes: Vec<Node>,
}

/// The view of one node.
pub open spec fn nview(n: Node) -> (int, Seq<char>, u64, Seq<int>) {
    (n.parent as int, n.name@, n.size, n.children@.map_values(|c: usize| c as int))
}

/// The view of the arena.
pub open spec fn tview(t: Tree) -> Seq<(int, Seq<char>, u64, Seq<int>)> {
    t.nodes@.map_values(|n: Node| nview(n))
}

/// A sound arena: a root whose parent is itself, parents before children, and
/// every child edge pointing strictly forward.
pub open spec fn arena_wf(nodes: Seq<(int, Seq<char>, u64, Seq<int>)>) -> bool {
    &&& nodes.len() >= 1
    &&& nodes[0].0 == 0
    &&& forall|i: int| 0 <= i < nodes.len() ==> 0 <= (#[trigger] nodes[i]).0 < nodes.len()
    &&& forall|i: int, k: int|
        0 <= i < nodes.len() && 0 <= k < (#[trigger] nodes[i]).3.len() ==> i < #[trigger] nodes[i].3[k]
            && nodes[i].3[k] < nodes.len()
}

/// The first child among `cs` whose name is `name`, if any.
pub open spec fn find_child(
    nodes: Seq<(int, Seq<char>, u64, Seq<int>)>,
    cs: Seq<int>,
    name: Seq<char>,
) -> Option<int>
    decreases cs.len(),
{
    if cs.len() == 0 {
        None
    } else if nodes[cs[0]].1 == name {
        Some(cs[0])
    } else {
        find_child(nodes, cs.drop_first(), name)
    }
}

/// Inserts a child named `name` of size `size` under `cur`, reusing an
/// existing child of that name unchanged.
pub open spec fn insert_entry(
    nodes: Seq<(int, Seq<char>, u64, Seq<int>)>,
    cur: int,
    name: Seq<char>,
    size: u64,
) -> Seq<(int, Seq<char>, u64, Seq<int>)> {
    match find_child(nodes, nodes[cur].3, name) {
        Some(_) => nodes,
        None => {
            let idx = nodes.len() as int;
            let n2 = nodes.push((cur, name, size, Seq::empty()));
            n2.update(cur, (n2[cur].0, n2[cur].1, n2[cur].2, n2[cur].3.push(idx)))
        },
    }
}

/// Listing an entry twice is the same as listing it once: the second
/// insertion finds the child the first one made (or found) and leaves the
/// whole tree unchanged, so in particular every directory keeps its total
/// size and its child count.
pub proof fn lemma_insert_idempotent(
    nodes: Seq<(int, Seq<char>, u64, Seq<int>)>,
    cur: int,
    name: Seq<char>,
    size: u64,
)
    requires
        0 <= cur < nodes.len(),
        forall|k: int| 0 <= k < nodes[cur].3.len() ==> 0 <= #[trigger] nodes[cur].3[k] < nodes.len(),
    ensures
        insert_entry(insert_entry(nodes, cur, name, size), cur, name, size) == insert_entry(
            nodes,
            cur,
            name,
            size,
        ),
{
    match find_child(nodes, nodes[cur].3, name) {
        Some(_) => {
            lemma_find_stable(nodes, nodes, nodes[cur].3, name);
        },
        None => {
            let idx = nodes.len() as int;
            let n2 = nodes.push((cur, name, size, Seq::empty()));
            let n3 = n2.update(cur, (n2[cur].0, n2[cur].1, n2[cur].2, n2[cur].3.push(idx)));
            assert(n3[cur].3 =~= nodes[cur].3.push(idx));
            assert(forall|c: int| 0 <= c < nodes.len() ==> (#[trigger] n3[c]).1 == nodes[c].1);
            assert(n3[idx].1 == name);
            lemma_find_none_push(nodes, n3, nodes[cur].3, name, idx);
            assert(find_child(n3, n3[cur].3, name) == Some(idx));
        },
    }
}

/// A search that failed still fails over the same child list after unrelated
/// nodes change, and succeeds on a pushed child with the name.
proof fn lemma_find_none_push(
    nodes: Seq<(int, Seq<char>, u64, Seq<int>)>,
    n3: Seq<(int, Seq<char>, u64, Seq<int>)>,
    cs: Seq<int>,
    name: Seq<char>,
    idx: int,
)
    requires
        find_child(nodes, cs, name) is None,
        forall|k: int| 0 <= k < cs.len() ==> 0 <= #[trigger] cs[k] < nodes.len(),
        forall|c: int| 0 <= c < nodes.len() ==> (#[trigger] n3[c]).1 == nodes[c].1,
        0 <= idx < n3.len(),
        n3[idx].1 == name,
        idx >= nodes.len(),
    ensures
        find_child(n3, cs.push(idx), name) == Some(idx),
    decreases cs.len(),
{
    if cs.len() == 0 {
        assert(cs.push(idx)[0] == idx);
        assert(cs.push(idx).drop_first() =~= Seq::<int>::empty());
    } else {
        assert(cs.push(idx)[0] == cs[0]);
        assert(n3[cs[0]].1 == nodes[cs[0]].1);
        assert(nodes[cs[0]].1 != name);
        assert(cs.push(idx).drop_first() =~= cs.drop_first().push(idx));
        assert(forall|k: int|
            0 <= k < cs.drop_first().len() ==> 0 <= #[trigger] cs.drop_first()[k] < nodes.len());
        lemma_find_none_push(nodes, n3, cs.drop_first(), name, idx);
    }
}

/// A successful search is untouched when nothing changes.
proof fn lemma_find_stable(
    nodes: Seq<(int, Seq<char>, u64, Seq<int>)>,
    same: Seq<(int, Seq<char>, u64, Seq<int>)>,
    cs: Seq<int>,
    name: Seq<char>,
)
    requires
        nodes == same,
    ensures
        find_child(nodes, cs, name) == find_child(same, cs, name),
{
}

/// Where the cursor lands and what the tree becomes after one line.
pub open spec fn apply_line(
    st: (Seq<(int, Seq<char>, u64, Seq<int>)>, int),
    lv: LineView,
) -> (Seq<(int, Seq<char>, u64, Seq<int>)>, int) {
    match lv {
        LineView::Ls => st,
        LineView::Cd(name) => {
            if name == seq!['/'] {
                (st.0, 0)
            } else if name == seq!['.', '.'] {
                (st.0, st.0[st.1].0)
            } else {
                match find_child(st.0, st.0[st.1].3, name) {
                    Some(c) => (st.0, c),
                    None => (insert_entry(st.0, st.1, name, 0), st.0.len() as int),
                }
            }
        },
        LineView::DirEntry(name) => (insert_entry(st.0, st.1, name, 0), st.1),
        LineView::FileEntry(size, name) => (insert_entry(st.0, st.1, name, size), st.1),
    }
}

/// The root alone: one directory named `/`.
pub open spec fn root_state() -> (Seq<(int, Seq<char>, u64, Seq<int>)>, int) {
    (seq![(0int, seq!['/'], 0u64, Seq::<int>::empty())], 0)
}

/// Folding the transcript lines from `i` on over the tree, or the index of
/// the first unreadable line.
pub open spec fn build_from(
    ls: Seq<Seq<char>>,
    i: int,
    st: (Seq<(int, Seq<char>, u64, Seq<int>)>, int),
) -> Result<(Seq<(int, Seq<char>, u64, Seq<int>)>, int), int>
    decreases ls.len() - i,
{
    if i < 0 || i >= ls.len() {
        Ok(st)
    } else {
        match spec_parse_line(ls[i]) {
            Some(lv) => build_from(ls, i + 1, apply_line(st, lv)),
            None => Err(i),
        }
    }
}

/// What the whole input builds: the finished tree and cursor, or the index of
/// the offending line.
pub open spec fn build_result(content: Seq<char>) -> Result<
    (Seq<(int, Seq<char>, u64, Seq<int>)>, int),
    int,
> {
    build_from(text::spec_lines(content), 0, root_state())
}

/// A sound cursor: within the arena.
pub open spec fn state_wf(st: (Seq<(int, Seq<char>, u64, Seq<int>)>, int)) -> bool {
    arena_wf(st.0) && 0 <= st.1 < st.0.len()
}

/// One line keeps the arena and the cursor sound.
pub proof fn lemma_apply_line_wf(st: (Seq<(int, Seq<char>, u64, Seq<int>)>, int), lv: LineView)
    requires
        state_wf(st),
    ensures
        state_wf(apply_line(st, lv)),
        apply_line(st, lv).0.len() >= st.0.len(),
{
    match lv {
        LineView::Ls => {},
        LineView::Cd(name) => {
            if name == seq!['/'] {
            } else if name == seq!['.', '.'] {
            } else {
                match find_child(st.0, st.0[st.1].3, name) {
                    Some(c) => {
                        lemma_find_in_children(st.0, st.0[st.1].3, name, st.1);
                    },
                    None => {
                        lemma_insert_wf(st.0, st.1, name, 0);
                    },
                }
            }
        },
        LineView::DirEntry(name) => {
            lemma_insert_wf(st.0, st.1, name, 0);
        },
        LineView::FileEntry(size, name) => {
            lemma_insert_wf(st.0, st.1, name, size);
        },
    }
}

/// A found child lies strictly past its parent, inside the arena.
proof fn lemma_find_in_children(
    nodes: Seq<(int, Seq<char>, u64, Seq<int>)>,
    cs: Seq<int>,
    name: Seq<char>,
    lo: int,
)
    requires
        forall|k: int| 0 <= k < cs.len() ==> lo < #[trigger] cs[k] && cs[k] < nodes.len(),
    ensures
        find_child(nodes, cs, name) matches Some(c) ==> lo < c < nodes.len(),
    decreases cs.len(),
{
    if cs.len() > 0 && nodes[cs[0]].1 != name {
        assert(forall|k: int|
            0 <= k < cs.drop_first().len() ==> lo < #[trigger] cs.drop_first()[k]
                && cs.drop_first()[k] < nodes.len());
        lemma_find_in_children(nodes, cs.drop_first(), name, lo);
    }
}

/// Inserting keeps the arena sound and only ever appends one node.
proof fn lemma_insert_wf(
    nodes: Seq<(int, Seq<char>, u64, Seq<int>)>,
    cur: int,
    name: Seq<char>,
    size: u64,
)
    requires
        arena_wf(nodes),
        0 <= cur < nodes.len(),
    ensures
        arena_wf(insert_entry(nodes, cur, name, size)),
        nodes.len() <= insert_entry(nodes, cur, name, size).len() <= nodes.len() + 1,
{
    match find_child(nodes, nodes[cur].3, name) {
        Some(_) => {},
        None => {
            let idx = nodes.len() as int;
            let n2 = nodes.push((cur, name, size, Seq::empty()));
            let n3 = n2.update(cur, (n2[cur].0, n2[cur].1, n2[cur].2, n2[cur].3.push(idx)));
            assert(n3[0].0 == 0);
            assert forall|i: int| 0 <= i < n3.len() implies 0 <= (#[trigger] n3[i]).0
                < n3.len() by {
                if i < nodes.len() && i != cur {
                    assert(n3[i] == nodes[i]);
                }
            }
            assert forall|i: int, k: int|
                0 <= i < n3.len() && 0 <= k < (#[trigger] n3[i]).3.len() implies i
                < #[trigger] n3[i].3[k] && n3[i].3[k] < n3.len() by {
                if i == cur {
                    assert(n3[cur].3 =~= nodes[cur].3.push(idx));
                    if k < nodes[cur].3.len() {
                        assert(n3[cur].3[k] == nodes[cur].3[k]);
                    } else {
                        assert(n3[cur].3[k] == idx);
                    }
                } else if i < nodes.len() {
                    assert(n3[i] == nodes[i]);
                } else {
                    assert(n3[i].3 =~= Seq::<int>::empty());
                }
            }
        },
    }
}

/// Whether a line belongs to a directory listing: anything but a move of the
/// cursor.
pub open spec fn is_listing_line(lv: LineView) -> bool {
    match lv {
        LineView::Cd(_) => false,
        _ => true,
    }
}

/// The child a listing line inserts, as its name and size, if it inserts one.
pub open spec fn line_inserts(lv: LineView) -> Option<(Seq<char>, u64)> {
    match lv {
        LineView::DirEntry(name) => Some((name, 0u64)),
        LineView::FileEntry(size, name) => Some((name, size)),
        _ => None,
    }
}

/// Folding a run of lines over the tree and the cursor.
pub open spec fn apply_lines(
    st: (Seq<(int, Seq<char>, u64, Seq<int>)>, int),
    lvs: Seq<LineView>,
) -> (Seq<(int, Seq<char>, u64, Seq<int>)>, int)
    decreases lvs.len(),
{
    if lvs.len() == 0 {
        st
    } else {
        apply_lines(apply_line(st, lvs[0]), lvs.drop_first())
    }
}

/// Whether the cursor already has a child of this name.
pub open spec fn child_present(
    nodes: Seq<(int, Seq<char>, u64, Seq<int>)>,
    cur: int,
    name: Seq<char>,
) -> bool {
    find_child(nodes, nodes[cur].3, name) is Some
}

/// A found child is still found over a pushed child list whose old members
/// keep their names.
proof fn lemma_find_some_push(
    nodes: Seq<(int, Seq<char>, u64, Seq<int>)>,
    n3: Seq<(int, Seq<char>, u64, Seq<int>)>,
    cs: Seq<int>,
    name: Seq<char>,
    idx: int,
)
    requires
        find_child(nodes, cs, name) is Some,
        forall|k: int| 0 <= k < cs.len() ==> 0 <= #[trigger] cs[k] < nodes.len(),
        forall|c: int| 0 <= c < nodes.len() ==> (#[trigger] n3[c]).1 == nodes[c].1,
    ensures
        find_child(n3, cs.push(idx), name) is Some,
    decreases cs.len(),
{
    assert(cs.len() > 0);
    assert(cs.push(idx)[0] == cs[0]);
    assert(n3[cs[0]].1 == nodes[cs[0]].1);
    if nodes[cs[0]].1 != name {
        assert(cs.push(idx).drop_first() =~= cs.drop_first().push(idx));
        assert(forall|k: int|
            0 <= k < cs.drop_first().len() ==> 0 <= #[trigger] cs.drop_first()[k] < nodes.len());
        lemma_find_some_push(nodes, n3, cs.drop_first(), name, idx);
    }
}

/// Inserting a child makes it found, and keeps every found child found.
proof fn lemma_insert_found(
    nodes: Seq<(int, Seq<char>, u64, Seq<int>)>,
    cur: int,
    name: Seq<char>,
    size: u64,
)
    requires
        arena_wf(nodes),
        0 <= cur < nodes.len(),
    ensures
        child_present(insert_entry(nodes, cur, name, size), cur, name),
        forall|m: Seq<char>|
            #[trigger] child_present(nodes, cur, m) ==> child_present(
                insert_entry(nodes, cur, name, size),
                cur,
                m,
            ),
{
    match find_child(nodes, nodes[cur].3, name) {
        Some(_) => {},
        None => {
            let idx = nodes.len() as int;
            let n2 = nodes.push((cur, name, size, Seq::empty()));
            let n3 = n2.update(cur, (n2[cur].0, n2[cur].1, n2[cur].2, n2[cur].3.push(idx)));
            assert(n3[cur].3 =~= nodes[cur].3.push(idx));
            assert(forall|c: int| 0 <= c < nodes.len() ==> (#[trigger] n3[c]).1 == nodes[c].1);
            assert(n3[idx].1 == name);
            lemma_find_none_push(nodes, n3, nodes[cur].3, name, idx);
            assert forall|m: Seq<char>| #[trigger] child_present(nodes, cur, m) implies
            child_present(insert_entry(nodes, cur, name, size), cur, m) by {
                lemma_find_some_push(nodes, n3, nodes[cur].3, m, idx);
            }
        },
    }
}

/// A listing line keeps the cursor, keeps every found child found, and makes
/// the child it inserts found.
proof fn lemma_listing_line(st: (Seq<(int, Seq<char>, u64, Seq<int>)>, int), lv: LineView)
    requires
        state_wf(st),
        is_listing_line(lv),
    ensures
        apply_line(st, lv).1 == st.1,
        state_wf(apply_line(st, lv)),
        forall|m: Seq<char>|
            #[trigger] child_present(st.0, st.1, m) ==> child_present(
                apply_line(st, lv).0,
                st.1,
                m,
            ),
        line_inserts(lv) matches Some(e) ==> child_present(apply_line(st, lv).0, st.1, e.0),
{
    lemma_apply_line_wf(st, lv);
    match lv {
        LineView::Ls => {},
        LineView::DirEntry(name) => {
            lemma_insert_found(st.0, st.1, name, 0);
        },
        LineView::FileEntry(size, name) => {
            lemma_insert_found(st.0, st.1, name, size);
        },
        LineView::Cd(_) => {},
    }
}

/// A run of listing lines keeps the cursor and soundness, keeps every found
/// child found, and ends with every child it lists found.
proof fn lemma_listing_lines(st: (Seq<(int, Seq<char>, u64, Seq<int>)>, int), lvs: Seq<LineView>)
    requires
        state_wf(st),
        forall|k: int| 0 <= k < lvs.len() ==> is_listing_line(#[trigger] lvs[k]),
    ensures
        apply_lines(st, lvs).1 == st.1,
        state_wf(apply_lines(st, lvs)),
        forall|m: Seq<char>|
            #[trigger] child_present(st.0, st.1, m) ==> child_present(
                apply_lines(st, lvs).0,
                st.1,
                m,
            ),
        forall|k: int|
            0 <= k < lvs.len() ==> (#[trigger] line_inserts(lvs[k]) matches Some(e) ==>
            child_present(apply_lines(st, lvs).0, st.1, e.0)),
    decreases lvs.len(),
{
    if lvs.len() > 0 {
        let st1 = apply_line(st, lvs[0]);
        lemma_listing_line(st, lvs[0]);
        assert(forall|k: int|
            0 <= k < lvs.drop_first().len() ==> is_listing_line(#[trigger] lvs.drop_first()[k]));
        lemma_listing_lines(st1, lvs.drop_first());
        assert forall|k: int|
            0 <= k < lvs.len() implies (#[trigger] line_inserts(lvs[k]) matches Some(e) ==>
        child_present(apply_lines(st, lvs).0, st.1, e.0)) by {
            if k > 0 {
                assert(lvs.drop_first()[k - 1] == lvs[k]);
            }
        }
    }
}

/// A run of listing lines whose children are all already present changes
/// nothing.
proof fn lemma_listing_noop(st: (Seq<(int, Seq<char>, u64, Seq<int>)>, int), lvs: Seq<LineView>)
    requires
        state_wf(st),
        forall|k: int| 0 <= k < lvs.len() ==> is_listing_line(#[trigger] lvs[k]),
        forall|k: int|
            0 <= k < lvs.len() ==> (#[trigger] line_inserts(lvs[k]) matches Some(e) ==>
            child_present(st.0, st.1, e.0)),
    ensures
        apply_lines(st, lvs) == st,
    decreases lvs.len(),
{
    if lvs.len() > 0 {
        assert(apply_line(st, lvs[0]) == st) by {
            match lvs[0] {
                LineView::Ls => {},
                LineView::DirEntry(name) => {
                    assert(line_inserts(lvs[0]) == Some((name, 0u64)));
                    assert(child_present(st.0, st.1, name));
                },
                LineView::FileEntry(size, name) => {
                    assert(line_inserts(lvs[0]) == Some((name, size)));
                    assert(child_present(st.0, st.1, name));
                },
                LineView::Cd(_) => {},
            }
        }
        assert(forall|k: int|
            0 <= k < lvs.drop_first().len() ==> is_listing_line(#[trigger] lvs.drop_first()[k]));
        assert forall|k: int|
            0 <= k < lvs.drop_first().len() implies (#[trigger] line_inserts(lvs.drop_first()[k])
            matches Some(e) ==> child_present(st.0, st.1, e.0)) by {
            assert(lvs.drop_first()[k] == lvs[k + 1]);
        }
        lemma_listing_noop(st, lvs.drop_first());
    }
}

/// Building from the transcript walks it line by line: across any stretch of
/// lines that parse to the given views, the build is their fold.  With the
/// idempotence law below, a transcript that repeats a directory's listing
/// block therefore builds the same tree as one that lists it once.
pub proof fn lemma_build_segment(
    ls: Seq<Seq<char>>,
    i: int,
    j: int,
    st: (Seq<(int, Seq<char>, u64, Seq<int>)>, int),
    lvs: Seq<LineView>,
)
    requires
        0 <= i <= j <= ls.len(),
        lvs.len() == j - i,
        forall|k: int| 0 <= k < lvs.len() ==> spec_parse_line(ls[i + k]) == Some(#[trigger] lvs[k]),
    ensures
        build_from(ls, i, st) == build_from(ls, j, apply_lines(st, lvs)),
    decreases j - i,
{
    if i < j {
        assert(spec_parse_line(ls[i]) == Some(lvs[0]));
        assert forall|k: int| 0 <= k < lvs.drop_first().len() implies spec_parse_line(
            ls[i + 1 + k],
        ) == Some(#[trigger] lvs.drop_first()[k]) by {
            assert(lvs.drop_first()[k] == lvs[k + 1]);
            assert(spec_parse_line(ls[i + (k + 1)]) == Some(lvs[k + 1]));
        }
        lemma_build_segment(ls, i + 1, j, apply_line(st, lvs[0]), lvs.drop_first());
    }
}

/// Listing a directory's entries twice is the same as listing them once: the
/// second pass finds every child the first pass made or found, so the tree —
/// and with it every node's total size and child count — is unchanged.
pub proof fn lemma_relist_idempotent(
    st: (Seq<(int, Seq<char>, u64, Seq<int>)>, int),
    lvs: Seq<LineView>,
)
    requires
        state_wf(st),
        forall|k: int| 0 <= k < lvs.len() ==> is_listing_line(#[trigger] lvs[k]),
    ensures
        apply_lines(apply_lines(st, lvs), lvs) == apply_lines(st, lvs),
{
    lemma_listing_lines(st, lvs);
    lemma_listing_noop(apply_lines(st, lvs), lvs);
}

/// The total size of the node at `i`: its own size plus its children's
/// totals, recursively.
pub open spec fn spec_total(nodes: Seq<(int, Seq<char>, u64, Seq<int>)>, i: int) -> int
    decreases nodes.len() - i, 1int, 0int,
    when arena_wf(nodes) && 0 <= i < nodes.len()
{
    nodes[i].2 + children_total(nodes, nodes[i].3, i)
}

/// The summed totals of the children `cs`, all strictly past `lo`.
pub open spec fn children_total(
    nodes: Seq<(int, Seq<char>, u64, Seq<int>)>,
    cs: Seq<int>,
    lo: int,
) -> int
    decreases nodes.len() - lo, 0int, cs.len(),
    when arena_wf(nodes) && 0 <= lo && (forall|k: int|
        0 <= k < cs.len() ==> lo < #[trigger] cs[k] && cs[k] < nodes.len())
{
    if cs.len() == 0 {
        0
    } else {
        spec_total(nodes, cs[0]) + children_total(nodes, cs.drop_first(), lo)
    }
}

/// Totals are never negative.
pub proof fn lemma_total_nonneg(nodes: Seq<(int, Seq<char>, u64, Seq<int>)>, i: int)
    requires
        arena_wf(nodes),
        0 <= i < nodes.len(),
    ensures
        spec_total(nodes, i) >= 0,
    decreases nodes.len() - i, 1int, 0int,
{
    lemma_children_total_nonneg(nodes, nodes[i].3, i);
}

/// Summed child totals are never negative.
pub proof fn lemma_children_total_nonneg(
    nodes: Seq<(int, Seq<char>, u64, Seq<int>)>,
    cs: Seq<int>,
    lo: int,
)
    requires
        arena_wf(nodes),
        0 <= lo,
        forall|k: int| 0 <= k < cs.len() ==> lo < #[trigger] cs[k] && cs[k] < nodes.len(),
    ensures
        children_total(nodes, cs, lo) >= 0,
    decreases nodes.len() - lo, 0int, cs.len(),
{
    if cs.len() > 0 {
        lemma_total_nonneg(nodes, cs[0]);
        assert(forall|k: int|
            0 <= k < cs.drop_first().len() ==> lo < #[trigger] cs.drop_first()[k]
                && cs.drop_first()[k] < nodes.len());
        lemma_children_total_nonneg(nodes, cs.drop_first(), lo);
    }
}

/// The directories of the subtree at `i`, the node itself first.
pub open spec fn spec_all_dirs(nodes: Seq<(int, Seq<char>, u64, Seq<int>)>, i: int) -> Seq<int>
    decreases nodes.len() - i, 1int, 0int,
    when arena_wf(nodes) && 0 <= i < nodes.len()
{
    seq![i] + dirs_of_children(nodes, nodes[i].3, i)
}

/// The directories of the subtrees at the directory children among `cs`.
pub open spec fn dirs_of_children(
    nodes: Seq<(int, Seq<char>, u64, Seq<int>)>,
    cs: Seq<int>,
    lo: int,
) -> Seq<int>
    decreases nodes.len() - lo, 0int, cs.len(),
    when arena_wf(nodes) && 0 <= lo && (forall|k: int|
        0 <= k < cs.len() ==> lo < #[trigger] cs[k] && cs[k] < nodes.len())
{
    if cs.len() == 0 {
        Seq::empty()
    } else {
        (if nodes[cs[0]].2 == 0 {
            spec_all_dirs(nodes, cs[0])
        } else {
            Seq::empty()
        }) + dirs_of_children(nodes, cs.drop_first(), lo)
    }
}

impl Tree {
    /// The total size of the node at `i`, computed freshly.
    pub fn total_size(&self, i: usize) -> (r: u64)
        requires
            arena_wf(tview(*self)),
            i < self.nodes@.len(),
            spec_total(tview(*self), i as int) <= u64::MAX,
        ensures
            r == spec_total(tview(*self), i as int),
        decreases self.nodes@.len() - i,
    {
        let ghost tv = tview(*self);
        proof {
            assert(tv[i as int] == nview(self.nodes@[i as int]));
            lemma_children_total_nonneg(tv, tv[i as int].3, i as int);
        }
        let node = &self.nodes[i];
        let mut acc: u64 = node.size;
        let ghost cs = tv[i as int].3;
        let mut k: usize = 0;
        proof {
            assert(cs.skip(0) =~= cs);
            assert(cs =~= node.children@.map_values(|c: usize| c as int));
        }
        while k < node.children.len()
            invariant
                k <= node.children@.len() == cs.len(),
                arena_wf(tv),
                tv == tview(*self),
                i < tv.len(),
                node == self.nodes@[i as int],
                cs == tv[i as int].3,
                spec_total(tv, i as int) <= u64::MAX,
                forall|q: int| 0 <= q < cs.len() ==> i < #[trigger] cs[q] && cs[q] < tv.len(),
                forall|q: int| 0 <= q < cs.len() ==> cs[q] == node.children@[q],
                acc + children_total(tv, cs.skip(k as int), i as int) == spec_total(tv, i as int),
            decreases cs.len() - k,
        {
            let ghost rest = cs.skip(k as int);
            proof {
                assert(rest[0] == cs[k as int]);
                assert(rest.drop_first() =~= cs.skip(k + 1));
                assert(forall|q: int|
                    0 <= q < rest.len() ==> (i as int) < #[trigger] rest[q] && rest[q] < tv.len());
                lemma_total_nonneg(tv, cs[k as int]);
                assert(forall|q: int|
                    0 <= q < rest.drop_first().len() ==> (i as int) < #[trigger] rest.drop_first()[q]
                        && rest.drop_first()[q] < tv.len());
                lemma_children_total_nonneg(tv, rest.drop_first(), i as int);
                assert(acc >= 0 && spec_total(tv, cs[k as int]) >= 0);
                assert(acc + spec_total(tv, cs[k as int]) <= u64::MAX);
            }
            let child = node.children[k];
            let sub = self.total_size(child);
            acc = acc + sub;
            k = k + 1;
        }
        proof {
            assert(cs.skip(cs.len() as int) =~= Seq::<int>::empty());
        }
        acc
    }

    /// Every directory of the subtree at `i`, the node itself first, in one
    /// consistent preorder.
    pub fn all_dirs(&self, i: usize) -> (r: Vec<usize>)
        requires
            arena_wf(tview(*self)),
            i < self.nodes@.len(),
        ensures
            r@.map_values(|d: usize| d as int) == spec_all_dirs(tview(*self), i as int),
            forall|q: int| 0 <= q < r@.len() ==> i <= #[trigger] r@[q] && r@[q] < self.nodes@.len(),
        decreases self.nodes@.len() - i,
    {
        let ghost tv = tview(*self);
        proof {
            assert(tv[i as int] == nview(self.nodes@[i as int]));
        }
        let mut r: Vec<usize> = Vec::new();
        r.push(i);
        let ghost cs = tv[i as int].3;
        let mut k: usize = 0;
        proof {
            assert(cs =~= self.nodes@[i as int].children@.map_values(|c: usize| c as int));
            assert(r@.map_values(|d: usize| d as int) =~= seq![i as int]);
            assert(seq![i as int] + dirs_prefix(tv, cs, i as int, 0) =~= seq![i as int]);
        }
        while k < self.nodes[i].children.len()
            invariant
                k <= cs.len(),
                arena_wf(tv),
                tv == tview(*self),
                i < tv.len(),
                cs == tv[i as int].3,
                cs.len() == self.nodes@[i as int].children@.len(),
                forall|q: int| 0 <= q < cs.len() ==> i < #[trigger] cs[q] && cs[q] < tv.len(),
                forall|q: int|
                    0 <= q < cs.len() ==> cs[q] == self.nodes@[i as int].children@[q],
                r@.map_values(|d: usize| d as int) == seq![i as int] + dirs_prefix(
                    tv,
                    cs,
                    i as int,
                    k as int,
                ),
                forall|q: int|
                    0 <= q < r@.len() ==> i <= #[trigger] r@[q] && r@[q] < self.nodes@.len(),
            decreases cs.len() - k,
        {
            let child = self.nodes[i].children[k];
            proof {
                assert(cs[k as int] == child);
                lemma_dirs_prefix_step(tv, cs, i as int, k as int);
            }
            if self.nodes[child].size == 0 {
                assert(tv[child as int].2 == 0) by {
                    assert(tv[child as int] == nview(self.nodes@[child as int]));
                }
                let sub = self.all_dirs(child);
                let ghost before = r@;
                let mut t: usize = 0;
                while t < sub.len()
                    invariant
                        t <= sub@.len(),
                        r@ == before + sub@.take(t as int),
                        i < child < self.nodes@.len(),
                        forall|q: int|
                            0 <= q < sub@.len() ==> child <= #[trigger] sub@[q] && sub@[q]
                                < self.nodes@.len(),
                        forall|q: int|
                            0 <= q < before.len() ==> i <= #[trigger] before[q] && before[q]
                                < self.nodes@.len(),
                    decreases sub@.len() - t,
                {
                    r.push(sub[t]);
                    assert(r@ =~= before + sub@.take(t + 1));
                    t = t + 1;
                }
                proof {
                    assert(sub@.take(sub@.len() as int) =~= sub@);
                    assert(r@.map_values(|d: usize| d as int) =~= before.map_values(
                        |d: usize| d as int,
                    ) + sub@.map_values(|d: usize| d as int));
                    assert((seq![i as int] + dirs_prefix(tv, cs, i as int, k as int))
                        + spec_all_dirs(tv, child as int) =~= seq![i as int] + (dirs_prefix(
                        tv,
                        cs,
                        i as int,
                        k as int,
                    ) + spec_all_dirs(tv, child as int)));
                }
            } else {
                proof {
                    assert(tv[child as int].2 != 0) by {
                        assert(tv[child as int] == nview(self.nodes@[child as int]));
                    }
                    assert(dirs_prefix(tv, cs, i as int, k + 1) =~= dirs_prefix(
                        tv,
                        cs,
                        i as int,
                        k as int,
                    ));
                }
            }
            k = k + 1;
        }
        proof {
            lemma_dirs_prefix_all(tv, cs, i as int, cs.len() as int);
        }
        r
    }
}

/// The directories found among the first `k` children.
pub open spec fn dirs_prefix(
    nodes: Seq<(int, Seq<char>, u64, Seq<int>)>,
    cs: Seq<int>,
    lo: int,
    k: int,
) -> Seq<int>
    decreases k,
    when arena_wf(nodes) && 0 <= lo && 0 <= k <= cs.len() && (forall|q: int|
        0 <= q < cs.len() ==> lo < #[trigger] cs[q] && cs[q] < nodes.len())
{
    if k <= 0 {
        Seq::empty()
    } else {
        dirs_prefix(nodes, cs, lo, k - 1) + (if nodes[cs[k - 1]].2 == 0 {
            spec_all_dirs(nodes, cs[k - 1])
        } else {
            Seq::empty()
        })
    }
}

/// One more child extends the found directories by that child's subtree.
proof fn lemma_dirs_prefix_step(
    nodes: Seq<(int, Seq<char>, u64, Seq<int>)>,
    cs: Seq<int>,
    lo: int,
    k: int,
)
    requires
        arena_wf(nodes),
        0 <= lo,
        0 <= k < cs.len(),
        forall|q: int| 0 <= q < cs.len() ==> lo < #[trigger] cs[q] && cs[q] < nodes.len(),
    ensures
        dirs_prefix(nodes, cs, lo, k + 1) == dirs_prefix(nodes, cs, lo, k) + (if nodes[cs[k]].2
            == 0 {
            spec_all_dirs(nodes, cs[k])
        } else {
            Seq::<int>::empty()
        }),
{
}

/// All the children found is the same as the recursive gathering.
proof fn lemma_dirs_prefix_all(
    nodes: Seq<(int, Seq<char>, u64, Seq<int>)>,
    cs: Seq<int>,
    lo: int,
    k: int,
)
    requires
        arena_wf(nodes),
        0 <= lo,
        0 <= k <= cs.len(),
        forall|q: int| 0 <= q < cs.len() ==> lo < #[trigger] cs[q] && cs[q] < nodes.len(),
    ensures
        dirs_prefix(nodes, cs, lo, k) + dirs_of_children(nodes, cs.skip(k), lo)
            == dirs_of_children(nodes, cs, lo),
    decreases k,
{
    if k == 0 {
        assert(cs.skip(0) =~= cs);
        assert(Seq::<int>::empty() + dirs_of_children(nodes, cs, lo) =~= dirs_of_children(
            nodes,
            cs,
            lo,
        ));
    } else {
        lemma_dirs_prefix_all(nodes, cs, lo, k - 1);
        let rest = cs.skip(k - 1);
        assert(rest[0] == cs[k - 1]);
        assert(rest.drop_first() =~= cs.skip(k));
        assert(forall|q: int|
            0 <= q < rest.len() ==> lo < #[trigger] rest[q] && rest[q] < nodes.len());
        assert(dirs_of_children(nodes, rest, lo) == (if nodes[cs[k - 1]].2 == 0 {
            spec_all_dirs(nodes, cs[k - 1])
        } else {
            Seq::<int>::empty()
        }) + dirs_of_children(nodes, cs.skip(k), lo));
        assert((dirs_prefix(nodes, cs, lo, k - 1) + (if nodes[cs[k - 1]].2 == 0 {
            spec_all_dirs(nodes, cs[k - 1])
        } else {
            Seq::<int>::empty()
        })) + dirs_of_children(nodes, cs.skip(k), lo) =~= dirs_prefix(nodes, cs, lo, k - 1) + ((
        if nodes[cs[k - 1]].2 == 0 {
            spec_all_dirs(nodes, cs[k - 1])
        } else {
            Seq::<int>::empty()
        }) + dirs_of_children(nodes, cs.skip(k), lo)));
    }
}

/// Reads the whole transcript into a tree, or reports the offending line.
pub fn read_input(content: &str) -> (r: Result<Tree, Error>)
    ensures
        build_result(content@) matches Ok(st) ==> (r matches Ok(t) && tview(t) == st.0
            && arena_wf(tview(t))),
        build_result(content@) matches Err(e) ==> r == Err::<Tree, Error>(Error::Parse(e as usize)),
{
    let ls = text::lines_of(content);
    let ghost lsv = ls.deep_view();
    let mut nodes: Vec<Node> = Vec::new();
    nodes.push(Node { parent: 0, name: tail_of(&ls_root(), 0), size: 0, children: Vec::new() });
    let mut tree = Tree { nodes };
    let mut cursor: usize = 0;
    proof {
        assert(tview(tree) =~= root_state().0) by {
            assert(nview(tree.nodes@[0]) == (0int, seq!['/'], 0u64, Seq::<int>::empty())) by {
                assert(tree.nodes@[0].children@.map_values(|c: usize| c as int)
                    =~= Seq::<int>::empty());
            }
        }
    }
    let mut i: usize = 0;
    while i < ls.len()
        invariant
            i <= ls@.len(),
            lsv == ls.deep_view(),
            state_wf((tview(tree), cursor as int)),
            cursor < tree.nodes@.len(),
            build_from(lsv, 0, root_state()) == build_from(
                lsv,
                i as int,
                (tview(tree), cursor as int),
            ),
        decreases ls@.len() - i,
    {
        let line = &ls[i];
        assert(line@ == lsv[i as int]);
        let parsed = match parse_line(line) {
            Some(l) => l,
            None => {
                return Err(Error::Parse(i));
            },
        };
        let ghost st = (tview(tree), cursor as int);
        let ghost lv = spec_parse_line(lsv[i as int])->0;
        proof {
            lemma_apply_line_wf(st, lv);
        }
        match parsed {
            Line::Command(Command::List(_)) => {},
            Line::Command(Command::ChangeDirectory(cd)) => {
                let name = cd.0;
                if name.len() == 1 && name[0] == '/' {
                    assert(name@ =~= seq!['/']);
                    cursor = 0;
                } else if name.len() == 2 && name[0] == '.' && name[1] == '.' {
                    assert(name@ =~= seq!['.', '.']);
                    assert(name@ != seq!['/']);
                    assert(tview(tree)[cursor as int] == nview(tree.nodes@[cursor as int]));
                    cursor = tree.nodes[cursor].parent;
                } else {
                    proof {
                        assert(name@ != seq!['/']) by {
                            if name@ == seq!['/'] {
                                assert(name@.len() == 1 && name@[0] == '/');
                            }
                        }
                        assert(name@ != seq!['.', '.']) by {
                            if name@ == seq!['.', '.'] {
                                assert(name@.len() == 2 && name@[0] == '.' && name@[1] == '.');
                            }
                        }
                    }
                    match find_child_at(&tree, cursor, &name) {
                        Some(c) => {
                            cursor = c;
                        },
                        None => {
                            let fresh = tree.nodes.len();
                            insert_node(&mut tree, cursor, name, 0);
                            cursor = fresh;
                        },
                    }
                }
            },
            Line::Entry(Entry::Dir(name)) => {
                match find_child_at(&tree, cursor, &name) {
                    Some(_) => {
                        proof {
                            assert(insert_entry(st.0, st.1, name@, 0) == st.0);
                        }
                    },
                    None => {
                        insert_node(&mut tree, cursor, name, 0);
                    },
                }
            },
            Line::Entry(Entry::File(size, name)) => {
                match find_child_at(&tree, cursor, &name) {
                    Some(_) => {
                        proof {
                            assert(insert_entry(st.0, st.1, name@, size) == st.0);
                        }
                    },
                    None => {
                        insert_node(&mut tree, cursor, name, size);
                    },
                }
            },
        }
        i = i + 1;
    }
    Ok(tree)
}

/// The one-character root name.
fn ls_root() -> (r: Vec<char>)
    ensures
        r@ == seq!['/'],
{
    let mut v: Vec<char> = Vec::new();
    v.push('/');
    proof {
        assert(v@ =~= seq!['/']);
    }
    v
}

/// Finds the child of `cur` with the given name.
fn find_child_at(tree: &Tree, cur: usize, name: &Vec<char>) -> (r: Option<usize>)
    requires
        arena_wf(tview(*tree)),
        cur < tree.nodes@.len(),
    ensures
        find_child(tview(*tree), tview(*tree)[cur as int].3, name@) matches Some(c) ==> (r matches
            Some(u) && u as int == c && cur < u < tree.nodes@.len()),
        find_child(tview(*tree), tview(*tree)[cur as int].3, name@) is None ==> r is None,
{
    let ghost tv = tview(*tree);
    let ghost cs = tv[cur as int].3;
    proof {
        assert(tv[cur as int] == nview(tree.nodes@[cur as int]));
        assert(cs.skip(0) =~= cs);
    }
    let n = tree.nodes[cur].children.len();
    let mut k: usize = 0;
    while k < n
        invariant
            k <= n == cs.len(),
            arena_wf(tv),
            tv == tview(*tree),
            cur < tv.len(),
            cs == tv[cur as int].3,
            cs.len() == tree.nodes@[cur as int].children@.len(),
            forall|q: int| 0 <= q < cs.len() ==> cs[q] == tree.nodes@[cur as int].children@[q],
            find_child(tv, cs, name@) == find_child(tv, cs.skip(k as int), name@),
        decreases n - k,
    {
        let ghost rest = cs.skip(k as int);
        proof {
            assert(rest[0] == cs[k as int]);
            assert(rest.drop_first() =~= cs.skip(k + 1));
        }
        let child = tree.nodes[cur].children[k];
        assert(tv[child as int] == nview(tree.nodes@[child as int]));
        if eq_names(&tree.nodes[child].name, name) {
            proof {
                lemma_find_in_children(tv, cs, name@, cur as int);
            }
            return Some(child);
        }
        k = k + 1;
    }
    proof {
        assert(cs.skip(cs.len() as int) =~= Seq::<int>::empty());
    }
    None
}

/// Compares two path segments character by character.
fn eq_names(a: &Vec<char>, b: &Vec<char>) -> (r: bool)
    ensures
        r == (a@ == b@),
{
    if a.len() != b.len() {
        return false;
    }
    let mut k: usize = 0;
    while k < a.len()
        invariant
            k <= a@.len() == b@.len(),
            forall|j: int| 0 <= j < k ==> a@[j] == b@[j],
        decreases a@.len() - k,
    {
        if a[k] != b[k] {
            return false;
        }
        k = k + 1;
    }
    proof {
        assert(a@ =~= b@);
    }
    true
}

/// Appends a fresh node under `cur`, where no child of that name exists yet.
fn insert_node(tree: &mut Tree, cur: usize, name: Vec<char>, size: u64)
    requires
        arena_wf(tview(*old(tree))),
        cur < old(tree).nodes@.len(),
        find_child(tview(*old(tree)), tview(*old(tree))[cur as int].3, name@) is None,
    ensures
        tview(*final(tree)) == insert_entry(tview(*old(tree)), cur as int, name@, size),
        final(tree).nodes@.len() == old(tree).nodes@.len() + 1,
{
    let ghost tv = tview(*old(tree));
    let fresh = tree.nodes.len();
    tree.nodes.push(Node { parent: cur, name, size, children: Vec::new() });
    let mut kids = copy_usizes(&tree.nodes[cur].children);
    kids.push(fresh);
    let ghost old_node = tree.nodes@[cur as int];
    let parent = tree.nodes[cur].parent;
    let pname = tail_of(&tree.nodes[cur].name, 0);
    let psize = tree.nodes[cur].size;
    tree.nodes[cur] = Node { parent, name: pname, size: psize, children: kids };
    proof {
        assert(tree.nodes@[cur as int].name@ =~= old_node.name@);
        let target = insert_entry(tv, cur as int, name@, size);
        let idx = tv.len() as int;
        let n2 = tv.push((cur as int, name@, size, Seq::empty()));
        assert(target == n2.update(
            cur as int,
            (n2[cur as int].0, n2[cur as int].1, n2[cur as int].2, n2[cur as int].3.push(idx)),
        ));
        assert forall|q: int| 0 <= q < tview(*tree).len() implies #[trigger] tview(*tree)[q]
            == target[q] by {
            assert(tview(*tree)[q] == nview(tree.nodes@[q]));
            if q == cur {
                assert(tree.nodes@[q].children@.map_values(|c: usize| c as int)
                    =~= tv[cur as int].3.push(idx));
            } else if q < tv.len() {
                assert(tree.nodes@[q] == old(tree).nodes@[q]);
                assert(tv[q] == nview(old(tree).nodes@[q]));
            } else {
                assert(tree.nodes@[q].children@.map_values(|c: usize| c as int)
                    =~= Seq::<int>::empty());
            }
        }
        assert(tview(*tree) =~= target);
    }
}

/// The summed totals of the directories among `ds` at most 100000 in size.
pub open spec fn small_dirs_sum(
    nodes: Seq<(int, Seq<char>, u64, Seq<int>)>,
    ds: Seq<int>,
) -> int
    decreases ds.len(),
{
    if ds.len() == 0 {
        0
    } else {
        small_dirs_sum(nodes, ds.drop_last()) + (if spec_total(nodes, ds.last()) <= 100000 {
            spec_total(nodes, ds.last())
        } else {
            0int
        })
    }
}

/// Whether the input builds a tree whose totals and whose answer fit the
/// machine.
pub open spec fn totals_fit(content: Seq<char>) -> bool {
    match build_result(content) {
        Ok(st) => (forall|d: int|
            0 <= d < st.0.len() ==> #[trigger] spec_total(st.0, d) <= u64::MAX) && small_dirs_sum(
            st.0,
            spec_all_dirs(st.0, 0),
        ) <= u64::MAX,
        Err(_) => true,
    }
}

/// The sum of the total sizes of all directories of at most 100000.
pub fn run_challenge1(content: &str) -> (r: Result<u64, Error>)
    requires
        totals_fit(content@),
    ensures
        build_result(content@) matches Ok(st) ==> r == Ok::<u64, Error>(
            small_dirs_sum(st.0, spec_all_dirs(st.0, 0)) as u64,
        ),
        build_result(content@) matches Err(e) ==> r == Err::<u64, Error>(Error::Parse(e as usize)),
{
    let tree = match read_input(content) {
        Ok(t) => t,
        Err(e) => {
            return Err(e);
        },
    };
    let ghost tv = tview(tree);
    let dirs = tree.all_dirs(0);
    let ghost ds = spec_all_dirs(tv, 0);
    proof {
        lemma_small_sum_bounds(tv, ds, ds.len() as int);
        assert(ds.take(ds.len() as int) =~= ds);
    }
    let mut sum: u64 = 0;
    let mut k: usize = 0;
    while k < dirs.len()
        invariant
            k <= dirs@.len() == ds.len(),
            arena_wf(tv),
            tv == tview(tree),
            forall|q: int| 0 <= q < ds.len() ==> dirs@[q] as int == #[trigger] ds[q],
            forall|q: int| 0 <= q < ds.len() ==> 0 <= #[trigger] ds[q] < tv.len(),
            forall|d: int| 0 <= d < tv.len() ==> #[trigger] spec_total(tv, d) <= u64::MAX,
            small_dirs_sum(tv, ds) <= u64::MAX,
            forall|j: int|
                0 <= j <= ds.len() ==> 0 <= #[trigger] small_dirs_sum(tv, ds.take(j))
                    <= small_dirs_sum(tv, ds),
            sum == small_dirs_sum(tv, ds.take(k as int)),
        decreases ds.len() - k,
    {
        proof {
            assert(ds.take(k + 1).drop_last() =~= ds.take(k as int));
            assert(ds.take(k + 1).last() == ds[k as int]);
        }
        let d = dirs[k];
        let t = tree.total_size(d);
        if t <= 100000 {
            assert(small_dirs_sum(tv, ds.take(k + 1)) <= u64::MAX);
            sum = sum + t;
        }
        k = k + 1;
    }
    assert(ds.take(ds.len() as int) =~= ds);
    Ok(sum)
}

/// Prefix sums of the small-directory total are bounded by the whole.
proof fn lemma_small_sum_bounds(
    nodes: Seq<(int, Seq<char>, u64, Seq<int>)>,
    ds: Seq<int>,
    n: int,
)
    requires
        arena_wf(nodes),
        0 <= n <= ds.len(),
        forall|q: int| 0 <= q < ds.len() ==> 0 <= #[trigger] ds[q] < nodes.len(),
    ensures
        forall|j: int|
            0 <= j <= n ==> 0 <= #[trigger] small_dirs_sum(nodes, ds.take(j)) <= small_dirs_sum(
                nodes,
                ds.take(n),
            ),
    decreases n,
{
    if n > 0 {
        lemma_small_sum_bounds(nodes, ds, n - 1);
        assert(ds.take(n).drop_last() =~= ds.take(n - 1));
        assert(ds.take(n).last() == ds[n - 1]);
        lemma_total_nonneg(nodes, ds[n - 1]);
        assert(small_dirs_sum(nodes, ds.take(n - 1)) <= small_dirs_sum(nodes, ds.take(n)));
        assert forall|j: int| 0 <= j <= n implies 0 <= #[trigger] small_dirs_sum(
            nodes,
            ds.take(j),
        ) <= small_dirs_sum(nodes, ds.take(n)) by {
            if j < n {
                assert(small_dirs_sum(nodes, ds.take(j)) <= small_dirs_sum(nodes, ds.take(n - 1)));
            }
        }
    } else {
        assert(ds.take(0) =~= Seq::<int>::empty());
    }
}

/// Space bookkeeping of the second challenge: of seventy million units in
/// all, thirty million must be free; the smallest directory total at least
/// the missing amount is the answer.
pub open spec fn space_needed(nodes: Seq<(int, Seq<char>, u64, Seq<int>)>) -> int {
    30000000 - (70000000 - spec_total(nodes, 0))
}

/// Whether the tree's use of space allows the second challenge's arithmetic.
pub open spec fn space_fits(content: Seq<char>) -> bool {
    match build_result(content) {
        Ok(st) => (forall|d: int|
            0 <= d < st.0.len() ==> #[trigger] spec_total(st.0, d) <= u64::MAX) && 40000000
            <= spec_total(st.0, 0) <= 70000000,
        Err(_) => true,
    }
}

/// The total size of the smallest directory whose removal frees enough space.
pub fn run_challenge2(content: &str) -> (r: Result<u64, Error>)
    requires
        space_fits(content@),
    ensures
        build_result(content@) matches Ok(st) ==> {
            let ds = spec_all_dirs(st.0, 0);
            &&& (r is Ok || r == Err::<u64, Error>(Error::NoDirectoryFound))
            &&& (r matches Ok(m) ==> (exists|q: int|
                0 <= q < ds.len() && #[trigger] spec_total(st.0, ds[q]) == m && m >= space_needed(
                    st.0,
                )) && (forall|q: int|
                0 <= q < ds.len() && #[trigger] spec_total(st.0, ds[q]) >= space_needed(st.0)
                    ==> m <= spec_total(st.0, ds[q])))
            &&& ((r matches Err(e) && e == Error::NoDirectoryFound) <==> (forall|q: int|
                0 <= q < ds.len() ==> #[trigger] spec_total(st.0, ds[q]) < space_needed(st.0)))
        },
        build_result(content@) matches Err(e) ==> r == Err::<u64, Error>(Error::Parse(e as usize)),
{
    let tree = match read_input(content) {
        Ok(t) => t,
        Err(e) => {
            return Err(e);
        },
    };
    let ghost tv = tview(tree);
    let used = tree.total_size(0);
    let free_space = 70000000 - used;
    let minimum_space_to_free = 30000000 - free_space;
    let dirs = tree.all_dirs(0);
    let ghost ds = spec_all_dirs(tv, 0);
    let mut best: u64 = 0;
    let mut found = false;
    let ghost mut witness: int = 0;
    let mut k: usize = 0;
    while k < dirs.len()
        invariant
            k <= dirs@.len() == ds.len(),
            arena_wf(tv),
            tv == tview(tree),
            forall|q: int| 0 <= q < ds.len() ==> dirs@[q] as int == #[trigger] ds[q],
            forall|q: int| 0 <= q < ds.len() ==> 0 <= #[trigger] ds[q] < tv.len(),
            forall|d: int| 0 <= d < tv.len() ==> #[trigger] spec_total(tv, d) <= u64::MAX,
            minimum_space_to_free == space_needed(tv),
            found ==> 0 <= witness < ds.len() && best == spec_total(tv, ds[witness])
                && best >= space_needed(tv),
            forall|q: int|
                0 <= q < k && #[trigger] spec_total(tv, ds[q]) >= space_needed(tv) ==> found
                    && best <= spec_total(tv, ds[q]),
        decreases ds.len() - k,
    {
        let d = dirs[k];
        let t = tree.total_size(d);
        if t >= minimum_space_to_free {
            if !found || t < best {
                best = t;
                found = true;
                proof {
                    witness = k as int;
                }
            }
        }
        k = k + 1;
    }
    if found {
        Ok(best)
    } else {
        Err(Error::NoDirectoryFound)
    }
}

/// Copies a child list.
fn copy_usizes(v: &Vec<usize>) -> (r: Vec<usize>)
    ensures
        r@ == v@,
{
    let mut r: Vec<usize> = Vec::new();
    let mut k: usize = 0;
    while k < v.len()
        invariant
            k <= v@.len(),
            r@ == v@.take(k as int),
        decreases v@.len() - k,
    {
        r.push(v[k]);
        assert(r@ =~= v@.take(k + 1));
        k = k + 1;
    }
    assert(v@.take(v@.len() as int) =~= v@);
    r
}

} // verus!
