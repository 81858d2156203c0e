//! The grid model: interprets raw text as a two-dimensional character grid
//! and exposes dimensions, the rectangularity check, distinct-character
//! enumeration and coordinate-indexed lookup.

use vstd::prelude::*;
use vstd::string::StrSliceExecFns;
use itertools::Itertools;

verus! {

/// A grid cell address: `x` counts characters within a row, `y` counts rows
/// downward from the top-left origin.
#[derive(PartialEq, Eq, Structural, Clone, Copy, Debug)]
pub struct Location {
    pub x: isize,
    pub y: isize,
}

/// A pair of coordinate deltas; the four unit offsets define orthogonal
/// adjacency.
#[derive(PartialEq, Eq, Structural, Clone, Copy, Debug)]
pub struct Offset {
    pub x: isize,
    pub y: isize,
}

impl Location {
    pub fn new(x: isize, y: isize) -> (r: Self)
        ensures
            r.x == x && r.y == y,
    {
        Location { x, y }
    }

    /// The location translated by an offset.
    pub fn plus(&self, o: Offset) -> (r: Self)
        requires
            isize::MIN <= self.x + o.x <= isize::MAX,
            isize::MIN <= self.y + o.y <= isize::MAX,
        ensures
            r.x == self.x + o.x && r.y == self.y + o.y,
    {
        Location { x: self.x + o.x, y: self.y + o.y }
    }
}

impl Offset {
    pub fn new(x: isize, y: isize) -> (r: Self)
        ensures
            r.x == x && r.y == y,
    {
        Offset { x, y }
    }

    /// The offset scaled by a multiplier.
    pub fn times(&self, multiplier: isize) -> (r: Self)
        requires
            isize::MIN <= self.x * multiplier <= isize::MAX,
            isize::MIN <= self.y * multiplier <= isize::MAX,
        ensures
            r.x == self.x * multiplier && r.y == self.y * multiplier,
    {
        Offset { x: self.x * multiplier, y: self.y * multiplier }
    }
}

/// Whether `(x, y)` addresses a cell of the grid `g`.
pub open spec fn cell_in(g: Seq<Seq<char>>, x: int, y: int) -> bool {
    0 <= y < g.len() && 0 <= x < g[y].len()
}

/// The character stored at `(x, y)`.
pub open spec fn cell(g: Seq<Seq<char>>, x: int, y: int) -> char {
    g[y][x]
}

/// Whether a location addresses a cell of the grid.
pub open spec fn in_grid(g: Seq<Seq<char>>, l: Location) -> bool {
    cell_in(g, l.x as int, l.y as int)
}

/// The character at a location.
pub open spec fn char_at_spec(g: Seq<Seq<char>>, l: Location) -> char {
    cell(g, l.x as int, l.y as int)
}

/// Every row has the same character count as the first.
pub open spec fn is_rectangular(g: Seq<Seq<char>>) -> bool {
    forall|y: int| 0 <= y < g.len() ==> (#[trigger] g[y]).len() == g[0].len()
}

/// The shape every search over a grid relies on: at least one row, at least
/// one column, rectangular, and dimensions that fit in `isize` coordinates.
pub open spec fn grid_wf(g: Seq<Seq<char>>) -> bool {
    &&& g.len() >= 1
    &&& g[0].len() >= 1
    &&& is_rectangular(g)
    &&& g.len() <= isize::MAX as int
    &&& g[0].len() <= isize::MAX as int
}

/// The rows of a text, split at `'\n'`, with a `'\r'` immediately before a
/// `'\n'` dropped and without a trailing empty row after a final `'\n'`.
pub open spec fn split_lines(s: Seq<char>) -> Seq<Seq<char>>
    decreases s.len(),
{
    if s.len() == 0 {
        Seq::empty()
    } else if s[0] == '\n' {
        seq![Seq::<char>::empty()] + split_lines(s.skip(1))
    } else if s[0] == '\r' && s.len() >= 2 && s[1] == '\n' {
        seq![Seq::<char>::empty()] + split_lines(s.skip(2))
    } else {
        let rest = split_lines(s.skip(1));
        if rest.len() == 0 {
            seq![seq![s[0]]]
        } else {
            rest.update(0, seq![s[0]] + rest[0])
        }
    }
}

/// A row as it is recorded when a `'\n'` ends it: a final `'\r'` is dropped.
pub open spec fn strip_carriage_return(line: Seq<char>) -> Seq<char> {
    if line.len() > 0 && line.last() == '\r' {
        line.drop_last()
    } else {
        line
    }
}

/// The characters of `s` with every `'\n'` removed, in order.
pub open spec fn strip_newlines(s: Seq<char>) -> Seq<char>
    decreases s.len(),
{
    if s.len() == 0 {
        Seq::empty()
    } else if s.last() == '\n' {
        strip_newlines(s.drop_last())
    } else {
        strip_newlines(s.drop_last()).push(s.last())
    }
}

/// The subsequence of `s` keeping only the first occurrence of each
/// character.
pub open spec fn dedup_first(s: Seq<char>) -> Seq<char>
    decreases s.len(),
{
    if s.len() == 0 {
        Seq::empty()
    } else {
        let rest = dedup_first(s.drop_last());
        if rest.contains(s.last()) {
            rest
        } else {
            rest.push(s.last())
        }
    }
}

/// Splitting text that holds a newline-free prefix `cur` followed by `'\n'`
/// yields `cur` (with a trailing `'\r'` stripped) as the first row.
proof fn lemma_split_lines_close(cur: Seq<char>, rest: Seq<char>)
    requires
        forall|j: int| 0 <= j < cur.len() ==> cur[j] != '\n',
    ensures
        split_lines(cur + seq!['\n'] + rest) == seq![strip_carriage_return(cur)] + split_lines(
            rest,
        ),
    decreases cur.len(),
{
    let s = cur + seq!['\n'] + rest;
    if cur.len() == 0 {
        assert(s[0] == '\n');
        assert(s.skip(1) =~= rest);
        assert(strip_carriage_return(cur) =~= Seq::<char>::empty());
    } else {
        let c = cur[0];
        let cur2 = cur.drop_first();
        assert(s[0] == c && c != '\n');
        if cur.len() == 1 {
            assert(s[1] == '\n');
            if c == '\r' {
                assert(s.skip(2) =~= rest);
                assert(strip_carriage_return(cur) =~= Seq::<char>::empty());
            } else {
                assert(s.skip(1) =~= cur2 + seq!['\n'] + rest);
                lemma_split_lines_close(cur2, rest);
                assert(strip_carriage_return(cur2) =~= Seq::<char>::empty());
                let inner = seq![strip_carriage_return(cur2)] + split_lines(rest);
                assert(split_lines(s) == inner.update(0, seq![c] + inner[0]));
                assert(seq![c] + inner[0] =~= strip_carriage_return(cur));
                assert(split_lines(s) =~~= seq![strip_carriage_return(cur)] + split_lines(rest));
            }
        } else {
            assert(s[1] == cur[1] && cur[1] != '\n');
            assert(s.skip(1) =~= cur2 + seq!['\n'] + rest);
            lemma_split_lines_close(cur2, rest);
            let inner = seq![strip_carriage_return(cur2)] + split_lines(rest);
            assert(split_lines(s) == inner.update(0, seq![c] + inner[0]));
            assert(cur2.len() > 0);
            assert(cur.last() == cur2.last());
            if cur.last() == '\r' {
                assert(seq![c] + cur2.drop_last() =~= cur.drop_last());
            } else {
                assert(seq![c] + cur2 =~= cur);
            }
            assert(seq![c] + inner[0] =~= strip_carriage_return(cur));
            assert(split_lines(s) =~~= seq![strip_carriage_return(cur)] + split_lines(rest));
        }
    }
}

/// A non-empty newline-free text is a single row, kept as written.
pub proof fn lemma_split_lines_tail(cur: Seq<char>)
    requires
        cur.len() > 0,
        forall|j: int| 0 <= j < cur.len() ==> cur[j] != '\n',
    ensures
        split_lines(cur) == seq![cur],
    decreases cur.len(),
{
    let c = cur[0];
    let cur2 = cur.drop_first();
    assert(c != '\n');
    if cur.len() == 1 {
        assert(cur.skip(1) =~= Seq::<char>::empty());
        assert(split_lines(Seq::<char>::empty()) =~~= Seq::<Seq<char>>::empty());
        assert(split_lines(cur) =~~= seq![seq![c]]);
        assert(seq![seq![c]] =~~= seq![cur]);
    } else {
        assert(cur[1] != '\n');
        lemma_split_lines_tail(cur2);
        assert(cur.skip(1) =~= cur2);
        let inner = seq![cur2];
        assert(split_lines(cur) == inner.update(0, seq![c] + inner[0]));
        assert(seq![c] + cur2 =~= cur);
        assert(split_lines(cur) =~~= seq![cur]);
    }
}

/// The characters of a text, one grid-cell unit per unicode character.
pub fn to_chars(s: &str) -> (r: Vec<char>)
    ensures
        r@ == s@,
{
    let n: usize = s.unicode_len();
    let mut v: Vec<char> = Vec::new();
    let mut i: usize = 0;
    while i < n
        invariant
            i <= n,
            n == s@.len(),
            v@ == s@.take(i as int),
        decreases n - i,
    {
        v.push(s.get_char(i));
        i = i + 1;
        proof {
            assert(v@ =~= s@.take(i as int));
        }
    }
    proof {
        assert(v@ =~= s@);
    }
    v
}

/// The rows of the text, split as `split_lines` describes.
pub fn lines(s: &Vec<char>) -> (rows: Vec<Vec<char>>)
    ensures
        rows.deep_view() == split_lines(s@),
{
    let n: usize = s.len();
    let mut rows: Vec<Vec<char>> = Vec::new();
    let mut cur: Vec<char> = Vec::new();
    let mut i: usize = 0;
    proof {
        assert(cur@ + s@.skip(0) =~= s@);
        assert(rows.deep_view() =~~= Seq::<Seq<char>>::empty());
        assert(rows.deep_view() + split_lines(cur@ + s@.skip(0)) =~~= split_lines(s@));
    }
    while i < n
        invariant
            i <= n,
            n == s@.len(),
            forall|j: int| 0 <= j < cur@.len() ==> cur@[j] != '\n',
            split_lines(s@) == rows.deep_view() + split_lines(cur@ + s@.skip(i as int)),
        decreases n - i,
    {
        let c = s[i];
        let ghost rows0 = rows.deep_view();
        if c == '\n' {
            let ghost cur0 = cur@;
            if cur.len() > 0 && cur[cur.len() - 1] == '\r' {
                cur.pop();
            }
            proof {
                assert(cur@ =~= strip_carriage_return(cur0));
                assert(cur0 + s@.skip(i as int) =~= cur0 + seq!['\n'] + s@.skip(i as int + 1));
                lemma_split_lines_close(cur0, s@.skip(i as int + 1));
            }
            rows.push(cur);
            cur = Vec::new();
            proof {
                assert(rows.deep_view() =~~= rows0.push(strip_carriage_return(cur0)));
                assert(rows0 + (seq![strip_carriage_return(cur0)] + split_lines(
                    s@.skip(i as int + 1),
                )) =~~= rows.deep_view() + split_lines(s@.skip(i as int + 1)));
                assert(cur@ + s@.skip(i as int + 1) =~= s@.skip(i as int + 1));
            }
        } else {
            let ghost cur0 = cur@;
            cur.push(c);
            proof {
                assert(cur@ + s@.skip(i as int + 1) =~= cur0 + s@.skip(i as int));
            }
        }
        i = i + 1;
    }
    if cur.len() > 0 {
        let ghost rows0 = rows.deep_view();
        let ghost cur0 = cur@;
        proof {
            assert(cur@ + s@.skip(n as int) =~= cur@);
            lemma_split_lines_tail(cur@);
        }
        rows.push(cur);
        proof {
            assert(rows.deep_view() =~~= rows0.push(cur0));
            assert(rows0 + seq![cur0] =~~= rows.deep_view());
        }
    } else {
        proof {
            assert(cur@ + s@.skip(n as int) =~= Seq::<char>::empty());
        }
    }
    rows
}

/// The character count of each row, in row order.
pub fn widths(rows: &Vec<Vec<char>>) -> (r: Vec<usize>)
    ensures
        r@.len() == rows.deep_view().len(),
        forall|y: int| 0 <= y < r@.len() ==> r@[y] == rows.deep_view()[y].len(),
{
    let mut r: Vec<usize> = Vec::new();
    let mut y: usize = 0;
    while y < rows.len()
        invariant
            y <= rows@.len(),
            r@.len() == y,
            forall|j: int| 0 <= j < y ==> r@[j] == rows.deep_view()[j].len(),
        decreases rows@.len() - y,
    {
        r.push(rows[y].len());
        y = y + 1;
    }
    r
}

/// The widest row's character count.
pub fn max_width(rows: &Vec<Vec<char>>) -> (r: usize)
    requires
        rows.deep_view().len() >= 1,
    ensures
        forall|y: int| 0 <= y < rows.deep_view().len() ==> rows.deep_view()[y].len() <= r,
        exists|y: int| 0 <= y < rows.deep_view().len() && rows.deep_view()[y].len() == r,
{
    let ws = widths(rows);
    let mut r: usize = ws[0];
    let mut y: usize = 1;
    while y < ws.len()
        invariant
            1 <= y <= ws@.len(),
            ws@.len() == rows.deep_view().len(),
            forall|j: int| 0 <= j < ws@.len() ==> ws@[j] == rows.deep_view()[j].len(),
            forall|j: int| 0 <= j < y ==> rows.deep_view()[j].len() <= r,
            exists|j: int| 0 <= j < y && rows.deep_view()[j].len() == r,
        decreases ws@.len() - y,
    {
        if ws[y] > r {
            r = ws[y];
        }
        y = y + 1;
    }
    r
}

/// The narrowest row's character count.
pub fn min_width(rows: &Vec<Vec<char>>) -> (r: usize)
    requires
        rows.deep_view().len() >= 1,
    ensures
        forall|y: int| 0 <= y < rows.deep_view().len() ==> rows.deep_view()[y].len() >= r,
        exists|y: int| 0 <= y < rows.deep_view().len() && rows.deep_view()[y].len() == r,
{
    let ws = widths(rows);
    let mut r: usize = ws[0];
    let mut y: usize = 1;
    while y < ws.len()
        invariant
            1 <= y <= ws@.len(),
            ws@.len() == rows.deep_view().len(),
            forall|j: int| 0 <= j < ws@.len() ==> ws@[j] == rows.deep_view()[j].len(),
            forall|j: int| 0 <= j < y ==> rows.deep_view()[j].len() >= r,
            exists|j: int| 0 <= j < y && rows.deep_view()[j].len() == r,
        decreases ws@.len() - y,
    {
        if ws[y] < r {
            r = ws[y];
        }
        y = y + 1;
    }
    r
}

/// The grid's width: the widest row's character count.
pub fn width(rows: &Vec<Vec<char>>) -> (r: usize)
    requires
        rows.deep_view().len() >= 1,
    ensures
        forall|y: int| 0 <= y < rows.deep_view().len() ==> rows.deep_view()[y].len() <= r,
        exists|y: int| 0 <= y < rows.deep_view().len() && rows.deep_view()[y].len() == r,
        is_rectangular(rows.deep_view()) ==> r == rows.deep_view()[0].len(),
{
    max_width(rows)
}

/// The grid's height: its row count.
pub fn height(rows: &Vec<Vec<char>>) -> (r: usize)
    ensures
        r == rows.deep_view().len(),
{
    rows.len()
}

/// Whether the narrowest and the widest row have the same character count,
/// that is, whether every row has the same character count.
pub fn rectangle(rows: &Vec<Vec<char>>) -> (r: bool)
    requires
        rows.deep_view().len() >= 1,
    ensures
        r == is_rectangular(rows.deep_view()),
{
    let r = min_width(rows) == max_width(rows);
    r
}

/// Relies on itertools' `unique`: it yields each element of the input once,
/// keeping the first occurrence of each, in input order.
#[verifier::external_body]
fn unique_chars(v: Vec<char>) -> (r: Vec<char>)
    ensures
        r@ == dedup_first(v@),
{
    v.into_iter().unique().collect()
}

/// The distinct characters of the text, newlines excluded, each at its first
/// occurrence.
pub fn distinct_characters(s: &Vec<char>) -> (r: Vec<char>)
    ensures
        r@ == dedup_first(strip_newlines(s@)),
{
    let mut stripped: Vec<char> = Vec::new();
    let mut i: usize = 0;
    proof {
        assert(s@.take(0) =~= Seq::<char>::empty());
    }
    while i < s.len()
        invariant
            i <= s@.len(),
            stripped@ == strip_newlines(s@.take(i as int)),
        decreases s@.len() - i,
    {
        let c = s[i];
        proof {
            assert(s@.take(i as int + 1).drop_last() =~= s@.take(i as int));
            assert(s@.take(i as int + 1).last() == s@[i as int]);
        }
        if c != '\n' {
            stripped.push(c);
        }
        i = i + 1;
    }
    proof {
        assert(s@.take(s@.len() as int) =~= s@);
    }
    unique_chars(stripped)
}

/// The character of row `l.y` at column `l.x`.
pub fn character_at(l: Location, rows: &Vec<Vec<char>>) -> (r: char)
    requires
        in_grid(rows.deep_view(), l),
    ensures
        r == char_at_spec(rows.deep_view(), l),
{
    let row: &Vec<char> = &rows[l.y as usize];
    row[l.x as usize]
}

/// Whether the location lies inside the grid's rectangle.
pub fn within_grid(l: Location, rows: &Vec<Vec<char>>) -> (r: bool)
    requires
        grid_wf(rows.deep_view()),
    ensures
        r == in_grid(rows.deep_view(), l),
{
    let h = height(rows);
    let w = width(rows);
    l.x >= 0 && l.y >= 0 && (l.x as usize) < w && (l.y as usize) < h
}

} // verus!
