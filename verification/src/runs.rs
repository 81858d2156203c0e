//! The straight-run detector: for every cell holding the path character,
//! decides whether it sits in a run of four or more identical characters
//! along one axis, and renders the grid with every such cell emphasised.

use vstd::prelude::*;
use crate::grid::Location;
use crate::grid::Offset;
use crate::grid::cell;
use crate::grid::cell_in;
use crate::grid::char_at_spec;
use crate::grid::character_at;
use crate::grid::grid_wf;
use crate::grid::height;
use crate::grid::in_grid;
use crate::grid::width;
use crate::grid::within_grid;

verus! {

/// The cell `n` steps from `(x, y)` along `(dx, dy)` exists and repeats the
/// character of `(x, y)`.
pub open spec fn same_at(g: Seq<Seq<char>>, x: int, y: int, dx: int, dy: int, n: int) -> bool {
    cell_in(g, x + n * dx, y + n * dy) && cell(g, x + n * dx, y + n * dy) == cell(g, x, y)
}

/// How many consecutive cells (up to 3) repeat the character of `(x, y)`
/// along the direction `(dx, dy)`, stopping at the first mismatch or grid
/// edge.
pub open spec fn same_count(g: Seq<Seq<char>>, x: int, y: int, dx: int, dy: int) -> int {
    if !same_at(g, x, y, dx, dy, 1) {
        0
    } else if !same_at(g, x, y, dx, dy, 2) {
        1
    } else if !same_at(g, x, y, dx, dy, 3) {
        2
    } else {
        3
    }
}

/// The cell sits in a horizontal or vertical run of four or more identical
/// characters; the two axes are judged independently.
pub open spec fn in_line_of_four(g: Seq<Seq<char>>, x: int, y: int) -> bool {
    ||| same_count(g, x, y, -1, 0) + same_count(g, x, y, 1, 0) >= 3
    ||| same_count(g, x, y, 0, -1) + same_count(g, x, y, 0, 1) >= 3
}

/// A cell the rendering marks: it holds the path character and sits in a
/// run of four.
pub open spec fn flagged(g: Seq<Seq<char>>, pc: char, x: int, y: int) -> bool {
    cell(g, x, y) == pc && in_line_of_four(g, x, y)
}

/// Some cell of the grid is flagged.
pub open spec fn has_line_of_four(g: Seq<Seq<char>>, pc: char) -> bool {
    exists|x: int, y: int| cell_in(g, x, y) && #[trigger] flagged(g, pc, x, y)
}

/// Some cell before row `y`, or before column `x` of row `y`, is flagged.
pub open spec fn flag_before(g: Seq<Seq<char>>, pc: char, y: int, x: int) -> bool {
    exists|i: int, j: int|
        cell_in(g, i, j) && (j < y || (j == y && i < x)) && #[trigger] flagged(g, pc, i, j)
}

/// The emphasis marker opening a flagged cell.
pub open spec fn bold_open() -> Seq<char> {
    seq!['<', 'b', '>']
}

/// The emphasis marker closing a flagged cell.
pub open spec fn bold_close() -> Seq<char> {
    seq!['<', '/', 'b', '>']
}

/// The marker between two rendered rows.
pub open spec fn row_break() -> Seq<char> {
    seq!['<', 'b', 'r', '>']
}

/// One rendered cell: its character, wrapped in the emphasis markers when
/// the cell is flagged.
pub open spec fn render_cell(g: Seq<Seq<char>>, pc: char, x: int, y: int) -> Seq<char> {
    if flagged(g, pc, x, y) {
        bold_open() + seq![cell(g, x, y)] + bold_close()
    } else {
        seq![cell(g, x, y)]
    }
}

/// The first `n` cells of row `y`, rendered in column order.
pub open spec fn render_row_prefix(g: Seq<Seq<char>>, pc: char, y: int, n: int) -> Seq<char>
    decreases n,
{
    if n <= 0 {
        Seq::empty()
    } else {
        render_row_prefix(g, pc, y, n - 1) + render_cell(g, pc, n - 1, y)
    }
}

/// The first `n` rows, rendered and joined by the row marker.
pub open spec fn render_grid_prefix(g: Seq<Seq<char>>, pc: char, n: int) -> Seq<char>
    decreases n,
{
    if n <= 0 {
        Seq::empty()
    } else if n == 1 {
        render_row_prefix(g, pc, 0, g[0].len() as int)
    } else {
        render_grid_prefix(g, pc, n - 1) + row_break() + render_row_prefix(
            g,
            pc,
            n - 1,
            g[0].len() as int,
        )
    }
}

/// The whole grid, rendered row by row with flagged cells emphasised.
pub open spec fn rendered_grid(g: Seq<Seq<char>>, pc: char) -> Seq<char> {
    render_grid_prefix(g, pc, g.len() as int)
}

/// Relies on String::push: it appends the given character to the end of the
/// string.
#[verifier::external_body]
fn push_char(s: &mut String, c: char)
    ensures
        final(s)@ == old(s)@.push(c),
{
    s.push(c);
}

/// How many consecutive cells (up to 3) away from `l` along `o` repeat the
/// character at `l`, walking one bounds-checked step at a time.
pub fn same_with_offset(o: Offset, l: Location, rows: &Vec<Vec<char>>) -> (count: usize)
    requires
        grid_wf(rows.deep_view()),
        in_grid(rows.deep_view(), l),
        (o.x == -1 && o.y == 0) || (o.x == 1 && o.y == 0) || (o.x == 0 && o.y == -1) || (o.x == 0
            && o.y == 1),
    ensures
        count == same_count(rows.deep_view(), l.x as int, l.y as int, o.x as int, o.y as int),
{
    let ghost g = rows.deep_view();
    let own_character = character_at(l, rows);
    let c1 = l.plus(o);
    if !(within_grid(c1, rows) && character_at(c1, rows) == own_character) {
        return 0;
    }
    let c2 = c1.plus(o);
    if !(within_grid(c2, rows) && character_at(c2, rows) == own_character) {
        return 1;
    }
    let c3 = c2.plus(o);
    if !(within_grid(c3, rows) && character_at(c3, rows) == own_character) {
        return 2;
    }
    3
}

/// Matching characters immediately to the left of `l`, up to 3.
pub fn same_to_the_left(l: Location, rows: &Vec<Vec<char>>) -> (count: usize)
    requires
        grid_wf(rows.deep_view()),
        in_grid(rows.deep_view(), l),
    ensures
        count == same_count(rows.deep_view(), l.x as int, l.y as int, -1, 0),
{
    same_with_offset(Offset::new(-1, 0), l, rows)
}

/// Matching characters immediately to the right of `l`, up to 3.
pub fn same_to_the_right(l: Location, rows: &Vec<Vec<char>>) -> (count: usize)
    requires
        grid_wf(rows.deep_view()),
        in_grid(rows.deep_view(), l),
    ensures
        count == same_count(rows.deep_view(), l.x as int, l.y as int, 1, 0),
{
    same_with_offset(Offset::new(1, 0), l, rows)
}

/// Matching characters immediately above `l`, up to 3.
pub fn same_above(l: Location, rows: &Vec<Vec<char>>) -> (count: usize)
    requires
        grid_wf(rows.deep_view()),
        in_grid(rows.deep_view(), l),
    ensures
        count == same_count(rows.deep_view(), l.x as int, l.y as int, 0, -1),
{
    same_with_offset(Offset::new(0, -1), l, rows)
}

/// Matching characters immediately below `l`, up to 3.
pub fn same_below(l: Location, rows: &Vec<Vec<char>>) -> (count: usize)
    requires
        grid_wf(rows.deep_view()),
        in_grid(rows.deep_view(), l),
    ensures
        count == same_count(rows.deep_view(), l.x as int, l.y as int, 0, 1),
{
    same_with_offset(Offset::new(0, 1), l, rows)
}

/// Whether `l` sits in a horizontal or vertical run of four identical
/// characters, counting the cell itself.
pub fn in_a_line_of_4(l: Location, rows: &Vec<Vec<char>>) -> (r: bool)
    requires
        grid_wf(rows.deep_view()),
        in_grid(rows.deep_view(), l),
    ensures
        r == in_line_of_four(rows.deep_view(), l.x as int, l.y as int),
{
    same_to_the_left(l, rows) + same_to_the_right(l, rows) >= 3 || same_above(l, rows)
        + same_below(l, rows) >= 3
}

/// Renders the grid with every path-character cell in a run of four wrapped
/// in emphasis markers, row by row; yields the rendering exactly when at
/// least one cell was flagged.
pub fn lines_of_4(path_character: char, rows: &Vec<Vec<char>>) -> (r: Option<String>)
    requires
        grid_wf(rows.deep_view()),
    ensures
        r is Some <==> has_line_of_four(rows.deep_view(), path_character),
        r matches Some(out) ==> out@ == rendered_grid(rows.deep_view(), path_character),
{
    let ghost g = rows.deep_view();
    let h = height(rows);
    let w = width(rows);
    let mut output = String::new();
    let mut required = false;
    let mut y: usize = 0;
    while y < h
        invariant
            g == rows.deep_view(),
            grid_wf(g),
            h == g.len(),
            w == g[0].len(),
            y <= h,
            output@ == render_grid_prefix(g, path_character, y as int),
            required == flag_before(g, path_character, y as int, 0),
        decreases h - y,
    {
        if y > 0 {
            push_char(&mut output, '<');
            push_char(&mut output, 'b');
            push_char(&mut output, 'r');
            push_char(&mut output, '>');
        }
        let ghost row_start = output@;
        proof {
            if y > 0 {
                assert(row_start =~= render_grid_prefix(g, path_character, y as int)
                    + row_break());
            }
        }
        let mut x: usize = 0;
        while x < w
            invariant
                g == rows.deep_view(),
                grid_wf(g),
                h == g.len(),
                w == g[0].len(),
                y < h,
                x <= w,
                row_start == if y == 0 {
                    Seq::<char>::empty()
                } else {
                    render_grid_prefix(g, path_character, y as int) + row_break()
                },
                output@ == row_start + render_row_prefix(g, path_character, y as int, x as int),
                required == flag_before(g, path_character, y as int, x as int),
            decreases w - x,
        {
            let l = Location::new(x as isize, y as isize);
            let c = character_at(l, rows);
            let ghost out_before = output@;
            let ghost req_before = required;
            if c == path_character && in_a_line_of_4(l, rows) {
                required = true;
                push_char(&mut output, '<');
                push_char(&mut output, 'b');
                push_char(&mut output, '>');
                push_char(&mut output, c);
                push_char(&mut output, '<');
                push_char(&mut output, '/');
                push_char(&mut output, 'b');
                push_char(&mut output, '>');
                proof {
                    assert(flagged(g, path_character, x as int, y as int));
                    assert(output@ =~= out_before + render_cell(
                        g,
                        path_character,
                        x as int,
                        y as int,
                    ));
                }
            } else {
                push_char(&mut output, c);
                proof {
                    assert(!flagged(g, path_character, x as int, y as int));
                    assert(output@ =~= out_before + render_cell(
                        g,
                        path_character,
                        x as int,
                        y as int,
                    ));
                }
            }
            x = x + 1;
            proof {
                assert(output@ =~= row_start + render_row_prefix(
                    g,
                    path_character,
                    y as int,
                    x as int,
                ));
                if req_before {
                    let (i, j): (int, int) = choose|i: int, j: int|
                        cell_in(g, i, j) && (j < y || (j == y && i < x - 1)) && #[trigger] flagged(
                            g,
                            path_character,
                            i,
                            j,
                        );
                    assert(flag_before(g, path_character, y as int, x as int));
                } else if flagged(g, path_character, x as int - 1, y as int) {
                    assert(cell_in(g, x as int - 1, y as int));
                    assert(flag_before(g, path_character, y as int, x as int));
                } else {
                    if flag_before(g, path_character, y as int, x as int) {
                        let (i, j): (int, int) = choose|i: int, j: int|
                            cell_in(g, i, j) && (j < y || (j == y && i < x)) && #[trigger] flagged(
                                g,
                                path_character,
                                i,
                                j,
                            );
                        if j < y || (j == y && i < x - 1) {
                            assert(flag_before(g, path_character, y as int, x as int - 1));
                        } else {
                            assert(i == x - 1 && j == y);
                        }
                        assert(false);
                    }
                }
            }
        }
        y = y + 1;
        proof {
            assert(output@ =~= render_grid_prefix(g, path_character, y as int));
            if flag_before(g, path_character, y as int - 1, w as int) {
                let (i, j): (int, int) = choose|i: int, j: int|
                    cell_in(g, i, j) && (j < y - 1 || (j == y - 1 && i < w)) && #[trigger] flagged(
                        g,
                        path_character,
                        i,
                        j,
                    );
                assert(flag_before(g, path_character, y as int, 0));
            }
            if flag_before(g, path_character, y as int, 0) {
                let (i, j): (int, int) = choose|i: int, j: int|
                    cell_in(g, i, j) && (j < y || (j == y && i < 0)) && #[trigger] flagged(
                        g,
                        path_character,
                        i,
                        j,
                    );
                assert(j <= y - 1);
                assert(j == y - 1 ==> i < g[j].len() == w);
                assert(flag_before(g, path_character, y as int - 1, w as int));
            }
        }
    }
    proof {
        if required {
            let (i, j): (int, int) = choose|i: int, j: int|
                cell_in(g, i, j) && (j < h || (j == h && i < 0)) && #[trigger] flagged(
                    g,
                    path_character,
                    i,
                    j,
                );
            assert(has_line_of_four(g, path_character));
        }
        if has_line_of_four(g, path_character) {
            let (i, j): (int, int) = choose|i: int, j: int|
                cell_in(g, i, j) && #[trigger] flagged(g, path_character, i, j);
            assert(flag_before(g, path_character, h as int, 0));
        }
    }
    if required {
        Some(output)
    } else {
        None
    }
}

} // verus!
