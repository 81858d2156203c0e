//! The composition root: applies the ordered rule sequence — empty input,
//! more than two distinct characters, not rectangular, no connected corner
//! pair, a straight run of four — and formats the verdict.

use vstd::prelude::*;
use vstd::string::StringExecFns;
use crate::grid::dedup_first;
use crate::grid::distinct_characters;
use crate::grid::grid_wf;
use crate::grid::in_grid;
use crate::grid::is_rectangular;
use crate::grid::lines;
use crate::grid::rectangle;
use crate::grid::split_lines;
use crate::grid::strip_newlines;
use crate::grid::to_chars;
use crate::grid::width;
use crate::runs::has_line_of_four;
use crate::runs::lines_of_4;
use crate::runs::rendered_grid;
use crate::search::character_connecting_opposite_corners;
use crate::search::connects;
use crate::search::is_connecting_path;
use crate::search::resolved_path_char;

verus! {

/// The verdict on empty input.
pub open spec fn empty_message() -> Seq<char> {
    "Invalid. The input is empty."@
}

/// The verdict on more than two distinct characters.
pub open spec fn too_many_characters_message() -> Seq<char> {
    "Invalid. The input contains more than 2 distinct characters."@
}

/// The verdict on rows of differing widths.
pub open spec fn not_rectangular_message() -> Seq<char> {
    "Invalid. The input is not rectangular."@
}

/// The verdict when no diagonal corner pair is connected.
pub open spec fn no_corners_message() -> Seq<char> {
    "Invalid. There are not 2 diagonally opposite corners connected by horizontally and vertically adjacent characters."@
}

/// What precedes the annotated grid in the straight-run verdict.
pub open spec fn line_of_four_prefix() -> Seq<char> {
    "Invalid. There must not be 4 path characters in a line horizontally or vertically:<br><br><code>"@
}

/// What follows the annotated grid in the straight-run verdict.
pub open spec fn line_of_four_suffix() -> Seq<char> {
    "</code>"@
}

/// The verdict on a valid path.
pub open spec fn valid_message() -> Seq<char> {
    "This is a valid path."@
}

/// The whole validation, as a function of the input text alone: the first
/// failing rule of the ordered sequence determines the message.
pub open spec fn verdict(s: Seq<char>) -> Seq<char> {
    if s.len() == 0 {
        empty_message()
    } else if dedup_first(strip_newlines(s)).len() > 2 {
        too_many_characters_message()
    } else if !is_rectangular(split_lines(s)) {
        not_rectangular_message()
    } else {
        match resolved_path_char(split_lines(s)) {
            Some(pc) => if has_line_of_four(split_lines(s), pc) {
                line_of_four_prefix() + rendered_grid(split_lines(s), pc) + line_of_four_suffix()
            } else {
                valid_message()
            },
            None => no_corners_message(),
        }
    }
}

/// Splitting cannot produce more rows than characters, nor a row longer
/// than the text, and non-empty text yields at least one row.
pub proof fn lemma_split_lines_bounds(s: Seq<char>)
    ensures
        split_lines(s).len() <= s.len(),
        s.len() > 0 ==> split_lines(s).len() >= 1,
        forall|y: int|
            0 <= y < split_lines(s).len() ==> (#[trigger] split_lines(s)[y]).len() <= s.len(),
    decreases s.len(),
{
    if s.len() == 0 {
    } else if s[0] == '\n' {
        lemma_split_lines_bounds(s.skip(1));
    } else if s[0] == '\r' && s.len() >= 2 && s[1] == '\n' {
        lemma_split_lines_bounds(s.skip(2));
    } else {
        lemma_split_lines_bounds(s.skip(1));
        let rest = split_lines(s.skip(1));
        if rest.len() == 0 {
        } else {
            let out = rest.update(0, seq![s[0]] + rest[0]);
            assert(forall|y: int| 1 <= y < out.len() ==> out[y] == rest[y]);
            assert(out[0].len() == 1 + rest[0].len());
        }
    }
}

/// On a grid without columns no corner pair resolves: a connecting chain
/// would need an in-bounds start.
proof fn lemma_no_columns_no_path(g: Seq<Seq<char>>)
    requires
        forall|y: int| 0 <= y < g.len() ==> (#[trigger] g[y]).len() == 0,
    ensures
        resolved_path_char(g) is None,
{
    let w = g[0].len() as int;
    let h = g.len() as int;
    let top_left = (crate::grid::Location { x: 0, y: 0 });
    let bottom_right = (crate::grid::Location { x: (w - 1) as isize, y: (h - 1) as isize });
    let top_right = (crate::grid::Location { x: (w - 1) as isize, y: 0 });
    let bottom_left = (crate::grid::Location { x: 0, y: (h - 1) as isize });
    assert(!connects(g, top_left, bottom_right)) by {
        if connects(g, top_left, bottom_right) {
            let p = choose|p: Seq<crate::grid::Location>|
                is_connecting_path(g, top_left, bottom_right, p);
            assert(in_grid(g, top_left));
            assert(false);
        }
    }
    assert(!connects(g, top_right, bottom_left)) by {
        if connects(g, top_right, bottom_left) {
            let p = choose|p: Seq<crate::grid::Location>|
                is_connecting_path(g, top_right, bottom_left, p);
            assert(in_grid(g, top_right));
            assert(false);
        }
    }
}

/// Validates whether the text depicts a single orthogonally-connected path
/// of one character joining two diagonally opposite corners, with no four
/// path characters in a straight run, and describes the outcome.
pub fn validate_connect_the_corners(s: &str) -> (r: String)
    requires
        s@.len() <= isize::MAX as int,
    ensures
        r@ == verdict(s@),
{
    let chars = to_chars(s);
    if chars.len() == 0 {
        return "Invalid. The input is empty.".to_owned();
    }
    let distinct = distinct_characters(&chars);
    if distinct.len() > 2 {
        return "Invalid. The input contains more than 2 distinct characters.".to_owned();
    }
    let rows = lines(&chars);
    proof {
        lemma_split_lines_bounds(chars@);
    }
    if !rectangle(&rows) {
        return "Invalid. The input is not rectangular.".to_owned();
    }
    let w = width(&rows);
    if w == 0 {
        proof {
            lemma_no_columns_no_path(rows.deep_view());
        }
        return "Invalid. There are not 2 diagonally opposite corners connected by horizontally and vertically adjacent characters.".to_owned();
    }
    proof {
        assert(grid_wf(rows.deep_view()));
    }
    match character_connecting_opposite_corners(&rows) {
        None => "Invalid. There are not 2 diagonally opposite corners connected by horizontally and vertically adjacent characters.".to_owned(),
        Some(path_character) => {
            match lines_of_4(path_character, &rows) {
                Some(highlighted_lines) => {
                    let mut out =
                        "Invalid. There must not be 4 path characters in a line horizontally or vertically:<br><br><code>".to_owned();
                    out.append(highlighted_lines.as_str());
                    out.append("</code>");
                    out
                },
                None => "This is a valid path.".to_owned(),
            }
        },
    }
}

} // verus!
