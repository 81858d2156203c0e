//! General properties of the validator, stated over the same spec functions
//! its contracts use and proved once for all inputs.

use vstd::prelude::*;
use crate::grid::Location;
use crate::grid::cell;
use crate::grid::cell_in;
use crate::grid::char_at_spec;
use crate::grid::dedup_first;
use crate::grid::in_grid;
use crate::grid::is_rectangular;
use crate::grid::lemma_split_lines_tail;
use crate::grid::split_lines;
use crate::grid::strip_newlines;
use crate::runs::flagged;
use crate::runs::has_line_of_four;
use crate::runs::in_line_of_four;
use crate::runs::rendered_grid;
use crate::runs::same_at;
use crate::runs::same_count;
use crate::search::adjacent;
use crate::search::candidate;
use crate::search::connects;
use crate::search::is_connecting_path;
use crate::search::resolved_path_char;
use crate::validate::line_of_four_prefix;
use crate::validate::line_of_four_suffix;
use crate::validate::empty_message;
use crate::validate::too_many_characters_message;
use crate::validate::valid_message;
use crate::validate::verdict;

verus! {

broadcast use vstd::seq_lib::group_seq_properties;

/// Empty input always draws the empty-input verdict, whatever else might
/// hold of the text.
pub proof fn lemma_empty_input(s: Seq<char>)
    requires
        s.len() == 0,
    ensures
        verdict(s) == empty_message(),
{
}

/// A text with more than two distinct characters (newlines aside) always
/// draws the too-many-characters verdict, independent of its shape.
pub proof fn lemma_more_than_two_characters(s: Seq<char>)
    requires
        dedup_first(strip_newlines(s)).len() > 2,
    ensures
        verdict(s) == too_many_characters_message(),
{
    assert(s.len() > 0) by {
        if s.len() == 0 {
            assert(strip_newlines(s) =~= Seq::<char>::empty());
        }
    }
}

/// Validation is a pure function of the input: any two results that satisfy
/// the validator's contract on the same text are the same text.
pub proof fn lemma_validation_deterministic(s: Seq<char>, r1: Seq<char>, r2: Seq<char>)
    requires
        r1 == verdict(s),
        r2 == verdict(s),
    ensures
        r1 == r2,
{
}

/// The tie-break: whenever the top-left/bottom-right pair connects — in
/// particular when both diagonal pairs do — the resolved path character is
/// the top-left corner's, never the top-right corner's choice.
pub proof fn lemma_tie_break(g: Seq<Seq<char>>)
    requires
        connects(
            g,
            (Location { x: 0, y: 0 }),
            (Location { x: (g[0].len() - 1) as isize, y: (g.len() - 1) as isize }),
        ),
    ensures
        resolved_path_char(g) == Some(cell(g, 0, 0)),
{
}

/// Newline-free text is left whole by newline stripping.
proof fn lemma_strip_newlines_id(s: Seq<char>)
    requires
        forall|j: int| 0 <= j < s.len() ==> s[j] != '\n',
    ensures
        strip_newlines(s) == s,
    decreases s.len(),
{
    if s.len() == 0 {
        assert(strip_newlines(s) =~= s);
    } else {
        lemma_strip_newlines_id(s.drop_last());
        assert(s.drop_last().push(s.last()) =~= s);
    }
}

/// A sequence of one repeated character dedups to that character alone.
proof fn lemma_dedup_all_equal(s: Seq<char>)
    requires
        s.len() >= 1,
        forall|j: int| 0 <= j < s.len() ==> #[trigger] s[j] == s[0],
    ensures
        dedup_first(s) == seq![s[0]],
    decreases s.len(),
{
    if s.len() == 1 {
        assert(dedup_first(s.drop_last()) =~= Seq::<char>::empty());
        assert(dedup_first(s) =~= seq![s[0]]);
    } else {
        lemma_dedup_all_equal(s.drop_last());
        assert(dedup_first(s.drop_last()).contains(s.last())) by {
            assert(dedup_first(s.drop_last())[0] == s[0]);
        }
    }
}

/// A single row of one repeated character, fewer than four cells wide, is
/// rectangular; from two cells on, the corners connect along the row, no
/// run of four can arise, and every rule passes.
pub proof fn lemma_short_single_row(s: Seq<char>)
    requires
        1 <= s.len() < 4,
        forall|j: int| 0 <= j < s.len() ==> #[trigger] s[j] == s[0],
        s[0] != '\n',
    ensures
        is_rectangular(split_lines(s)),
        s.len() >= 2 ==> verdict(s) == valid_message(),
{
    let g = split_lines(s);
    lemma_split_lines_tail(s);
    assert(g =~~= seq![s]);
    assert(g[0] == s);
    lemma_strip_newlines_id(s);
    lemma_dedup_all_equal(s);
    assert(dedup_first(strip_newlines(s)).len() == 1);
    if s.len() >= 2 {
        lemma_short_single_row_valid(s);
    }
}

/// The verdict side of the short single row: with two or three cells the
/// corners connect along the row and no run of four can arise.
proof fn lemma_short_single_row_valid(s: Seq<char>)
    requires
        2 <= s.len() < 4,
        forall|j: int| 0 <= j < s.len() ==> #[trigger] s[j] == s[0],
        s[0] != '\n',
    ensures
        verdict(s) == valid_message(),
{
    let g = split_lines(s);
    lemma_split_lines_tail(s);
    assert(g =~~= seq![s]);
    assert(g[0] == s);
    lemma_strip_newlines_id(s);
    lemma_dedup_all_equal(s);
    assert(dedup_first(strip_newlines(s)).len() == 1);
    let w = s.len() as int;
    let start = (Location { x: 0, y: 0 });
    let finish = (Location { x: (w - 1) as isize, y: 0 });
    assert(connects(g, start, finish)) by {
        if w == 2 {
            let p = seq![start, finish];
            assert(p.last() == finish);
            assert(forall|i: int| 1 <= i < p.len() ==> candidate(g, start, #[trigger] p[i]));
            assert(forall|i: int| 0 <= i < p.len() - 1 ==> adjacent(#[trigger] p[i], p[i + 1]));
            assert(is_connecting_path(g, start, finish, p));
        } else {
            let mid = (Location { x: 1, y: 0 });
            let p = seq![start, mid, finish];
            assert(p.last() == finish);
            assert(forall|i: int| 1 <= i < p.len() ==> candidate(g, start, #[trigger] p[i]));
            assert(forall|i: int| 0 <= i < p.len() - 1 ==> adjacent(#[trigger] p[i], p[i + 1]));
            assert(is_connecting_path(g, start, finish, p));
        }
    }
    assert(resolved_path_char(g) == Some(cell(g, 0, 0)));
    assert(!has_line_of_four(g, cell(g, 0, 0))) by {
        if has_line_of_four(g, cell(g, 0, 0)) {
            let (x, y): (int, int) = choose|x: int, y: int|
                cell_in(g, x, y) && #[trigger] flagged(g, cell(g, 0, 0), x, y);
            assert(y == 0 && 0 <= x < w);
            assert(same_count(g, x, y, -1, 0) <= x) by {
                if same_count(g, x, y, -1, 0) > x {
                    assert(same_at(g, x, y, -1, 0, x + 1));
                }
            }
            assert(same_count(g, x, y, 1, 0) <= w - 1 - x) by {
                if same_count(g, x, y, 1, 0) > w - 1 - x {
                    assert(same_at(g, x, y, 1, 0, w - x));
                }
            }
            assert(same_count(g, x, y, 0, -1) == 0);
            assert(same_count(g, x, y, 0, 1) == 0);
            assert(!in_line_of_four(g, x, y));
            assert(false);
        }
    }
}

/// Newline stripping, unfolded from the front instead of the back.
proof fn lemma_strip_newlines_head(s: Seq<char>)
    requires
        s.len() >= 1,
    ensures
        strip_newlines(s) == if s[0] == '\n' {
            strip_newlines(s.drop_first())
        } else {
            seq![s[0]] + strip_newlines(s.drop_first())
        },
    decreases s.len(),
{
    if s.len() == 1 {
        assert(s.drop_last() =~= Seq::<char>::empty());
        assert(s.drop_first() =~= Seq::<char>::empty());
        if s[0] != '\n' {
            assert(strip_newlines(s) =~= seq![s[0]] + strip_newlines(s.drop_first()));
        }
    } else {
        let t = s.drop_last();
        lemma_strip_newlines_head(t);
        assert(t[0] == s[0]);
        assert(s.drop_first().drop_last() =~= t.drop_first());
        assert(s.drop_first().last() == s.last());
        assert(s.drop_first().len() >= 1);
        if s.last() == '\n' {
            if s[0] == '\n' {
                assert(strip_newlines(s) == strip_newlines(t.drop_first()));
                assert(strip_newlines(s.drop_first()) == strip_newlines(t.drop_first()));
            } else {
                assert(strip_newlines(s) == seq![s[0]] + strip_newlines(t.drop_first()));
                assert(strip_newlines(s.drop_first()) == strip_newlines(t.drop_first()));
            }
        } else {
            if s[0] == '\n' {
                assert(strip_newlines(s) == strip_newlines(t).push(s.last()));
                assert(strip_newlines(s.drop_first()) == strip_newlines(t.drop_first()).push(
                    s.last(),
                ));
                assert(strip_newlines(t) == strip_newlines(t.drop_first()));
            } else {
                assert(strip_newlines(s) == (seq![s[0]] + strip_newlines(t.drop_first())).push(
                    s.last(),
                ));
                assert(strip_newlines(s.drop_first()) == strip_newlines(t.drop_first()).push(
                    s.last(),
                ));
                assert((seq![s[0]] + strip_newlines(t.drop_first())).push(s.last()) =~= seq![s[0]]
                    + strip_newlines(t.drop_first()).push(s.last()));
            }
        }
    }
}

/// Every grid cell's character occurs among the text's newline-free
/// characters.
proof fn lemma_cell_chars(s: Seq<char>)
    ensures
        forall|x: int, y: int|
            cell_in(split_lines(s), x, y) ==> strip_newlines(s).contains(
                #[trigger] cell(split_lines(s), x, y),
            ),
    decreases s.len(),
{
    if s.len() == 0 {
    } else {
        lemma_strip_newlines_head(s);
        assert(s.drop_first() =~= s.skip(1));
        let g = split_lines(s);
        if s[0] == '\n' {
            lemma_cell_chars(s.skip(1));
            let g2 = split_lines(s.skip(1));
            assert forall|x: int, y: int| cell_in(g, x, y) implies strip_newlines(s).contains(
                #[trigger] cell(g, x, y),
            ) by {
                assert(y >= 1);
                assert(g[y] == g2[y - 1]);
                assert(cell_in(g2, x, y - 1));
                assert(cell(g, x, y) == cell(g2, x, y - 1));
            }
        } else if s[0] == '\r' && s.len() >= 2 && s[1] == '\n' {
            lemma_cell_chars(s.skip(2));
            lemma_strip_newlines_head(s.skip(1));
            assert(s.skip(1).drop_first() =~= s.skip(2));
            assert(s.skip(1)[0] == '\n');
            assert(strip_newlines(s) == seq!['\r'] + strip_newlines(s.skip(2)));
            let g2 = split_lines(s.skip(2));
            assert forall|x: int, y: int| cell_in(g, x, y) implies strip_newlines(s).contains(
                #[trigger] cell(g, x, y),
            ) by {
                assert(y >= 1);
                assert(g[y] == g2[y - 1]);
                assert(cell_in(g2, x, y - 1));
                assert(cell(g, x, y) == cell(g2, x, y - 1));
                assert(strip_newlines(s.skip(2)).contains(cell(g2, x, y - 1)));
            }
        } else {
            lemma_cell_chars(s.skip(1));
            let g2 = split_lines(s.skip(1));
            assert(strip_newlines(s) == seq![s[0]] + strip_newlines(s.skip(1)));
            assert(strip_newlines(s)[0] == s[0]);
            if g2.len() == 0 {
                assert forall|x: int, y: int| cell_in(g, x, y) implies strip_newlines(s).contains(
                    #[trigger] cell(g, x, y),
                ) by {
                    assert(y == 0 && x == 0);
                    assert(cell(g, 0, 0) == s[0]);
                    assert(strip_newlines(s).contains(s[0]));
                }
            } else {
                assert forall|x: int, y: int| cell_in(g, x, y) implies strip_newlines(s).contains(
                    #[trigger] cell(g, x, y),
                ) by {
                    if y == 0 {
                        assert(g[0] == seq![s[0]] + g2[0]);
                        if x == 0 {
                            assert(cell(g, 0, 0) == s[0]);
                            assert(strip_newlines(s).contains(s[0]));
                        } else {
                            assert(cell(g, x, 0) == g2[0][x - 1]);
                            assert(cell_in(g2, x - 1, 0));
                            assert(cell(g2, x - 1, 0) == g2[0][x - 1]);
                        }
                    } else {
                        assert(g[y] == g2[y]);
                        assert(cell_in(g2, x, y));
                        assert(cell(g, x, y) == cell(g2, x, y));
                    }
                }
            }
        }
    }
}

/// Deduplication keeps exactly the characters that occur.
proof fn lemma_dedup_contains(s: Seq<char>, c: char)
    ensures
        dedup_first(s).contains(c) <==> s.contains(c),
    decreases s.len(),
{
    if s.len() == 0 {
        assert(dedup_first(s) =~= Seq::<char>::empty());
    } else {
        lemma_dedup_contains(s.drop_last(), c);
        assert(s.drop_last().push(s.last()) =~= s);
        let rest = dedup_first(s.drop_last());
        if rest.contains(s.last()) {
            lemma_dedup_contains(s.drop_last(), s.last());
        }
    }
}

/// Text with something in it dedups to something.
proof fn lemma_dedup_nonempty(s: Seq<char>)
    requires
        s.len() >= 1,
    ensures
        dedup_first(s).len() >= 1,
    decreases s.len(),
{
    if s.len() > 1 {
        lemma_dedup_nonempty(s.drop_last());
    }
}

/// When dedup keeps a single character, every character of the text is that
/// one.
proof fn lemma_dedup_singleton(t: Seq<char>)
    requires
        dedup_first(t).len() == 1,
    ensures
        t.len() >= 1,
        forall|i: int| 0 <= i < t.len() ==> #[trigger] t[i] == dedup_first(t)[0],
    decreases t.len(),
{
    if t.len() == 0 {
        assert(dedup_first(t) =~= Seq::<char>::empty());
        assert(false);
    } else {
        let prefix = t.drop_last();
        let rest = dedup_first(prefix);
        if rest.contains(t.last()) {
            lemma_dedup_singleton(prefix);
            lemma_dedup_contains(prefix, t.last());
            let j = choose|j: int| 0 <= j < prefix.len() && prefix[j] == t.last();
            assert(prefix[j] == rest[0]);
            assert(forall|i: int|
                0 <= i < t.len() - 1 ==> #[trigger] t[i] == prefix[i] && prefix[i] == rest[0]);
        } else {
            if prefix.len() >= 1 {
                lemma_dedup_nonempty(prefix);
                assert(false);
            }
            assert(t.len() == 1);
        }
    }
}

/// In a rectangular grid of one repeated character (with at least one
/// column and more than one cell), a chain right along the top row and down
/// the right column connects the top-left corner to the bottom-right.
proof fn lemma_monochrome_connects(g: Seq<Seq<char>>)
    requires
        g.len() >= 1,
        g[0].len() >= 1,
        g.len() + g[0].len() >= 3,
        is_rectangular(g),
        g.len() <= isize::MAX as int,
        g[0].len() <= isize::MAX as int,
        forall|x: int, y: int| cell_in(g, x, y) ==> #[trigger] cell(g, x, y) == cell(g, 0, 0),
    ensures
        connects(
            g,
            (Location { x: 0, y: 0 }),
            (Location { x: (g[0].len() - 1) as isize, y: (g.len() - 1) as isize }),
        ),
{
    let w = g[0].len() as int;
    let h = g.len() as int;
    let start = (Location { x: 0, y: 0 });
    let finish = (Location { x: (w - 1) as isize, y: (h - 1) as isize });
    let p1 = Seq::new(w as nat, |i: int| Location { x: i as isize, y: 0 });
    let p2 = Seq::new((h - 1) as nat, |j: int| Location { x: (w - 1) as isize, y: (j + 1) as isize });
    let p = p1 + p2;
    assert(p.len() == w + h - 1 >= 2);
    assert(p[0] == start);
    assert(p.last() == finish) by {
        if h == 1 {
            assert(p.last() == p1[w - 1]);
        } else {
            assert(p.last() == p2[h - 2]);
        }
    }
    assert(in_grid(g, start));
    assert forall|i: int| 1 <= i < p.len() implies candidate(g, start, #[trigger] p[i]) by {
        if i < w {
            assert(p[i] == p1[i]);
            assert(p[i].x == i && p[i].y == 0);
            assert(cell_in(g, i, 0));
            assert(char_at_spec(g, p[i]) == cell(g, i, 0));
        } else {
            assert(p[i] == p2[i - w]);
            assert(p[i].x == w - 1 && p[i].y == i - w + 1);
            assert(cell_in(g, w - 1, i - w + 1));
            assert(char_at_spec(g, p[i]) == cell(g, w - 1, i - w + 1));
        }
    }
    assert forall|i: int| 0 <= i < p.len() - 1 implies adjacent(#[trigger] p[i], p[i + 1]) by {
        if i + 1 < w {
            assert(p[i] == p1[i] && p[i + 1] == p1[i + 1]);
        } else if i + 1 == w {
            assert(p[i] == p1[i] && p[i + 1] == p2[0]);
        } else {
            assert(p[i] == p2[i - w] && p[i + 1] == p2[i + 1 - w]);
        }
    }
    assert(is_connecting_path(g, start, finish, p));
}

/// A rectangular grid drawn from exactly one distinct character (and wide
/// and tall enough to hold more than the single start cell) always connects
/// its corners, so its verdict reduces to the straight-run check.
pub proof fn lemma_one_character_grid(s: Seq<char>)
    requires
        dedup_first(strip_newlines(s)).len() == 1,
        is_rectangular(split_lines(s)),
        split_lines(s)[0].len() >= 1,
        split_lines(s).len() + split_lines(s)[0].len() >= 3,
        split_lines(s).len() <= isize::MAX as int,
        split_lines(s)[0].len() <= isize::MAX as int,
    ensures
        resolved_path_char(split_lines(s)) == Some(cell(split_lines(s), 0, 0)),
        verdict(s) == if has_line_of_four(split_lines(s), cell(split_lines(s), 0, 0)) {
            line_of_four_prefix() + rendered_grid(split_lines(s), cell(split_lines(s), 0, 0))
                + line_of_four_suffix()
        } else {
            valid_message()
        },
{
    let g = split_lines(s);
    let t = strip_newlines(s);
    assert(s.len() > 0) by {
        if s.len() == 0 {
            assert(t =~= Seq::<char>::empty());
            assert(dedup_first(t) =~= Seq::<char>::empty());
        }
    }
    crate::validate::lemma_split_lines_bounds(s);
    assert(g.len() >= 1);
    lemma_cell_chars(s);
    lemma_dedup_singleton(t);
    assert forall|x: int, y: int| cell_in(g, x, y) implies #[trigger] cell(g, x, y) == cell(
        g,
        0,
        0,
    ) by {
        assert(t.contains(cell(g, x, y)));
        let i = choose|i: int| 0 <= i < t.len() && t[i] == cell(g, x, y);
        assert(t[i] == dedup_first(t)[0]);
        assert(cell_in(g, 0, 0));
        assert(t.contains(cell(g, 0, 0)));
        let j = choose|j: int| 0 <= j < t.len() && t[j] == cell(g, 0, 0);
        assert(t[j] == dedup_first(t)[0]);
    }
    lemma_monochrome_connects(g);
    lemma_tie_break(g);
}

} // verus!
