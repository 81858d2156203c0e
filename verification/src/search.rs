//! Corner connectivity: a wavefront (breadth-first) expansion that decides
//! whether the character at a start corner forms an orthogonally-connected
//! region linking the start to a finish corner, and the resolver that tries
//! the two diagonal corner pairs in order.

use vstd::prelude::*;
use crate::grid::Location;
use crate::grid::Offset;
use crate::grid::cell;
use crate::grid::char_at_spec;
use crate::grid::grid_wf;
use crate::grid::in_grid;
use crate::grid::character_at;
use crate::grid::height;
use crate::grid::width;

verus! {

broadcast use vstd::seq_lib::group_seq_properties;

/// Two cells that differ by exactly one unit in exactly one axis.
pub open spec fn adjacent(a: Location, b: Location) -> bool {
    ||| (b.x == a.x + 1 && b.y == a.y)
    ||| (b.x == a.x - 1 && b.y == a.y)
    ||| (b.x == a.x && b.y == a.y + 1)
    ||| (b.x == a.x && b.y == a.y - 1)
}

/// A potential path square for a search that begins at `start`: a grid cell
/// other than `start` holding the start's character.
pub open spec fn candidate(g: Seq<Seq<char>>, start: Location, l: Location) -> bool {
    in_grid(g, l) && l != start && char_at_spec(g, l) == char_at_spec(g, start)
}

/// A chain of cells witnessing that `finish` can be discovered from `start`:
/// it steps through orthogonally-adjacent potential path squares, so every
/// cell after the first holds the start's character and is not the start.
pub open spec fn is_connecting_path(
    g: Seq<Seq<char>>,
    start: Location,
    finish: Location,
    p: Seq<Location>,
) -> bool {
    &&& p.len() >= 2
    &&& p[0] == start
    &&& p.last() == finish
    &&& in_grid(g, start)
    &&& forall|i: int| 1 <= i < p.len() ==> candidate(g, start, #[trigger] p[i])
    &&& forall|i: int| 0 <= i < p.len() - 1 ==> adjacent(#[trigger] p[i], p[i + 1])
}

/// Whether some chain of identically-charactered, orthogonally-adjacent
/// cells leads from `start` to `finish`.
pub open spec fn connects(g: Seq<Seq<char>>, start: Location, finish: Location) -> bool {
    exists|p: Seq<Location>| is_connecting_path(g, start, finish, p)
}

/// A cell the search has already taken up: the start itself, or a potential
/// path square that has left the pool.
pub open spec fn visited(
    g: Seq<Seq<char>>,
    start: Location,
    pool: Seq<Location>,
    l: Location,
) -> bool {
    l == start || (candidate(g, start, l) && !pool.contains(l))
}

/// A discovered square one step further extends a connecting chain.
proof fn lemma_extend_path(g: Seq<Seq<char>>, start: Location, square: Location, next: Location)
    requires
        in_grid(g, start),
        square == start || connects(g, start, square),
        candidate(g, start, next),
        adjacent(square, next),
    ensures
        connects(g, start, next),
{
    if square == start {
        let p = seq![start, next];
        assert(p.last() == next);
        assert(forall|i: int| 1 <= i < p.len() ==> candidate(g, start, #[trigger] p[i]));
        assert(forall|i: int| 0 <= i < p.len() - 1 ==> adjacent(#[trigger] p[i], p[i + 1]));
        assert(is_connecting_path(g, start, next, p));
    } else {
        let p = choose|p: Seq<Location>| is_connecting_path(g, start, square, p);
        let q = p.push(next);
        assert(q[0] == p[0]);
        assert(q.last() == next);
        assert forall|i: int| 1 <= i < q.len() implies candidate(g, start, #[trigger] q[i]) by {
            if i < p.len() {
                assert(q[i] == p[i]);
            }
        }
        assert forall|i: int| 0 <= i < q.len() - 1 implies adjacent(#[trigger] q[i], q[i + 1]) by {
            if i < p.len() - 1 {
                assert(q[i] == p[i] && q[i + 1] == p[i + 1]);
            } else {
                assert(q[i] == p.last() && q[i + 1] == next);
            }
        }
        assert(is_connecting_path(g, start, next, q));
    }
}

/// Along a connecting chain, once the pool's complement is closed under
/// adjacency, every cell of the chain has been visited.
proof fn lemma_path_visited(
    g: Seq<Seq<char>>,
    start: Location,
    finish: Location,
    pool: Seq<Location>,
    p: Seq<Location>,
    i: int,
)
    requires
        is_connecting_path(g, start, finish, p),
        forall|v: Location, n: Location|
            #![trigger adjacent(v, n)]
            visited(g, start, pool, v) && candidate(g, start, n) && adjacent(v, n) ==> visited(
                g,
                start,
                pool,
                n,
            ),
        0 <= i < p.len(),
    ensures
        visited(g, start, pool, p[i]),
    decreases i,
{
    if i == 0 {
        assert(p[0] == start);
    } else {
        lemma_path_visited(g, start, finish, pool, p, i - 1);
        assert(candidate(g, start, p[i]));
        assert(adjacent(p[i - 1], p[i]));
    }
}

/// One occurrence of a location in the pool, if any.
fn find_square(pool: &Vec<Location>, l: Location) -> (r: Option<usize>)
    ensures
        match r {
            Some(i) => i < pool@.len() && pool@[i as int] == l,
            None => !pool@.contains(l),
        },
{
    let mut i: usize = 0;
    while i < pool.len()
        invariant
            i <= pool@.len(),
            forall|j: int| 0 <= j < i ==> pool@[j] != l,
        decreases pool@.len() - i,
    {
        if pool[i] == l {
            return Some(i);
        }
        i = i + 1;
    }
    None
}

/// Removing the pool entry at `i` by a swap with the last entry keeps the
/// pool duplicate-free and removes exactly that location.
proof fn lemma_swap_remove_pool(s: Seq<Location>, i: int)
    requires
        0 <= i < s.len(),
        s.no_duplicates(),
    ensures
        ({
            let t = s.update(i, s.last()).drop_last();
            &&& t.no_duplicates()
            &&& t.len() == s.len() - 1
            &&& forall|l: Location| t.contains(l) <==> (s.contains(l) && l != s[i])
        }),
{
    let t = s.update(i, s.last()).drop_last();
    assert forall|l: Location| t.contains(l) implies (s.contains(l) && l != s[i]) by {
        let j = choose|j: int| 0 <= j < t.len() && t[j] == l;
        if j == i {
            assert(s[s.len() - 1] == l);
        } else {
            assert(s[j] == l);
        }
    }
    assert forall|l: Location| s.contains(l) && l != s[i] implies t.contains(l) by {
        let j = choose|j: int| 0 <= j < s.len() && s[j] == l;
        if j == s.len() - 1 {
            if i < s.len() - 1 {
                assert(t[i] == l);
            }
        } else {
            assert(t[j] == l);
        }
    }
    assert forall|j: int, k: int| 0 <= j < k < t.len() implies t[j] != t[k] by {
        if k == i {
            assert(t[k] == s[s.len() - 1]);
            assert(t[j] == s[j]);
        } else if j == i {
            assert(t[j] == s[s.len() - 1]);
            assert(t[k] == s[k]);
        } else {
            assert(t[j] == s[j] && t[k] == s[k]);
        }
    }
}

/// Examines one neighbor of a wavefront square: if it is still in the pool,
/// it is taken out and joins the next wave, and the search ends at once when
/// that neighbor is the finish.
fn visit_candidate(
    neighbor: Location,
    finish: Location,
    pool: &mut Vec<Location>,
    next_wave: &mut Vec<Location>,
) -> (found: bool)
    requires
        old(pool)@.no_duplicates(),
    ensures
        final(pool)@.no_duplicates(),
        found == (old(pool)@.contains(neighbor) && neighbor == finish),
        found ==> final(pool)@ == old(pool)@ && final(next_wave)@ == old(next_wave)@,
        !old(pool)@.contains(neighbor) ==> final(pool)@ == old(pool)@ && final(next_wave)@ == old(
            next_wave,
        )@,
        old(pool)@.contains(neighbor) && neighbor != finish ==> {
            &&& forall|l: Location|
                final(pool)@.contains(l) <==> (old(pool)@.contains(l) && l != neighbor)
            &&& final(pool)@.len() == old(pool)@.len() - 1
            &&& final(next_wave)@ == old(next_wave)@.push(neighbor)
        },
{
    match find_square(pool, neighbor) {
        Some(i) => {
            proof {
                assert(pool@.contains(neighbor));
            }
            if neighbor == finish {
                return true;
            }
            next_wave.push(neighbor);
            proof {
                lemma_swap_remove_pool(pool@, i as int);
            }
            pool.swap_remove(i);
            false
        },
        None => false,
    }
}

/// Expands one wavefront square: each of its four orthogonal neighbors that
/// is still in the pool leaves the pool for the next wave; the expansion
/// reports at once when one of them is the finish.
fn expand_square(
    square: Location,
    finish: Location,
    pool: &mut Vec<Location>,
    next_wave: &mut Vec<Location>,
) -> (found: bool)
    requires
        old(pool)@.no_duplicates(),
        0 <= square.x < isize::MAX,
        0 <= square.y < isize::MAX,
    ensures
        final(pool)@.no_duplicates(),
        found ==> old(pool)@.contains(finish) && adjacent(square, finish),
        !found ==> {
            &&& forall|l: Location|
                #[trigger] final(pool)@.contains(l) ==> old(pool)@.contains(l)
            &&& forall|n: Location| adjacent(square, n) ==> !final(pool)@.contains(n)
            &&& forall|l: Location|
                old(pool)@.contains(l) && !final(pool)@.contains(l) ==> adjacent(square, l)
            &&& old(pool)@.contains(finish) ==> final(pool)@.contains(finish)
            &&& forall|l: Location|
                #[trigger] final(next_wave)@.contains(l) <==> (old(next_wave)@.contains(l) || (old(
                    pool,
                )@.contains(l) && !final(pool)@.contains(l)))
            &&& final(pool)@.len() + final(next_wave)@.len() == old(pool)@.len() + old(
                next_wave,
            )@.len()
        },
{
    let c1 = square.plus(Offset::new(-1, 0));
    let c2 = square.plus(Offset::new(1, 0));
    let c3 = square.plus(Offset::new(0, -1));
    let c4 = square.plus(Offset::new(0, 1));
    let ghost p0 = pool@;
    let ghost n0 = next_wave@;
    if visit_candidate(c1, finish, pool, next_wave) {
        return true;
    }
    let ghost p1 = pool@;
    let ghost n1 = next_wave@;
    if visit_candidate(c2, finish, pool, next_wave) {
        proof {
            assert(p0.contains(c2) ==> pool@.contains(c2));
        }
        return true;
    }
    let ghost p2 = pool@;
    let ghost n2 = next_wave@;
    if visit_candidate(c3, finish, pool, next_wave) {
        return true;
    }
    let ghost p3 = pool@;
    let ghost n3 = next_wave@;
    if visit_candidate(c4, finish, pool, next_wave) {
        return true;
    }
    proof {
        assert forall|n: Location| adjacent(square, n) implies !pool@.contains(n) by {
            assert(n == c1 || n == c2 || n == c3 || n == c4);
        }
    }
    false
}

/// Whether the start corner's character links the start to the finish
/// through horizontally and vertically adjacent identical characters. The
/// wavefront expansion visits each potential path square at most once, and
/// the finish is only accepted when it is discovered from a neighbor.
#[verifier::rlimit(100)]
pub fn connected(start: Location, finish: Location, rows: &Vec<Vec<char>>) -> (r: bool)
    requires
        grid_wf(rows.deep_view()),
        in_grid(rows.deep_view(), start),
        in_grid(rows.deep_view(), finish),
    ensures
        r == connects(rows.deep_view(), start, finish),
{
    let ghost g = rows.deep_view();
    let path_character = character_at(start, rows);
    let h = height(rows);
    let w = width(rows);
    let mut potential_path_squares: Vec<Location> = Vec::new();
    let mut y: usize = 0;
    while y < h
        invariant
            g == rows.deep_view(),
            grid_wf(g),
            in_grid(g, start),
            path_character == char_at_spec(g, start),
            h == g.len(),
            w == g[0].len(),
            y <= h,
            potential_path_squares@.no_duplicates(),
            forall|l: Location|
                #[trigger] potential_path_squares@.contains(l) ==> candidate(g, start, l)
                    && l.y < y,
            forall|l: Location|
                candidate(g, start, l) && l.y < y ==> potential_path_squares@.contains(l),
        decreases h - y,
    {
        let mut x: usize = 0;
        while x < w
            invariant
                g == rows.deep_view(),
                grid_wf(g),
                in_grid(g, start),
                path_character == char_at_spec(g, start),
                h == g.len(),
                w == g[0].len(),
                y < h,
                x <= w,
                potential_path_squares@.no_duplicates(),
                forall|l: Location|
                    #[trigger] potential_path_squares@.contains(l) ==> candidate(g, start, l) && (
                    l.y < y || (l.y == y && l.x < x)),
                forall|l: Location|
                    candidate(g, start, l) && (l.y < y || (l.y == y && l.x < x))
                        ==> potential_path_squares@.contains(l),
            decreases w - x,
        {
            let l = Location::new(x as isize, y as isize);
            if !(l == start) && character_at(l, rows) == path_character {
                let ghost before = potential_path_squares@;
                potential_path_squares.push(l);
                proof {
                    assert(!before.contains(l));
                    assert(forall|m: Location|
                        #[trigger] potential_path_squares@.contains(m) <==> (before.contains(m)
                            || m == l));
                }
            }
            x = x + 1;
        }
        y = y + 1;
    }
    let mut wavefront: Vec<Location> = Vec::new();
    wavefront.push(start);
    proof {
        assert(wavefront@.contains(start));
    }
    loop
        invariant
            g == rows.deep_view(),
            grid_wf(g),
            in_grid(g, start),
            in_grid(g, finish),
            potential_path_squares@.no_duplicates(),
            forall|l: Location|
                #[trigger] potential_path_squares@.contains(l) ==> candidate(g, start, l),
            candidate(g, start, finish) ==> potential_path_squares@.contains(finish),
            forall|l: Location|
                #[trigger] wavefront@.contains(l) ==> visited(g, start, potential_path_squares@, l),
            forall|l: Location|
                #[trigger] wavefront@.contains(l) ==> (l == start || connects(g, start, l)),
            forall|v: Location, n: Location|
                #![trigger adjacent(v, n)]
                visited(g, start, potential_path_squares@, v) && !wavefront@.contains(v)
                    && candidate(g, start, n) && adjacent(v, n) ==> visited(
                    g,
                    start,
                    potential_path_squares@,
                    n,
                ),
        decreases potential_path_squares@.len(),
    {
        let ghost pool_at_round_start = potential_path_squares@;
        let mut next_wave: Vec<Location> = Vec::new();
        let mut k: usize = 0;
        proof {
            assert(wavefront@.skip(0) =~= wavefront@);
        }
        while k < wavefront.len()
            invariant
                g == rows.deep_view(),
                grid_wf(g),
                in_grid(g, start),
                in_grid(g, finish),
                k <= wavefront@.len(),
                potential_path_squares@.no_duplicates(),
                forall|l: Location|
                    #[trigger] potential_path_squares@.contains(l) ==> candidate(g, start, l),
                candidate(g, start, finish) ==> potential_path_squares@.contains(finish),
                forall|l: Location|
                    #[trigger] wavefront@.contains(l) ==> visited(
                        g,
                        start,
                        potential_path_squares@,
                        l,
                    ),
                forall|l: Location|
                    #[trigger] wavefront@.contains(l) ==> (l == start || connects(g, start, l)),
                forall|l: Location|
                    #[trigger] next_wave@.contains(l) ==> visited(
                        g,
                        start,
                        potential_path_squares@,
                        l,
                    ) && connects(g, start, l),
                forall|v: Location, n: Location|
                    #![trigger adjacent(v, n)]
                    visited(g, start, potential_path_squares@, v) && !wavefront@.skip(
                        k as int,
                    ).contains(v) && !next_wave@.contains(v) && candidate(g, start, n) && adjacent(
                        v,
                        n,
                    ) ==> visited(g, start, potential_path_squares@, n),
                potential_path_squares@.len() + next_wave@.len() == pool_at_round_start.len(),
            decreases wavefront@.len() - k,
        {
            let square = wavefront[k];
            proof {
                assert(wavefront@.contains(square));
                assert(visited(g, start, potential_path_squares@, square));
                assert(in_grid(g, square));
                assert(square.y < g.len() && g.len() <= isize::MAX as int);
                assert(square.x < g[square.y as int].len() && g[square.y as int].len() == g[0].len(
                ));
            }
            let ghost pool_before = potential_path_squares@;
            let ghost next_before = next_wave@;
            let found = expand_square(
                square,
                finish,
                &mut potential_path_squares,
                &mut next_wave,
            );
            if found {
                proof {
                    assert(candidate(g, start, finish));
                    lemma_extend_path(g, start, square, finish);
                }
                return true;
            }
            k = k + 1;
            proof {
                assert forall|l: Location| #[trigger]
                    next_wave@.contains(l) implies visited(g, start, potential_path_squares@, l)
                    && connects(g, start, l) by {
                    if next_before.contains(l) {
                        assert(!potential_path_squares@.contains(l));
                    } else {
                        assert(pool_before.contains(l) && !potential_path_squares@.contains(l));
                        assert(candidate(g, start, l));
                        assert(adjacent(square, l));
                        lemma_extend_path(g, start, square, l);
                    }
                }
                assert forall|v: Location, n: Location|
                    visited(g, start, potential_path_squares@, v) && !wavefront@.skip(
                        k as int,
                    ).contains(v) && !next_wave@.contains(v) && candidate(g, start, n)
                        && #[trigger] adjacent(v, n) implies visited(
                    g,
                    start,
                    potential_path_squares@,
                    n,
                ) by {
                    if v == square {
                        assert(!potential_path_squares@.contains(n));
                    } else if visited(g, start, pool_before, v) {
                        assert(!wavefront@.skip(k as int - 1).contains(v)) by {
                            assert(wavefront@.skip(k as int - 1)[0] == square);
                            if wavefront@.skip(k as int - 1).contains(v) {
                                let j = choose|j: int|
                                    0 <= j < wavefront@.skip(k as int - 1).len() && (#[trigger]
                                    wavefront@.skip(k as int - 1)[j]) == v;
                                assert(wavefront@.skip(k as int)[j - 1] == v);
                                assert(wavefront@.skip(k as int).contains(v));
                            }
                        }
                        assert(!next_before.contains(v));
                        assert(visited(g, start, pool_before, n));
                        assert(visited(g, start, potential_path_squares@, n));
                    } else {
                        assert(pool_before.contains(v) && !potential_path_squares@.contains(v));
                        assert(next_wave@.contains(v));
                    }
                }
            }
        }
        if next_wave.len() == 0 {
            proof {
                assert(wavefront@.skip(wavefront@.len() as int).len() == 0);
                if connects(g, start, finish) {
                    let p = choose|p: Seq<Location>| is_connecting_path(g, start, finish, p);
                    assert forall|v: Location, n: Location|
                        #![trigger adjacent(v, n)]
                        visited(g, start, potential_path_squares@, v) && candidate(g, start, n)
                            && adjacent(v, n) implies visited(
                        g,
                        start,
                        potential_path_squares@,
                        n,
                    ) by {
                        assert(!wavefront@.skip(wavefront@.len() as int).contains(v));
                        assert(!next_wave@.contains(v));
                    }
                    lemma_path_visited(
                        g,
                        start,
                        finish,
                        potential_path_squares@,
                        p,
                        p.len() - 1,
                    );
                    assert(p.last() != start);
                    assert(candidate(g, start, finish));
                    assert(potential_path_squares@.contains(finish));
                    assert(false);
                }
            }
            return false;
        }
        proof {
            assert(next_wave@.len() > 0);
            assert(potential_path_squares@.len() < pool_at_round_start.len());
        }
        wavefront = next_wave;
        proof {
            assert(wavefront@.skip(0) =~= wavefront@);
        }
    }
}

/// The spec-level outcome of trying the two diagonal corner pairs in order:
/// the top-left/bottom-right pair first, then top-right/bottom-left.
pub open spec fn resolved_path_char(g: Seq<Seq<char>>) -> Option<char> {
    let w = g[0].len() as int;
    let h = g.len() as int;
    let top_left = (Location { x: 0, y: 0 });
    let bottom_right = (Location { x: (w - 1) as isize, y: (h - 1) as isize });
    let top_right = (Location { x: (w - 1) as isize, y: 0 });
    let bottom_left = (Location { x: 0, y: (h - 1) as isize });
    if connects(g, top_left, bottom_right) {
        Some(cell(g, 0, 0))
    } else if connects(g, top_right, bottom_left) {
        Some(cell(g, w - 1, 0))
    } else {
        None
    }
}

/// The single character (if any) connecting two diagonally opposite corners,
/// trying top-left/bottom-right first and returning without evaluating the
/// second pair when it succeeds.
pub fn character_connecting_opposite_corners(rows: &Vec<Vec<char>>) -> (r: Option<char>)
    requires
        grid_wf(rows.deep_view()),
    ensures
        r == resolved_path_char(rows.deep_view()),
{
    let ghost g = rows.deep_view();
    let w = width(rows);
    let h = height(rows);
    proof {
        assert(w - 1 <= isize::MAX);
        assert(h - 1 <= isize::MAX);
    }
    let top_left = Location::new(0, 0);
    let bottom_right = Location::new((w - 1) as isize, (h - 1) as isize);
    if connected(top_left, bottom_right, rows) {
        return Some(character_at(top_left, rows));
    }
    let top_right = Location::new((w - 1) as isize, 0);
    let bottom_left = Location::new(0, (h - 1) as isize);
    if connected(top_right, bottom_left, rows) {
        return Some(character_at(top_right, rows));
    }
    None
}

} // verus!
