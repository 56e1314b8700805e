//! Sums over matrices and a pigeonhole bound, used to bound the searches.

use vstd::prelude::*;
use vstd::set_lib::{lemma_int_range, lemma_len_subset, set_int_range};

verus! {

/// The sum of the entries of a column.
pub open spec fn column_sum(c: Seq<usize>) -> int
    decreases c.len(),
{
    if c.len() == 0 {
        0
    } else {
        column_sum(c.drop_last()) + c.last()
    }
}

/// The sum of all entries of a matrix given by its columns.
pub open spec fn matrix_sum(m: Seq<Seq<usize>>) -> int
    decreases m.len(),
{
    if m.len() == 0 {
        0
    } else {
        matrix_sum(m.drop_last()) + column_sum(m.last())
    }
}

/// A sum of unsigned entries is never negative.
pub proof fn lemma_column_sum_nonnegative(c: Seq<usize>)
    ensures
        column_sum(c) >= 0,
    decreases c.len(),
{
    if c.len() > 0 {
        lemma_column_sum_nonnegative(c.drop_last());
    }
}

/// A sum of unsigned entries is never negative.
pub proof fn lemma_matrix_sum_nonnegative(m: Seq<Seq<usize>>)
    ensures
        matrix_sum(m) >= 0,
    decreases m.len(),
{
    if m.len() > 0 {
        lemma_matrix_sum_nonnegative(m.drop_last());
        lemma_column_sum_nonnegative(m.last());
    }
}

/// Replacing one entry of a column changes its sum by the difference.
pub proof fn lemma_column_sum_update(c: Seq<usize>, i: int, v: usize)
    requires
        0 <= i < c.len(),
    ensures
        column_sum(c.update(i, v)) == column_sum(c) - c[i] + v,
    decreases c.len(),
{
    let d = c.update(i, v);
    if i == c.len() - 1 {
        assert(d.drop_last() =~= c.drop_last());
    } else {
        lemma_column_sum_update(c.drop_last(), i, v);
        assert(d.drop_last() =~= c.drop_last().update(i, v));
    }
}

/// Replacing one column of a matrix changes its sum by the difference.
pub proof fn lemma_matrix_sum_update(m: Seq<Seq<usize>>, i: int, c: Seq<usize>)
    requires
        0 <= i < m.len(),
    ensures
        matrix_sum(m.update(i, c)) == matrix_sum(m) - column_sum(m[i]) + column_sum(c),
    decreases m.len(),
{
    let d = m.update(i, c);
    if i == m.len() - 1 {
        assert(d.drop_last() =~= m.drop_last());
    } else {
        lemma_matrix_sum_update(m.drop_last(), i, c);
        assert(d.drop_last() =~= m.drop_last().update(i, c));
    }
}

/// The number of walls in a column.
pub open spec fn column_walls(c: Seq<bool>) -> int
    decreases c.len(),
{
    if c.len() == 0 {
        0
    } else {
        column_walls(c.drop_last()) + if c.last() { 1int } else { 0int }
    }
}

/// The number of walls in a grid.
pub open spec fn wall_count(g: Seq<Seq<bool>>) -> int
    decreases g.len(),
{
    if g.len() == 0 {
        0
    } else {
        wall_count(g.drop_last()) + column_walls(g.last())
    }
}

/// Replacing one cell of a column changes its wall count accordingly.
pub proof fn lemma_column_walls_update(c: Seq<bool>, i: int, v: bool)
    requires
        0 <= i < c.len(),
    ensures
        column_walls(c.update(i, v)) == column_walls(c) - (if c[i] { 1int } else { 0int }) + (if v {
            1int
        } else {
            0int
        }),
        column_walls(c) >= 0,
    decreases c.len(),
{
    let d = c.update(i, v);
    if i == c.len() - 1 {
        assert(d.drop_last() =~= c.drop_last());
        lemma_column_walls_nonnegative(c.drop_last());
    } else {
        lemma_column_walls_update(c.drop_last(), i, v);
        assert(d.drop_last() =~= c.drop_last().update(i, v));
    }
}

/// A wall count is never negative.
pub proof fn lemma_column_walls_nonnegative(c: Seq<bool>)
    ensures
        column_walls(c) >= 0,
    decreases c.len(),
{
    if c.len() > 0 {
        lemma_column_walls_nonnegative(c.drop_last());
    }
}

/// A wall count is never negative.
pub proof fn lemma_wall_count_nonnegative(g: Seq<Seq<bool>>)
    ensures
        wall_count(g) >= 0,
    decreases g.len(),
{
    if g.len() > 0 {
        lemma_wall_count_nonnegative(g.drop_last());
        lemma_column_walls_nonnegative(g.last());
    }
}

/// Replacing one column of a grid changes its wall count by the difference.
pub proof fn lemma_wall_count_update(g: Seq<Seq<bool>>, i: int, c: Seq<bool>)
    requires
        0 <= i < g.len(),
    ensures
        wall_count(g.update(i, c)) == wall_count(g) - column_walls(g[i]) + column_walls(c),
    decreases g.len(),
{
    let d = g.update(i, c);
    if i == g.len() - 1 {
        assert(d.drop_last() =~= g.drop_last());
    } else {
        lemma_wall_count_update(g.drop_last(), i, c);
        assert(d.drop_last() =~= g.drop_last().update(i, c));
    }
}

/// What the cell at `(x, y)` adds to the number of open rooms: one where
/// it is a passage and both coordinates are even.
pub open spec fn room_weight(x: int, y: int, wall: bool) -> int {
    if !wall && x % 2 == 0 && y % 2 == 0 {
        1
    } else {
        0
    }
}

/// What the cell at `(x, y)` adds to the number of open links: one where
/// it is a passage and exactly one coordinate is odd.
pub open spec fn link_weight(x: int, y: int, wall: bool) -> int {
    if !wall && (x % 2 == 0) != (y % 2 == 0) {
        1
    } else {
        0
    }
}

/// What a cell adds to a tally: to the rooms where `links` is false, to the
/// links where it is true.
pub open spec fn weight(links: bool, x: int, y: int, wall: bool) -> int {
    if links {
        link_weight(x, y, wall)
    } else {
        room_weight(x, y, wall)
    }
}

/// The tally of column `x`.
pub open spec fn column_tally(c: Seq<bool>, x: int, links: bool) -> int
    decreases c.len(),
{
    if c.len() == 0 {
        0
    } else {
        column_tally(c.drop_last(), x, links) + weight(links, x, c.len() - 1, c.last())
    }
}

/// The tally of a grid: the number of its open rooms, or of its open links.
pub open spec fn tally(g: Seq<Seq<bool>>, links: bool) -> int
    decreases g.len(),
{
    if g.len() == 0 {
        0
    } else {
        tally(g.drop_last(), links) + column_tally(g.last(), g.len() - 1, links)
    }
}

/// The number of open rooms: passages whose coordinates are both even.
pub open spec fn open_rooms(g: Seq<Seq<bool>>) -> int {
    tally(g, false)
}

/// The number of open links: passages with exactly one odd coordinate.
pub open spec fn open_links(g: Seq<Seq<bool>>) -> int {
    tally(g, true)
}

/// Replacing one cell of a column changes its tally by the difference.
pub proof fn lemma_column_tally_update(c: Seq<bool>, x: int, links: bool, i: int, v: bool)
    requires
        0 <= i < c.len(),
    ensures
        column_tally(c.update(i, v), x, links) == column_tally(c, x, links) - weight(
            links,
            x,
            i,
            c[i],
        ) + weight(links, x, i, v),
    decreases c.len(),
{
    let d = c.update(i, v);
    if i == c.len() - 1 {
        assert(d.drop_last() =~= c.drop_last());
    } else {
        lemma_column_tally_update(c.drop_last(), x, links, i, v);
        assert(d.drop_last() =~= c.drop_last().update(i, v));
    }
}

/// Replacing one column of a grid changes its tally by the difference.
pub proof fn lemma_tally_update(g: Seq<Seq<bool>>, links: bool, i: int, c: Seq<bool>)
    requires
        0 <= i < g.len(),
    ensures
        tally(g.update(i, c), links) == tally(g, links) - column_tally(g[i], i, links)
            + column_tally(c, i, links),
    decreases g.len(),
{
    let d = g.update(i, c);
    if i == g.len() - 1 {
        assert(d.drop_last() =~= g.drop_last());
    } else {
        lemma_tally_update(g.drop_last(), links, i, c);
        assert(d.drop_last() =~= g.drop_last().update(i, c));
    }
}

/// A column of walls adds nothing to a tally.
pub proof fn lemma_column_tally_of_walls(c: Seq<bool>, x: int, links: bool)
    requires
        forall|y: int| 0 <= y < c.len() ==> #[trigger] c[y],
    ensures
        column_tally(c, x, links) == 0,
    decreases c.len(),
{
    if c.len() > 0 {
        assert(c.last());
        lemma_column_tally_of_walls(c.drop_last(), x, links);
    }
}

/// A grid of walls has no open room and no open link.
pub proof fn lemma_tally_of_walls(g: Seq<Seq<bool>>, links: bool)
    requires
        forall|x: int, y: int| 0 <= x < g.len() && 0 <= y < g[x].len() ==> #[trigger] g[x][y],
    ensures
        tally(g, links) == 0,
    decreases g.len(),
{
    if g.len() > 0 {
        lemma_tally_of_walls(g.drop_last(), links);
        lemma_column_tally_of_walls(g.last(), g.len() - 1, links);
    }
}

/// The number of rooms of a grid of the given size: the cells whose
/// coordinates are both even.
pub open spec fn room_count(width: int, height: int) -> int {
    ((width + 1) / 2) * ((height + 1) / 2)
}

/// A column whose rooms are all open holds every second cell as an open
/// room where its own number is even, and none where it is odd.
pub proof fn lemma_column_rooms(c: Seq<bool>, x: int)
    requires
        forall|y: int| 0 <= y < c.len() && x % 2 == 0 && y % 2 == 0 ==> !#[trigger] c[y],
    ensures
        column_tally(c, x, false) == if x % 2 == 0 {
            (c.len() + 1) / 2
        } else {
            0
        },
    decreases c.len(),
{
    if c.len() > 0 {
        lemma_column_rooms(c.drop_last(), x);
        if x % 2 == 0 && (c.len() - 1) % 2 == 0 {
            assert(!c[c.len() - 1]);
        }
    }
}

/// A grid whose rooms are all open has as many open rooms as it has rooms.
pub proof fn lemma_all_rooms(g: Seq<Seq<bool>>, height: int)
    requires
        0 <= height,
        forall|x: int| 0 <= x < g.len() ==> (#[trigger] g[x]).len() == height,
        forall|x: int, y: int|
            0 <= x < g.len() && 0 <= y < height && x % 2 == 0 && y % 2 == 0 ==> !#[trigger] g[x][y],
    ensures
        open_rooms(g) == room_count(g.len() as int, height),
    decreases g.len(),
{
    if g.len() > 0 {
        let n = g.len() as int;
        let rest = g.drop_last();
        assert forall|x: int| 0 <= x < rest.len() implies (#[trigger] rest[x]).len() == height by {
            assert(rest[x] == g[x]);
        }
        assert forall|x: int, y: int|
            0 <= x < rest.len() && 0 <= y < height && x % 2 == 0 && y % 2 == 0 implies !#[trigger] rest[x][y] by {
            assert(rest[x] == g[x]);
            assert(!g[x][y]);
        }
        lemma_all_rooms(rest, height);
        let last = g.last();
        assert(last.len() == height);
        assert forall|y: int| 0 <= y < last.len() && (n - 1) % 2 == 0 && y % 2 == 0 implies !#[trigger] last[y] by {
            assert(!g[n - 1][y]);
        }
        lemma_column_rooms(last, n - 1);
        let half = (height + 1) / 2;
        let a = (n + 1) / 2;
        let b = n / 2;
        assert(open_rooms(rest) == b * half);
        assert(open_rooms(g) == open_rooms(rest) + column_tally(last, n - 1, false));
        if (n - 1) % 2 == 0 {
            assert(a * half == b * half + half) by (nonlinear_arith)
                requires
                    a == b + 1,
            ;
        } else {
            assert(a * half == b * half) by (nonlinear_arith)
                requires
                    a == b,
            ;
        }
    } else {
        assert(room_count(0, height) == 0) by (nonlinear_arith);
    }
}

/// In a column without a passage at two odd coordinates, every cell is a
/// wall, an open room or an open link.
pub proof fn lemma_column_cells(c: Seq<bool>, x: int)
    requires
        forall|y: int| 0 <= y < c.len() && !#[trigger] c[y] ==> x % 2 == 0 || y % 2 == 0,
    ensures
        c.len() == column_walls(c) + column_tally(c, x, false) + column_tally(c, x, true),
    decreases c.len(),
{
    if c.len() > 0 {
        lemma_column_cells(c.drop_last(), x);
        if !c[c.len() - 1] {
            assert(x % 2 == 0 || (c.len() - 1) % 2 == 0);
        }
    }
}

/// In a grid without a passage at two odd coordinates, every cell is a
/// wall, an open room or an open link.
pub proof fn lemma_grid_cells(g: Seq<Seq<bool>>, height: int)
    requires
        0 <= height,
        forall|x: int| 0 <= x < g.len() ==> (#[trigger] g[x]).len() == height,
        forall|x: int, y: int|
            0 <= x < g.len() && 0 <= y < height && !#[trigger] g[x][y] ==> x % 2 == 0 || y % 2
                == 0,
    ensures
        g.len() * height == wall_count(g) + open_rooms(g) + open_links(g),
    decreases g.len(),
{
    if g.len() > 0 {
        let n = g.len() as int;
        let rest = g.drop_last();
        assert forall|x: int| 0 <= x < rest.len() implies (#[trigger] rest[x]).len() == height by {
            assert(rest[x] == g[x]);
        }
        assert forall|x: int, y: int|
            0 <= x < rest.len() && 0 <= y < height && !#[trigger] rest[x][y] implies x % 2 == 0
            || y % 2 == 0 by {
            assert(rest[x] == g[x]);
            assert(!g[x][y]);
        }
        lemma_grid_cells(rest, height);
        let last = g.last();
        assert(last.len() == height);
        assert forall|y: int| 0 <= y < last.len() && !#[trigger] last[y] implies (n - 1) % 2 == 0
            || y % 2 == 0 by {
            assert(!g[n - 1][y]);
        }
        lemma_column_cells(last, n - 1);
        assert(n * height == (n - 1) * height + height) by (nonlinear_arith);
    } else {
        assert(g.len() * height == 0) by (nonlinear_arith)
            requires
                g.len() == 0,
        ;
    }
}

/// The position of a cell when the columns of a grid of height `h` are laid
/// end to end.
pub open spec fn flat_index(c: (usize, usize), h: int) -> int {
    c.0 * h + c.1
}

proof fn lemma_flat_index(a: (usize, usize), b: (usize, usize), w: int, h: int)
    requires
        a.0 < w,
        a.1 < h,
        b.0 < w,
        b.1 < h,
    ensures
        0 <= flat_index(a, h) < w * h,
        flat_index(a, h) == flat_index(b, h) ==> a == b,
{
    assert(0 <= a.0 * h && a.0 * h + h <= w * h) by (nonlinear_arith)
        requires
            0 <= a.0 < w,
            0 < h,
    ;
    if a.0 < b.0 {
        assert(a.0 * h + h <= b.0 * h) by (nonlinear_arith)
            requires
                a.0 < b.0,
                0 < h,
        ;
    } else if b.0 < a.0 {
        assert(b.0 * h + h <= a.0 * h) by (nonlinear_arith)
            requires
                b.0 < a.0,
                0 < h,
        ;
    }
}

/// Distinct cells of a `w` by `h` grid number at most `w * h`.
pub proof fn lemma_distinct_cells_bounded(s: Seq<(usize, usize)>, w: int, h: int)
    requires
        0 <= w,
        0 <= h,
        s.no_duplicates(),
        forall|i: int| 0 <= i < s.len() ==> (#[trigger] s[i]).0 < w && s[i].1 < h,
    ensures
        s.len() <= w * h,
{
    assert(0 <= w * h) by (nonlinear_arith)
        requires
            0 <= w,
            0 <= h,
    ;
    if s.len() > 0 {
        assert(s[0].0 < w && s[0].1 < h);
        let t = Seq::new(s.len(), |i: int| flat_index(s[i], h));
        assert forall|i: int, j: int| 0 <= i < t.len() && 0 <= j < t.len() && i != j implies t[i]
            != t[j] by {
            lemma_flat_index(s[i], s[j], w, h);
        }
        assert(t.no_duplicates());
        t.unique_seq_to_set();
        lemma_int_range(0, w * h);
        assert forall|v: int| t.to_set().contains(v) implies set_int_range(0, w * h).contains(
            v,
        ) by {
            let i = choose|i: int| 0 <= i < t.len() && t[i] == v;
            lemma_flat_index(s[i], s[i], w, h);
        }
        lemma_len_subset(t.to_set(), set_int_range(0, w * h));
    }
}

} // verus!
