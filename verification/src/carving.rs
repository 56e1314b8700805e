//! The state of the depth-first carve and why each of its steps keeps the
//! maze a tree.

use vstd::prelude::*;
use crate::counting::{
    lemma_all_rooms,
    lemma_column_tally_update,
    lemma_column_walls_update,
    lemma_grid_cells,
    lemma_tally_of_walls,
    lemma_tally_update,
    lemma_wall_count_update,
    open_links,
    open_rooms,
    room_count,
    tally,
    wall_count,
    weight,
};
use crate::grid::{
    all_walls,
    cell_at,
    height_of,
    in_grid,
    is_open,
    is_wall_at,
    lies_in,
    opened,
    shifted,
    valid_grid,
    width_of,
};
use crate::route::adjacent;
use crate::tree::{lemma_leaf_keeps_perfect, lemma_opened, lemma_single_passage_perfect, perfect};

verus! {

/// The position lies inside the grid and holds a passage.
pub open spec fn open_at(g: Seq<Seq<bool>>, x: int, y: int) -> bool {
    0 <= x < width_of(g) && 0 <= y < height_of(g) && !g[x][y]
}

/// A room: a cell whose coordinates are both even.  The carve moves from
/// room to room.
pub open spec fn is_room(c: (usize, usize)) -> bool {
    c.0 % 2 == 0 && c.1 % 2 == 0
}

/// The cell half way between two rooms that lie two cells apart.
pub open spec fn midpoint(a: (usize, usize), b: (usize, usize)) -> (usize, usize) {
    (((a.0 + b.0) / 2) as usize, ((a.1 + b.1) / 2) as usize)
}

/// Every room that lies two cells from `r` inside the grid is open.
pub open spec fn surrounded(g: Seq<Seq<bool>>, r: (usize, usize)) -> bool {
    forall|d: int|
        0 <= d < 4 && lies_in(g, #[trigger] shifted(r, d, 2)) ==> open_at(
            g,
            shifted(r, d, 2).0,
            shifted(r, d, 2).1,
        )
}

/// The passages of a carved grid lie where the carve puts them: none has
/// two odd coordinates, and each link lies between two open rooms.
pub open spec fn laid_out(g: Seq<Seq<bool>>) -> bool {
    &&& forall|c: (usize, usize)| #[trigger] is_open(g, c) ==> c.0 % 2 == 0 || c.1 % 2 == 0
    &&& forall|c: (usize, usize)|
        #[trigger] is_open(g, c) && c.0 % 2 == 1 ==> open_at(g, c.0 - 1, c.1 as int) && open_at(
            g,
            c.0 + 1,
            c.1 as int,
        )
    &&& forall|c: (usize, usize)|
        #[trigger] is_open(g, c) && c.1 % 2 == 1 ==> open_at(g, c.0 as int, c.1 - 1) && open_at(
            g,
            c.0 as int,
            c.1 + 1,
        )
}

/// The shape of a carved grid: passages are rooms and the links between two
/// open rooms, they form a tree that holds the origin, and there is one
/// room more than there are links.
pub open spec fn tree_shaped(g: Seq<Seq<bool>>) -> bool {
    &&& valid_grid(g)
    &&& is_open(g, (0usize, 0usize))
    &&& perfect(g)
    &&& open_links(g) + 1 == open_rooms(g)
    &&& laid_out(g)
}

/// What holds between two steps of the carve: the grid is tree shaped, the
/// stack holds open rooms, and every open room that has left the stack has
/// no wall left two cells away.
pub open spec fn carving(g: Seq<Seq<bool>>, stack: Seq<(usize, usize)>) -> bool {
    &&& tree_shaped(g)
    &&& forall|i: int| 0 <= i < stack.len() ==> is_open(g, #[trigger] stack[i]) && is_room(stack[i])
    &&& forall|r: (usize, usize)|
        #[trigger] is_open(g, r) && is_room(r) ==> stack.contains(r) || surrounded(g, r)
}

/// A finished carve: the grid is tree shaped and every room is open.  With
/// `R` rooms in the grid that makes `R` open rooms, `R - 1` open links and
/// `2 R - 1` passages in all.
pub open spec fn well_carved(g: Seq<Seq<bool>>) -> bool {
    &&& tree_shaped(g)
    &&& forall|r: (usize, usize)| #[trigger] in_grid(g, r) && is_room(r) ==> is_open(g, r)
    &&& open_rooms(g) == room_count(width_of(g) as int, height_of(g) as int)
    &&& open_links(g) == room_count(width_of(g) as int, height_of(g) as int) - 1
    &&& width_of(g) * height_of(g) - wall_count(g) == 2 * room_count(
        width_of(g) as int,
        height_of(g) as int,
    ) - 1
}

/// Both sides of a grid fit a `usize` twice over.
pub proof fn lemma_sides_fit(g: Seq<Seq<bool>>)
    requires
        valid_grid(g),
    ensures
        2 * width_of(g) + 1 <= usize::MAX,
        2 * height_of(g) + 1 <= usize::MAX,
{
    let w = width_of(g) as int;
    let h = height_of(g) as int;
    assert(w * h >= w && w * h >= h) by (nonlinear_arith)
        requires
            w >= 1,
            h >= 1,
    ;
}

/// Opening a wall takes one from the number of walls.
pub proof fn lemma_open_wall(g: Seq<Seq<bool>>, v: (usize, usize))
    requires
        valid_grid(g),
        is_wall_at(g, v),
    ensures
        wall_count(opened(g, v)) == wall_count(g) - 1,
{
    assert(g[v.0 as int].len() == g[0].len());
    lemma_column_walls_update(g[v.0 as int], v.1 as int, false);
    lemma_wall_count_update(g, v.0 as int, g[v.0 as int].update(v.1 as int, false));
}

/// Opening a wall adds what the open cell weighs to a tally.
pub proof fn lemma_open_wall_tally(g: Seq<Seq<bool>>, v: (usize, usize), links: bool)
    requires
        valid_grid(g),
        is_wall_at(g, v),
    ensures
        tally(opened(g, v), links) == tally(g, links) + weight(
            links,
            v.0 as int,
            v.1 as int,
            false,
        ),
{
    assert(g[v.0 as int].len() == g[0].len());
    lemma_column_tally_update(g[v.0 as int], v.0 as int, links, v.1 as int, false);
    lemma_tally_update(g, links, v.0 as int, g[v.0 as int].update(v.1 as int, false));
}

/// The carve may begin: a grid of walls with its origin opened, and the
/// origin on the stack.
pub proof fn lemma_carving_begins(width: nat, height: nat)
    requires
        valid_grid(all_walls(width, height)),
    ensures
        carving(opened(all_walls(width, height), (0usize, 0usize)), seq![(0usize, 0usize)]),
{
    let g0 = all_walls(width, height);
    let o = (0usize, 0usize);
    let g = opened(g0, o);
    lemma_opened(g0, o);
    assert forall|x: (usize, usize)| #[trigger] is_open(g, x) implies x == o by {
        assert(!is_open(g0, x));
    }
    lemma_single_passage_perfect(g, o);
    lemma_tally_of_walls(g0, false);
    lemma_tally_of_walls(g0, true);
    lemma_open_wall_tally(g0, o, false);
    lemma_open_wall_tally(g0, o, true);
    let stack = seq![o];
    assert(stack[0] == o);
    assert forall|r: (usize, usize)| #[trigger] is_open(g, r) && is_room(r) implies stack.contains(
        r,
    ) || surrounded(g, r) by {
        assert(r == stack[0]);
    }
}

/// The step from the open room `c` in direction `d` leads to the walled
/// room `n` across the cell `m`.
pub open spec fn steps_across(
    g: Seq<Seq<bool>>,
    c: (usize, usize),
    d: int,
    m: (usize, usize),
    n: (usize, usize),
) -> bool {
    &&& valid_grid(g)
    &&& laid_out(g)
    &&& is_open(g, c)
    &&& is_room(c)
    &&& 0 <= d < 4
    &&& lies_in(g, shifted(c, d, 2))
    &&& n == cell_at(shifted(c, d, 2))
    &&& is_wall_at(g, n)
    &&& m == midpoint(c, n)
}

/// The cell between an open room and a walled room is a wall that touches
/// no passage but the open room.
proof fn lemma_between_is_dead_end(
    g: Seq<Seq<bool>>,
    c: (usize, usize),
    d: int,
    m: (usize, usize),
    n: (usize, usize),
)
    requires
        steps_across(g, c, d, m, n),
    ensures
        in_grid(g, m),
        in_grid(g, n),
        is_room(n),
        m != n,
        adjacent(c, m),
        adjacent(m, n),
        is_wall_at(g, m),
        (m.0 % 2 == 0) != (m.1 % 2 == 0),
        forall|u: (usize, usize)| adjacent(m, u) && #[trigger] is_open(g, u) ==> u == c,
{
    lemma_sides_fit(g);
    if is_open(g, m) {
        assert(open_at(g, n.0 as int, n.1 as int));
    }
    assert forall|u: (usize, usize)| adjacent(m, u) && #[trigger] is_open(g, u) implies u == c by {
        if u != c {
            assert(u == n || (u.0 % 2 == 1 && u.1 % 2 == 1));
        }
    }
}

/// Once the cell between is open, the walled room beyond touches no passage
/// but that cell.
proof fn lemma_beyond_is_dead_end(
    g: Seq<Seq<bool>>,
    c: (usize, usize),
    d: int,
    m: (usize, usize),
    n: (usize, usize),
)
    requires
        steps_across(g, c, d, m, n),
    ensures
        forall|u: (usize, usize)| adjacent(n, u) && #[trigger] is_open(opened(g, m), u) ==> u == m,
{
    lemma_between_is_dead_end(g, c, d, m, n);
    lemma_opened(g, m);
    assert forall|u: (usize, usize)| adjacent(n, u) && #[trigger] is_open(opened(g, m), u) implies u
        == m by {
        if u != m {
            assert(is_open(g, u));
            assert(open_at(g, n.0 as int, n.1 as int));
        }
    }
}

/// With the room beyond and the cell between opened, the passages still lie
/// where the carve puts them.
proof fn lemma_step_laid_out(
    g: Seq<Seq<bool>>,
    c: (usize, usize),
    d: int,
    m: (usize, usize),
    n: (usize, usize),
)
    requires
        steps_across(g, c, d, m, n),
    ensures
        laid_out(opened(opened(g, m), n)),
{
    lemma_between_is_dead_end(g, c, d, m, n);
    let g1 = opened(g, m);
    let g2 = opened(g1, n);
    lemma_opened(g, m);
    lemma_opened(g1, n);
    assert forall|x: int, y: int| open_at(g, x, y) implies open_at(g2, x, y) by {
        assert(is_open(g, (x as usize, y as usize)));
        assert(is_open(g2, (x as usize, y as usize)));
    }
    assert(open_at(g2, n.0 as int, n.1 as int)) by {
        assert(is_open(g2, n));
    }
    assert(open_at(g, c.0 as int, c.1 as int));
    assert forall|a: (usize, usize)| #[trigger] is_open(g2, a) implies a.0 % 2 == 0 || a.1 % 2
        == 0 by {
        if a != m && a != n {
            assert(is_open(g, a));
        }
    }
    assert forall|a: (usize, usize)| #[trigger] is_open(g2, a) && a.0 % 2 == 1 implies open_at(
        g2,
        a.0 - 1,
        a.1 as int,
    ) && open_at(g2, a.0 + 1, a.1 as int) by {
        if a != m {
            assert(is_open(g, a));
        }
    }
    assert forall|a: (usize, usize)| #[trigger] is_open(g2, a) && a.1 % 2 == 1 implies open_at(
        g2,
        a.0 as int,
        a.1 - 1,
    ) && open_at(g2, a.0 as int, a.1 + 1) by {
        if a != m {
            assert(is_open(g, a));
        }
    }
}

/// With the room beyond on the stack, every open room is on the stack or
/// has no wall left two cells away.
proof fn lemma_step_stacked(
    g: Seq<Seq<bool>>,
    stack: Seq<(usize, usize)>,
    m: (usize, usize),
    n: (usize, usize),
)
    requires
        valid_grid(g),
        in_grid(g, m),
        in_grid(g, n),
        is_room(n),
        !is_room(m),
        forall|i: int| 0 <= i < stack.len() ==> is_open(g, #[trigger] stack[i]) && is_room(stack[i]),
        forall|r: (usize, usize)|
            #[trigger] is_open(g, r) && is_room(r) ==> stack.contains(r) || surrounded(g, r),
    ensures
        forall|i: int|
            0 <= i < stack.push(n).len() ==> is_open(
                opened(opened(g, m), n),
                #[trigger] stack.push(n)[i],
            ) && is_room(stack.push(n)[i]),
        forall|r: (usize, usize)|
            #[trigger] is_open(opened(opened(g, m), n), r) && is_room(r) ==> stack.push(n).contains(
                r,
            ) || surrounded(opened(opened(g, m), n), r),
{
    let g1 = opened(g, m);
    let g2 = opened(g1, n);
    lemma_opened(g, m);
    lemma_opened(g1, n);
    let after = stack.push(n);
    assert forall|i: int| 0 <= i < after.len() implies is_open(g2, #[trigger] after[i]) && is_room(
        after[i],
    ) by {
        if i < stack.len() {
            assert(is_open(g, stack[i]));
        }
    }
    assert forall|x: int, y: int| open_at(g, x, y) implies open_at(g2, x, y) by {
        assert(is_open(g, (x as usize, y as usize)));
        assert(is_open(g2, (x as usize, y as usize)));
    }
    assert forall|r: (usize, usize)| #[trigger] is_open(g2, r) && is_room(r) implies after.contains(
        r,
    ) || surrounded(g2, r) by {
        if r == n {
            assert(after[after.len() - 1] == n);
        } else {
            assert(is_open(g, r));
            if stack.contains(r) {
                let i = choose|i: int| 0 <= i < stack.len() && stack[i] == r;
                assert(after[i] == r);
            } else {
                assert(surrounded(g, r));
                assert forall|e: int|
                    0 <= e < 4 && lies_in(g2, #[trigger] shifted(r, e, 2)) implies open_at(
                    g2,
                    shifted(r, e, 2).0,
                    shifted(r, e, 2).1,
                ) by {
                    assert(lies_in(g, shifted(r, e, 2)));
                }
            }
        }
    }
}

/// One step forward keeps the carve sound: from the room `c` on top of the
/// stack to the walled room `n` two cells away in direction `d`, opening `n`
/// and the cell between them.
pub proof fn lemma_carve_forward(
    g: Seq<Seq<bool>>,
    stack: Seq<(usize, usize)>,
    d: int,
)
    requires
        carving(g, stack),
        stack.len() > 0,
        0 <= d < 4,
        lies_in(g, shifted(stack.last(), d, 2)),
        is_wall_at(g, cell_at(shifted(stack.last(), d, 2))),
    ensures
        ({
            let c = stack.last();
            let n = cell_at(shifted(c, d, 2));
            let m = midpoint(c, n);
            &&& in_grid(g, m)
            &&& in_grid(g, n)
            &&& is_room(n)
            &&& carving(opened(opened(g, n), m), stack.push(n))
            &&& wall_count(opened(opened(g, n), m)) == wall_count(g) - 2
        }),
{
    let c = stack.last();
    let n = cell_at(shifted(c, d, 2));
    let m = midpoint(c, n);
    assert(is_open(g, c) && is_room(c));
    assert(steps_across(g, c, d, m, n));
    lemma_between_is_dead_end(g, c, d, m, n);
    lemma_beyond_is_dead_end(g, c, d, m, n);
    lemma_step_laid_out(g, c, d, m, n);
    lemma_step_stacked(g, stack, m, n);
    let g1 = opened(g, m);
    let g2 = opened(g1, n);
    lemma_leaf_keeps_perfect(g, c, m);
    lemma_opened(g, m);
    lemma_open_wall(g, m);
    lemma_open_wall_tally(g, m, false);
    lemma_open_wall_tally(g, m, true);
    lemma_leaf_keeps_perfect(g1, m, n);
    lemma_opened(g1, n);
    lemma_open_wall(g1, n);
    lemma_open_wall_tally(g1, n, false);
    lemma_open_wall_tally(g1, n, true);
    assert(opened(opened(g, n), m) =~~= g2) by {
        assert(g[n.0 as int].len() == g[0].len());
        assert(g[m.0 as int].len() == g[0].len());
    }
    assert(is_open(g2, (0usize, 0usize))) by {
        assert(is_open(g, (0usize, 0usize)));
    }
}

/// One step back keeps the carve sound: the room on top of the stack leaves
/// it once no wall is left two cells away.
pub proof fn lemma_carve_back(g: Seq<Seq<bool>>, stack: Seq<(usize, usize)>)
    requires
        carving(g, stack),
        stack.len() > 0,
        forall|d: int|
            0 <= d < 4 && lies_in(g, #[trigger] shifted(stack.last(), d, 2)) ==> !is_wall_at(
                g,
                cell_at(shifted(stack.last(), d, 2)),
            ),
    ensures
        carving(g, stack.drop_last()),
{
    let c = stack.last();
    let rest = stack.drop_last();
    assert forall|i: int| 0 <= i < rest.len() implies is_open(g, #[trigger] rest[i]) && is_room(
        rest[i],
    ) by {
        assert(rest[i] == stack[i]);
    }
    assert forall|r: (usize, usize)| #[trigger] is_open(g, r) && is_room(r) implies rest.contains(
        r,
    ) || surrounded(g, r) by {
        if r == c {
            assert forall|d: int|
                0 <= d < 4 && lies_in(g, #[trigger] shifted(r, d, 2)) implies open_at(
                g,
                shifted(r, d, 2).0,
                shifted(r, d, 2).1,
            ) by {
                assert(!is_wall_at(g, cell_at(shifted(r, d, 2))));
                assert(in_grid(g, cell_at(shifted(r, d, 2))));
            }
        } else if stack.contains(r) {
            let i = choose|i: int| 0 <= i < stack.len() && stack[i] == r;
            assert(rest[i] == r);
        }
    }
}

/// Once the stack is empty every room is open.
pub proof fn lemma_carve_reaches(g: Seq<Seq<bool>>, r: (usize, usize))
    requires
        carving(g, Seq::empty()),
        in_grid(g, r),
        is_room(r),
    ensures
        is_open(g, r),
    decreases r.0 + r.1,
{
    if r.0 >= 2 {
        let q = ((r.0 - 2) as usize, r.1);
        lemma_carve_reaches(g, q);
        assert(!Seq::<(usize, usize)>::empty().contains(q));
        assert(surrounded(g, q));
        assert(shifted(q, 0, 2) == (r.0 as int, r.1 as int));
        assert(lies_in(g, shifted(q, 0, 2)));
    } else if r.1 >= 2 {
        let q = (r.0, (r.1 - 2) as usize);
        lemma_carve_reaches(g, q);
        assert(!Seq::<(usize, usize)>::empty().contains(q));
        assert(surrounded(g, q));
        assert(shifted(q, 2, 2) == (r.0 as int, r.1 as int));
        assert(lies_in(g, shifted(q, 2, 2)));
    }
}

/// A carve whose stack has emptied is finished.
pub proof fn lemma_carve_ends(g: Seq<Seq<bool>>)
    requires
        carving(g, Seq::empty()),
    ensures
        well_carved(g),
{
    assert forall|r: (usize, usize)| #[trigger] in_grid(g, r) && is_room(r) implies is_open(
        g,
        r,
    ) by {
        lemma_carve_reaches(g, r);
    }
    let h = height_of(g) as int;
    assert forall|x: int, y: int|
        0 <= x < g.len() && 0 <= y < h && x % 2 == 0 && y % 2 == 0 implies !#[trigger] g[x][y] by {
        let r = (x as usize, y as usize);
        assert(in_grid(g, r) && is_room(r));
        assert(is_open(g, r));
    }
    assert forall|x: int, y: int| 0 <= x < g.len() && 0 <= y < h && !#[trigger] g[x][y] implies x
        % 2 == 0 || y % 2 == 0 by {
        let c = (x as usize, y as usize);
        assert(is_open(g, c));
    }
    lemma_all_rooms(g, h);
    lemma_grid_cells(g, h);
}

} // verus!
