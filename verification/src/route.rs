//! What a route through the maze is: the vocabulary of the solver's contract.

use vstd::prelude::*;
use crate::grid::{height_of, in_grid, is_open, valid_grid, width_of};

verus! {

/// Two cells are neighbours: they differ by one step along one axis.
pub open spec fn adjacent(a: (usize, usize), b: (usize, usize)) -> bool {
    ||| a.0 == b.0 && (a.1 + 1 == b.1 || b.1 + 1 == a.1)
    ||| a.1 == b.1 && (a.0 + 1 == b.0 || b.0 + 1 == a.0)
}

/// The Manhattan distance between two cells.
pub open spec fn manhattan(a: (usize, usize), b: (usize, usize)) -> int {
    (if a.0 >= b.0 { a.0 - b.0 } else { b.0 - a.0 })
        + (if a.1 >= b.1 { a.1 - b.1 } else { b.1 - a.1 })
}

/// One move of the search: from a cell of the grid to a neighbouring passage.
pub open spec fn is_step(g: Seq<Seq<bool>>, a: (usize, usize), b: (usize, usize)) -> bool {
    in_grid(g, a) && adjacent(a, b) && is_open(g, b)
}

/// Where every route begins: the top-left corner.
pub open spec fn start_of(g: Seq<Seq<bool>>) -> (usize, usize) {
    (0usize, 0usize)
}

/// Where every route ends: the bottom-right corner.
pub open spec fn goal_of(g: Seq<Seq<bool>>) -> (usize, usize) {
    ((width_of(g) - 1) as usize, (height_of(g) - 1) as usize)
}

/// A route leads from the start to the goal by single steps through
/// passages: every cell of it is a passage, the start too.
pub open spec fn is_route(g: Seq<Seq<bool>>, p: Seq<(usize, usize)>) -> bool {
    &&& p.len() >= 1
    &&& p[0] == start_of(g)
    &&& p.last() == goal_of(g)
    &&& is_open(g, p[0])
    &&& forall|i: int| 1 <= i < p.len() ==> is_step(g, p[i - 1], #[trigger] p[i])
}

/// The Manhattan distance to the goal never exceeds what is left of a route.
pub proof fn lemma_manhattan_admissible(g: Seq<Seq<bool>>, p: Seq<(usize, usize)>, i: int)
    requires
        valid_grid(g),
        is_route(g, p),
        0 <= i < p.len(),
    ensures
        manhattan(p[i], goal_of(g)) <= p.len() - 1 - i,
    decreases p.len() - i,
{
    if i < p.len() - 1 {
        lemma_manhattan_admissible(g, p, i + 1);
        assert(is_step(g, p[i + 1 - 1], p[i + 1]));
    }
}

/// Every cell of a route lies in the grid.
pub proof fn lemma_route_in_grid(g: Seq<Seq<bool>>, p: Seq<(usize, usize)>, i: int)
    requires
        valid_grid(g),
        is_route(g, p),
        0 <= i < p.len(),
    ensures
        in_grid(g, p[i]),
{
    if i >= 1 {
        assert(is_step(g, p[i - 1], p[i]));
    }
}

/// Every cell of a route is a passage, consecutive cells are neighbours, and
/// the route runs from corner to corner.
pub proof fn lemma_route_is_valid(g: Seq<Seq<bool>>, p: Seq<(usize, usize)>)
    requires
        valid_grid(g),
        is_route(g, p),
    ensures
        p[0] == (0usize, 0usize),
        p.last() == ((width_of(g) - 1) as usize, (height_of(g) - 1) as usize),
        forall|i: int| 0 <= i < p.len() ==> is_open(g, #[trigger] p[i]),
        forall|i: int| 1 <= i < p.len() ==> adjacent(p[i - 1], #[trigger] p[i]),
{
    assert forall|i: int| 0 <= i < p.len() implies is_open(g, #[trigger] p[i]) by {
        if i >= 1 {
            assert(is_step(g, p[i - 1], p[i]));
        }
    }
    assert forall|i: int| 1 <= i < p.len() implies adjacent(p[i - 1], #[trigger] p[i]) by {
        assert(is_step(g, p[i - 1], p[i]));
    }
}

} // verus!
