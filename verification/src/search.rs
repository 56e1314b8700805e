//! The A* search as a function of the grid: what the solver computes, step
//! by step.  Among frontier entries of equal cost the one that was queued
//! first is taken first, and the steps out of a cell are tried in the order
//! right, left, down, up; this fixes which of several shortest routes is
//! found.

use vstd::prelude::*;
use crate::counting::matrix_sum;
use crate::grid::{cell_at, height_of, is_open, lies_in, shifted, width_of};
use crate::route::{goal_of, manhattan, start_of};

verus! {

/// An entry of the frontier: a cell and the cost it was queued with, which
/// is its score then plus its Manhattan distance to the goal.
pub struct Node {
    pub position: (usize, usize),
    pub cost: usize,
}

/// The state of a search: the best known number of steps from the start to
/// each cell (`usize::MAX` where none is known), the cell from which the
/// best known walk enters each cell, and the cells waiting to be expanded.
pub struct Progress {
    pub scores: Seq<Seq<usize>>,
    pub parents: Seq<Seq<Option<(usize, usize)>>>,
    pub frontier: Seq<Node>,
}

/// The state in which only the start is known.
pub open spec fn initial(g: Seq<Seq<bool>>) -> Progress {
    Progress {
        scores: Seq::new(
            width_of(g),
            |x: int|
                Seq::new(
                    height_of(g),
                    |y: int|
                        if x == 0 && y == 0 {
                            0usize
                        } else {
                            usize::MAX
                        },
                ),
        ),
        parents: Seq::new(width_of(g), |x: int| Seq::new(height_of(g), |y: int| None)),
        frontier: seq![Node { position: (0usize, 0usize), cost: 0usize }],
    }
}

/// The place of the cheapest of the first `upto` entries, the earliest of
/// several.
pub open spec fn lowest(frontier: Seq<Node>, upto: int) -> int
    decreases upto,
{
    if upto <= 1 {
        0
    } else {
        let best = lowest(frontier, upto - 1);
        if frontier[upto - 1].cost < frontier[best].cost {
            upto - 1
        } else {
            best
        }
    }
}

/// The state after the step from `from` to `to` has been examined: where it
/// gives `to` a lower score, the score and the parent of `to` are set and
/// `to` is queued.
pub open spec fn relaxed(
    g: Seq<Seq<bool>>,
    s: Progress,
    from: (usize, usize),
    to: (usize, usize),
) -> Progress {
    let through = s.scores[from.0 as int][from.1 as int] + 1;
    if through < s.scores[to.0 as int][to.1 as int] {
        Progress {
            scores: s.scores.update(
                to.0 as int,
                s.scores[to.0 as int].update(to.1 as int, through as usize),
            ),
            parents: s.parents.update(
                to.0 as int,
                s.parents[to.0 as int].update(to.1 as int, Some(from)),
            ),
            frontier: s.frontier.push(
                Node { position: to, cost: (through + manhattan(to, goal_of(g))) as usize },
            ),
        }
    } else {
        s
    }
}

/// The state after the steps out of `p` in the directions below `d` have
/// been examined, in the order right, left, down, up.
pub open spec fn expanded(g: Seq<Seq<bool>>, s: Progress, p: (usize, usize), d: int) -> Progress
    decreases d,
{
    if d <= 0 {
        s
    } else {
        let earlier = expanded(g, s, p, d - 1);
        let q = shifted(p, d - 1, 1);
        if lies_in(g, q) && is_open(g, cell_at(q)) {
            relaxed(g, earlier, p, cell_at(q))
        } else {
            earlier
        }
    }
}

/// The walk that the recorded parents give to the cell `c`, at most `fuel`
/// steps of it.
pub open spec fn traced(
    parents: Seq<Seq<Option<(usize, usize)>>>,
    c: (usize, usize),
    fuel: nat,
) -> Seq<(usize, usize)>
    decreases fuel,
{
    if fuel == 0 {
        seq![c]
    } else {
        match parents[c.0 as int][c.1 as int] {
            Some(p) => traced(parents, p, (fuel - 1) as nat).push(c),
            None => seq![c],
        }
    }
}

/// What the search finds from the state `s` in at most `fuel` expansions.
/// Each takes the cheapest entry out of the frontier; where it names the
/// goal, the walk to the goal is the answer; else the steps out of its cell
/// are examined.  An empty frontier means that there is no route.
pub open spec fn searched(g: Seq<Seq<bool>>, s: Progress, fuel: nat) -> Option<Seq<(usize, usize)>>
    decreases fuel,
{
    if fuel == 0 || s.frontier.len() == 0 {
        None
    } else {
        let i = lowest(s.frontier, s.frontier.len() as int);
        let node = s.frontier[i];
        let rest = Progress { scores: s.scores, parents: s.parents, frontier: s.frontier.remove(i) };
        if node.position == goal_of(g) {
            Some(traced(s.parents, goal_of(g), width_of(g) * height_of(g)))
        } else {
            searched(g, expanded(g, rest, node.position, 4), (fuel - 1) as nat)
        }
    }
}

/// The route that the solver finds in the grid `g`, if there is one.  The
/// search never takes as many expansions as four times the sum of the
/// initial scores and one.
pub open spec fn found_route(g: Seq<Seq<bool>>) -> Option<Seq<(usize, usize)>> {
    if is_open(g, start_of(g)) {
        searched(g, initial(g), (4 * matrix_sum(initial(g).scores) + 1) as nat)
    } else {
        None
    }
}

/// Solving is repeatable: equal grids have the same found route.
pub proof fn lemma_same_grid_same_route(first: Seq<Seq<bool>>, second: Seq<Seq<bool>>)
    requires
        first == second,
    ensures
        found_route(first) == found_route(second),
{
}

/// A traced walk ends at the cell it was traced to.
pub proof fn lemma_traced_ends(
    parents: Seq<Seq<Option<(usize, usize)>>>,
    c: (usize, usize),
    fuel: nat,
)
    ensures
        traced(parents, c, fuel).len() >= 1,
        traced(parents, c, fuel).last() == c,
{
}

} // verus!
