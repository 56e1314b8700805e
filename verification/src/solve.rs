//! Shortest routes by A* search with the Manhattan distance as heuristic.
//!
//! The frontier is a plain vector searched for its cheapest entry.  Among
//! entries of equal cost the one that was pushed first leaves first.  Entries
//! that a later improvement has made stale stay in the frontier and are
//! expanded again when their turn comes, which changes nothing.  The solver
//! is shown to compute the search that the `search` module defines, and that
//! search to find a shortest route wherever there is a route.

use vstd::prelude::*;
use crate::counting::{
    lemma_column_sum_update,
    lemma_distinct_cells_bounded,
    lemma_matrix_sum_nonnegative,
    lemma_matrix_sum_update,
    matrix_sum,
};
use crate::grid::{
    cell_at,
    height_of,
    in_grid,
    is_open,
    lies_in,
    shifted,
    valid_grid,
    width_of,
    Maze,
};
use crate::route::{
    goal_of,
    is_route,
    is_step,
    lemma_manhattan_admissible,
    lemma_route_in_grid,
    manhattan,
    start_of,
};
use crate::search::{
    expanded,
    found_route,
    initial,
    lemma_traced_ends,
    lowest,
    relaxed,
    searched,
    traced,
    Node,
    Progress,
};

verus! {

/// The state of one search.
struct Search {
    /// Best known number of steps from the start, `usize::MAX` where unknown.
    scores: Vec<Vec<usize>>,
    /// The cell from which the best known walk enters each cell.
    parents: Vec<Vec<Option<(usize, usize)>>>,
    /// The cells waiting to be expanded.
    frontier: Vec<Node>,
    /// For each reached cell, distinct cells as many as its score plus one.
    climbs: Ghost<Map<(usize, usize), Seq<(usize, usize)>>>,
}

impl Search {
    /// The best known number of steps from the start to `c`.
    spec fn score(&self, c: (usize, usize)) -> usize {
        self.scores@[c.0 as int]@[c.1 as int]
    }

    /// The cell from which the best known walk enters `c`.
    spec fn parent(&self, c: (usize, usize)) -> Option<(usize, usize)> {
        self.parents@[c.0 as int]@[c.1 as int]
    }

    /// A walk to `c` is known.
    spec fn reached(&self, c: (usize, usize)) -> bool {
        self.score(c) < usize::MAX
    }

    /// The scores as a matrix.
    spec fn table(&self) -> Seq<Seq<usize>> {
        Seq::new(self.scores@.len(), |x: int| self.scores@[x]@)
    }

    /// The parents as a matrix.
    spec fn parent_table(&self) -> Seq<Seq<Option<(usize, usize)>>> {
        Seq::new(self.parents@.len(), |x: int| self.parents@[x]@)
    }

    /// The state of the search, to the definition of what is searched.
    spec fn progress(&self) -> Progress {
        Progress { scores: self.table(), parents: self.parent_table(), frontier: self.frontier@ }
    }

    /// The sum of all scores, which every improvement lowers.
    spec fn total(&self) -> int {
        matrix_sum(self.table())
    }

    /// The tables have the size of the grid.
    spec fn shaped(&self, g: Seq<Seq<bool>>) -> bool {
        &&& self.scores@.len() == width_of(g)
        &&& self.parents@.len() == width_of(g)
        &&& forall|x: int|
            0 <= x < width_of(g) ==> (#[trigger] self.scores@[x])@.len() == height_of(g)
        &&& forall|x: int|
            0 <= x < width_of(g) ==> (#[trigger] self.parents@[x])@.len() == height_of(g)
    }

    /// The start has score zero and no parent.
    spec fn rooted(&self, g: Seq<Seq<bool>>) -> bool {
        self.score(start_of(g)) == 0 && self.parent(start_of(g)) is None
    }

    /// Every reached cell but the start is entered by a step from a cell of
    /// lower score.
    spec fn linked(&self, g: Seq<Seq<bool>>) -> bool {
        forall|c: (usize, usize)|
            #![trigger self.parent(c)]
            in_grid(g, c) && self.reached(c) && c != start_of(g) ==> {
                &&& self.parent(c) is Some
                &&& is_step(g, self.parent(c)->0, c)
                &&& self.score(self.parent(c)->0) < self.score(c)
            }
    }

    /// Every entry of the frontier names a reached cell of the grid at no
    /// less than its present score.
    spec fn queued(&self, g: Seq<Seq<bool>>) -> bool {
        forall|j: int|
            0 <= j < self.frontier@.len() ==> {
                &&& in_grid(g, (#[trigger] self.frontier@[j]).position)
                &&& self.reached(self.frontier@[j].position)
                &&& self.frontier@[j].cost >= self.score(self.frontier@[j].position)
            }
    }

    /// An entry for `c` waits in the frontier at no more than its present score.
    spec fn pending(&self, g: Seq<Seq<bool>>, c: (usize, usize)) -> bool {
        exists|j: int|
            0 <= j < self.frontier@.len() && (#[trigger] self.frontier@[j]).position == c
                && self.frontier@[j].cost <= self.score(c) + manhattan(c, goal_of(g))
    }

    /// No step out of `c` can improve a score.
    spec fn settled(&self, g: Seq<Seq<bool>>, c: (usize, usize)) -> bool {
        forall|n: (usize, usize)| #[trigger] is_step(g, c, n) ==> self.score(n) <= self.score(c) + 1
    }

    /// Every known score is less than the number of cells.
    spec fn bounded(&self, g: Seq<Seq<bool>>) -> bool {
        forall|c: (usize, usize)|
            #[trigger] in_grid(g, c) && self.reached(c) ==> self.score(c) < width_of(g) * height_of(
                g,
            )
    }

    /// The sequence `s` witnesses the score of `c`: distinct cells of the grid,
    /// one more than the score, each with a score no higher than its place.
    spec fn is_climb(&self, g: Seq<Seq<bool>>, s: Seq<(usize, usize)>, c: (usize, usize)) -> bool {
        &&& s.len() == self.score(c) + 1
        &&& s.no_duplicates()
        &&& forall|j: int|
            0 <= j < s.len() ==> in_grid(g, #[trigger] s[j]) && self.score(s[j]) <= j
    }

    /// Every known score has its witness.
    spec fn witnessed(&self, g: Seq<Seq<bool>>) -> bool {
        forall|c: (usize, usize)|
            #[trigger] in_grid(g, c) && self.reached(c) ==> self.climbs@.dom().contains(c)
                && self.is_climb(g, self.climbs@[c], c)
    }

    /// What holds of the tables and the frontier at every moment.
    spec fn sound(&self, g: Seq<Seq<bool>>) -> bool {
        &&& self.shaped(g)
        &&& self.rooted(g)
        &&& self.linked(g)
        &&& self.queued(g)
        &&& self.bounded(g)
        &&& self.witnessed(g)
    }

    /// What holds while the steps out of `p` are being examined.
    spec fn expanding(&self, g: Seq<Seq<bool>>, p: (usize, usize)) -> bool {
        &&& self.sound(g)
        &&& self.reached(goal_of(g)) ==> self.pending(g, goal_of(g))
        &&& forall|c: (usize, usize)|
            #[trigger] in_grid(g, c) && self.reached(c) && c != p ==> self.pending(g, c)
                || self.settled(g, c)
    }

    /// What holds between two expansions.
    spec fn inv(&self, g: Seq<Seq<bool>>) -> bool {
        &&& self.sound(g)
        &&& self.reached(goal_of(g)) ==> self.pending(g, goal_of(g))
        &&& forall|c: (usize, usize)|
            #[trigger] in_grid(g, c) && self.reached(c) ==> self.pending(g, c) || self.settled(
                g,
                c,
            )
    }

    /// Along any route, from a reached cell whose score does not exceed its
    /// place in the route, some later cell waits in the frontier at a cost
    /// of no more than the length of the route.
    proof fn lemma_route_meets_frontier(
        &self,
        g: Seq<Seq<bool>>,
        q: Seq<(usize, usize)>,
        i: int,
    ) -> (w: (int, int))
        requires
            valid_grid(g),
            self.inv(g),
            is_route(g, q),
            0 <= i < q.len(),
            self.reached(q[i]),
            self.score(q[i]) <= i,
        ensures
            i <= w.0 < q.len(),
            0 <= w.1 < self.frontier@.len(),
            self.frontier@[w.1].position == q[w.0],
            self.frontier@[w.1].cost <= q.len() - 1,
        decreases q.len() - i,
    {
        lemma_route_in_grid(g, q, i);
        lemma_manhattan_admissible(g, q, i);
        if self.pending(g, q[i]) {
            let j = choose|j: int|
                0 <= j < self.frontier@.len() && (#[trigger] self.frontier@[j]).position == q[i]
                    && self.frontier@[j].cost <= self.score(q[i]) + manhattan(q[i], goal_of(g));
            (i, j)
        } else {
            assert(self.settled(g, q[i]));
            assert(i < q.len() - 1);
            assert(is_step(g, q[i + 1 - 1], q[i + 1]));
            assert(in_grid(g, q[i + 1]));
            self.lemma_route_meets_frontier(g, q, i + 1)
        }
    }

    /// The state in which only the start is known.
    fn begin(maze: &Maze) -> (search: Search)
        requires
            maze.wf(),
        ensures
            search.inv(maze@),
            search.frontier@.len() == 1,
            search.progress() == initial(maze@),
    {
        let width = maze.width();
        let height = maze.height();
        let mut scores: Vec<Vec<usize>> = Vec::new();
        let mut parents: Vec<Vec<Option<(usize, usize)>>> = Vec::new();
        let mut x: usize = 0;
        while x < width
            invariant
                x <= width,
                scores@.len() == x,
                parents@.len() == x,
                forall|i: int| 0 <= i < x ==> (#[trigger] scores@[i])@.len() == height,
                forall|i: int| 0 <= i < x ==> (#[trigger] parents@[i])@.len() == height,
                forall|i: int, j: int|
                    0 <= i < x && 0 <= j < height ==> (#[trigger] scores@[i]@[j]) == usize::MAX,
                forall|i: int, j: int|
                    0 <= i < x && 0 <= j < height ==> (#[trigger] parents@[i]@[j]) is None,
            decreases width - x,
        {
            let mut score_column: Vec<usize> = Vec::new();
            let mut parent_column: Vec<Option<(usize, usize)>> = Vec::new();
            let mut y: usize = 0;
            while y < height
                invariant
                    y <= height,
                    score_column@.len() == y,
                    parent_column@.len() == y,
                    forall|j: int| 0 <= j < y ==> (#[trigger] score_column@[j]) == usize::MAX,
                    forall|j: int| 0 <= j < y ==> (#[trigger] parent_column@[j]) is None,
                decreases height - y,
            {
                score_column.push(usize::MAX);
                parent_column.push(None);
                y += 1;
            }
            scores.push(score_column);
            parents.push(parent_column);
            x += 1;
        }
        scores[0][0] = 0;
        let mut frontier: Vec<Node> = Vec::new();
        frontier.push(Node { position: (0, 0), cost: 0 });
        let ghost origin = (0usize, 0usize);
        let search = Search {
            scores,
            parents,
            frontier,
            climbs: Ghost(Map::empty().insert(origin, seq![origin])),
        };
        proof {
            let g = maze@;
            assert(search.frontier@[0].position == origin);
            assert(search.pending(g, origin));
            assert(width_of(g) * height_of(g) >= 1) by (nonlinear_arith)
                requires
                    width_of(g) >= 1,
                    height_of(g) >= 1,
            ;
            assert forall|c: (usize, usize)| #[trigger]
                in_grid(g, c) && search.reached(c) implies c == origin by {
                if c.0 != 0 {
                    assert(search.scores@[c.0 as int]@[c.1 as int] == usize::MAX);
                }
            }
            assert(search.is_climb(g, seq![origin], origin));
            assert(search.table() =~~= initial(g).scores);
            assert(search.parent_table() =~~= initial(g).parents);
            assert(search.frontier@ =~= initial(g).frontier);
        }
        search
    }

    /// Takes the cheapest entry out of the frontier, the earliest of several.
    fn pop_lowest(&mut self, maze: &Maze) -> (node: Node)
        requires
            maze.wf(),
            old(self).inv(maze@),
            old(self).frontier@.len() > 0,
        ensures
            final(self).sound(maze@),
            node.position != goal_of(maze@) ==> final(self).expanding(maze@, node.position),
            in_grid(maze@, node.position),
            old(self).reached(node.position),
            node.cost >= old(self).score(node.position),
            final(self).scores == old(self).scores,
            final(self).parents == old(self).parents,
            final(self).frontier@.len() == old(self).frontier@.len() - 1,
            forall|j: int|
                0 <= j < old(self).frontier@.len() ==> node.cost <= (#[trigger] old(
                    self,
                ).frontier@[j]).cost,
            node == old(self).frontier@[lowest(
                old(self).frontier@,
                old(self).frontier@.len() as int,
            )],
            final(self).frontier@ == old(self).frontier@.remove(
                lowest(old(self).frontier@, old(self).frontier@.len() as int),
            ),
    {
        let mut best: usize = 0;
        let mut j: usize = 1;
        while j < self.frontier.len()
            invariant
                best < j <= self.frontier@.len(),
                best == lowest(self.frontier@, j as int),
                forall|k: int|
                    0 <= k < j ==> self.frontier@[best as int].cost <= (
                    #[trigger] self.frontier@[k]).cost,
                forall|k: int|
                    0 <= k < best ==> self.frontier@[best as int].cost < (
                    #[trigger] self.frontier@[k]).cost,
            decreases self.frontier@.len() - j,
        {
            if self.frontier[j].cost < self.frontier[best].cost {
                best = j;
            }
            j += 1;
        }
        let node = self.frontier.remove(best);
        proof {
            let g = maze@;
            let before = *old(self);
            let p = node.position;
            assert(before.frontier@[best as int] == node);
            assert forall|k: int| 0 <= k < self.frontier@.len() implies {
                &&& in_grid(g, (#[trigger] self.frontier@[k]).position)
                &&& self.reached(self.frontier@[k].position)
                &&& self.frontier@[k].cost >= self.score(self.frontier@[k].position)
            } by {
                let k0 = if k < best { k } else { k + 1 };
                assert(self.frontier@[k] == before.frontier@[k0]);
            }
            assert forall|c: (usize, usize)| c != p && before.pending(g, c) implies self.pending(
                g,
                c,
            ) by {
                let k0 = choose|k0: int|
                    0 <= k0 < before.frontier@.len() && (#[trigger] before.frontier@[k0]).position
                        == c && before.frontier@[k0].cost <= before.score(c) + manhattan(
                        c,
                        goal_of(g),
                    );
                let k = if k0 < best { k0 } else { k0 - 1 };
                assert(self.frontier@[k] == before.frontier@[k0]);
            }
            assert forall|c: (usize, usize)| before.settled(g, c) implies self.settled(g, c) by {
                assert forall|n: (usize, usize)| #[trigger] is_step(g, c, n) implies self.score(n)
                    <= self.score(c) + 1 by {}
            }
            assert(self.shaped(g));
            assert(self.rooted(g));
            assert(self.linked(g)) by {
                assert forall|c: (usize, usize)|
                    #![trigger self.parent(c)]
                    in_grid(g, c) && self.reached(c) && c != start_of(g) implies {
                    &&& self.parent(c) is Some
                    &&& is_step(g, self.parent(c)->0, c)
                    &&& self.score(self.parent(c)->0) < self.score(c)
                } by {
                    assert(before.reached(c));
                    assert(before.parent(c) == self.parent(c));
                }
            }
            assert(self.bounded(g)) by {
                assert forall|c: (usize, usize)| #[trigger]
                    in_grid(g, c) && self.reached(c) implies self.score(c) < width_of(g)
                    * height_of(g) by {
                    assert(before.reached(c));
                }
            }
            assert(self.witnessed(g)) by {
                assert forall|c: (usize, usize)| #[trigger]
                    in_grid(g, c) && self.reached(c) implies self.climbs@.dom().contains(c)
                    && self.is_climb(g, self.climbs@[c], c) by {
                    assert(before.reached(c));
                    assert(before.is_climb(g, before.climbs@[c], c));
                }
            }
            if p != goal_of(g) {
                assert forall|c: (usize, usize)|
                    #[trigger] in_grid(g, c) && self.reached(c) && c != p implies self.pending(g, c)
                    || self.settled(g, c) by {
                    assert(before.reached(c));
                }
                if self.reached(goal_of(g)) {
                    assert(before.reached(goal_of(g)));
                }
            }
        }
        node
    }

    /// The state `self` comes from `before` by one improvement: the step
    /// from `from` gives `to` a lower score, and `to` is queued with it.
    spec fn improves(
        &self,
        before: Search,
        g: Seq<Seq<bool>>,
        from: (usize, usize),
        to: (usize, usize),
    ) -> bool {
        &&& before.expanding(g, from)
        &&& before.reached(from)
        &&& is_step(g, from, to)
        &&& before.score(from) + 1 < before.score(to)
        &&& self.shaped(g)
        &&& forall|c: (usize, usize)|
            #[trigger] in_grid(g, c) ==> self.score(c) == (if c == to {
                (before.score(from) + 1) as usize
            } else {
                before.score(c)
            })
        &&& forall|c: (usize, usize)|
            #[trigger] in_grid(g, c) ==> self.parent(c) == (if c == to {
                Some(from)
            } else {
                before.parent(c)
            })
        &&& self.climbs@ == before.climbs@.insert(to, before.climbs@[from].push(to))
        &&& self.frontier@.len() == before.frontier@.len() + 1
        &&& forall|k: int|
            0 <= k < before.frontier@.len() ==> #[trigger] self.frontier@[k] == before.frontier@[k]
        &&& self.frontier@.last().position == to
        &&& self.frontier@.last().cost == self.score(to) + manhattan(to, goal_of(g))
    }

    /// The cells that witness the lower score of `to` are distinct cells of
    /// the grid, so the score is less than the number of cells.
    proof fn lemma_improved_climb(
        before: Search,
        g: Seq<Seq<bool>>,
        from: (usize, usize),
        to: (usize, usize),
    )
        requires
            valid_grid(g),
            before.sound(g),
            in_grid(g, from),
            in_grid(g, to),
            before.reached(from),
            before.score(from) + 1 < before.score(to),
        ensures
            before.score(from) + 1 < width_of(g) * height_of(g),
            before.climbs@[from].push(to).no_duplicates(),
            before.climbs@[from].push(to).len() == before.score(from) + 2,
            forall|j: int|
                0 <= j <= before.score(from) ==> in_grid(g, #[trigger] before.climbs@[from][j])
                    && before.score(before.climbs@[from][j]) <= j && before.climbs@[from][j] != to,
    {
        let w = width_of(g) as int;
        let h = height_of(g) as int;
        let low = before.climbs@[from];
        let climb = low.push(to);
        assert(before.is_climb(g, low, from));
        assert forall|j: int| 0 <= j < low.len() implies in_grid(g, #[trigger] low[j])
            && before.score(low[j]) <= j && low[j] != to by {}
        assert forall|i: int, j: int|
            0 <= i < climb.len() && 0 <= j < climb.len() && i != j implies climb[i] != climb[j] by {
            if i < low.len() && j < low.len() {
            } else if i < low.len() {
                assert(low[i] != to);
            } else {
                assert(low[j] != to);
            }
        }
        assert forall|j: int| 0 <= j < climb.len() implies (#[trigger] climb[j]).0 < w
            && climb[j].1 < h by {
            if j < low.len() {
                assert(in_grid(g, low[j]));
            }
        }
        lemma_distinct_cells_bounded(climb, w, h);
    }

    /// An improvement keeps every reached cell entered from a lower score.
    proof fn lemma_improved_linked(
        &self,
        before: Search,
        g: Seq<Seq<bool>>,
        from: (usize, usize),
        to: (usize, usize),
    )
        requires
            valid_grid(g),
            self.improves(before, g, from, to),
        ensures
            self.rooted(g),
            self.linked(g),
    {
        assert(in_grid(g, start_of(g)));
        assert(in_grid(g, from));
        assert forall|c: (usize, usize)|
            #![trigger self.parent(c)]
            in_grid(g, c) && self.reached(c) && c != start_of(g) implies {
            &&& self.parent(c) is Some
            &&& is_step(g, self.parent(c)->0, c)
            &&& self.score(self.parent(c)->0) < self.score(c)
        } by {
            if c != to {
                assert(before.reached(c));
                assert(self.parent(c) == before.parent(c));
                assert(in_grid(g, before.parent(c)->0));
            }
        }
    }

    /// An improvement keeps the frontier's entries at or above the scores.
    proof fn lemma_improved_queued(
        &self,
        before: Search,
        g: Seq<Seq<bool>>,
        from: (usize, usize),
        to: (usize, usize),
    )
        requires
            valid_grid(g),
            self.improves(before, g, from, to),
        ensures
            self.queued(g),
    {
        let last = self.frontier@.len() - 1;
        assert(in_grid(g, to));
        assert forall|k: int| 0 <= k < self.frontier@.len() implies {
            &&& in_grid(g, (#[trigger] self.frontier@[k]).position)
            &&& self.reached(self.frontier@[k].position)
            &&& self.frontier@[k].cost >= self.score(self.frontier@[k].position)
        } by {
            if k < last {
                assert(self.frontier@[k] == before.frontier@[k]);
                assert(in_grid(g, before.frontier@[k].position));
            }
        }
    }

    /// An improvement keeps every score witnessed and bounded.
    proof fn lemma_improved_witnessed(
        &self,
        before: Search,
        g: Seq<Seq<bool>>,
        from: (usize, usize),
        to: (usize, usize),
    )
        requires
            valid_grid(g),
            self.improves(before, g, from, to),
        ensures
            self.bounded(g),
            self.witnessed(g),
    {
        assert(in_grid(g, from));
        assert(in_grid(g, to));
        Self::lemma_improved_climb(before, g, from, to);
        assert forall|c: (usize, usize)| #[trigger] in_grid(g, c) && self.reached(c) implies {
            &&& self.score(c) < width_of(g) * height_of(g)
            &&& self.climbs@.dom().contains(c)
            &&& self.is_climb(g, self.climbs@[c], c)
        } by {
            if c != to {
                assert(before.reached(c));
                let s = before.climbs@[c];
                assert(before.is_climb(g, s, c));
                assert forall|j: int| 0 <= j < s.len() implies in_grid(g, #[trigger] s[j])
                    && self.score(s[j]) <= j by {
                    assert(in_grid(g, s[j]) && before.score(s[j]) <= j);
                }
            } else {
                let low = before.climbs@[from];
                let climb = low.push(to);
                assert forall|j: int| 0 <= j < climb.len() implies in_grid(g, #[trigger] climb[j])
                    && self.score(climb[j]) <= j by {
                    if j < low.len() {
                        assert(in_grid(g, low[j]) && before.score(low[j]) <= j);
                    }
                }
            }
        }
    }

    /// After an improvement every reached cell but the one being expanded
    /// still waits in the frontier or has nothing left to improve.
    proof fn lemma_improved_covered(
        &self,
        before: Search,
        g: Seq<Seq<bool>>,
        from: (usize, usize),
        to: (usize, usize),
    )
        requires
            valid_grid(g),
            self.improves(before, g, from, to),
        ensures
            self.reached(goal_of(g)) ==> self.pending(g, goal_of(g)),
            forall|c: (usize, usize)|
                #[trigger] in_grid(g, c) && self.reached(c) && c != from ==> self.pending(g, c)
                    || self.settled(g, c),
    {
        assert(in_grid(g, to));
        assert(self.pending(g, to)) by {
            let last = self.frontier@.len() - 1;
            assert(self.frontier@[last].position == to);
        }
        assert forall|c: (usize, usize)|
            c != to && before.pending(g, c) && in_grid(g, c) implies self.pending(g, c) by {
            let k0 = choose|k0: int|
                0 <= k0 < before.frontier@.len() && (#[trigger] before.frontier@[k0]).position == c
                    && before.frontier@[k0].cost <= before.score(c) + manhattan(c, goal_of(g));
            assert(self.frontier@[k0] == before.frontier@[k0]);
        }
        assert forall|c: (usize, usize)|
            c != to && before.settled(g, c) && in_grid(g, c) implies self.settled(g, c) by {
            assert forall|n: (usize, usize)| #[trigger] is_step(g, c, n) implies self.score(n)
                <= self.score(c) + 1 by {
                assert(in_grid(g, n));
            }
        }
        assert forall|c: (usize, usize)|
            #[trigger] in_grid(g, c) && self.reached(c) && c != from implies self.pending(g, c)
            || self.settled(g, c) by {
            if c != to {
                assert(before.reached(c));
            }
        }
        if self.reached(goal_of(g)) && goal_of(g) != to {
            assert(in_grid(g, goal_of(g)));
            assert(before.reached(goal_of(g)));
        }
    }

    /// An improvement keeps the search sound and lowers the sum of scores.
    proof fn lemma_improved(
        &self,
        before: Search,
        g: Seq<Seq<bool>>,
        from: (usize, usize),
        to: (usize, usize),
    )
        requires
            valid_grid(g),
            self.improves(before, g, from, to),
            self.table() == before.table().update(
                to.0 as int,
                before.table()[to.0 as int].update(to.1 as int, (before.score(from) + 1) as usize),
            ),
        ensures
            self.expanding(g, from),
            0 <= self.total() < before.total(),
    {
        self.lemma_improved_linked(before, g, from, to);
        self.lemma_improved_queued(before, g, from, to);
        self.lemma_improved_witnessed(before, g, from, to);
        self.lemma_improved_covered(before, g, from, to);
        assert(in_grid(g, to));
        let t0 = before.table();
        let lower = (before.score(from) + 1) as usize;
        let column = t0[to.0 as int].update(to.1 as int, lower);
        lemma_column_sum_update(t0[to.0 as int], to.1 as int, lower);
        lemma_matrix_sum_update(t0, to.0 as int, column);
        lemma_matrix_sum_nonnegative(self.table());
    }

    /// Examines the step from `from` to `to`: where it improves the score of
    /// `to`, records it and queues `to`.
    fn relax(&mut self, maze: &Maze, from: (usize, usize), to: (usize, usize))
        requires
            maze.wf(),
            old(self).expanding(maze@, from),
            old(self).reached(from),
            is_step(maze@, from, to),
        ensures
            final(self).expanding(maze@, from),
            final(self).score(from) == old(self).score(from),
            final(self).score(to) <= old(self).score(from) + 1,
            forall|c: (usize, usize)|
                #[trigger] in_grid(maze@, c) ==> final(self).score(c) <= old(self).score(c),
            0 <= final(self).total(),
            final(self).total() < old(self).total() || (final(self).total() == old(self).total()
                && final(self).frontier@.len() == old(self).frontier@.len()),
            4 * final(self).total() + final(self).frontier@.len() <= 4 * old(self).total() + old(
                self,
            ).frontier@.len(),
            final(self).progress() == relaxed(maze@, old(self).progress(), from, to),
    {
        let ghost g = maze@;
        let ghost before = *self;
        proof {
            lemma_matrix_sum_nonnegative(self.table());
            assert(in_grid(g, from));
            assert(in_grid(g, to));
        }
        let goal = (maze.width() - 1, maze.height() - 1);
        let base = self.scores[from.0][from.1];
        let known = self.scores[to.0][to.1];
        if base + 1 < known {
            let tentative = base + 1;
            self.parents[to.0][to.1] = Some(from);
            self.scores[to.0][to.1] = tentative;
            self.climbs = Ghost(before.climbs@.insert(to, before.climbs@[from].push(to)));
            let estimate = maze.heuristic(to, goal);
            proof {
                Self::lemma_improved_climb(before, g, from, to);
            }
            let f_score = tentative + estimate;
            self.frontier.push(Node { position: to, cost: f_score });
            proof {
                assert(self.table() =~= before.table().update(
                    to.0 as int,
                    before.table()[to.0 as int].update(to.1 as int, tentative),
                ));
                assert(self.parent_table() =~= before.parent_table().update(
                    to.0 as int,
                    before.parent_table()[to.0 as int].update(to.1 as int, Some(from)),
                ));
                self.lemma_improved(before, g, from, to);
            }
        }
    }

    /// Examines the steps out of `position`, in the order right, left, down,
    /// up.
    fn expand(&mut self, maze: &Maze, position: (usize, usize))
        requires
            maze.wf(),
            old(self).expanding(maze@, position),
            in_grid(maze@, position),
            old(self).reached(position),
            0 <= old(self).total(),
        ensures
            final(self).inv(maze@),
            0 <= final(self).total(),
            final(self).total() < old(self).total() || (final(self).total() == old(self).total()
                && final(self).frontier@.len() == old(self).frontier@.len()),
            4 * final(self).total() + final(self).frontier@.len() <= 4 * old(self).total() + old(
                self,
            ).frontier@.len(),
            final(self).progress() == expanded(maze@, old(self).progress(), position, 4),
    {
        let ghost g = maze@;
        let ghost start = self.progress();
        let ghost t0 = self.total();
        let ghost l0 = self.frontier@.len();
        let ghost base = self.score(position);
        let mut d: usize = 0;
        while d < 4
            invariant
                d <= 4,
                maze.wf(),
                g == maze@,
                self.expanding(g, position),
                in_grid(g, position),
                self.reached(position),
                self.score(position) == base,
                0 <= self.total(),
                self.total() < t0 || (self.total() == t0 && self.frontier@.len() == l0),
                4 * self.total() + self.frontier@.len() <= 4 * t0 + l0,
                self.progress() == expanded(g, start, position, d as int),
                forall|k: int|
                    0 <= k < d && lies_in(g, #[trigger] shifted(position, k, 1)) && is_open(
                        g,
                        cell_at(shifted(position, k, 1)),
                    ) ==> self.score(cell_at(shifted(position, k, 1))) <= base + 1,
            decreases 4 - d,
        {
            match maze.neighbor(position, d, 1) {
                Some(next) => {
                    if !maze.is_wall(next.0, next.1) {
                        let ghost earlier = *self;
                        self.relax(maze, position, next);
                        proof {
                            assert forall|k: int|
                                0 <= k < d && lies_in(g, #[trigger] shifted(position, k, 1))
                                    && is_open(
                                    g,
                                    cell_at(shifted(position, k, 1)),
                                ) implies self.score(cell_at(shifted(position, k, 1))) <= base
                                + 1 by {
                                assert(in_grid(g, cell_at(shifted(position, k, 1))));
                                assert(earlier.score(cell_at(shifted(position, k, 1))) <= base + 1);
                            }
                        }
                    }
                },
                None => {},
            }
            d += 1;
        }
        proof {
            assert forall|n: (usize, usize)| #[trigger]
                is_step(g, position, n) implies self.score(n) <= self.score(position) + 1 by {
                let k: int = if n.0 == position.0 + 1 {
                    0
                } else if n.0 + 1 == position.0 {
                    1
                } else if n.1 == position.1 + 1 {
                    2
                } else {
                    3
                };
                assert(lies_in(g, shifted(position, k, 1)));
                assert(cell_at(shifted(position, k, 1)) == n);
            }
            assert(self.settled(g, position));
        }
    }

    /// Follows the recorded steps back from the goal and returns the walk
    /// from the start to the goal.
    fn trace_back(&self, maze: &Maze) -> (path: Vec<(usize, usize)>)
        requires
            maze.wf(),
            self.sound(maze@),
            self.reached(goal_of(maze@)),
            is_open(maze@, start_of(maze@)),
        ensures
            is_route(maze@, path@),
            path@.len() - 1 <= self.score(goal_of(maze@)),
            path@ == traced(
                self.parent_table(),
                goal_of(maze@),
                width_of(maze@) * height_of(maze@),
            ),
    {
        let ghost g = maze@;
        let ghost table = self.parent_table();
        let ghost whole = traced(table, goal_of(g), width_of(g) * height_of(g));
        let ghost mut left: nat = width_of(g) * height_of(g);
        let goal = (maze.width() - 1, maze.height() - 1);
        let mut back: Vec<(usize, usize)> = Vec::new();
        back.push(goal);
        let mut current = goal;
        proof {
            assert(in_grid(g, goal));
            lemma_traced_ends(table, goal, left);
            assert(whole =~= traced(table, goal, left).drop_last() + back@.reverse());
        }
        loop
            invariant
                table == self.parent_table(),
                left > self.score(current),
                whole == traced(table, current, left).drop_last() + back@.reverse(),
                maze.wf(),
                g == maze@,
                self.sound(g),
                goal == goal_of(g),
                back@.len() >= 1,
                back@[0] == goal,
                back@.last() == current,
                in_grid(g, current),
                self.reached(current),
                back@.len() - 1 + self.score(current) <= self.score(goal),
                forall|i: int| 1 <= i < back@.len() ==> is_step(g, #[trigger] back@[i], back@[i - 1]),
            ensures
                current == start_of(g),
                whole == back@.reverse(),
            decreases self.score(current),
        {
            assert(self.parent(current) == self.parents@[current.0 as int]@[current.1 as int]);
            assert(table[current.0 as int][current.1 as int] == self.parent(current));
            match self.parents[current.0][current.1] {
                Some(previous) => {
                    assert(is_step(g, previous, current));
                    proof {
                        let shorter = traced(table, previous, (left - 1) as nat);
                        lemma_traced_ends(table, previous, (left - 1) as nat);
                        assert(traced(table, current, left) == shorter.push(current));
                        assert(shorter.push(current).drop_last() =~= shorter);
                        assert(back@.push(previous).reverse() =~= seq![previous]
                            + back@.reverse());
                        assert(shorter =~= shorter.drop_last() + seq![previous]);
                        assert(whole =~= shorter.drop_last() + back@.push(previous).reverse());
                        left = (left - 1) as nat;
                    }
                    back.push(previous);
                    current = previous;
                },
                None => {
                    proof {
                        assert(traced(table, current, left) =~= seq![current]);
                        assert(traced(table, current, left).drop_last() =~= Seq::empty());
                        assert(whole =~= back@.reverse());
                    }
                    break ;
                },
            }
        }
        let path = reversed(&back);
        proof {
            let n = back@.len() as int;
            assert forall|i: int| 1 <= i < path@.len() implies is_step(
                g,
                path@[i - 1],
                #[trigger] path@[i],
            ) by {
                assert(path@[i] == back@[n - 1 - i]);
                assert(path@[i - 1] == back@[n - i]);
                assert(is_step(g, back@[n - i], back@[n - i - 1]));
            }
        }
        path
    }
}

/// The vector in the opposite order.
fn reversed(v: &Vec<(usize, usize)>) -> (r: Vec<(usize, usize)>)
    ensures
        r@ == v@.reverse(),
{
    let mut r: Vec<(usize, usize)> = Vec::new();
    let mut i: usize = v.len();
    while i > 0
        invariant
            i <= v@.len(),
            r@.len() == v@.len() - i,
            forall|k: int| 0 <= k < r@.len() ==> #[trigger] r@[k] == v@[v@.len() - 1 - k],
        decreases i,
    {
        i -= 1;
        r.push(v[i]);
    }
    assert(r@ =~= v@.reverse());
    r
}

impl Maze {
    /// The Manhattan distance between two cells of the grid.
    pub fn heuristic(&self, a: (usize, usize), b: (usize, usize)) -> (distance: usize)
        requires
            self.wf(),
            in_grid(self@, a),
            in_grid(self@, b),
        ensures
            distance == manhattan(a, b),
            distance <= width_of(self@) + height_of(self@) - 2,
    {
        let dx = if a.0 >= b.0 {
            a.0 - b.0
        } else {
            b.0 - a.0
        };
        let dy = if a.1 >= b.1 {
            a.1 - b.1
        } else {
            b.1 - a.1
        };
        assert(width_of(self@) * height_of(self@) >= 0) by (nonlinear_arith);
        dx + dy
    }

    /// The route that the search of the `search` module finds: a shortest
    /// route from the top-left to the bottom-right corner, or `None` where no
    /// sequence of passages joins the corners.
    ///
    /// A route moves one cell at a time along an axis and holds passages
    /// only.  Where a corner is a wall there is no route.
    pub fn solve(&self) -> (result: Option<Vec<(usize, usize)>>)
        requires
            self.wf(),
        ensures
            match result {
                Some(path) => {
                    &&& found_route(self@) == Some(path@)
                    &&& is_route(self@, path@)
                    &&& forall|other: Seq<(usize, usize)>| #[trigger]
                        is_route(self@, other) ==> path@.len() <= other.len()
                },
                None => {
                    &&& found_route(self@) is None
                    &&& forall|other: Seq<(usize, usize)>| !#[trigger] is_route(self@, other)
                },
            },
    {
        let ghost g = self@;
        if self.is_wall(0, 0) {
            return None;
        }
        let goal = (self.width() - 1, self.height() - 1);
        let mut search = Search::begin(self);
        let ghost answer = found_route(g);
        let ghost mut fuel: int = 4 * search.total() + 1;
        proof {
            lemma_matrix_sum_nonnegative(search.table());
        }
        while search.frontier.len() > 0
            invariant
                self.wf(),
                g == self@,
                goal == goal_of(g),
                is_open(g, start_of(g)),
                search.inv(g),
                0 <= search.total(),
                fuel >= 4 * search.total() + search.frontier@.len(),
                answer == found_route(g),
                answer == searched(g, search.progress(), fuel as nat),
            decreases search.total(), search.frontier@.len(),
        {
            let ghost before = search;
            let node = search.pop_lowest(self);
            let position = node.position;
            proof {
                assert(search.table() == before.table());
                assert(search.parent_table() == before.parent_table());
            }
            if position.0 == goal.0 && position.1 == goal.1 {
                let path = search.trace_back(self);
                proof {
                    assert forall|other: Seq<(usize, usize)>| #[trigger]
                        is_route(g, other) implies path@.len() <= other.len() by {
                        let w = before.lemma_route_meets_frontier(g, other, 0);
                        assert(node.cost <= before.frontier@[w.1].cost);
                    }
                    assert(answer == Some(path@));
                }
                return Some(path);
            }
            search.expand(self, position);
            proof {
                fuel = fuel - 1;
            }
        }
        proof {
            assert forall|other: Seq<(usize, usize)>| !#[trigger] is_route(g, other) by {
                if is_route(g, other) {
                    let w = search.lemma_route_meets_frontier(g, other, 0);
                }
            }
        }
        None
    }
}

} // verus!
