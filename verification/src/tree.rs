//! What makes a maze perfect: between any two passages there is exactly one
//! path.  Opening a dead end next to a passage keeps a maze perfect.

use vstd::prelude::*;
use crate::grid::{height_of, in_grid, is_open, opened, valid_grid, width_of};
use crate::route::adjacent;

verus! {

/// A walk through passages: every cell is a passage and every cell but the
/// first is a neighbour of the one before it.
pub open spec fn is_walk(g: Seq<Seq<bool>>, p: Seq<(usize, usize)>) -> bool {
    &&& p.len() >= 1
    &&& forall|i: int| 0 <= i < p.len() ==> is_open(g, #[trigger] p[i])
    &&& forall|i: int| 1 <= i < p.len() ==> adjacent(p[i - 1], #[trigger] p[i])
}

/// A path from `a` to `b`: a walk that visits no cell twice.
pub open spec fn is_path(
    g: Seq<Seq<bool>>,
    p: Seq<(usize, usize)>,
    a: (usize, usize),
    b: (usize, usize),
) -> bool {
    &&& is_walk(g, p)
    &&& p.no_duplicates()
    &&& p[0] == a
    &&& p.last() == b
}

/// There is a path from `a` to `b`, and only one.
pub open spec fn exactly_one_path(g: Seq<Seq<bool>>, a: (usize, usize), b: (usize, usize)) -> bool {
    &&& exists|p: Seq<(usize, usize)>| #[trigger] is_path(g, p, a, b)
    &&& forall|p: Seq<(usize, usize)>, q: Seq<(usize, usize)>|
        #[trigger] is_path(g, p, a, b) && #[trigger] is_path(g, q, a, b) ==> p == q
}

/// The passages of the grid form a tree: any two of them are joined by
/// exactly one path.
pub open spec fn perfect(g: Seq<Seq<bool>>) -> bool {
    forall|a: (usize, usize), b: (usize, usize)|
        #![trigger exactly_one_path(g, a, b)]
        is_open(g, a) && is_open(g, b) ==> exactly_one_path(g, a, b)
}

/// Opening a cell changes that cell and nothing else.
pub proof fn lemma_opened(g: Seq<Seq<bool>>, v: (usize, usize))
    requires
        valid_grid(g),
        in_grid(g, v),
    ensures
        valid_grid(opened(g, v)),
        width_of(opened(g, v)) == width_of(g),
        height_of(opened(g, v)) == height_of(g),
        forall|x: (usize, usize)| #[trigger] in_grid(opened(g, v), x) == in_grid(g, x),
        forall|x: (usize, usize)|
            #[trigger] is_open(opened(g, v), x) == (is_open(g, x) || x == v),
{
    let g2 = opened(g, v);
    assert forall|x: int| 0 <= x < g2.len() implies (#[trigger] g2[x]).len() == g2[0].len() by {
        assert(g[x].len() == g[0].len());
        assert(g[v.0 as int].len() == g[0].len());
    }
    assert(g[v.0 as int].len() == g[0].len());
    assert forall|x: (usize, usize)| #[trigger] is_open(g2, x) == (is_open(g, x) || x == v) by {
        if in_grid(g, x) {
            assert(g[x.0 as int].len() == g[0].len());
        }
    }
}

/// A walk stays a walk when a further cell is opened.
proof fn lemma_walk_survives(g: Seq<Seq<bool>>, v: (usize, usize), p: Seq<(usize, usize)>)
    requires
        valid_grid(g),
        in_grid(g, v),
        is_walk(g, p),
    ensures
        is_walk(opened(g, v), p),
{
    lemma_opened(g, v);
    assert forall|i: int| 0 <= i < p.len() implies is_open(opened(g, v), #[trigger] p[i]) by {
        assert(is_open(g, p[i]));
    }
}

/// A path that neither starts nor ends at a dead end does not pass through it.
proof fn lemma_path_avoids_leaf(
    g: Seq<Seq<bool>>,
    c: (usize, usize),
    v: (usize, usize),
    p: Seq<(usize, usize)>,
)
    requires
        valid_grid(g),
        in_grid(g, v),
        !is_open(g, v),
        forall|u: (usize, usize)| adjacent(v, u) && #[trigger] is_open(g, u) ==> u == c,
        is_walk(opened(g, v), p),
        p.no_duplicates(),
        p[0] != v,
        p.last() != v,
    ensures
        is_walk(g, p),
        forall|i: int| 0 <= i < p.len() ==> #[trigger] p[i] != v,
{
    let g2 = opened(g, v);
    lemma_opened(g, v);
    assert forall|i: int| 0 <= i < p.len() implies #[trigger] p[i] != v by {
        if p[i] == v {
            assert(0 < i < p.len() - 1);
            let before = p[i - 1];
            let after = p[i + 1];
            assert(adjacent(p[i - 1], p[i]));
            assert(adjacent(p[i + 1 - 1], p[i + 1]));
            assert(is_open(g2, before) && is_open(g2, after));
            assert(before != v && after != v);
            assert(is_open(g, before) && is_open(g, after));
            assert(before == c && after == c);
            assert(false);
        }
    }
    assert forall|i: int| 0 <= i < p.len() implies is_open(g, #[trigger] p[i]) by {
        assert(is_open(g2, p[i]));
        assert(p[i] != v);
    }
}

/// A path to a dead end arrives through the one passage beside it.
proof fn lemma_path_into_leaf(
    g: Seq<Seq<bool>>,
    c: (usize, usize),
    v: (usize, usize),
    p: Seq<(usize, usize)>,
)
    requires
        valid_grid(g),
        in_grid(g, v),
        !is_open(g, v),
        forall|u: (usize, usize)| adjacent(v, u) && #[trigger] is_open(g, u) ==> u == c,
        is_path(opened(g, v), p, p[0], v),
        p[0] != v,
    ensures
        p.len() >= 2,
        is_path(g, p.drop_last(), p[0], c),
{
    let g2 = opened(g, v);
    lemma_opened(g, v);
    let q = p.drop_last();
    let n = p.len() as int;
    assert(adjacent(p[n - 1 - 1], p[n - 1]));
    assert(is_open(g2, p[n - 2]));
    assert(p[n - 2] != v);
    assert(is_open(g, p[n - 2]));
    assert(q.last() == c);
    assert(is_walk(g2, q)) by {
        assert forall|i: int| 0 <= i < q.len() implies is_open(g2, #[trigger] q[i]) by {
            assert(is_open(g2, p[i]));
        }
        assert forall|i: int| 1 <= i < q.len() implies adjacent(q[i - 1], #[trigger] q[i]) by {
            assert(adjacent(p[i - 1], p[i]));
        }
    }
    assert(q.no_duplicates());
    lemma_path_avoids_leaf(g, c, v, q);
}

/// A path out of a dead end leaves through the one passage beside it.
proof fn lemma_path_out_of_leaf(
    g: Seq<Seq<bool>>,
    c: (usize, usize),
    v: (usize, usize),
    p: Seq<(usize, usize)>,
)
    requires
        valid_grid(g),
        in_grid(g, v),
        !is_open(g, v),
        forall|u: (usize, usize)| adjacent(v, u) && #[trigger] is_open(g, u) ==> u == c,
        is_path(opened(g, v), p, v, p.last()),
        p.last() != v,
    ensures
        p.len() >= 2,
        is_path(g, p.drop_first(), c, p.last()),
{
    let g2 = opened(g, v);
    lemma_opened(g, v);
    let q = p.drop_first();
    assert(adjacent(p[1 - 1], p[1]));
    assert(is_open(g2, p[1]));
    assert(p[1] != v);
    assert(is_open(g, p[1]));
    assert(q[0] == c);
    assert(is_walk(g2, q)) by {
        assert forall|i: int| 0 <= i < q.len() implies is_open(g2, #[trigger] q[i]) by {
            assert(is_open(g2, p[i + 1]));
        }
        assert forall|i: int| 1 <= i < q.len() implies adjacent(q[i - 1], #[trigger] q[i]) by {
            assert(adjacent(p[i + 1 - 1], p[i + 1]));
        }
    }
    assert(q.no_duplicates()) by {
        assert forall|i: int, j: int| 0 <= i < q.len() && 0 <= j < q.len() && i != j implies q[i]
            != q[j] by {
            assert(p[i + 1] != p[j + 1]);
        }
    }
    lemma_path_avoids_leaf(g, c, v, q);
}

/// In the grid with the dead end `v` opened beside `c`, some path joins
/// any two passages.
proof fn lemma_leaf_has_path(
    g: Seq<Seq<bool>>,
    c: (usize, usize),
    v: (usize, usize),
    a: (usize, usize),
    b: (usize, usize),
) -> (p: Seq<(usize, usize)>)
    requires
        valid_grid(g),
        perfect(g),
        is_open(g, c),
        in_grid(g, v),
        !is_open(g, v),
        adjacent(c, v),
        is_open(opened(g, v), a),
        is_open(opened(g, v), b),
    ensures
        is_path(opened(g, v), p, a, b),
{
    let g2 = opened(g, v);
    lemma_opened(g, v);
    if a != v && b != v {
        assert(exactly_one_path(g, a, b));
        let p = choose|p: Seq<(usize, usize)>| #[trigger] is_path(g, p, a, b);
        lemma_walk_survives(g, v, p);
        p
    } else if a != v {
        assert(exactly_one_path(g, a, c));
        let p = choose|p: Seq<(usize, usize)>| #[trigger] is_path(g, p, a, c);
        lemma_walk_survives(g, v, p);
        let r = p.push(v);
        assert forall|i: int| 0 <= i < r.len() implies is_open(g2, #[trigger] r[i]) by {
            if i < p.len() {
                assert(is_open(g2, p[i]));
            }
        }
        assert forall|i: int| 1 <= i < r.len() implies adjacent(r[i - 1], #[trigger] r[i]) by {
            if i < p.len() {
                assert(adjacent(p[i - 1], p[i]));
            }
        }
        assert forall|i: int, j: int| 0 <= i < r.len() && 0 <= j < r.len() && i != j implies r[i]
            != r[j] by {
            if i < p.len() && j < p.len() {
            } else if i < p.len() {
                assert(is_open(g, p[i]));
            } else {
                assert(is_open(g, p[j]));
            }
        }
        r
    } else if b != v {
        assert(exactly_one_path(g, c, b));
        let p = choose|p: Seq<(usize, usize)>| #[trigger] is_path(g, p, c, b);
        lemma_walk_survives(g, v, p);
        let r = seq![v] + p;
        assert forall|i: int| 0 <= i < r.len() implies is_open(g2, #[trigger] r[i]) by {
            if i >= 1 {
                assert(is_open(g2, p[i - 1]));
            }
        }
        assert forall|i: int| 1 <= i < r.len() implies adjacent(r[i - 1], #[trigger] r[i]) by {
            if i >= 2 {
                assert(adjacent(p[i - 1 - 1], p[i - 1]));
            }
        }
        assert forall|i: int, j: int| 0 <= i < r.len() && 0 <= j < r.len() && i != j implies r[i]
            != r[j] by {
            if i >= 1 && j >= 1 {
                assert(p[i - 1] != p[j - 1]);
            } else if i >= 1 {
                assert(is_open(g, p[i - 1]));
            } else {
                assert(is_open(g, p[j - 1]));
            }
        }
        assert(r.last() == p.last());
        r
    } else {
        let r = seq![v];
        assert(is_walk(g2, r));
        r
    }
}

/// In the grid with the dead end `v` opened beside `c`, two paths between
/// the same passages are one.
proof fn lemma_leaf_paths_agree(
    g: Seq<Seq<bool>>,
    c: (usize, usize),
    v: (usize, usize),
    a: (usize, usize),
    b: (usize, usize),
    p: Seq<(usize, usize)>,
    q: Seq<(usize, usize)>,
)
    requires
        valid_grid(g),
        perfect(g),
        is_open(g, c),
        in_grid(g, v),
        !is_open(g, v),
        adjacent(c, v),
        forall|u: (usize, usize)| adjacent(v, u) && #[trigger] is_open(g, u) ==> u == c,
        is_path(opened(g, v), p, a, b),
        is_path(opened(g, v), q, a, b),
    ensures
        p == q,
{
    let g2 = opened(g, v);
    lemma_opened(g, v);
    assert(is_open(g2, p[0]));
    assert(is_open(g2, p[p.len() - 1]));
    if a != v && b != v {
        lemma_path_avoids_leaf(g, c, v, p);
        lemma_path_avoids_leaf(g, c, v, q);
        assert(exactly_one_path(g, a, b));
        assert(is_path(g, p, a, b) && is_path(g, q, a, b));
    } else if a != v {
        lemma_path_into_leaf(g, c, v, p);
        lemma_path_into_leaf(g, c, v, q);
        assert(exactly_one_path(g, a, c));
        assert(is_path(g, p.drop_last(), a, c) && is_path(g, q.drop_last(), a, c));
        assert(p =~= p.drop_last().push(v));
        assert(q =~= q.drop_last().push(v));
    } else if b != v {
        lemma_path_out_of_leaf(g, c, v, p);
        lemma_path_out_of_leaf(g, c, v, q);
        assert(exactly_one_path(g, c, b));
        assert(is_path(g, p.drop_first(), c, b) && is_path(g, q.drop_first(), c, b));
        assert(p =~= seq![v] + p.drop_first());
        assert(q =~= seq![v] + q.drop_first());
    } else {
        assert(p.len() == 1);
        assert(q.len() == 1);
        assert(p =~= q);
    }
}

/// Opening a wall that touches exactly one passage keeps the maze perfect.
pub proof fn lemma_leaf_keeps_perfect(g: Seq<Seq<bool>>, c: (usize, usize), v: (usize, usize))
    requires
        valid_grid(g),
        perfect(g),
        is_open(g, c),
        in_grid(g, v),
        !is_open(g, v),
        adjacent(c, v),
        forall|u: (usize, usize)| adjacent(v, u) && #[trigger] is_open(g, u) ==> u == c,
    ensures
        perfect(opened(g, v)),
{
    let g2 = opened(g, v);
    assert forall|a: (usize, usize), b: (usize, usize)|
        #![trigger exactly_one_path(g2, a, b)]
        is_open(g2, a) && is_open(g2, b) implies exactly_one_path(g2, a, b) by {
        let w = lemma_leaf_has_path(g, c, v, a, b);
        assert(is_path(g2, w, a, b));
        assert forall|p: Seq<(usize, usize)>, q: Seq<(usize, usize)>|
            #[trigger] is_path(g2, p, a, b) && #[trigger] is_path(g2, q, a, b) implies p == q by {
            lemma_leaf_paths_agree(g, c, v, a, b, p, q);
        }
    }
}

/// A maze with a single passage is perfect.
pub proof fn lemma_single_passage_perfect(g: Seq<Seq<bool>>, o: (usize, usize))
    requires
        valid_grid(g),
        is_open(g, o),
        forall|x: (usize, usize)| #[trigger] is_open(g, x) ==> x == o,
    ensures
        perfect(g),
{
    assert forall|a: (usize, usize), b: (usize, usize)|
        #![trigger exactly_one_path(g, a, b)]
        is_open(g, a) && is_open(g, b) implies exactly_one_path(g, a, b) by {
        let w = seq![o];
        assert(is_path(g, w, a, b));
        assert forall|p: Seq<(usize, usize)>, q: Seq<(usize, usize)>|
            #[trigger] is_path(g, p, a, b) && #[trigger] is_path(g, q, a, b) implies p == q by {
            assert(p.len() == 1);
            assert(q.len() == 1);
            assert(p =~= q);
        }
    }
}

} // verus!
