//! Carving a maze by randomized depth-first search.
//!
//! The carve walks from room to room, two cells at a time, and opens the
//! cell between two rooms as it goes.  Afterwards the leftmost and the
//! rightmost column are opened, which may join passages that the carve had
//! kept apart: the maze is a tree before that pass and need not be one after.
//! A grid is carved once: the carve needs a grid of walls.

use vstd::prelude::*;
use crate::carving::{
    carving,
    lemma_carve_back,
    lemma_carve_ends,
    lemma_carve_forward,
    lemma_carving_begins,
    lemma_open_wall,
    lemma_sides_fit,
    midpoint,
    well_carved,
};
use crate::counting::{lemma_wall_count_nonnegative, wall_count};
use crate::grid::{
    all_walls,
    cell_at,
    height_of,
    in_grid,
    is_wall_at,
    lies_in,
    opened,
    shifted,
    valid_grid,
    width_of,
    Maze,
};
use crate::picker::{advance, pick_index, seeded_stream, word_at, Picker};
use crate::tree::lemma_opened;
use vstd::arithmetic::div_mod::lemma_small_mod;

verus! {

/// The walled cells two steps from `c` in the directions below `d`, in the
/// order right, left, down, up.
pub open spec fn far_walls_upto(g: Seq<Seq<bool>>, c: (usize, usize), d: int) -> Seq<(usize, usize)>
    decreases d,
{
    if d <= 0 {
        Seq::empty()
    } else {
        let rest = far_walls_upto(g, c, d - 1);
        let p = shifted(c, d - 1, 2);
        if lies_in(g, p) && is_wall_at(g, cell_at(p)) {
            rest.push(cell_at(p))
        } else {
            rest
        }
    }
}

/// The walled cells two steps from `c`: where the carve can go next.
pub open spec fn far_walls_of(g: Seq<Seq<bool>>, c: (usize, usize)) -> Seq<(usize, usize)> {
    far_walls_upto(g, c, 4)
}

/// The grid and the tape cursor after at most `fuel` steps of the carve.
/// A step looks at the room on top of the stack.  Where walled rooms lie two
/// cells away, the tape picks one; it is opened with the cell between, and
/// goes on the stack.  Where none does, the room leaves the stack.
pub open spec fn carve_run(
    g: Seq<Seq<bool>>,
    stack: Seq<(usize, usize)>,
    tape: Seq<u32>,
    used: nat,
    fuel: nat,
) -> (Seq<Seq<bool>>, nat)
    decreases fuel,
{
    if fuel == 0 || stack.len() == 0 {
        (g, used)
    } else {
        let c = stack.last();
        let options = far_walls_of(g, c);
        if options.len() == 0 {
            carve_run(g, stack.drop_last(), tape, used, (fuel - 1) as nat)
        } else {
            let n = options[pick_index(tape, used, options.len())];
            carve_run(
                opened(opened(g, n), midpoint(c, n)),
                stack.push(n),
                tape,
                advance(tape, used),
                (fuel - 1) as nat,
            )
        }
    }
}

/// What the carve makes of the grid `g` with the picks of a tape read from
/// place `used`, and where the tape's cursor stands afterwards.  The carve
/// starts at the origin and runs until its stack is empty, which takes fewer
/// steps than twice the number of walls and one.
pub open spec fn carved(g: Seq<Seq<bool>>, tape: Seq<u32>, used: nat) -> (Seq<Seq<bool>>, nat) {
    carve_run(
        opened(g, (0usize, 0usize)),
        seq![(0usize, 0usize)],
        tape,
        used,
        (2 * wall_count(g) + 1) as nat,
    )
}

/// The grid with its leftmost and rightmost column opened.
pub open spec fn sides_opened(g: Seq<Seq<bool>>) -> Seq<Seq<bool>> {
    Seq::new(
        g.len(),
        |x: int|
            Seq::new(
                g[x].len(),
                |y: int|
                    if x == 0 || x == g.len() - 1 {
                        false
                    } else {
                        g[x][y]
                    },
            ),
    )
}

/// From the grid `g1` with the stack `s1`, the carve that reads the picks
/// `recorded` and then `rest` comes by the grid `g` with the stack `stack`
/// when it has read `recorded`: both runs end alike.
pub open spec fn carve_passes(
    g1: Seq<Seq<bool>>,
    s1: Seq<(usize, usize)>,
    fuel1: nat,
    g: Seq<Seq<bool>>,
    stack: Seq<(usize, usize)>,
    fuel: nat,
    recorded: Seq<u32>,
    rest: Seq<u32>,
) -> bool {
    carve_run(g1, s1, recorded + rest, 0, fuel1) == carve_run(
        g,
        stack,
        recorded + rest,
        recorded.len(),
        fuel,
    )
}

/// A step back does not disturb what the carve has read.
proof fn lemma_passes_back(
    g1: Seq<Seq<bool>>,
    s1: Seq<(usize, usize)>,
    fuel1: nat,
    g: Seq<Seq<bool>>,
    stack: Seq<(usize, usize)>,
    fuel: nat,
    recorded: Seq<u32>,
)
    requires
        stack.len() > 0,
        fuel > 0,
        far_walls_of(g, stack.last()).len() == 0,
        forall|rest: Seq<u32>| #[trigger] carve_passes(g1, s1, fuel1, g, stack, fuel, recorded, rest),
    ensures
        forall|rest: Seq<u32>| #[trigger]
            carve_passes(g1, s1, fuel1, g, stack.drop_last(), (fuel - 1) as nat, recorded, rest),
{
    assert forall|rest: Seq<u32>| #[trigger]
        carve_passes(g1, s1, fuel1, g, stack.drop_last(), (fuel - 1) as nat, recorded, rest) by {
        assert(carve_passes(g1, s1, fuel1, g, stack, fuel, recorded, rest));
    }
}

/// A step forward to the option at place `i` is the step of a carve that
/// reads `i` next.
proof fn lemma_passes_forward(
    g1: Seq<Seq<bool>>,
    s1: Seq<(usize, usize)>,
    fuel1: nat,
    g: Seq<Seq<bool>>,
    stack: Seq<(usize, usize)>,
    fuel: nat,
    recorded: Seq<u32>,
    i: int,
)
    requires
        stack.len() > 0,
        fuel > 0,
        0 <= i < far_walls_of(g, stack.last()).len(),
        forall|rest: Seq<u32>| #[trigger] carve_passes(g1, s1, fuel1, g, stack, fuel, recorded, rest),
    ensures
        ({
            let c = stack.last();
            let n = far_walls_of(g, c)[i];
            forall|rest: Seq<u32>| #[trigger]
                carve_passes(
                    g1,
                    s1,
                    fuel1,
                    opened(opened(g, n), midpoint(c, n)),
                    stack.push(n),
                    (fuel - 1) as nat,
                    recorded.push(i as u32),
                    rest,
                )
        }),
{
    let c = stack.last();
    let options = far_walls_of(g, c);
    let n = options[i];
    lemma_far_wall_count(g, c, 4);
    let word = i as u32;
    let longer = recorded.push(word);
    lemma_small_mod(i as nat, options.len());
    assert forall|rest: Seq<u32>| #[trigger]
        carve_passes(
            g1,
            s1,
            fuel1,
            opened(opened(g, n), midpoint(c, n)),
            stack.push(n),
            (fuel - 1) as nat,
            longer,
            rest,
        ) by {
        let tail = seq![word] + rest;
        let whole = recorded + tail;
        assert(whole =~= longer + rest);
        assert(carve_passes(g1, s1, fuel1, g, stack, fuel, recorded, tail));
        assert(whole[recorded.len() as int] == word);
        assert(word_at(whole, recorded.len()) == word);
        assert(pick_index(whole, recorded.len(), options.len()) == i);
        assert(advance(whole, recorded.len()) == longer.len());
    }
}

/// The maze that generation makes of the grid `g` with the picks of a tape
/// read from place `used`.
pub open spec fn generated(g: Seq<Seq<bool>>, tape: Seq<u32>, used: nat) -> Seq<Seq<bool>> {
    sides_opened(carved(g, tape, used).0)
}

/// Generation is repeatable: from equal grids, pickers that replay equal
/// tapes from equal places make equal mazes and end at equal places.
pub proof fn lemma_same_tape_same_maze(
    first: Seq<Seq<bool>>,
    second: Seq<Seq<bool>>,
    first_tape: Seq<u32>,
    second_tape: Seq<u32>,
    first_used: nat,
    second_used: nat,
)
    requires
        first == second,
        first_tape == second_tape,
        first_used == second_used,
    ensures
        generated(first, first_tape, first_used) == generated(second, second_tape, second_used),
        carved(first, first_tape, first_used).1 == carved(second, second_tape, second_used).1,
{
}

/// Generation is repeatable under a seed: from equal grids, pickers seeded
/// alike make equal mazes.
pub proof fn lemma_same_seed_same_maze(
    first: Seq<Seq<bool>>,
    second: Seq<Seq<bool>>,
    first_seed: u64,
    second_seed: u64,
    count: nat,
)
    requires
        first == second,
        first_seed == second_seed,
    ensures
        generated(first, seeded_stream(first_seed, count), 0) == generated(
            second,
            seeded_stream(second_seed, count),
            0,
        ),
{
}

/// Every cell of the leftmost and of the rightmost column is a passage.
pub open spec fn sides_open(g: Seq<Seq<bool>>) -> bool {
    forall|y: int|
        0 <= y < height_of(g) ==> !(#[trigger] g[0][y]) && !g[width_of(g) - 1][y]
}

/// The cell `n` is the walled cell two steps from `c` in direction `e`.
pub open spec fn far_wall_toward(g: Seq<Seq<bool>>, c: (usize, usize), e: int, n: (usize, usize)) -> bool {
    lies_in(g, shifted(c, e, 2)) && n == cell_at(shifted(c, e, 2)) && is_wall_at(g, n)
}

/// Each far wall is a walled cell two steps away: the direction is returned.
pub proof fn lemma_far_wall_at(g: Seq<Seq<bool>>, c: (usize, usize), d: int, i: int) -> (e: int)
    requires
        0 <= d <= 4,
        0 <= i < far_walls_upto(g, c, d).len(),
    ensures
        0 <= e < d,
        far_wall_toward(g, c, e, far_walls_upto(g, c, d)[i]),
    decreases d,
{
    let rest = far_walls_upto(g, c, d - 1);
    if i < rest.len() {
        lemma_far_wall_at(g, c, d - 1, i)
    } else {
        d - 1
    }
}

/// There are at most as many far walls as directions.
pub proof fn lemma_far_wall_count(g: Seq<Seq<bool>>, c: (usize, usize), d: int)
    requires
        0 <= d <= 4,
    ensures
        far_walls_upto(g, c, d).len() <= d,
    decreases d,
{
    if d > 0 {
        lemma_far_wall_count(g, c, d - 1);
    }
}

/// Where there is no far wall, no cell two steps away is walled.
pub proof fn lemma_no_far_walls(g: Seq<Seq<bool>>, c: (usize, usize), d: int)
    requires
        0 <= d <= 4,
        far_walls_upto(g, c, d).len() == 0,
    ensures
        forall|e: int|
            0 <= e < d && lies_in(g, #[trigger] shifted(c, e, 2)) ==> !is_wall_at(
                g,
                cell_at(shifted(c, e, 2)),
            ),
    decreases d,
{
    if d > 0 {
        lemma_no_far_walls(g, c, d - 1);
    }
}

impl Maze {
    /// The walled cells two steps from `c`, in the order right, left, down,
    /// up.
    pub fn far_walls(&self, c: (usize, usize)) -> (options: Vec<(usize, usize)>)
        requires
            self.wf(),
            in_grid(self@, c),
        ensures
            options@ == far_walls_of(self@, c),
    {
        let mut options: Vec<(usize, usize)> = Vec::new();
        let mut d: usize = 0;
        while d < 4
            invariant
                d <= 4,
                self.wf(),
                in_grid(self@, c),
                options@ == far_walls_upto(self@, c, d as int),
            decreases 4 - d,
        {
            match self.neighbor(c, d, 2) {
                Some(next) => {
                    if self.is_wall(next.0, next.1) {
                        options.push(next);
                    }
                },
                None => {},
            }
            d += 1;
        }
        options
    }

    /// Carves a grid of walls into a perfect maze: a tree of passages that
    /// reaches every room.  The picker chooses among the walled rooms at each
    /// step; with a tape the outcome is the one that the tape determines.
    pub fn carve_with(&mut self, picker: &mut Picker)
        requires
            old(self).wf(),
            old(self)@ == all_walls(width_of(old(self)@), height_of(old(self)@)),
            old(picker).wf(),
        ensures
            final(self).wf(),
            width_of(final(self)@) == width_of(old(self)@),
            height_of(final(self)@) == height_of(old(self)@),
            well_carved(final(self)@),
            exists|picks: Seq<u32>| #[trigger] carved(old(self)@, picks, 0).0 == final(self)@,
            final(picker).wf(),
            final(picker)@.tape == old(picker)@.tape,
            old(picker)@.tape matches Some(tape) ==> (final(self)@, final(picker)@.used) == carved(
                old(self)@,
                tape,
                old(picker)@.used,
            ),
    {
        let ghost g0 = self@;
        let ghost used0 = picker@.used;
        let ghost tape = picker@.tape;
        let mut stack: Vec<(usize, usize)> = Vec::new();
        stack.push((0, 0));
        self.set_passage(0, 0);
        let ghost g1 = self@;
        let ghost s1 = stack@;
        let ghost mut fuel: int = 2 * wall_count(g0) + 1;
        let ghost fuel1 = (2 * wall_count(g0) + 1) as nat;
        let ghost mut recorded: Seq<u32> = Seq::empty();
        proof {
            lemma_carving_begins(width_of(g0), height_of(g0));
            lemma_opened(g0, (0usize, 0usize));
            lemma_wall_count_nonnegative(g0);
            lemma_wall_count_nonnegative(g1);
            lemma_open_wall(g0, (0usize, 0usize));
            assert(s1 =~= seq![(0usize, 0usize)]);
        }
        while stack.len() > 0
            invariant
                self.wf(),
                picker.wf(),
                picker@.tape == tape,
                width_of(self@) == width_of(g0),
                height_of(self@) == height_of(g0),
                carving(self@, stack@),
                0 <= wall_count(self@),
                fuel >= 2 * wall_count(self@) + stack@.len(),
                tape matches Some(t) ==> carve_run(g1, s1, t, used0, (2 * wall_count(g0) + 1) as nat)
                    == carve_run(self@, stack@, t, picker@.used, fuel as nat),
                fuel1 == (2 * wall_count(g0) + 1) as nat,
                forall|rest: Seq<u32>| #[trigger]
                    carve_passes(g1, s1, fuel1, self@, stack@, fuel as nat, recorded, rest),
            decreases 2 * wall_count(self@) + stack@.len(),
        {
            let ghost g = self@;
            let ghost before = stack@;
            let ghost used = picker@.used;
            let c = stack[stack.len() - 1];
            let options = self.far_walls(c);
            if options.len() == 0 {
                stack.pop();
                proof {
                    lemma_no_far_walls(g, c, 4);
                    lemma_carve_back(g, before);
                    assert(stack@ =~= before.drop_last());
                    lemma_passes_back(g1, s1, fuel1, g, before, fuel as nat, recorded);
                    fuel = fuel - 1;
                }
            } else {
                let next = picker.pick(&options);
                proof {
                    let i = choose|i: int| 0 <= i < options@.len() && options@[i] == next;
                    let e = lemma_far_wall_at(g, c, 4, i);
                    lemma_carve_forward(g, before, e);
                    lemma_sides_fit(g);
                    lemma_opened(g, next);
                }
                self.set_passage(next.0, next.1);
                self.set_passage((c.0 + next.0) / 2, (c.1 + next.1) / 2);
                stack.push(next);
                proof {
                    assert(stack@ =~= before.push(next));
                    lemma_wall_count_nonnegative(self@);
                    let i = choose|i: int| 0 <= i < options@.len() && options@[i] == next;
                    lemma_passes_forward(g1, s1, fuel1, g, before, fuel as nat, recorded, i);
                    let longer = recorded.push(i as u32);
                    recorded = longer;
                    fuel = fuel - 1;
                }
            }
        }
        proof {
            assert(stack@ =~= Seq::empty());
            lemma_carve_ends(self@);
            assert(carve_passes(g1, s1, fuel1, self@, stack@, fuel as nat, recorded, Seq::empty()));
            assert(recorded + Seq::<u32>::empty() =~= recorded);
            assert(carved(g0, recorded, 0).0 == self@);
        }
    }

    /// Opens the leftmost and the rightmost column.
    pub fn open_sides(&mut self)
        requires
            old(self).wf(),
        ensures
            final(self).wf(),
            final(self)@ == sides_opened(old(self)@),
            sides_open(final(self)@),
    {
        let ghost g0 = self@;
        let width = self.width();
        let height = self.height();
        let mut i: usize = 0;
        while i < height
            invariant
                i <= height,
                self.wf(),
                valid_grid(g0),
                width == width_of(g0),
                height == height_of(g0),
                self@.len() == g0.len(),
                forall|x: int| 0 <= x < g0.len() ==> (#[trigger] self@[x]).len() == g0[x].len(),
                forall|x: int, y: int|
                    0 <= x < g0.len() && 0 <= y < g0[x].len() ==> (#[trigger] self@[x][y]) == (if (x
                        == 0 || x == g0.len() - 1) && y < i {
                        false
                    } else {
                        g0[x][y]
                    }),
            decreases height - i,
        {
            proof {
                lemma_opened(self@, (0usize, i));
            }
            self.set_passage(0, i);
            proof {
                lemma_opened(self@, ((width - 1) as usize, i));
            }
            self.set_passage(width - 1, i);
            i += 1;
        }
        proof {
            assert forall|x: int| 0 <= x < g0.len() implies (#[trigger] g0[x]).len()
                == height by {}
            assert(self@ =~~= sides_opened(g0));
        }
    }

    /// Generates a maze in a grid of walls: carves it with the picker's
    /// choices, then opens the two outer columns.
    pub fn generate_with(&mut self, picker: &mut Picker)
        requires
            old(self).wf(),
            old(self)@ == all_walls(width_of(old(self)@), height_of(old(self)@)),
            old(picker).wf(),
        ensures
            final(self).wf(),
            width_of(final(self)@) == width_of(old(self)@),
            height_of(final(self)@) == height_of(old(self)@),
            exists|picks: Seq<u32>|
                {
                    &&& final(self)@ == #[trigger] generated(old(self)@, picks, 0)
                    &&& well_carved(carved(old(self)@, picks, 0).0)
                },
            old(picker)@.tape matches Some(tape) ==> {
                &&& final(self)@ == generated(old(self)@, tape, old(picker)@.used)
                &&& final(picker)@.used == carved(old(self)@, tape, old(picker)@.used).1
            },
            sides_open(final(self)@),
            final(picker).wf(),
            final(picker)@.tape == old(picker)@.tape,
    {
        let ghost g0 = self@;
        self.carve_with(picker);
        let ghost inner = self@;
        self.open_sides();
        proof {
            let picks = choose|picks: Seq<u32>| #[trigger] carved(g0, picks, 0).0 == inner;
            assert(self@ == generated(g0, picks, 0));
        }
    }

    /// Generates a maze in a grid of walls with choices drawn from the
    /// thread's random generator.
    pub fn generate(&mut self)
        requires
            old(self).wf(),
            old(self)@ == all_walls(width_of(old(self)@), height_of(old(self)@)),
        ensures
            final(self).wf(),
            width_of(final(self)@) == width_of(old(self)@),
            height_of(final(self)@) == height_of(old(self)@),
            exists|picks: Seq<u32>|
                {
                    &&& final(self)@ == #[trigger] generated(old(self)@, picks, 0)
                    &&& well_carved(carved(old(self)@, picks, 0).0)
                },
            sides_open(final(self)@),
    {
        let mut picker = Picker::fresh();
        self.generate_with(&mut picker);
    }
}

} // verus!
