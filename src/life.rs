use crate::world::{wrap_coord, CellState, ConstructableWorld, World};
use vstd::prelude::*;

verus! {

/// 1 for a live cell, 0 for a dead one.
pub open spec fn alive_value(c: CellState) -> int {
    if c == CellState::Alive {
        1
    } else {
        0
    }
}

/// The survival / birth rule: a live cell with 2 or 3 live neighbours stays alive,
/// a dead cell with exactly 3 becomes alive, every other cell is dead.
pub open spec fn life_rule(c: CellState, alive_neighbours: int) -> CellState {
    match c {
        CellState::Alive => if alive_neighbours == 2 || alive_neighbours == 3 {
            CellState::Alive
        } else {
            CellState::Dead
        },
        CellState::Dead => if alive_neighbours == 3 {
            CellState::Alive
        } else {
            CellState::Dead
        },
    }
}

/// The cell of `g` at `(x, y)` after toroidal wrapping.
pub open spec fn wrapped_cell<T: World>(g: T, x: int, y: int) -> CellState {
    g.spec_cell(wrap_coord(x, g.spec_width() as int), wrap_coord(y, g.spec_height() as int))
}

/// The number of live cells among the eight toroidal neighbours of `(x, y)`.
pub open spec fn alive_neighbours<T: World>(g: T, x: int, y: int) -> int {
    alive_value(wrapped_cell(g, x - 1, y - 1)) + alive_value(wrapped_cell(g, x - 1, y))
        + alive_value(wrapped_cell(g, x - 1, y + 1)) + alive_value(wrapped_cell(g, x, y + 1))
        + alive_value(wrapped_cell(g, x + 1, y + 1)) + alive_value(wrapped_cell(g, x + 1, y))
        + alive_value(wrapped_cell(g, x + 1, y - 1)) + alive_value(wrapped_cell(g, x, y - 1))
}

/// The state of cell `(x, y)` of `g` in the next generation.
pub open spec fn next_state<T: World>(g: T, x: int, y: int) -> CellState {
    life_rule(g.spec_cell(x, y), alive_neighbours(g, x, y))
}

/// `next` has the dimensions of `prev` and holds its next generation.
pub open spec fn is_next_generation<T: World>(prev: T, next: T) -> bool {
    &&& next.spec_width() == prev.spec_width()
    &&& next.spec_height() == prev.spec_height()
    &&& forall|x: int, y: int|
        0 <= x < prev.spec_width() && 0 <= y < prev.spec_height() ==> #[trigger] next.spec_cell(x, y)
            == next_state(prev, x, y)
}

/// The state of cell `(x, y)` of `g` after `k` generations.
pub open spec fn evolved_cell<T: World>(g: T, k: nat, x: int, y: int) -> CellState
    decreases k, 0int,
{
    if k == 0 {
        g.spec_cell(x, y)
    } else {
        life_rule(evolved_cell(g, (k - 1) as nat, x, y), evolved_neighbours(g, (k - 1) as nat, x, y))
    }
}

/// The number of live toroidal neighbours of `(x, y)` after `k` generations of `g`.
pub open spec fn evolved_neighbours<T: World>(g: T, k: nat, x: int, y: int) -> int
    decreases k, 1int,
{
    let w = g.spec_width() as int;
    let h = g.spec_height() as int;
    alive_value(evolved_cell(g, k, wrap_coord(x - 1, w), wrap_coord(y - 1, h)))
        + alive_value(evolved_cell(g, k, wrap_coord(x - 1, w), wrap_coord(y, h)))
        + alive_value(evolved_cell(g, k, wrap_coord(x - 1, w), wrap_coord(y + 1, h)))
        + alive_value(evolved_cell(g, k, wrap_coord(x, w), wrap_coord(y + 1, h)))
        + alive_value(evolved_cell(g, k, wrap_coord(x + 1, w), wrap_coord(y + 1, h)))
        + alive_value(evolved_cell(g, k, wrap_coord(x + 1, w), wrap_coord(y, h)))
        + alive_value(evolved_cell(g, k, wrap_coord(x + 1, w), wrap_coord(y - 1, h)))
        + alive_value(evolved_cell(g, k, wrap_coord(x, w), wrap_coord(y - 1, h)))
}

/// `cur` has the dimensions of `g` and holds it after `k` generations.
pub open spec fn is_evolution<T: World>(g: T, k: nat, cur: T) -> bool {
    &&& cur.spec_width() == g.spec_width()
    &&& cur.spec_height() == g.spec_height()
    &&& forall|x: int, y: int|
        0 <= x < g.spec_width() && 0 <= y < g.spec_height() ==> #[trigger] cur.spec_cell(x, y)
            == evolved_cell(g, k, x, y)
}

/// One more generation of an evolution of `g` is an evolution of `g` by one more step.
pub proof fn lemma_evolution_step<T: World>(g: T, k: nat, cur: T, next: T)
    requires
        is_evolution(g, k, cur),
        is_next_generation(cur, next),
    ensures
        is_evolution(g, k + 1, next),
{
    let w = g.spec_width() as int;
    let h = g.spec_height() as int;
    assert forall|x: int, y: int| 0 <= x < w && 0 <= y < h implies #[trigger] next.spec_cell(x, y)
        == evolved_cell(g, k + 1, x, y) by {
        assert(0 <= wrap_coord(x - 1, w) < w);
        assert(0 <= wrap_coord(x + 1, w) < w);
        assert(0 <= wrap_coord(x, w) < w);
        assert(0 <= wrap_coord(y - 1, h) < h);
        assert(0 <= wrap_coord(y + 1, h) < h);
        assert(0 <= wrap_coord(y, h) < h);
        assert(alive_neighbours(cur, x, y) == evolved_neighbours(g, k, x, y));
    }
}

/// A grid with no live cell has no live cell in its next generation.
pub proof fn lemma_dead_stays_dead<T: World>(g: T, x: int, y: int)
    requires
        forall|i: int, j: int|
            0 <= i < g.spec_width() && 0 <= j < g.spec_height() ==> #[trigger] g.spec_cell(i, j)
                == CellState::Dead,
        0 <= x < g.spec_width(),
        0 <= y < g.spec_height(),
    ensures
        next_state(g, x, y) == CellState::Dead,
{
    let w = g.spec_width() as int;
    let h = g.spec_height() as int;
    assert(0 <= wrap_coord(x - 1, w) < w);
    assert(0 <= wrap_coord(x + 1, w) < w);
    assert(0 <= wrap_coord(x, w) < w);
    assert(0 <= wrap_coord(y - 1, h) < h);
    assert(0 <= wrap_coord(y + 1, h) < h);
    assert(0 <= wrap_coord(y, h) < h);
    assert(alive_neighbours(g, x, y) == 0);
}

/// The next generation of a grid with no live cell has no live cell either.
pub proof fn lemma_dead_grid_stays_dead<T: World>(prev: T, next: T)
    requires
        forall|i: int, j: int|
            0 <= i < prev.spec_width() && 0 <= j < prev.spec_height() ==> #[trigger] prev.spec_cell(i, j)
                == CellState::Dead,
        is_next_generation(prev, next),
    ensures
        forall|i: int, j: int|
            0 <= i < next.spec_width() && 0 <= j < next.spec_height() ==> #[trigger] next.spec_cell(i, j)
                == CellState::Dead,
{
    assert forall|i: int, j: int| 0 <= i < next.spec_width() && 0 <= j < next.spec_height() implies
        #[trigger] next.spec_cell(i, j) == CellState::Dead by {
        lemma_dead_stays_dead(prev, i, j);
    }
}

/// A grid with no live cell has no live cell after any number of generations.
pub proof fn lemma_dead_grid_evolves_dead<T: World>(g: T, k: nat, x: int, y: int)
    requires
        forall|i: int, j: int|
            0 <= i < g.spec_width() && 0 <= j < g.spec_height() ==> #[trigger] g.spec_cell(i, j)
                == CellState::Dead,
        0 <= x < g.spec_width(),
        0 <= y < g.spec_height(),
    ensures
        evolved_cell(g, k, x, y) == CellState::Dead,
    decreases k,
{
    if k > 0 {
        let w = g.spec_width() as int;
        let h = g.spec_height() as int;
        let p = (k - 1) as nat;
        lemma_dead_grid_evolves_dead(g, p, x, y);
        lemma_dead_grid_evolves_dead(g, p, wrap_coord(x - 1, w), wrap_coord(y - 1, h));
        lemma_dead_grid_evolves_dead(g, p, wrap_coord(x - 1, w), wrap_coord(y, h));
        lemma_dead_grid_evolves_dead(g, p, wrap_coord(x - 1, w), wrap_coord(y + 1, h));
        lemma_dead_grid_evolves_dead(g, p, wrap_coord(x, w), wrap_coord(y + 1, h));
        lemma_dead_grid_evolves_dead(g, p, wrap_coord(x + 1, w), wrap_coord(y + 1, h));
        lemma_dead_grid_evolves_dead(g, p, wrap_coord(x + 1, w), wrap_coord(y, h));
        lemma_dead_grid_evolves_dead(g, p, wrap_coord(x + 1, w), wrap_coord(y - 1, h));
        lemma_dead_grid_evolves_dead(g, p, wrap_coord(x, w), wrap_coord(y - 1, h));
        assert(evolved_neighbours(g, p, x, y) == 0);
    }
}

/// Any grid that is `k` generations of an all-Dead grid is all-Dead: however many steps an
/// update runs, an all-Dead grid stays all-Dead.
pub proof fn lemma_dead_evolution_stays_dead<T: World>(g: T, k: nat, cur: T)
    requires
        forall|i: int, j: int|
            0 <= i < g.spec_width() && 0 <= j < g.spec_height() ==> #[trigger] g.spec_cell(i, j)
                == CellState::Dead,
        is_evolution(g, k, cur),
    ensures
        forall|i: int, j: int|
            0 <= i < cur.spec_width() && 0 <= j < cur.spec_height() ==> #[trigger] cur.spec_cell(i, j)
                == CellState::Dead,
{
    assert forall|i: int, j: int| 0 <= i < cur.spec_width() && 0 <= j < cur.spec_height() implies
        #[trigger] cur.spec_cell(i, j) == CellState::Dead by {
        lemma_dead_grid_evolves_dead(g, k, i, j);
    }
}

/// Two grids that are both `k` generations of `g` agree cell by cell: what an update
/// publishes depends on the start grid and the number of steps alone, not on the worker
/// count or chunk layout it ran with.
pub proof fn lemma_evolution_unique<T: World>(g: T, k: nat, a: T, b: T)
    requires
        is_evolution(g, k, a),
        is_evolution(g, k, b),
    ensures
        a.spec_width() == b.spec_width(),
        a.spec_height() == b.spec_height(),
        forall|i: int, j: int|
            0 <= i < a.spec_width() && 0 <= j < a.spec_height() ==> #[trigger] a.spec_cell(i, j)
                == b.spec_cell(i, j),
{
    assert forall|i: int, j: int| 0 <= i < a.spec_width() && 0 <= j < a.spec_height() implies
        #[trigger] a.spec_cell(i, j) == b.spec_cell(i, j) by {
        assert(a.spec_cell(i, j) == evolved_cell(g, k, i, j));
        assert(b.spec_cell(i, j) == evolved_cell(g, k, i, j));
    }
}

/// Opposite corners are toroidal neighbours: the corner `(w - 1, h - 1)` is the up-left
/// neighbour of `(0, 0)`, and `(0, 0)` the down-right neighbour of `(w - 1, h - 1)`, so a
/// live corner is counted among the neighbours of the opposite one.
pub proof fn lemma_corners_are_neighbours<T: World>(g: T)
    requires
        g.spec_width() > 0,
        g.spec_height() > 0,
    ensures
        wrapped_cell(g, 0 - 1, 0 - 1) == g.spec_cell(
            g.spec_width() - 1,
            g.spec_height() - 1,
        ),
        wrapped_cell(g, g.spec_width() - 1 + 1, g.spec_height() - 1 + 1) == g.spec_cell(0, 0),
        g.spec_cell(g.spec_width() - 1, g.spec_height() - 1) == CellState::Alive ==> alive_neighbours(
            g,
            0,
            0,
        ) >= 1,
        g.spec_cell(0, 0) == CellState::Alive ==> alive_neighbours(
            g,
            g.spec_width() - 1,
            g.spec_height() - 1,
        ) >= 1,
{
    let w = g.spec_width() as int;
    let h = g.spec_height() as int;
    vstd::arithmetic::div_mod::lemma_fundamental_div_mod_converse(-1, w, -1, w - 1);
    vstd::arithmetic::div_mod::lemma_fundamental_div_mod_converse(-1, h, -1, h - 1);
    vstd::arithmetic::div_mod::lemma_fundamental_div_mod_converse(w, w, 1, 0);
    vstd::arithmetic::div_mod::lemma_fundamental_div_mod_converse(h, h, 1, 0);
    assert(alive_value(wrapped_cell(g, 0 - 1, 0 - 1)) >= 0);
}

/// The next state of the in-bounds cell `(x, y)`, read from `world`.
pub fn get_cell_next_state<T: World>(world: &T, x: u32, y: u32) -> (r: CellState)
    requires
        world.well_formed(),
        x < world.spec_width(),
        y < world.spec_height(),
    ensures
        r == next_state(*world, x as int, y as int),
{
    let cell = match world.get_cell_state(x, y) {
        Some(c) => *c,
        None => CellState::Dead,
    };
    let x = x as i64;
    let y = y as i64;
    let neighbours: [&CellState; 8] = [
        world.get_cell_state_wrapped(x - 1, y - 1),
        world.get_cell_state_wrapped(x - 1, y),
        world.get_cell_state_wrapped(x - 1, y + 1),
        world.get_cell_state_wrapped(x, y + 1),
        world.get_cell_state_wrapped(x + 1, y + 1),
        world.get_cell_state_wrapped(x + 1, y),
        world.get_cell_state_wrapped(x + 1, y - 1),
        world.get_cell_state_wrapped(x, y - 1),
    ];
    let mut count: u32 = 0;
    let mut k: usize = 0;
    while k < 8
        invariant
            0 <= k <= 8,
            count <= k,
            count == alive_neighbours_prefix(neighbours@.map_values(|c: &CellState| *c), k as int),
        decreases 8 - k,
    {
        if *neighbours[k] == CellState::Alive {
            count = count + 1;
        }
        k = k + 1;
    }
    proof {
        let cells = neighbours@.map_values(|c: &CellState| *c);
        reveal_with_fuel(alive_neighbours_prefix, 9);
        assert(count == alive_neighbours(*world, x as int, y as int)) by {
            assert(cells[0] == wrapped_cell(*world, x - 1, y - 1));
            assert(cells[1] == wrapped_cell(*world, x - 1, y as int));
            assert(cells[2] == wrapped_cell(*world, x - 1, y + 1));
            assert(cells[3] == wrapped_cell(*world, x as int, y + 1));
            assert(cells[4] == wrapped_cell(*world, x + 1, y + 1));
            assert(cells[5] == wrapped_cell(*world, x + 1, y as int));
            assert(cells[6] == wrapped_cell(*world, x + 1, y - 1));
            assert(cells[7] == wrapped_cell(*world, x as int, y - 1));
        }
    }
    let alive_neighbours_count = count;
    match cell {
        CellState::Alive => if alive_neighbours_count == 2 || alive_neighbours_count == 3 {
            CellState::Alive
        } else {
            CellState::Dead
        },
        CellState::Dead => if alive_neighbours_count == 3 {
            CellState::Alive
        } else {
            CellState::Dead
        },
    }
}

/// The number of live cells among the first `k` of `cells`.
pub open spec fn alive_neighbours_prefix(cells: Seq<CellState>, k: int) -> int
    decreases k,
{
    if k <= 0 {
        0
    } else {
        alive_neighbours_prefix(cells, k - 1) + alive_value(cells[k - 1])
    }
}

} // verus!
