use life_engine::game::Game;
use life_engine::world::{ArrayWorld, CellState, ConstructableWorld, World};

fn grid(width: u32, height: u32, alive: &[(u32, u32)]) -> ArrayWorld {
    let mut w = <ArrayWorld as ConstructableWorld>::new(width, height);
    for &(x, y) in alive {
        w.set_cell_state(x, y, CellState::Alive);
    }
    w
}

fn alive_cells(w: &ArrayWorld) -> Vec<(u32, u32)> {
    let mut out = Vec::new();
    let mut it = w.into_iterator();
    while let Some((x, y, c)) = it.next() {
        if *c == CellState::Alive {
            out.push((x, y));
        }
    }
    out
}

#[test]
fn blinker_oscillates_with_period_two() {
    let horizontal = vec![(1, 2), (2, 2), (3, 2)];
    let mut game = Game::new(grid(5, 5, &horizontal), 10, 4);
    let frame = game.frame_time();
    game.update(frame);
    assert_eq!(game.generation(), 1);
    let mut vertical = alive_cells(game.world());
    vertical.sort();
    assert_eq!(vertical, vec![(2, 1), (2, 2), (2, 3)]);
    game.update(frame);
    let mut back = alive_cells(game.world());
    back.sort_by_key(|&(x, y)| (y, x));
    assert_eq!(back, horizontal);
}

#[test]
fn three_frame_times_run_three_steps() {
    let mut game = Game::new(grid(5, 5, &[(1, 2), (2, 2), (3, 2)]), 15, 1);
    assert_eq!(game.frame_time(), 1_000_000_000 / 15);
    game.update(3 * game.frame_time());
    assert_eq!(game.generation(), 3);
    assert_eq!(game.waiting(), 0);
    // an odd number of steps leaves the blinker vertical
    assert_eq!(alive_cells(game.world()), vec![(2, 1), (2, 2), (2, 3)]);
}

#[test]
fn less_than_a_frame_time_waits() {
    let mut game = Game::new(grid(4, 4, &[(1, 1)]), 10, 1);
    let frame = game.frame_time();
    game.update(frame - 1);
    assert_eq!(game.generation(), 0);
    assert_eq!(game.waiting(), frame - 1);
    assert_eq!(alive_cells(game.world()), vec![(1, 1)]);
    game.update(1);
    assert_eq!(game.generation(), 1);
    assert_eq!(game.waiting(), 0);
    assert_eq!(alive_cells(game.world()), vec![]);
}

#[test]
fn remainder_carries_to_next_update() {
    let mut game = Game::new(grid(3, 3, &[]), 1000, 1);
    assert_eq!(game.frame_time(), 1_000_000);
    game.update(2_500_000);
    assert_eq!(game.generation(), 2);
    assert_eq!(game.waiting(), 500_000);
    game.update(600_000);
    assert_eq!(game.generation(), 3);
    assert_eq!(game.waiting(), 100_000);
}

#[test]
fn dead_grid_stays_dead() {
    let mut game = Game::new(grid(7, 3, &[]), 10, 9);
    game.update(5 * game.frame_time());
    assert_eq!(game.generation(), 5);
    assert_eq!(alive_cells(game.world()), vec![]);
}

#[test]
fn worker_count_does_not_change_the_result() {
    let start = vec![(0, 0), (1, 0), (2, 1), (5, 5), (6, 5), (7, 5), (3, 3), (4, 4), (4, 3), (9, 6)];
    let mut results = Vec::new();
    for workers in [1usize, 4, 9, 16, 25, 100] {
        let mut game = Game::new(grid(10, 7, &start), 10, workers);
        game.update(4 * game.frame_time());
        results.push(alive_cells(game.world()));
    }
    for r in &results {
        assert_eq!(r, &results[0]);
    }
}

#[test]
fn worker_count_is_coerced_to_a_square() {
    let make = |n: usize| Game::new(grid(2, 2, &[]), 10, n).num_threads();
    assert_eq!(make(0), 1);
    assert_eq!(make(1), 1);
    assert_eq!(make(3), 1);
    assert_eq!(make(4), 4);
    assert_eq!(make(8), 4);
    assert_eq!(make(9), 9);
    assert_eq!(make(15), 9);
    assert_eq!(make(16), 16);
}

#[test]
fn opposite_corners_are_neighbours() {
    // (0, 0) has exactly three live neighbours, all across the edges
    let mut game = Game::new(grid(5, 5, &[(4, 4), (4, 0), (0, 4)]), 10, 4);
    game.update(game.frame_time());
    let w = game.world();
    assert_eq!(w.get_cell_state(0, 0), Some(&CellState::Alive));
    assert_eq!(w.get_cell_state(4, 4), Some(&CellState::Alive));
}

#[test]
fn draw_writes_one_color_per_cell() {
    let game = Game::new(grid(3, 2, &[(1, 0), (2, 1)]), 10, 1);
    let live = [0xff, 0xfe, 0xfd, 0xfc];
    let dead = [1, 2, 3, 4];
    let mut screen = vec![0u8; 3 * 2 * 4];
    game.draw(live, dead, &mut screen);
    assert_eq!(screen.len(), 24);
    let expected: Vec<u8> = [dead, live, dead, dead, dead, live].concat();
    assert_eq!(screen, expected);
}

#[test]
fn populate_only_adds_live_cells_in_bounds() {
    let mut game = Game::new(grid(6, 4, &[(0, 0)]), 10, 1);
    game.populate(10);
    let alive = alive_cells(game.world());
    assert!(alive.contains(&(0, 0)));
    assert!(alive.len() <= 11);
    assert!(alive.len() >= 1);
    for (x, y) in alive {
        assert!(x < 6 && y < 4);
    }
    assert_eq!(game.generation(), 0);
}

#[test]
fn populate_at_sets_listed_cells() {
    let mut game = Game::new(grid(4, 3, &[(3, 2)]), 10, 1);
    game.populate_at(&vec![(1, 1), (0, 2), (1, 1)]);
    assert_eq!(alive_cells(game.world()), vec![(1, 1), (0, 2), (3, 2)]);
}

#[test]
fn chunks_published_in_any_order_give_the_next_generation() {
    let start = vec![(1, 2), (2, 2), (3, 2), (0, 0), (4, 4)];
    let mut sequential = Game::new(grid(5, 5, &start), 10, 9);
    sequential.update(sequential.frame_time());

    let mut game = Game::new(grid(5, 5, &start), 10, 9);
    let source = game.snapshot();
    let side = game.split_side();
    assert_eq!(side, 3);
    let mut chunks: Vec<_> = (0..game.num_threads() as u32)
        .rev()
        .map(|i| Game::compute_chunk(&*source, i, side))
        .collect();
    chunks.swap(0, 4);
    assert!(game.publish_chunks(&chunks));
    assert_eq!(game.generation(), 1);
    assert_eq!(alive_cells(game.world()), alive_cells(sequential.world()));
}

#[test]
fn chunk_of_wrong_size_is_refused() {
    let mut game = Game::new(grid(5, 5, &[(1, 2), (2, 2), (3, 2)]), 10, 4);
    let source = game.snapshot();
    let mut chunks: Vec<_> = (0..4u32)
        .map(|i| Game::compute_chunk(&*source, i, 2))
        .collect();
    chunks[1].index = 3;
    assert!(!game.publish_chunks(&chunks));
    assert_eq!(game.generation(), 0);
    assert_eq!(alive_cells(game.world()), vec![(1, 2), (2, 2), (3, 2)]);
}

#[test]
fn edge_chunks_are_clipped() {
    let source = grid(5, 5, &[]);
    let sizes: Vec<(u32, u32)> = (0..4u32)
        .map(|i| Game::compute_chunk(&source, i, 2).world.get_size())
        .collect();
    assert_eq!(sizes, vec![(3, 3), (2, 3), (3, 2), (2, 2)]);
    // more chunks per side than cells: the chunks past the edge are empty
    let sizes: Vec<(u32, u32)> = (0..16u32)
        .map(|i| Game::compute_chunk(&grid(3, 3, &[]), i, 4).world.get_size())
        .collect();
    assert_eq!(sizes.iter().map(|&(w, h)| w * h).sum::<u32>(), 9);
    assert_eq!(sizes[3], (0, 1));
}

#[test]
fn take_due_steps_counts_whole_frames() {
    let mut game = Game::new(grid(3, 3, &[(0, 0)]), 4, 1);
    assert_eq!(game.frame_time(), 250_000_000);
    assert_eq!(game.take_due_steps(760_000_000), 3);
    assert_eq!(game.waiting(), 10_000_000);
    assert_eq!(game.generation(), 0);
    assert_eq!(alive_cells(game.world()), vec![(0, 0)]);
    assert_eq!(game.take_due_steps(240_000_000), 1);
    assert_eq!(game.waiting(), 0);
}

#[test]
fn chunks_past_the_edge_are_empty_and_harmless() {
    // width 5 with 4 chunks per side: chunk width 2, so column 3 starts at 6, past the edge
    let start = vec![(0, 0), (1, 0), (2, 0), (4, 2), (4, 3), (4, 4)];
    let source = grid(5, 5, &start);
    assert_eq!(Game::compute_chunk(&source, 3, 4).world.get_size(), (0, 2));
    assert_eq!(Game::compute_chunk(&source, 15, 4).world.get_size(), (0, 0));
    let mut one = Game::new(grid(5, 5, &start), 10, 1);
    let mut sixteen = Game::new(grid(5, 5, &start), 10, 16);
    assert_eq!(sixteen.num_threads(), 16);
    one.update(2 * one.frame_time());
    sixteen.update(2 * sixteen.frame_time());
    assert_eq!(alive_cells(one.world()), alive_cells(sixteen.world()));
}

#[test]
fn populate_leaves_an_empty_grid_alone() {
    let mut game = Game::new(grid(0, 4, &[]), 10, 1);
    game.populate(5);
    assert_eq!(game.world().get_size(), (0, 4));
    assert_eq!(alive_cells(game.world()), vec![]);
}

#[test]
fn populate_one_cell_on_a_single_cell_grid() {
    let mut game = Game::new(grid(1, 1, &[]), 10, 1);
    game.populate(1);
    assert_eq!(alive_cells(game.world()), vec![(0, 0)]);
}
