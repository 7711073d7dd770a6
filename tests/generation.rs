use maze::coordinate::{SlotCoordinate, UnevenSlotCoordinate};
use maze::generator::{AppState, Generator, SlotChange};
use maze::maze::{Maze, MazeSlotState};
use rand::rngs::StdRng;
use rand::SeedableRng;

fn at(row: usize, column: usize) -> UnevenSlotCoordinate {
    UnevenSlotCoordinate { row, column }
}

fn adjacent(a: UnevenSlotCoordinate, b: UnevenSlotCoordinate) -> bool {
    (a.row == b.row && a.column.abs_diff(b.column) == 1)
        || (a.column == b.column && a.row.abs_diff(b.row) == 1)
}

fn all_cells(g: &Generator) -> Vec<UnevenSlotCoordinate> {
    let mut cells = vec![];
    for row in 0..g.height {
        for column in 0..g.width {
            cells.push(at(row, column));
        }
    }
    cells
}

fn check_path(g: &Generator) {
    let mut path = g.stack.clone();
    path.push(g.position);
    assert_eq!(path[0], g.start);
    for pair in path.windows(2) {
        assert!(adjacent(pair[0], pair[1]));
    }
    for cell in all_cells(g) {
        let visited = g.maze.state_at(&cell) == MazeSlotState::Visited;
        assert_eq!(visited, path.contains(&cell));
    }
}

/// Runs a prepared generator to completion, checking the path after every
/// tick, and returns the number of ticks and the cells seen visited.
fn run_to_done(g: &mut Generator, rng: &mut StdRng) -> (usize, Vec<UnevenSlotCoordinate>) {
    let mut seen = vec![];
    let mut ticks = 0;
    while g.state == AppState::Generating {
        check_path(g);
        for cell in all_cells(g) {
            if g.maze.state_at(&cell) == MazeSlotState::Visited && !seen.contains(&cell) {
                seen.push(cell);
            }
        }
        g.advance(rng, false);
        ticks += 1;
        assert!(ticks <= 2 * g.height * g.width);
    }
    (ticks, seen)
}

#[test]
fn policy_keeps_straight_when_drawn() {
    let mut maze = Maze::new(5, 5);
    maze.mark(&at(1, 2), MazeSlotState::Visited);
    maze.mark(&at(2, 2), MazeSlotState::Visited);
    let previous = Some(at(1, 2));
    assert_eq!(maze.untouched_neighbors(&at(2, 2)), vec![at(3, 2), at(2, 3), at(2, 1)]);
    assert_eq!(maze.choose_next(&at(2, 2), previous, true, 0), Some(at(3, 2)));
    assert_eq!(maze.choose_next(&at(2, 2), previous, true, 2), Some(at(3, 2)));
    assert_eq!(maze.choose_next(&at(2, 2), previous, false, 1), Some(at(2, 3)));
    assert_eq!(maze.choose_next(&at(2, 2), previous, false, 5), Some(at(2, 1)));
    assert_eq!(maze.choose_next(&at(2, 2), None, true, 0), Some(at(3, 2)));
    assert_eq!(maze.choose_next(&at(2, 2), None, true, 1), Some(at(2, 3)));
}

#[test]
fn policy_ignores_a_touched_straight_cell() {
    let mut maze = Maze::new(5, 5);
    maze.mark(&at(1, 2), MazeSlotState::Visited);
    maze.mark(&at(2, 2), MazeSlotState::Visited);
    maze.mark(&at(3, 2), MazeSlotState::Paved);
    assert_eq!(maze.choose_next(&at(2, 2), Some(at(1, 2)), true, 1), Some(at(2, 1)));
    // Straight ahead of an edge cell lies outside the grid.
    maze.mark(&at(4, 2), MazeSlotState::Visited);
    assert_eq!(maze.choose_next(&at(4, 2), Some(at(3, 2)), true, 0), Some(at(4, 3)));
}

#[test]
fn policy_with_one_or_no_option() {
    let mut maze = Maze::new(2, 2);
    maze.mark(&at(0, 0), MazeSlotState::Visited);
    maze.mark(&at(1, 0), MazeSlotState::Visited);
    assert_eq!(maze.choose_next(&at(0, 0), None, false, 7), Some(at(0, 1)));
    let mut rng = StdRng::seed_from_u64(3);
    assert_eq!(maze.get_next_random_untouched_position(&at(0, 0), None, &mut rng), Some(at(0, 1)));
    maze.mark(&at(0, 1), MazeSlotState::Paved);
    assert_eq!(maze.choose_next(&at(0, 0), None, true, 0), None);
    assert_eq!(maze.get_next_random_untouched_position(&at(0, 0), None, &mut rng), None);
}

#[test]
fn policy_is_reproducible_under_a_seed() {
    let mut maze = Maze::new(5, 5);
    maze.mark(&at(2, 1), MazeSlotState::Visited);
    maze.mark(&at(2, 2), MazeSlotState::Visited);
    let draw = |seed: u64| {
        let mut rng = StdRng::seed_from_u64(seed);
        (0..200)
            .map(|_| maze.get_next_random_untouched_position(&at(2, 2), Some(at(2, 1)), &mut rng))
            .collect::<Vec<_>>()
    };
    let first = draw(11);
    assert_eq!(first, draw(11));
    let options = maze.untouched_neighbors(&at(2, 2));
    assert!(first.iter().all(|c| options.contains(&c.unwrap())));
}

#[test]
fn policy_prefers_straight_ahead() {
    let mut maze = Maze::new(5, 5);
    maze.mark(&at(2, 1), MazeSlotState::Visited);
    maze.mark(&at(2, 2), MazeSlotState::Visited);
    let options = maze.untouched_neighbors(&at(2, 2));
    assert_eq!(options.len(), 3);
    let mut rng = StdRng::seed_from_u64(2024);
    let trials = 20000;
    let straight = (0..trials)
        .filter(|_| {
            maze.get_next_random_untouched_position(&at(2, 2), Some(at(2, 1)), &mut rng)
                == Some(at(2, 3))
        })
        .count();
    // Kept straight four times in five, and picked uniformly otherwise.
    let expected = 0.8 + 0.2 / 3.0;
    let observed = straight as f64 / trials as f64;
    assert!((observed - expected).abs() < 0.02, "observed {}", observed);
}

#[test]
fn random_slot_stays_in_row() {
    let maze = Maze::new(4, 7);
    let mut rng = StdRng::seed_from_u64(5);
    let mut columns = vec![];
    for _ in 0..300 {
        let slot = maze.get_random_slot_in_row(3, &mut rng);
        assert_eq!(slot.row, 3);
        assert!(slot.column < 7);
        if !columns.contains(&slot.column) {
            columns.push(slot.column);
        }
    }
    assert_eq!(columns.len(), 7);
}

#[test]
fn preparing_opens_entrance_and_exit() {
    let mut g = Generator::new(5, 6);
    assert_eq!(g.state, AppState::TriggerGeneration);
    let mut rng = StdRng::seed_from_u64(1);
    let changes = g.advance(&mut rng, false);
    assert_eq!(g.state, AppState::Generating);
    assert!(g.stack.is_empty());
    assert_eq!(g.position, g.start);
    assert_eq!(g.start.row, 0);
    assert_eq!(changes.len(), 3);
    assert_eq!(
        changes[0],
        SlotChange { slot: SlotCoordinate::from(g.start), state: MazeSlotState::Visited }
    );
    assert_eq!(
        changes[1],
        SlotChange {
            slot: SlotCoordinate { row: 0, column: 1 + 2 * g.start.column },
            state: MazeSlotState::Paved
        }
    );
    assert_eq!(changes[2].slot.row, 10);
    assert_eq!(changes[2].slot.column % 2, 1);
    assert_eq!(changes[2].state, MazeSlotState::Paved);
    for cell in all_cells(&g) {
        let expected = if cell == g.start { MazeSlotState::Visited } else { MazeSlotState::UnTouched };
        assert_eq!(g.maze.state_at(&cell), expected);
    }
}

#[test]
fn each_step_draws_the_cell_and_its_corridor() {
    let mut g = Generator::new(4, 4);
    let mut rng = StdRng::seed_from_u64(9);
    g.advance(&mut rng, false);
    let from = g.position;
    let changes = g.advance(&mut rng, false);
    let to = g.position;
    assert!(adjacent(from, to));
    assert_eq!(g.stack, vec![from]);
    assert_eq!(
        changes,
        vec![
            SlotChange { slot: SlotCoordinate::from(to), state: MazeSlotState::Visited },
            SlotChange {
                slot: SlotCoordinate { row: from.row + to.row + 1, column: from.column + to.column + 1 },
                state: MazeSlotState::Visited
            },
        ]
    );
}

#[test]
fn a_run_visits_and_paves_every_cell() {
    for (height, width, seed) in [(5, 5, 1), (3, 7, 2), (1, 4, 3), (6, 1, 4), (8, 9, 5)] {
        let mut g = Generator::new(height, width);
        let mut rng = StdRng::seed_from_u64(seed);
        g.advance(&mut rng, false);
        let (ticks, seen) = run_to_done(&mut g, &mut rng);
        assert_eq!(g.state, AppState::Done);
        assert!(g.stack.is_empty());
        // One visit and one step back per cell but the start, then completion.
        assert_eq!(ticks, 2 * height * width - 1);
        assert_eq!(seen.len(), height * width);
        for cell in all_cells(&g) {
            assert_eq!(g.maze.state_at(&cell), MazeSlotState::Paved);
        }
    }
}

#[test]
fn reset_mid_run_starts_over() {
    let mut g = Generator::new(6, 6);
    let mut rng = StdRng::seed_from_u64(21);
    g.advance(&mut rng, false);
    for _ in 0..15 {
        g.advance(&mut rng, false);
    }
    assert_eq!(g.state, AppState::Generating);
    g.trigger_generation(&mut rng);
    assert_eq!(g.state, AppState::Generating);
    assert!(g.stack.is_empty());
    assert_eq!(g.position, g.start);
    let untouched = all_cells(&g)
        .into_iter()
        .filter(|c| g.maze.state_at(c) == MazeSlotState::UnTouched)
        .count();
    assert_eq!(untouched, 35);
    let (ticks, seen) = run_to_done(&mut g, &mut rng);
    assert_eq!(ticks, 71);
    assert_eq!(seen.len(), 36);
    assert_eq!(g.state, AppState::Done);
}

#[test]
fn restart_waits_for_the_signal() {
    let mut g = Generator::new(2, 2);
    let mut rng = StdRng::seed_from_u64(8);
    g.advance(&mut rng, false);
    run_to_done(&mut g, &mut rng);
    assert_eq!(g.advance(&mut rng, false), vec![]);
    assert_eq!(g.state, AppState::Done);
    g.advance(&mut rng, true);
    assert_eq!(g.state, AppState::TriggerGeneration);
    g.advance(&mut rng, false);
    assert_eq!(g.state, AppState::Generating);
    assert!(g.stack.is_empty());
}

#[test]
fn degenerate_grids_finish() {
    let mut empty = Generator::new(0, 0);
    let mut rng = StdRng::seed_from_u64(0);
    assert_eq!(empty.advance(&mut rng, false), vec![]);
    assert_eq!(empty.state, AppState::Done);

    let mut single = Generator::new(1, 1);
    single.advance(&mut rng, false);
    assert_eq!(single.state, AppState::Generating);
    let changes = single.advance(&mut rng, false);
    assert_eq!(single.state, AppState::Done);
    assert!(single.stack.is_empty());
    assert_eq!(
        changes,
        vec![SlotChange { slot: SlotCoordinate { row: 1, column: 1 }, state: MazeSlotState::Paved }]
    );
    assert_eq!(single.maze.state_at(&at(0, 0)), MazeSlotState::Paved);
}

fn snapshot(g: &Generator) -> (AppState, UnevenSlotCoordinate, Vec<UnevenSlotCoordinate>, Vec<MazeSlotState>) {
    let cells = all_cells(g).iter().map(|c| g.maze.state_at(c)).collect();
    (g.state, g.position, g.stack.clone(), cells)
}

#[test]
fn preparing_at_given_columns_is_exact() {
    let mut g = Generator::new(4, 5);
    let changes = g.prepare_maze_at(3, 1);
    assert_eq!(g.state, AppState::Generating);
    assert_eq!(g.start, at(0, 3));
    assert_eq!(g.position, at(0, 3));
    assert!(g.stack.is_empty());
    assert_eq!(
        changes,
        vec![
            SlotChange { slot: SlotCoordinate { row: 1, column: 7 }, state: MazeSlotState::Visited },
            SlotChange { slot: SlotCoordinate { row: 0, column: 7 }, state: MazeSlotState::Paved },
            SlotChange { slot: SlotCoordinate { row: 8, column: 3 }, state: MazeSlotState::Paved },
        ]
    );
}

#[test]
fn steps_with_equal_draws_agree() {
    let draws = [(true, 0), (false, 1), (true, 2), (false, 0), (false, 3), (true, 1)];
    let mut a = Generator::new(5, 5);
    let mut b = Generator::new(5, 5);
    a.prepare_maze_at(2, 2);
    b.prepare_maze_at(2, 2);
    let mut i = 0;
    while a.state == AppState::Generating {
        let (keep_straight, pick) = draws[i % draws.len()];
        assert_eq!(a.step(keep_straight, pick), b.step(keep_straight, pick));
        assert_eq!(snapshot(&a), snapshot(&b));
        i += 1;
    }
    assert_eq!(i, 49);
    assert_eq!(b.state, AppState::Done);
}

#[test]
fn step_follows_the_drawn_choice() {
    let mut g = Generator::new(3, 3);
    g.prepare_maze_at(1, 0);
    // From the top edge the options are east then west then south.
    g.step(false, 2);
    assert_eq!(g.position, at(1, 1));
    assert_eq!(g.stack, vec![at(0, 1)]);
    // Coming from the north, straight ahead is south.
    let changes = g.step(true, 0);
    assert_eq!(g.position, at(2, 1));
    assert_eq!(
        changes,
        vec![
            SlotChange { slot: SlotCoordinate { row: 5, column: 3 }, state: MazeSlotState::Visited },
            SlotChange { slot: SlotCoordinate { row: 4, column: 3 }, state: MazeSlotState::Visited },
        ]
    );
}

#[test]
fn draws_are_made_only_among_several_options() {
    let mut maze = Maze::new(3, 3);
    let mut rng = StdRng::seed_from_u64(17);
    for _ in 0..100 {
        let (_, pick) = maze.draw_choices(&at(1, 1), &mut rng);
        assert!(pick < 4);
    }
    maze.mark(&at(0, 1), MazeSlotState::Visited);
    maze.mark(&at(1, 0), MazeSlotState::Visited);
    assert_eq!(maze.draw_choices(&at(0, 0), &mut rng), (false, 0));
}

#[test]
fn waiting_for_restart_changes_nothing_else() {
    let mut g = Generator::new(2, 3);
    let mut rng = StdRng::seed_from_u64(6);
    g.advance(&mut rng, false);
    run_to_done(&mut g, &mut rng);
    let before = snapshot(&g);
    g.wait_for_restart(false);
    assert_eq!(snapshot(&g), before);
    g.wait_for_restart(true);
    assert_eq!(g.state, AppState::TriggerGeneration);
    assert_eq!(g.position, before.1);
    assert_eq!(g.stack, before.2);
}

#[test]
fn stack_empties_only_at_entry_and_end() {
    for (height, width, seed) in [(2, 2, 1), (4, 5, 2), (7, 3, 3)] {
        let mut g = Generator::new(height, width);
        let mut rng = StdRng::seed_from_u64(seed);
        g.advance(&mut rng, false);
        let mut ticks = 0;
        while g.state == AppState::Generating {
            if g.stack.is_empty() && ticks > 0 {
                assert!(all_cells(&g).iter().all(|c| g.maze.state_at(c) != MazeSlotState::UnTouched));
                g.advance(&mut rng, false);
                assert_eq!(g.state, AppState::Done);
                break;
            }
            g.advance(&mut rng, false);
            ticks += 1;
        }
        assert_eq!(g.state, AppState::Done);
    }
}

#[test]
fn one_row_grid_can_empty_the_stack_mid_run() {
    let mut g = Generator::new(1, 3);
    g.prepare_maze_at(1, 0);
    g.step(false, 0);
    assert_eq!(g.position, at(0, 2));
    g.step(false, 0);
    assert_eq!(g.position, at(0, 1));
    assert!(g.stack.is_empty());
    assert_eq!(g.state, AppState::Generating);
    g.step(false, 0);
    assert_eq!(g.position, at(0, 0));
}
