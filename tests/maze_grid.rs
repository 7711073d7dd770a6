use maze::coordinate::{SlotCoordinate, UnevenSlotCoordinate};
use maze::maze::{Maze, MazeSlot, MazeSlotState};

fn untouched_grid(height: usize, width: usize) -> Maze {
    Maze {
        height,
        width,
        maze_slots: vec![
            vec![
                MazeSlot {
                    state: MazeSlotState::UnTouched
                };
                width
            ];
            height
        ],
    }
}

fn at(row: usize, column: usize) -> UnevenSlotCoordinate {
    UnevenSlotCoordinate { row, column }
}

#[test]
fn correctly_gives_neighbors() {
    let maze = untouched_grid(5, 5);
    assert_eq!(
        maze.neighbors(&UnevenSlotCoordinate::new(0, 0)),
        vec![
            UnevenSlotCoordinate { row: 1, column: 0 },
            UnevenSlotCoordinate { row: 0, column: 1 }
        ]
    );
    assert_eq!(
        maze.neighbors(&UnevenSlotCoordinate::new(0, 3)),
        vec![
            UnevenSlotCoordinate { row: 0, column: 4 },
            UnevenSlotCoordinate { row: 0, column: 2 },
            UnevenSlotCoordinate { row: 1, column: 3 }
        ]
    );
    assert_eq!(
        maze.neighbors(&UnevenSlotCoordinate::new(2, 3)),
        vec![
            UnevenSlotCoordinate { row: 3, column: 3 },
            UnevenSlotCoordinate { row: 2, column: 4 },
            UnevenSlotCoordinate { row: 1, column: 3 },
            UnevenSlotCoordinate { row: 2, column: 2 }
        ]
    );
}

#[test]
fn filters_touched_neighbors() {
    let mut maze = untouched_grid(5, 5);
    maze.maze_slots
        .get_mut(3)
        .unwrap()
        .get_mut(3)
        .unwrap()
        .state = MazeSlotState::Visited;
    maze.maze_slots
        .get_mut(2)
        .unwrap()
        .get_mut(2)
        .unwrap()
        .state = MazeSlotState::Visited;

    assert_eq!(
        maze.untouched_neighbors(&UnevenSlotCoordinate::new(2, 3)),
        vec![
            UnevenSlotCoordinate { row: 2, column: 4 },
            UnevenSlotCoordinate { row: 1, column: 3 }
        ]
    );
}

#[test]
fn corners_have_two_neighbors_in_table_order() {
    let maze = untouched_grid(4, 6);
    assert_eq!(maze.neighbors(&at(0, 0)), vec![at(1, 0), at(0, 1)]);
    assert_eq!(maze.neighbors(&at(0, 5)), vec![at(1, 5), at(0, 4)]);
    assert_eq!(maze.neighbors(&at(3, 5)), vec![at(2, 5), at(3, 4)]);
    assert_eq!(maze.neighbors(&at(3, 0)), vec![at(2, 0), at(3, 1)]);
}

#[test]
fn edges_have_three_neighbors_in_table_order() {
    let maze = untouched_grid(4, 6);
    assert_eq!(maze.neighbors(&at(0, 2)), vec![at(0, 3), at(0, 1), at(1, 2)]);
    assert_eq!(maze.neighbors(&at(2, 0)), vec![at(3, 0), at(2, 1), at(1, 0)]);
    assert_eq!(maze.neighbors(&at(3, 2)), vec![at(3, 3), at(2, 2), at(3, 1)]);
    assert_eq!(maze.neighbors(&at(1, 5)), vec![at(0, 5), at(1, 4), at(2, 5)]);
}

#[test]
fn interior_cells_have_four_neighbors() {
    let maze = untouched_grid(4, 6);
    for row in 1..3 {
        for column in 1..5 {
            let p = at(row, column);
            assert_eq!(
                maze.neighbors(&p),
                vec![
                    at(row + 1, column),
                    at(row, column + 1),
                    at(row - 1, column),
                    at(row, column - 1)
                ]
            );
        }
    }
}

#[test]
fn single_cell_and_single_row_grids_keep_inside() {
    let single = untouched_grid(1, 1);
    assert_eq!(single.neighbors(&at(0, 0)), vec![]);
    let row = untouched_grid(1, 3);
    assert_eq!(row.neighbors(&at(0, 0)), vec![at(0, 1)]);
    assert_eq!(row.neighbors(&at(0, 1)), vec![at(0, 2), at(0, 0)]);
    assert_eq!(row.neighbors(&at(0, 2)), vec![at(0, 1)]);
    let column = untouched_grid(3, 1);
    assert_eq!(column.neighbors(&at(0, 0)), vec![at(1, 0)]);
    assert_eq!(column.neighbors(&at(1, 0)), vec![at(2, 0), at(0, 0)]);
    assert_eq!(column.neighbors(&at(2, 0)), vec![at(1, 0)]);
}

#[test]
fn untouched_neighbors_are_a_filtered_subset() {
    let mut maze = Maze::new(5, 5);
    maze.mark(&at(3, 3), MazeSlotState::Visited);
    maze.mark(&at(2, 2), MazeSlotState::Paved);
    for row in 0..5 {
        for column in 0..5 {
            let p = at(row, column);
            let expected: Vec<UnevenSlotCoordinate> = maze
                .neighbors(&p)
                .into_iter()
                .filter(|q| maze.state_at(q) == MazeSlotState::UnTouched)
                .collect();
            assert_eq!(maze.untouched_neighbors(&p), expected);
        }
    }
}

#[test]
fn new_grid_is_untouched_and_mark_sets_one_cell() {
    let mut maze = Maze::new(3, 4);
    assert_eq!(maze.maze_slots.len(), 3);
    assert!(maze.maze_slots.iter().all(|r| r.len() == 4));
    maze.mark(&at(1, 2), MazeSlotState::Paved);
    for row in 0..3 {
        for column in 0..4 {
            let expected = if (row, column) == (1, 2) {
                MazeSlotState::Paved
            } else {
                MazeSlotState::UnTouched
            };
            assert_eq!(maze.state_at(&at(row, column)), expected);
        }
    }
}

#[test]
fn try_walk_refuses_negative_axes() {
    let p = at(0, 2);
    assert_eq!(p.try_walk(-1, 0), None);
    assert_eq!(p.try_walk(0, -3), None);
    assert_eq!(p.try_walk(0, -2), Some(at(0, 0)));
    assert_eq!(p.try_walk(3, 1), Some(at(3, 3)));
    assert_eq!(p.walk(1, -1), at(1, 1));
    assert_eq!(at(usize::MAX, 0).try_walk(1, 0), None);
}

#[test]
fn expanded_coordinates_are_odd() {
    assert_eq!(SlotCoordinate::from(at(0, 0)), SlotCoordinate { row: 1, column: 1 });
    assert_eq!(SlotCoordinate::from(at(2, 3)), SlotCoordinate { row: 5, column: 7 });
    let slot = SlotCoordinate { row: 5, column: 7 };
    assert_eq!(slot.walk(-1, 0), SlotCoordinate { row: 4, column: 7 });
    assert_eq!(slot.walk(0, 1), SlotCoordinate { row: 5, column: 8 });
}
