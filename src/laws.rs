//! Facts about the neighbor table and the untouched filter.
use crate::coordinate::{try_walk_spec, UnevenSlotCoordinate};
use crate::maze::{adjacent, directions, in_grid, neighbors_of, present, Maze};
use vstd::prelude::*;

verus! {

pub open spec fn south(p: UnevenSlotCoordinate) -> UnevenSlotCoordinate {
    UnevenSlotCoordinate { row: (p.row + 1) as usize, column: p.column }
}

pub open spec fn east(p: UnevenSlotCoordinate) -> UnevenSlotCoordinate {
    UnevenSlotCoordinate { row: p.row, column: (p.column + 1) as usize }
}

pub open spec fn north(p: UnevenSlotCoordinate) -> UnevenSlotCoordinate {
    UnevenSlotCoordinate { row: (p.row - 1) as usize, column: p.column }
}

pub open spec fn west(p: UnevenSlotCoordinate) -> UnevenSlotCoordinate {
    UnevenSlotCoordinate { row: p.row, column: (p.column - 1) as usize }
}

/// A cell away from every border has four neighbors: south, east, north and
/// west, in that order, all inside the grid.
pub proof fn lemma_interior_neighbors(height: usize, width: usize, p: UnevenSlotCoordinate)
    requires
        0 < p.row && p.row + 1 < height,
        0 < p.column && p.column + 1 < width,
    ensures
        neighbors_of(height, width, p) == seq![south(p), east(p), north(p), west(p)],
        forall|j: int|
            0 <= j < 4 ==> in_grid(height, width, #[trigger] neighbors_of(height, width, p)[j]),
{
    reveal_with_fuel(present, 5);
    assert(neighbors_of(height, width, p) =~= seq![south(p), east(p), north(p), west(p)]);
}

/// On a grid of at least two rows and two columns, each corner has two
/// neighbors: the top-left `[south, east]`, the top-right `[south, west]`,
/// the bottom-right `[north, west]` and the bottom-left `[north, east]`.
pub proof fn lemma_corner_neighbors(height: usize, width: usize, p: UnevenSlotCoordinate)
    requires
        height >= 2,
        width >= 2,
        in_grid(height, width, p),
    ensures
        p.row == 0 && p.column == 0 ==> neighbors_of(height, width, p) == seq![south(p), east(p)],
        p.row == 0 && p.column == width - 1 ==> neighbors_of(height, width, p) == seq![
            south(p),
            west(p),
        ],
        p.row == height - 1 && p.column == width - 1 ==> neighbors_of(height, width, p) == seq![
            north(p),
            west(p),
        ],
        p.row == height - 1 && p.column == 0 ==> neighbors_of(height, width, p) == seq![
            north(p),
            east(p),
        ],
{
    reveal_with_fuel(present, 3);
    assert(p.row == 0 && p.column == 0 ==> neighbors_of(height, width, p) =~= seq![south(p), east(p)]);
    assert(p.row == 0 && p.column == width - 1 ==> neighbors_of(height, width, p) =~= seq![south(p), west(p)]);
    assert(p.row == height - 1 && p.column == width - 1 ==> neighbors_of(height, width, p) =~= seq![north(p), west(p)]);
    assert(p.row == height - 1 && p.column == 0 ==> neighbors_of(height, width, p) =~= seq![north(p), east(p)]);
}

/// On a grid of at least two rows and two columns, a cell on one border but
/// not in a corner has three neighbors: `[east, west, south]` on the top
/// border, `[south, east, north]` on the left, `[east, north, west]` on the
/// bottom and `[north, west, south]` on the right.
pub proof fn lemma_edge_neighbors(height: usize, width: usize, p: UnevenSlotCoordinate)
    requires
        height >= 2,
        width >= 2,
        in_grid(height, width, p),
    ensures
        p.row == 0 && 0 < p.column < width - 1 ==> neighbors_of(height, width, p) == seq![
            east(p),
            west(p),
            south(p),
        ],
        p.column == 0 && 0 < p.row < height - 1 ==> neighbors_of(height, width, p) == seq![
            south(p),
            east(p),
            north(p),
        ],
        p.row == height - 1 && 0 < p.column < width - 1 ==> neighbors_of(height, width, p) == seq![
            east(p),
            north(p),
            west(p),
        ],
        p.column == width - 1 && 0 < p.row < height - 1 ==> neighbors_of(height, width, p) == seq![
            north(p),
            west(p),
            south(p),
        ],
{
    reveal_with_fuel(present, 4);
    assert(p.row == 0 && 0 < p.column < width - 1 ==> neighbors_of(height, width, p) =~= seq![east(p), west(p), south(p)]);
    assert(p.column == 0 && 0 < p.row < height - 1 ==> neighbors_of(height, width, p) =~= seq![south(p), east(p), north(p)]);
    assert(p.row == height - 1 && 0 < p.column < width - 1 ==> neighbors_of(height, width, p) =~= seq![east(p), north(p), west(p)]);
    assert(p.column == width - 1 && 0 < p.row < height - 1 ==> neighbors_of(height, width, p) =~= seq![north(p), west(p), south(p)]);
}

/// A cell reached from `p` by one of the deltas `ds` is listed by `present`
/// when it lies inside the grid.
proof fn lemma_present_contains(
    height: usize,
    width: usize,
    p: UnevenSlotCoordinate,
    ds: Seq<(i64, i64)>,
    k: int,
    q: UnevenSlotCoordinate,
)
    requires
        0 <= k < ds.len(),
        try_walk_spec(p, ds[k].0, ds[k].1) == Some(q),
        in_grid(height, width, q),
    ensures
        present(height, width, p, ds).contains(q),
    decreases ds.len(),
{
    let rest = present(height, width, p, ds.drop_last());
    if k == ds.len() - 1 {
        assert(present(height, width, p, ds) == rest.push(q));
        assert(rest.push(q)[rest.len() as int] == q);
    } else {
        lemma_present_contains(height, width, p, ds.drop_last(), k, q);
        let i = choose|i: int| 0 <= i < rest.len() && rest[i] == q;
        let all = present(height, width, p, ds);
        assert(all[i] == q);
    }
}

/// Every cell inside the grid that shares a side with `p` is listed among
/// its neighbors, and every listed neighbor shares a side with `p`.
pub proof fn lemma_neighbors_are_adjacent(height: usize, width: usize, p: UnevenSlotCoordinate)
    requires
        in_grid(height, width, p),
    ensures
        forall|q: UnevenSlotCoordinate|
            in_grid(height, width, q) && adjacent(p, q) ==> #[trigger] neighbors_of(
                height,
                width,
                p,
            ).contains(q),
        forall|j: int|
            0 <= j < neighbors_of(height, width, p).len() ==> adjacent(
                p,
                #[trigger] neighbors_of(height, width, p)[j],
            ),
{
    reveal_with_fuel(present, 5);
    let ds = directions(height, width, p);
    let ns = neighbors_of(height, width, p);
    assert forall|q: UnevenSlotCoordinate|
        in_grid(height, width, q) && adjacent(p, q) implies #[trigger] ns.contains(q) by {
        let d: (i64, i64) = if q == south(p) {
            (1i64, 0i64)
        } else if q == east(p) {
            (0i64, 1i64)
        } else if q == north(p) {
            (-1i64, 0i64)
        } else {
            (0i64, -1i64)
        };
        assert(ds.contains(d));
        let k = choose|k: int| 0 <= k < ds.len() && ds[k] == d;
        lemma_present_contains(height, width, p, ds, k, q);
    }
}

/// The untouched neighbors of a cell are exactly its neighbors whose state is
/// untouched, in the same order, so each of them is a neighbor.
pub proof fn lemma_untouched_neighbors_subset(maze: &Maze, p: UnevenSlotCoordinate)
    ensures
        maze.untouched_of(p) == neighbors_of(maze.height, maze.width, p).filter(
            |q: UnevenSlotCoordinate| maze.cell(q) == crate::maze::MazeSlotState::UnTouched,
        ),
        forall|q: UnevenSlotCoordinate| #[trigger]
            maze.untouched_of(p).contains(q) ==> neighbors_of(maze.height, maze.width, p).contains(q)
                && maze.is_untouched(q),
{
    let ns = neighbors_of(maze.height, maze.width, p);
    assert(maze.untouched_filter() =~= |q: UnevenSlotCoordinate| maze.cell(q) == crate::maze::MazeSlotState::UnTouched);
    assert forall|q: UnevenSlotCoordinate| #[trigger]
        maze.untouched_of(p).contains(q) implies ns.contains(q) && maze.is_untouched(q) by {
        let f = ns.filter(maze.untouched_filter());
        ns.lemma_filter_contains_rev(maze.untouched_filter(), q);
        let i = choose|i: int| 0 <= i < f.len() && f[i] == q;
        ns.lemma_filter_pred(maze.untouched_filter(), i);
    }
}

} // verus!
