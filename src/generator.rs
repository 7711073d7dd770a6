//! The generation state machine: one visit, backtrack or completion step of
//! the depth-first search per tick, with the slot changes to draw.
use crate::coordinate::{expanded, SlotCoordinate, UnevenSlotCoordinate};
use crate::laws::{lemma_neighbors_are_adjacent, lemma_untouched_neighbors_subset};
use crate::maze::{
    adjacent, directions, fits, in_grid, lemma_present_in_grid, neighbors_of, Maze, MazeSlotState,
};
use crate::policy::{choice, lemma_choice_is_an_option, lemma_straight_is_an_option, straight_ahead};
use rand::rngs::StdRng;
use vstd::prelude::*;

verus! {

/// The lifecycle of a generation run.
#[derive(Clone, Copy, Debug, PartialEq, Eq, Structural, Hash)]
pub enum AppState {
    TriggerGeneration,
    Generating,
    Done,
}

/// A slot of the expanded grid to draw in the color of a state.
#[derive(Clone, Copy, Debug, PartialEq, Eq, Structural)]
pub struct SlotChange {
    pub slot: SlotCoordinate,
    pub state: MazeSlotState,
}

/// The slot between two adjacent cells in the expanded grid.
pub open spec fn corridor(a: UnevenSlotCoordinate, b: UnevenSlotCoordinate) -> SlotCoordinate {
    SlotCoordinate { row: (a.row + b.row + 1) as usize, column: (a.column + b.column + 1) as usize }
}

pub open spec fn change(slot: SlotCoordinate, state: MazeSlotState) -> SlotChange {
    SlotChange { slot, state }
}

/// Whether every cell that is not untouched only has neighbors that are not
/// untouched either.
pub open spec fn closed(maze: &Maze) -> bool {
    forall|p: UnevenSlotCoordinate, q: UnevenSlotCoordinate|
        #![trigger maze.cell(p), maze.cell(q)]
        maze.contains(p) && maze.contains(q) && adjacent(p, q) && !maze.is_untouched(p)
            ==> !maze.is_untouched(q)
}

pub open spec fn cell_at(row: usize, column: usize) -> UnevenSlotCoordinate {
    UnevenSlotCoordinate { row, column }
}

proof fn lemma_spread_along_row(maze: &Maze, row: usize, from: usize, to: usize)
    requires
        closed(maze),
        row < maze.height,
        from < maze.width,
        to < maze.width,
        !maze.is_untouched(cell_at(row, from)),
    ensures
        !maze.is_untouched(cell_at(row, to)),
    decreases if from <= to { to - from } else { from - to },
{
    if from < to {
        lemma_spread_along_row(maze, row, from, (to - 1) as usize);
        assert(adjacent(cell_at(row, (to - 1) as usize), cell_at(row, to)));
        assert(maze.contains(cell_at(row, (to - 1) as usize)));
        assert(maze.contains(cell_at(row, to)));
    } else if to < from {
        lemma_spread_along_row(maze, row, from, (to + 1) as usize);
        assert(adjacent(cell_at(row, (to + 1) as usize), cell_at(row, to)));
        assert(maze.contains(cell_at(row, (to + 1) as usize)));
        assert(maze.contains(cell_at(row, to)));
    }
}

proof fn lemma_spread_along_column(maze: &Maze, column: usize, from: usize, to: usize)
    requires
        closed(maze),
        column < maze.width,
        from < maze.height,
        to < maze.height,
        !maze.is_untouched(cell_at(from, column)),
    ensures
        !maze.is_untouched(cell_at(to, column)),
    decreases if from <= to { to - from } else { from - to },
{
    if from < to {
        lemma_spread_along_column(maze, column, from, (to - 1) as usize);
        assert(adjacent(cell_at((to - 1) as usize, column), cell_at(to, column)));
        assert(maze.contains(cell_at((to - 1) as usize, column)));
        assert(maze.contains(cell_at(to, column)));
    } else if to < from {
        lemma_spread_along_column(maze, column, from, (to + 1) as usize);
        assert(adjacent(cell_at((to + 1) as usize, column), cell_at(to, column)));
        assert(maze.contains(cell_at((to + 1) as usize, column)));
        assert(maze.contains(cell_at(to, column)));
    }
}

/// The grid is connected: when some cell is not untouched and no such cell
/// has an untouched neighbor, no cell is untouched.
pub proof fn lemma_closed_covers_grid(maze: &Maze, seed: UnevenSlotCoordinate)
    requires
        closed(maze),
        maze.contains(seed),
        !maze.is_untouched(seed),
    ensures
        forall|q: UnevenSlotCoordinate| #[trigger] maze.contains(q) ==> !maze.is_untouched(q),
{
    assert forall|q: UnevenSlotCoordinate| #[trigger] maze.contains(q) implies !maze.is_untouched(
        q,
    ) by {
        assert(seed == cell_at(seed.row, seed.column));
        lemma_spread_along_row(maze, seed.row, seed.column, q.column);
        lemma_spread_along_column(maze, q.column, seed.row, q.row);
        assert(q == cell_at(q.row, q.column));
    }
}

/// An untouched neighbor of `p` lies inside the grid, shares a side with `p`
/// and is untouched.
proof fn lemma_option(maze: &Maze, p: UnevenSlotCoordinate, q: UnevenSlotCoordinate)
    requires
        maze.wf(),
        maze.contains(p),
        maze.untouched_of(p).contains(q),
    ensures
        maze.contains(q),
        adjacent(p, q),
        maze.is_untouched(q),
{
    lemma_untouched_neighbors_subset(maze, p);
    lemma_neighbors_are_adjacent(maze.height, maze.width, p);
    let ns = neighbors_of(maze.height, maze.width, p);
    lemma_present_in_grid(maze.height, maze.width, p, directions(maze.height, maze.width, p));
    let j = choose|j: int| 0 <= j < ns.len() && ns[j] == q;
    assert(adjacent(p, ns[j]));
    assert(in_grid(maze.height, maze.width, ns[j]));
}

/// When `p` has no untouched neighbor, no cell sharing a side with it is
/// untouched.
proof fn lemma_no_option(maze: &Maze, p: UnevenSlotCoordinate)
    requires
        maze.wf(),
        maze.contains(p),
        maze.untouched_of(p).len() == 0,
    ensures
        forall|q: UnevenSlotCoordinate|
            maze.contains(q) && adjacent(p, q) ==> !#[trigger] maze.is_untouched(q),
{
    lemma_neighbors_are_adjacent(maze.height, maze.width, p);
    let ns = neighbors_of(maze.height, maze.width, p);
    assert forall|q: UnevenSlotCoordinate|
        maze.contains(q) && adjacent(p, q) implies !#[trigger] maze.is_untouched(q) by {
        assert(ns.contains(q));
        let j = choose|j: int| 0 <= j < ns.len() && ns[j] == q;
        if maze.is_untouched(q) {
            ns.lemma_filter_contains(maze.untouched_filter(), j);
        }
    }
}

/// Whether each cell of `after` equals that of `before` or has moved one step
/// on from untouched to visited to paved.
pub open spec fn progressed(before: &Maze, after: &Maze) -> bool {
    &&& after.height == before.height
    &&& after.width == before.width
    &&& forall|q: UnevenSlotCoordinate| #[trigger]
        after.contains(q) ==> after.cell(q) == before.cell(q) || (before.cell(q)
            == MazeSlotState::UnTouched && after.cell(q) == MazeSlotState::Visited) || (before.cell(
            q,
        ) == MazeSlotState::Visited && after.cell(q) == MazeSlotState::Paved)
}

/// A run of the search over a grid of fixed dimensions.
pub struct Generator {
    pub state: AppState,
    pub height: usize,
    pub width: usize,
    pub maze: Maze,
    pub start: UnevenSlotCoordinate,
    pub position: UnevenSlotCoordinate,
    pub stack: Vec<UnevenSlotCoordinate>,
}

/// The position and the top of the stack of a generating run are inside the
/// grid and share a side.
proof fn lemma_generating_facts(g: Generator)
    requires
        g.wf(),
        g.state == AppState::Generating,
    ensures
        g.maze.contains(g.position),
        g.stack@.len() > 0 ==> g.maze.contains(g.stack@.last()) && adjacent(
            g.stack@.last(),
            g.position,
        ),
{
    reveal(Generator::generating_wf);
    let path = g.path();
    assert(path[path.len() - 1] == g.position);
    if g.stack@.len() > 0 {
        assert(path[path.len() - 2] == g.stack@.last());
    }
}

/// A visit step keeps the invariant of a generating run.
proof fn lemma_visit_keeps_wf(pre: Generator, post: Generator)
    requires
        pre.wf(),
        pre.state == AppState::Generating,
        post.maze.wf(),
        post.maze.height == pre.maze.height,
        post.maze.width == pre.maze.width,
        post.state == pre.state,
        post.height == pre.height,
        post.width == pre.width,
        post.start == pre.start,
        post.stack@ == pre.stack@.push(pre.position),
        pre.maze.contains(post.position),
        adjacent(pre.position, post.position),
        pre.maze.is_untouched(post.position),
        post.maze.cell(post.position) == MazeSlotState::Visited,
        forall|q: UnevenSlotCoordinate|
            post.maze.contains(q) && q != post.position ==> #[trigger] post.maze.cell(q)
                == pre.maze.cell(q),
    ensures
        post.wf(),
        progressed(&pre.maze, &post.maze),
{
    reveal(Generator::generating_wf);
    let next = post.position;
    let path = post.path();
    assert(path =~= pre.path().push(next));
    assert forall|q: UnevenSlotCoordinate|
        post.maze.contains(q) && #[trigger] post.maze.cell(q) == MazeSlotState::Visited implies path.contains(q) by {
        if q == next {
            assert(path[path.len() - 1] == q);
        } else {
            assert(pre.path().contains(q));
            let i = choose|i: int| 0 <= i < pre.path().len() && pre.path()[i] == q;
            assert(path[i] == q);
        }
    }
    assert forall|i: int| 0 <= i < path.len() implies post.maze.cell(#[trigger] path[i])
        == MazeSlotState::Visited by {
        if i < path.len() - 1 {
            assert(pre.maze.cell(pre.path()[i]) == MazeSlotState::Visited);
        }
    }
    assert forall|i: int, j: int| 0 <= i < j < path.len() implies #[trigger] path[i]
        != #[trigger] path[j] by {
        if j == path.len() - 1 {
            assert(pre.maze.cell(pre.path()[i]) == MazeSlotState::Visited);
        } else {
            assert(pre.path()[i] != pre.path()[j]);
        }
    }
    assert forall|i: int| 0 <= i < path.len() - 1 implies adjacent(#[trigger] path[i], path[i + 1]) by {
        if i < path.len() - 2 {
            assert(adjacent(pre.path()[i], pre.path()[i + 1]));
        } else {
            assert(pre.path()[i] == pre.position);
        }
    }
    assert forall|i: int| 0 <= i < path.len() implies post.maze.contains(#[trigger] path[i]) by {
        if i < path.len() - 1 {
            assert(pre.maze.contains(pre.path()[i]));
        }
    }
    assert forall|p: UnevenSlotCoordinate, q: UnevenSlotCoordinate|
        #![trigger post.maze.cell(p), post.maze.cell(q)]
        post.maze.contains(p) && post.maze.contains(q) && adjacent(p, q) && post.maze.cell(p)
            == MazeSlotState::Paved implies !post.maze.is_untouched(q) by {
        assert(pre.maze.cell(p) == MazeSlotState::Paved);
        assert(!pre.maze.is_untouched(q));
    }
    assert(path[0] == pre.path()[0]);
}

/// A backtrack step keeps the invariant of a generating run.
proof fn lemma_backtrack_keeps_wf(pre: Generator, post: Generator)
    requires
        pre.wf(),
        pre.state == AppState::Generating,
        pre.stack@.len() > 0,
        forall|q: UnevenSlotCoordinate|
            pre.maze.contains(q) && adjacent(pre.position, q) ==> !#[trigger] pre.maze.is_untouched(q),
        post.maze.wf(),
        post.maze.height == pre.maze.height,
        post.maze.width == pre.maze.width,
        post.state == pre.state,
        post.height == pre.height,
        post.width == pre.width,
        post.start == pre.start,
        post.stack@ == pre.stack@.drop_last(),
        post.position == pre.stack@.last(),
        post.maze.cell(pre.position) == MazeSlotState::Paved,
        forall|q: UnevenSlotCoordinate|
            post.maze.contains(q) && q != pre.position ==> #[trigger] post.maze.cell(q)
                == pre.maze.cell(q),
    ensures
        post.wf(),
        progressed(&pre.maze, &post.maze),
{
    reveal(Generator::generating_wf);
    let path = post.path();
    let last = pre.path().len() - 1;
    assert(path =~= pre.path().drop_last());
    assert(pre.path()[last] == pre.position);
    assert forall|q: UnevenSlotCoordinate|
        post.maze.contains(q) && #[trigger] post.maze.cell(q) == MazeSlotState::Visited implies path.contains(q) by {
        assert(pre.path().contains(q));
        let i = choose|i: int| 0 <= i < pre.path().len() && pre.path()[i] == q;
        assert(i != last);
        assert(path[i] == q);
    }
    assert forall|i: int| 0 <= i < path.len() implies post.maze.cell(#[trigger] path[i])
        == MazeSlotState::Visited by {
        assert(pre.path()[i] == path[i]);
        assert(pre.path()[i] != pre.path()[last]);
        assert(pre.maze.cell(pre.path()[i]) == MazeSlotState::Visited);
    }
    assert forall|i: int| 0 <= i < path.len() - 1 implies adjacent(#[trigger] path[i], path[i + 1]) by {
        assert(adjacent(pre.path()[i], pre.path()[i + 1]));
    }
    assert forall|i: int, j: int| 0 <= i < j < path.len() implies #[trigger] path[i]
        != #[trigger] path[j] by {
        assert(pre.path()[i] != pre.path()[j]);
    }
    assert forall|i: int| 0 <= i < path.len() implies post.maze.contains(#[trigger] path[i]) by {
        assert(pre.maze.contains(pre.path()[i]));
    }
    assert forall|p: UnevenSlotCoordinate, q: UnevenSlotCoordinate|
        #![trigger post.maze.cell(p), post.maze.cell(q)]
        post.maze.contains(p) && post.maze.contains(q) && adjacent(p, q) && post.maze.cell(p)
            == MazeSlotState::Paved implies !post.maze.is_untouched(q) by {
        if p == pre.position {
            assert(!pre.maze.is_untouched(q));
        } else {
            assert(pre.maze.cell(p) == MazeSlotState::Paved);
            assert(!pre.maze.is_untouched(q));
        }
    }
    assert(path[0] == pre.path()[0]);
}

/// The completion step leaves every cell paved.
proof fn lemma_finish_done(pre: Generator, post: Generator)
    requires
        pre.wf(),
        pre.state == AppState::Generating,
        pre.stack@.len() == 0,
        forall|q: UnevenSlotCoordinate|
            pre.maze.contains(q) && adjacent(pre.position, q) ==> !#[trigger] pre.maze.is_untouched(q),
        post.maze.wf(),
        post.maze.height == pre.maze.height,
        post.maze.width == pre.maze.width,
        post.state == AppState::Done,
        post.height == pre.height,
        post.width == pre.width,
        post.stack@ == pre.stack@,
        post.maze.cell(pre.position) == MazeSlotState::Paved,
        forall|q: UnevenSlotCoordinate|
            post.maze.contains(q) && q != pre.position ==> #[trigger] post.maze.cell(q)
                == pre.maze.cell(q),
    ensures
        post.wf(),
        progressed(&pre.maze, &post.maze),
{
    reveal(Generator::generating_wf);
    assert(pre.path() =~= seq![pre.position]);
    assert(pre.maze.contains(pre.path()[0]));
    assert forall|q: UnevenSlotCoordinate|
        post.maze.contains(q) && !post.maze.is_untouched(q) implies #[trigger] post.maze.cell(q)
        == MazeSlotState::Paved by {
        if q != pre.position && pre.maze.cell(q) == MazeSlotState::Visited {
            assert(pre.path().contains(q));
            let i = choose|i: int| 0 <= i < pre.path().len() && pre.path()[i] == q;
            assert(i == 0);
        }
    }
    assert(closed(&post.maze)) by {
        assert forall|p: UnevenSlotCoordinate, q: UnevenSlotCoordinate|
            #![trigger post.maze.cell(p), post.maze.cell(q)]
            post.maze.contains(p) && post.maze.contains(q) && adjacent(p, q)
                && !post.maze.is_untouched(p) implies !post.maze.is_untouched(q) by {
            assert(post.maze.cell(p) == MazeSlotState::Paved);
            if p == pre.position {
                assert(!pre.maze.is_untouched(q));
            } else {
                assert(pre.maze.cell(p) == MazeSlotState::Paved);
                assert(!pre.maze.is_untouched(q));
            }
        }
    }
    lemma_closed_covers_grid(&post.maze, pre.position);
}

/// Whether `after` equals `before` on every cell but `p`.
pub open spec fn unchanged_but(before: &Maze, after: &Maze, p: UnevenSlotCoordinate) -> bool {
    &&& after.height == before.height
    &&& after.width == before.width
    &&& forall|q: UnevenSlotCoordinate| #[trigger]
        after.contains(q) && q != p ==> after.cell(q) == before.cell(q)
}

/// What one step of the search does from `pre`, given the two draws of the
/// policy. When the policy picks a cell, it is visited together with the
/// corridor to it and the position is pushed. Otherwise the position is paved
/// together with the corridor back to the top of the stack, which is popped
/// and becomes the position; with an empty stack, the position is paved and
/// stays, and the run is done.
pub open spec fn stepped(
    pre: Generator,
    post: Generator,
    changes: Seq<SlotChange>,
    keep_straight: bool,
    pick: usize,
) -> bool {
    let next = choice(
        pre.options(),
        straight_ahead(&pre.maze, pre.position, pre.previous()),
        keep_straight,
        pick,
    );
    &&& post.height == pre.height
    &&& post.width == pre.width
    &&& post.start == pre.start
    &&& progressed(&pre.maze, &post.maze)
    &&& match next {
        Some(n) => {
            &&& post.state == AppState::Generating
            &&& post.stack@ == pre.stack@.push(pre.position)
            &&& post.position == n
            &&& post.maze.cell(n) == MazeSlotState::Visited
            &&& unchanged_but(&pre.maze, &post.maze, n)
            &&& changes == seq![
                change(expanded(n), MazeSlotState::Visited),
                change(corridor(n, pre.position), MazeSlotState::Visited),
            ]
        },
        None => if pre.stack@.len() > 0 {
            &&& post.state == AppState::Generating
            &&& post.stack@ == pre.stack@.drop_last()
            &&& post.position == pre.stack@.last()
            &&& post.maze.cell(pre.position) == MazeSlotState::Paved
            &&& unchanged_but(&pre.maze, &post.maze, pre.position)
            &&& changes == seq![
                change(expanded(pre.position), MazeSlotState::Paved),
                change(corridor(pre.position, post.position), MazeSlotState::Paved),
            ]
        } else {
            &&& post.state == AppState::Done
            &&& post.stack@ == pre.stack@
            &&& post.position == pre.position
            &&& post.maze.cell(pre.position) == MazeSlotState::Paved
            &&& unchanged_but(&pre.maze, &post.maze, pre.position)
            &&& changes == seq![change(expanded(pre.position), MazeSlotState::Paved)]
        },
    }
}

/// What preparing a run of a `height` by `width` grid yields, given the
/// columns drawn for the start, in the top row, and for the exit, in the
/// bottom row. A grid without cells is done at once with nothing to draw.
/// Otherwise the run is fresh at the start, which is drawn visited, with an
/// entrance opened above it and an exit below the exit column.
pub open spec fn prepared(
    post: Generator,
    changes: Seq<SlotChange>,
    height: usize,
    width: usize,
    start_column: usize,
    end_column: usize,
) -> bool {
    &&& post.height == height
    &&& post.width == width
    &&& post.maze.height == height
    &&& post.maze.width == width
    &&& post.stack@.len() == 0
    &&& if height == 0 || width == 0 {
        &&& post.state == AppState::Done
        &&& post.start == cell_at(0, 0)
        &&& post.position == post.start
        &&& changes.len() == 0
    } else {
        &&& start_column < width
        &&& end_column < width
        &&& post.state == AppState::Generating
        &&& post.start == cell_at(0, start_column)
        &&& post.fresh()
        &&& changes == seq![
            change(expanded(post.start), MazeSlotState::Visited),
            change(
                SlotCoordinate { row: 0, column: (1 + 2 * start_column) as usize },
                MazeSlotState::Paved,
            ),
            change(
                SlotCoordinate { row: (2 * height) as usize, column: (1 + 2 * end_column) as usize },
                MazeSlotState::Paved,
            ),
        ]
    }
}

/// A step is determined by the state it starts from and the two draws: two
/// steps from the same state with the same draws end in the same state and
/// draw the same changes.
pub proof fn lemma_step_is_determined(
    pre: Generator,
    a: Generator,
    b: Generator,
    changes_a: Seq<SlotChange>,
    changes_b: Seq<SlotChange>,
    keep_straight: bool,
    pick: usize,
)
    requires
        stepped(pre, a, changes_a, keep_straight, pick),
        stepped(pre, b, changes_b, keep_straight, pick),
    ensures
        a.state == b.state,
        a.position == b.position,
        a.stack@ == b.stack@,
        a.start == b.start,
        changes_a == changes_b,
        a.maze.height == b.maze.height && a.maze.width == b.maze.width,
        forall|q: UnevenSlotCoordinate| #[trigger] a.maze.contains(q) ==> a.maze.cell(q) == b.maze.cell(q),
{
    assert forall|q: UnevenSlotCoordinate| #[trigger] a.maze.contains(q) implies a.maze.cell(q)
        == b.maze.cell(q) by {
        assert(b.maze.contains(q));
        assert(pre.maze.contains(q));
    }
}

/// Preparing a run forgets the state it was prepared from: two runs
/// prepared on the same dimensions with the same drawn columns are equal in
/// state, stack, position, start, cells and changes to draw.
pub proof fn lemma_preparing_forgets_prior_state(
    a: Generator,
    b: Generator,
    changes_a: Seq<SlotChange>,
    changes_b: Seq<SlotChange>,
    height: usize,
    width: usize,
    start_column: usize,
    end_column: usize,
)
    requires
        prepared(a, changes_a, height, width, start_column, end_column),
        prepared(b, changes_b, height, width, start_column, end_column),
    ensures
        a.state == b.state,
        a.position == b.position,
        a.stack@ == b.stack@,
        a.start == b.start,
        changes_a == changes_b,
        a.maze.height == b.maze.height && a.maze.width == b.maze.width,
        forall|q: UnevenSlotCoordinate| #[trigger] a.maze.contains(q) ==> a.maze.cell(q) == b.maze.cell(q),
{
    if height > 0 && width > 0 {
        assert forall|q: UnevenSlotCoordinate| #[trigger] a.maze.contains(q) implies a.maze.cell(q)
            == b.maze.cell(q) by {
            assert(b.maze.contains(q));
            if q != a.start {
                assert(a.maze.cell(q) == MazeSlotState::UnTouched);
                assert(b.maze.cell(q) == MazeSlotState::UnTouched);
            }
        }
    }
}

/// While generating, the stack followed by the position is a path of
/// distinct, side-sharing cells from the start, so the stack holds one entry
/// per edge of that path; every cell on it is visited and every visited cell
/// lies on it.
pub proof fn lemma_stack_is_path_from_start(g: Generator)
    requires
        g.wf(),
        g.state == AppState::Generating,
    ensures
        g.path().len() == g.stack@.len() + 1,
        g.path()[0] == g.start,
        g.path().last() == g.position,
        forall|i: int| 0 <= i < g.stack@.len() ==> adjacent(#[trigger] g.path()[i], g.path()[i + 1]),
        forall|i: int, j: int| 0 <= i < j < g.path().len() ==> #[trigger] g.path()[i] != #[trigger] g.path()[j],
        forall|i: int| 0 <= i < g.path().len() ==> g.maze.contains(#[trigger] g.path()[i]) && g.maze.cell(g.path()[i])
            == MazeSlotState::Visited,
        forall|q: UnevenSlotCoordinate|
            g.maze.contains(q) && #[trigger] g.maze.cell(q) == MazeSlotState::Visited ==> g.path().contains(q),
{
    reveal(Generator::generating_wf);
}

/// Whether every cell other than `s` that is not untouched only has
/// neighbors that are not untouched either.
pub open spec fn closed_except(maze: &Maze, s: UnevenSlotCoordinate) -> bool {
    forall|p: UnevenSlotCoordinate, q: UnevenSlotCoordinate|
        #![trigger maze.cell(p), maze.cell(q)]
        maze.contains(p) && maze.contains(q) && adjacent(p, q) && p != s && !maze.is_untouched(p)
            ==> !maze.is_untouched(q)
}

proof fn lemma_spread_along_row_except(
    maze: &Maze,
    s: UnevenSlotCoordinate,
    row: usize,
    from: usize,
    to: usize,
)
    requires
        closed_except(maze, s),
        row != s.row,
        row < maze.height,
        from < maze.width,
        to < maze.width,
        !maze.is_untouched(cell_at(row, from)),
    ensures
        !maze.is_untouched(cell_at(row, to)),
    decreases if from <= to { to - from } else { from - to },
{
    if from < to {
        lemma_spread_along_row_except(maze, s, row, from, (to - 1) as usize);
        assert(adjacent(cell_at(row, (to - 1) as usize), cell_at(row, to)));
        assert(maze.contains(cell_at(row, (to - 1) as usize)));
        assert(maze.contains(cell_at(row, to)));
    } else if to < from {
        lemma_spread_along_row_except(maze, s, row, from, (to + 1) as usize);
        assert(adjacent(cell_at(row, (to + 1) as usize), cell_at(row, to)));
        assert(maze.contains(cell_at(row, (to + 1) as usize)));
        assert(maze.contains(cell_at(row, to)));
    }
}

proof fn lemma_spread_down_column_except(
    maze: &Maze,
    s: UnevenSlotCoordinate,
    column: usize,
    from: usize,
    to: usize,
)
    requires
        closed_except(maze, s),
        s.row == 0,
        column < maze.width,
        1 <= from < maze.height,
        1 <= to < maze.height,
        !maze.is_untouched(cell_at(from, column)),
    ensures
        !maze.is_untouched(cell_at(to, column)),
    decreases if from <= to { to - from } else { from - to },
{
    if from < to {
        lemma_spread_down_column_except(maze, s, column, from, (to - 1) as usize);
        assert(adjacent(cell_at((to - 1) as usize, column), cell_at(to, column)));
        assert(maze.contains(cell_at((to - 1) as usize, column)));
        assert(maze.contains(cell_at(to, column)));
    } else if to < from {
        lemma_spread_down_column_except(maze, s, column, from, (to + 1) as usize);
        assert(adjacent(cell_at((to + 1) as usize, column), cell_at(to, column)));
        assert(maze.contains(cell_at((to + 1) as usize, column)));
        assert(maze.contains(cell_at(to, column)));
    }
}

/// On a grid of at least two rows and two columns, one cell `s` of the top
/// row taken out leaves the rest connected: when a cell other than `s` is
/// not untouched, and no such cell has an untouched neighbor, no cell but
/// possibly `s` is untouched.
pub proof fn lemma_closed_except_covers_grid(
    maze: &Maze,
    s: UnevenSlotCoordinate,
    seed: UnevenSlotCoordinate,
)
    requires
        maze.height >= 2,
        maze.width >= 2,
        s.row == 0,
        closed_except(maze, s),
        maze.contains(seed),
        seed != s,
        !maze.is_untouched(seed),
    ensures
        forall|q: UnevenSlotCoordinate| #[trigger]
            maze.contains(q) && q != s ==> !maze.is_untouched(q),
{
    // A cell of the second row that is not untouched.
    let low: UnevenSlotCoordinate = if seed.row >= 1 {
        seed
    } else {
        let below = cell_at(1, seed.column);
        assert(maze.contains(below));
        assert(adjacent(seed, below));
        below
    };
    assert(low == cell_at(low.row, low.column));
    assert forall|q: UnevenSlotCoordinate| #[trigger]
        maze.contains(q) && q != s implies !maze.is_untouched(q) by {
        lemma_spread_down_column_except(maze, s, low.column, low.row, 1);
        lemma_spread_along_row_except(maze, s, 1, low.column, q.column);
        if q.row >= 1 {
            lemma_spread_down_column_except(maze, s, q.column, 1, q.row);
            assert(q == cell_at(q.row, q.column));
        } else {
            let below = cell_at(1, q.column);
            assert(maze.contains(below));
            assert(adjacent(below, q));
            assert(below != s);
        }
    }
}

/// On a grid of at least two rows and two columns, the stack of a generating
/// run is empty only when the run is fresh, before its first step, or when
/// every cell has been reached, so that the next step completes the run.
pub proof fn lemma_stack_empty_only_at_entry_or_end(g: Generator)
    requires
        g.wf(),
        g.state == AppState::Generating,
        g.height >= 2,
        g.width >= 2,
        g.stack@.len() == 0,
    ensures
        g.fresh() || (forall|q: UnevenSlotCoordinate| #[trigger]
            g.maze.contains(q) ==> !g.maze.is_untouched(q)) && g.options().len() == 0,
{
    reveal(Generator::generating_wf);
    let path = g.path();
    assert(path =~= seq![g.position]);
    assert(g.position == g.start);
    if exists|c: UnevenSlotCoordinate| g.maze.contains(c) && c != g.start && !g.maze.is_untouched(c) {
        let c = choose|c: UnevenSlotCoordinate|
            g.maze.contains(c) && c != g.start && !g.maze.is_untouched(c);
        assert(closed_except(&g.maze, g.start)) by {
            assert forall|p: UnevenSlotCoordinate, q: UnevenSlotCoordinate|
                #![trigger g.maze.cell(p), g.maze.cell(q)]
                g.maze.contains(p) && g.maze.contains(q) && adjacent(p, q) && p != g.start
                    && !g.maze.is_untouched(p) implies !g.maze.is_untouched(q) by {
                if g.maze.cell(p) == MazeSlotState::Visited {
                    assert(path.contains(p));
                }
            }
        }
        lemma_closed_except_covers_grid(&g.maze, g.start, c);
        assert forall|q: UnevenSlotCoordinate| #[trigger] g.maze.contains(q) implies !g.maze.is_untouched(q) by {
            if q == g.start {
                assert(path[0] == q);
            }
        }
        let ns = neighbors_of(g.maze.height, g.maze.width, g.position);
        lemma_present_in_grid(g.maze.height, g.maze.width, g.position, directions(g.maze.height, g.maze.width, g.position));
        ns.filter_lemma(g.maze.untouched_filter());
        if g.options().len() > 0 {
            let f = ns.filter(g.maze.untouched_filter());
            assert(g.maze.untouched_filter()(f[0]));
            ns.lemma_filter_contains_rev(g.maze.untouched_filter(), f[0]);
            assert(f.contains(f[0]));
            let j = choose|j: int| 0 <= j < ns.len() && ns[j] == f[0];
            assert(g.maze.contains(ns[j]));
        }
    } else {
        assert forall|q: UnevenSlotCoordinate| #[trigger]
            g.maze.contains(q) && q != g.start implies g.maze.cell(q) == MazeSlotState::UnTouched by {
            assert(!(g.maze.contains(q) && q != g.start && !g.maze.is_untouched(q)));
        }
        assert(path[0] == g.start);
    }
}

/// The step that finishes a run is taken at the start with an empty stack:
/// the path from the start to the position is the start alone, with no
/// edge, and the position stays there.
pub proof fn lemma_completion_at_start(
    pre: Generator,
    post: Generator,
    changes: Seq<SlotChange>,
    keep_straight: bool,
    pick: usize,
)
    requires
        pre.wf(),
        pre.state == AppState::Generating,
        stepped(pre, post, changes, keep_straight, pick),
        post.state == AppState::Done,
    ensures
        pre.stack@.len() == 0,
        post.stack@.len() == 0,
        pre.position == pre.start,
        post.position == post.start,
{
    reveal(Generator::generating_wf);
}

/// A finished run has an empty stack and every cell of the grid paved; since
/// a cell only becomes paved from visited, every cell has been visited.
pub proof fn lemma_done_covers_grid(g: Generator)
    requires
        g.wf(),
        g.state == AppState::Done,
    ensures
        g.stack@.len() == 0,
        forall|q: UnevenSlotCoordinate| #[trigger]
            g.maze.contains(q) ==> g.maze.cell(q) == MazeSlotState::Paved,
        g.maze.height == g.height && g.maze.width == g.width,
{
}

impl Generator {
    /// The cells from the start to the current position: the stack, then the
    /// position.
    pub open spec fn path(&self) -> Seq<UnevenSlotCoordinate> {
        self.stack@.push(self.position)
    }

    /// While generating: the path runs from the start through adjacent,
    /// distinct, visited cells; every visited cell lies on it; and every paved
    /// cell has no untouched neighbor.
    #[verifier::opaque]
    pub open spec fn generating_wf(&self) -> bool {
        let path = self.path();
        &&& self.height > 0 && self.width > 0
        &&& self.start.row == 0
        &&& self.maze.contains(self.start)
        &&& path[0] == self.start
        &&& forall|i: int| 0 <= i < path.len() ==> self.maze.contains(#[trigger] path[i])
        &&& forall|i: int|
            0 <= i < path.len() ==> self.maze.cell(#[trigger] path[i]) == MazeSlotState::Visited
        &&& forall|i: int| 0 <= i < path.len() - 1 ==> adjacent(#[trigger] path[i], path[i + 1])
        &&& forall|i: int, j: int| 0 <= i < j < path.len() ==> #[trigger] path[i] != #[trigger] path[j]
        &&& forall|q: UnevenSlotCoordinate|
            self.maze.contains(q) && #[trigger] self.maze.cell(q) == MazeSlotState::Visited
                ==> path.contains(q)
        &&& forall|p: UnevenSlotCoordinate, q: UnevenSlotCoordinate|
            #![trigger self.maze.cell(p), self.maze.cell(q)]
            self.maze.contains(p) && self.maze.contains(q) && adjacent(p, q) && self.maze.cell(p)
                == MazeSlotState::Paved ==> !self.maze.is_untouched(q)
    }

    /// Once done: the stack is empty and every cell is paved.
    pub open spec fn done_wf(&self) -> bool {
        &&& self.stack@.len() == 0
        &&& forall|q: UnevenSlotCoordinate| #[trigger]
            self.maze.contains(q) ==> self.maze.cell(q) == MazeSlotState::Paved
    }

    pub open spec fn wf(&self) -> bool {
        &&& fits(self.height, self.width)
        &&& self.maze.wf()
        &&& match self.state {
            AppState::TriggerGeneration => true,
            AppState::Generating => {
                &&& self.maze.height == self.height
                &&& self.maze.width == self.width
                &&& self.generating_wf()
            },
            AppState::Done => {
                &&& self.maze.height == self.height
                &&& self.maze.width == self.width
                &&& self.done_wf()
            },
        }
    }

    /// The untouched neighbors of the current position.
    pub open spec fn options(&self) -> Seq<UnevenSlotCoordinate> {
        self.maze.untouched_of(self.position)
    }

    /// The cell the search came from: the top of the stack.
    pub open spec fn previous(&self) -> Option<UnevenSlotCoordinate> {
        if self.stack@.len() == 0 {
            None
        } else {
            Some(self.stack@.last())
        }
    }

    /// A generator for a `height` by `width` grid, waiting to start.
    pub fn new(height: usize, width: usize) -> (r: Self)
        requires
            fits(height, width),
        ensures
            r.wf(),
            r.state == AppState::TriggerGeneration,
            r.height == height,
            r.width == width,
            r.stack@.len() == 0,
    {
        let origin = UnevenSlotCoordinate { row: 0, column: 0 };
        Generator {
            state: AppState::TriggerGeneration,
            height,
            width,
            maze: Maze::new(0, 0),
            start: origin,
            position: origin,
            stack: Vec::new(),
        }
    }

    /// One tick of a generating run: draws the two choices of the policy
    /// from `rng`, then takes the step that they determine.
    pub fn draw_next_path(&mut self, rng: &mut StdRng) -> (changes: Vec<SlotChange>)
        requires
            old(self).wf(),
            old(self).state == AppState::Generating,
        ensures
            final(self).wf(),
            exists|keep_straight: bool, pick: usize|
                stepped(*old(self), *final(self), changes@, keep_straight, pick),
    {
        proof {
            lemma_generating_facts(*self);
        }
        let (keep_straight, pick) = self.maze.draw_choices(&self.position, rng);
        self.step(keep_straight, pick)
    }

    /// One step of the search, given the two draws of the policy: see
    /// `stepped`.
    pub fn step(&mut self, keep_straight: bool, pick: usize) -> (changes: Vec<SlotChange>)
        requires
            old(self).wf(),
            old(self).state == AppState::Generating,
        ensures
            final(self).wf(),
            stepped(*old(self), *final(self), changes@, keep_straight, pick),
    {
        let ghost pre = *self;
        let previous = if self.stack.len() == 0 {
            None
        } else {
            Some(self.stack[self.stack.len() - 1])
        };
        proof {
            lemma_generating_facts(pre);
        }
        let position = self.position;
        let next = self.maze.choose_next(&position, previous, keep_straight, pick);
        proof {
            lemma_choice_is_an_option(
                pre.options(),
                straight_ahead(&pre.maze, position, previous),
                keep_straight,
                pick,
            );
            lemma_straight_is_an_option(&pre.maze, position, previous);
        }
        match next {
            Some(next_slot) => {
                proof {
                    lemma_option(&pre.maze, position, next_slot);
                }
                let changes = self.visit(&position, &next_slot);
                self.stack.push(position);
                self.position = next_slot;
                proof {
                    lemma_visit_keeps_wf(pre, *self);
                }
                changes
            },
            None => {
                proof {
                    lemma_no_option(&pre.maze, position);
                }
                match self.stack.pop() {
                    Some(last_position) => {
                        let changes = self.pave(&position, &last_position);
                        self.position = last_position;
                        proof {
                            lemma_backtrack_keeps_wf(pre, *self);
                        }
                        changes
                    },
                    None => {
                        let mut changes: Vec<SlotChange> = Vec::new();
                        Self::set_slot_state(
                            &mut changes,
                            SlotCoordinate::from(position),
                            MazeSlotState::Paved,
                        );
                        self.maze.mark(&position, MazeSlotState::Paved);
                        self.state = AppState::Done;
                        proof {
                            lemma_finish_done(pre, *self);
                        }
                        changes
                    },
                }
            },
        }
    }

    /// Opens the way from `from` to its untouched neighbor `to`.
    fn visit(&mut self, from: &UnevenSlotCoordinate, to: &UnevenSlotCoordinate) -> (changes: Vec<
        SlotChange,
    >)
        requires
            old(self).maze.wf(),
            old(self).maze.contains(*from),
            old(self).maze.contains(*to),
            adjacent(*from, *to),
        ensures
            final(self).maze.wf(),
            final(self).maze.height == old(self).maze.height,
            final(self).maze.width == old(self).maze.width,
            final(self).maze.cell(*to) == MazeSlotState::Visited,
            forall|q: UnevenSlotCoordinate|
                final(self).maze.contains(q) && q != *to ==> #[trigger] final(self).maze.cell(q)
                    == old(self).maze.cell(q),
            final(self).state == old(self).state,
            final(self).height == old(self).height,
            final(self).width == old(self).width,
            final(self).start == old(self).start,
            final(self).position == old(self).position,
            final(self).stack == old(self).stack,
            changes@ == seq![
                change(expanded(*to), MazeSlotState::Visited),
                change(corridor(*to, *from), MazeSlotState::Visited),
            ],
    {
        self.set_path_state(to, from, MazeSlotState::Visited)
    }

    /// Closes `from` on the way back to the cell `to` below it on the stack.
    fn pave(&mut self, from: &UnevenSlotCoordinate, to: &UnevenSlotCoordinate) -> (changes: Vec<
        SlotChange,
    >)
        requires
            old(self).maze.wf(),
            old(self).maze.contains(*from),
            old(self).maze.contains(*to),
            adjacent(*from, *to),
        ensures
            final(self).maze.wf(),
            final(self).maze.height == old(self).maze.height,
            final(self).maze.width == old(self).maze.width,
            final(self).maze.cell(*from) == MazeSlotState::Paved,
            forall|q: UnevenSlotCoordinate|
                final(self).maze.contains(q) && q != *from ==> #[trigger] final(self).maze.cell(q)
                    == old(self).maze.cell(q),
            final(self).state == old(self).state,
            final(self).height == old(self).height,
            final(self).width == old(self).width,
            final(self).start == old(self).start,
            final(self).position == old(self).position,
            final(self).stack == old(self).stack,
            changes@ == seq![
                change(expanded(*from), MazeSlotState::Paved),
                change(corridor(*from, *to), MazeSlotState::Paved),
            ],
    {
        self.set_path_state(from, to, MazeSlotState::Paved)
    }

    /// Whether the run has just been prepared: `start` is a cell of the top
    /// row, the position, visited, with an empty stack, and every other cell
    /// is untouched.
    pub open spec fn fresh(&self) -> bool {
        &&& self.stack@.len() == 0
        &&& self.position == self.start
        &&& self.start.row == 0
        &&& self.maze.height == self.height
        &&& self.maze.width == self.width
        &&& self.maze.contains(self.start)
        &&& self.maze.cell(self.start) == MazeSlotState::Visited
        &&& forall|q: UnevenSlotCoordinate| #[trigger]
            self.maze.contains(q) && q != self.start ==> self.maze.cell(q)
                == MazeSlotState::UnTouched
    }

    /// Allocates a fresh grid and starts the search at column `start_column`
    /// of the top row, opening an entrance above it and an exit below column
    /// `end_column` of the bottom row. A grid without cells is done at once.
    pub fn prepare_maze_at(&mut self, start_column: usize, end_column: usize) -> (changes: Vec<
        SlotChange,
    >)
        requires
            fits(old(self).height, old(self).width),
            old(self).height > 0 && old(self).width > 0 ==> start_column < old(self).width
                && end_column < old(self).width,
        ensures
            final(self).wf(),
            prepared(
                *final(self),
                changes@,
                old(self).height,
                old(self).width,
                start_column,
                end_column,
            ),
    {
        let mut maze = Maze::new(self.height, self.width);
        self.stack = Vec::new();
        if self.height == 0 || self.width == 0 {
            let origin = UnevenSlotCoordinate { row: 0, column: 0 };
            self.maze = maze;
            self.start = origin;
            self.position = origin;
            self.state = AppState::Done;
            return Vec::new();
        }
        let starting_point = UnevenSlotCoordinate { row: 0, column: start_column };
        let ending_point = UnevenSlotCoordinate { row: self.height - 1, column: end_column };
        maze.mark(&starting_point, MazeSlotState::Visited);
        let mut changes: Vec<SlotChange> = Vec::new();
        let starting_slot = SlotCoordinate::from(starting_point);
        Self::set_slot_state(&mut changes, starting_slot, MazeSlotState::Visited);
        Self::set_slot_state(&mut changes, starting_slot.walk(-1, 0), MazeSlotState::Paved);
        Self::set_slot_state(
            &mut changes,
            SlotCoordinate::from(ending_point).walk(1, 0),
            MazeSlotState::Paved,
        );
        self.maze = maze;
        self.start = starting_point;
        self.position = starting_point;
        self.state = AppState::Generating;
        proof {
            reveal(Generator::generating_wf);
            let path = self.path();
            assert(path =~= seq![starting_point]);
            assert forall|q: UnevenSlotCoordinate|
                self.maze.contains(q) && #[trigger] self.maze.cell(q) == MazeSlotState::Visited
                    implies path.contains(q) by {
                assert(q == starting_point);
                assert(path[0] == q);
            }
            assert(self.fresh());
            assert(self.start == cell_at(0, start_column));
            assert(changes@ =~= seq![
                change(expanded(self.start), MazeSlotState::Visited),
                change(
                    SlotCoordinate { row: 0, column: (1 + 2 * start_column) as usize },
                    MazeSlotState::Paved,
                ),
                change(
                    SlotCoordinate { row: (2 * self.height) as usize, column: (1 + 2 * end_column) as usize },
                    MazeSlotState::Paved,
                ),
            ]);
        }
        changes
    }

    /// Prepares a fresh run with the start and exit columns drawn uniformly
    /// from `rng`.
    pub fn prepare_maze(&mut self, rng: &mut StdRng) -> (changes: Vec<SlotChange>)
        requires
            fits(old(self).height, old(self).width),
        ensures
            final(self).wf(),
            exists|start_column: usize, end_column: usize|
                prepared(
                    *final(self),
                    changes@,
                    old(self).height,
                    old(self).width,
                    start_column,
                    end_column,
                ),
    {
        if self.height == 0 || self.width == 0 {
            return self.prepare_maze_at(0, 0);
        }
        self.maze = Maze::new(self.height, self.width);
        let starting_point = self.maze.get_random_slot_in_row(0, rng);
        let ending_point = self.maze.get_random_slot_in_row(self.height - 1, rng);
        self.prepare_maze_at(starting_point.column, ending_point.column)
    }

    /// Restarts the run from any state: clears the stack, discards the grid,
    /// and prepares a fresh one.
    pub fn trigger_generation(&mut self, rng: &mut StdRng) -> (changes: Vec<SlotChange>)
        requires
            old(self).wf(),
        ensures
            final(self).wf(),
            exists|start_column: usize, end_column: usize|
                prepared(
                    *final(self),
                    changes@,
                    old(self).height,
                    old(self).width,
                    start_column,
                    end_column,
                ),
    {
        self.stack.clear();
        self.maze = Maze::new(0, 0);
        self.state = AppState::TriggerGeneration;
        self.prepare_maze(rng)
    }

    /// Once done, a restart signal sends the run back to be triggered again;
    /// nothing else changes.
    pub fn wait_for_restart(&mut self, restart_pressed: bool)
        requires
            old(self).wf(),
            old(self).state == AppState::Done,
        ensures
            final(self).wf(),
            final(self).state == (if restart_pressed {
                AppState::TriggerGeneration
            } else {
                AppState::Done
            }),
            final(self).height == old(self).height,
            final(self).width == old(self).width,
            final(self).start == old(self).start,
            final(self).position == old(self).position,
            final(self).stack@ == old(self).stack@,
            final(self).maze.height == old(self).maze.height,
            final(self).maze.width == old(self).maze.width,
            final(self).maze.maze_slots@ == old(self).maze.maze_slots@,
    {
        if restart_pressed {
            self.state = AppState::TriggerGeneration;
        }
    }

    /// One tick: a pending trigger prepares a fresh run, a generating run
    /// takes one step of the search, and a finished run waits for a restart.
    pub fn advance(&mut self, rng: &mut StdRng, restart_pressed: bool) -> (changes: Vec<
        SlotChange,
    >)
        requires
            old(self).wf(),
        ensures
            final(self).wf(),
            old(self).state == AppState::TriggerGeneration ==> exists|
                start_column: usize,
                end_column: usize,
            |
                prepared(
                    *final(self),
                    changes@,
                    old(self).height,
                    old(self).width,
                    start_column,
                    end_column,
                ),
            old(self).state == AppState::Generating ==> exists|keep_straight: bool, pick: usize|
                stepped(*old(self), *final(self), changes@, keep_straight, pick),
            old(self).state == AppState::Done ==> {
                &&& final(self).state == (if restart_pressed {
                    AppState::TriggerGeneration
                } else {
                    AppState::Done
                })
                &&& changes@.len() == 0
                &&& final(self).height == old(self).height
                &&& final(self).width == old(self).width
                &&& final(self).start == old(self).start
                &&& final(self).position == old(self).position
                &&& final(self).stack@ == old(self).stack@
                &&& final(self).maze.height == old(self).maze.height
                &&& final(self).maze.width == old(self).maze.width
                &&& final(self).maze.maze_slots@ == old(self).maze.maze_slots@
            },
    {
        match self.state {
            AppState::TriggerGeneration => self.trigger_generation(rng),
            AppState::Generating => self.draw_next_path(rng),
            AppState::Done => {
                self.wait_for_restart(restart_pressed);
                Vec::new()
            },
        }
    }

    /// Records that `slot` is to be drawn in the color of `state`.
    fn set_slot_state(changes: &mut Vec<SlotChange>, slot: SlotCoordinate, state: MazeSlotState)
        ensures
            final(changes)@ == old(changes)@.push(change(slot, state)),
    {
        changes.push(SlotChange { slot, state });
    }

    /// Sets cell `set` to `state`, together with the corridor between it and
    /// the adjacent cell `connecting_to`.
    fn set_path_state(
        &mut self,
        set: &UnevenSlotCoordinate,
        connecting_to: &UnevenSlotCoordinate,
        state: MazeSlotState,
    ) -> (changes: Vec<SlotChange>)
        requires
            old(self).maze.wf(),
            old(self).maze.contains(*set),
            old(self).maze.contains(*connecting_to),
            adjacent(*set, *connecting_to),
        ensures
            final(self).maze.wf(),
            final(self).maze.height == old(self).maze.height,
            final(self).maze.width == old(self).maze.width,
            final(self).maze.cell(*set) == state,
            forall|q: UnevenSlotCoordinate|
                final(self).maze.contains(q) && q != *set ==> #[trigger] final(self).maze.cell(q)
                    == old(self).maze.cell(q),
            final(self).state == old(self).state,
            final(self).height == old(self).height,
            final(self).width == old(self).width,
            final(self).start == old(self).start,
            final(self).position == old(self).position,
            final(self).stack == old(self).stack,
            changes@ == seq![
                change(expanded(*set), state),
                change(corridor(*set, *connecting_to), state),
            ],
    {
        let mut changes: Vec<SlotChange> = Vec::new();
        let to_visit = SlotCoordinate::from(*set);
        Self::set_slot_state(&mut changes, to_visit, state);
        let row_delta: i64 = if connecting_to.row > set.row {
            1
        } else if connecting_to.row < set.row {
            -1
        } else {
            0
        };
        let column_delta: i64 = if connecting_to.column > set.column {
            1
        } else if connecting_to.column < set.column {
            -1
        } else {
            0
        };
        Self::set_slot_state(&mut changes, to_visit.walk(row_delta, column_delta), state);
        self.maze.mark(set, state);
        changes
    }
}

} // verus!
