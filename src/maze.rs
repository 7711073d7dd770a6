//! The cell graph: a grid of cell states with boundary-aware neighbor sets.
use crate::coordinate::{try_walk_spec, UnevenSlotCoordinate};
use crate::random::random_below;
use rand::rngs::StdRng;
use vstd::prelude::*;

verus! {

/// The progress of a cell: untouched, visited by the search, or paved once
/// the search has finished with it.
#[derive(Clone, Copy, Debug, PartialEq, Eq, Structural)]
pub enum MazeSlotState {
    UnTouched,
    Visited,
    Paved,
}

#[derive(Clone, Copy, Debug, PartialEq, Eq, Structural)]
pub struct MazeSlot {
    pub state: MazeSlotState,
}

/// A `height` by `width` grid of cells, stored as rows.
pub struct Maze {
    pub height: usize,
    pub width: usize,
    pub maze_slots: Vec<Vec<MazeSlot>>,
}

/// Whether a grid of these dimensions has expanded coordinates that fit in
/// `usize`.
pub open spec fn fits(height: usize, width: usize) -> bool {
    2 * height + 1 <= usize::MAX && 2 * width + 1 <= usize::MAX
}

pub open spec fn in_grid(height: usize, width: usize, p: UnevenSlotCoordinate) -> bool {
    p.row < height && p.column < width
}

/// Whether two cells share a side.
pub open spec fn adjacent(a: UnevenSlotCoordinate, b: UnevenSlotCoordinate) -> bool {
    (a.row == b.row && (a.column + 1 == b.column || b.column + 1 == a.column)) || (a.column
        == b.column && (a.row + 1 == b.row || b.row + 1 == a.row))
}

/// The directions, as `(row, column)` deltas, in which the neighbors of `p`
/// are listed: south, east, north and west, in an order fixed for each kind
/// of boundary position.
pub open spec fn directions(height: usize, width: usize, p: UnevenSlotCoordinate) -> Seq<
    (i64, i64),
> {
    if p.row == 0 && p.column == 0 {
        seq![(1i64, 0i64), (0i64, 1i64)]
    } else if p.row == 0 && p.column == width - 1 {
        seq![(1i64, 0i64), (0i64, -1i64)]
    } else if p.row == height - 1 && p.column == width - 1 {
        seq![(-1i64, 0i64), (0i64, -1i64)]
    } else if p.row == height - 1 && p.column == 0 {
        seq![(-1i64, 0i64), (0i64, 1i64)]
    } else if p.row == 0 {
        seq![(0i64, 1i64), (0i64, -1i64), (1i64, 0i64)]
    } else if p.column == 0 {
        seq![(1i64, 0i64), (0i64, 1i64), (-1i64, 0i64)]
    } else if p.row == height - 1 {
        seq![(0i64, 1i64), (-1i64, 0i64), (0i64, -1i64)]
    } else if p.column == width - 1 {
        seq![(-1i64, 0i64), (0i64, -1i64), (1i64, 0i64)]
    } else {
        seq![(1i64, 0i64), (0i64, 1i64), (-1i64, 0i64), (0i64, -1i64)]
    }
}

/// The cells reached from `p` by the deltas `ds`, in order, keeping only
/// those inside the grid.
pub open spec fn present(
    height: usize,
    width: usize,
    p: UnevenSlotCoordinate,
    ds: Seq<(i64, i64)>,
) -> Seq<UnevenSlotCoordinate>
    decreases ds.len(),
{
    if ds.len() == 0 {
        Seq::empty()
    } else {
        let rest = present(height, width, p, ds.drop_last());
        match try_walk_spec(p, ds.last().0, ds.last().1) {
            Some(q) => if in_grid(height, width, q) {
                rest.push(q)
            } else {
                rest
            },
            None => rest,
        }
    }
}

/// The grid neighbors of `p`, in the fixed order for its position.
pub open spec fn neighbors_of(height: usize, width: usize, p: UnevenSlotCoordinate) -> Seq<
    UnevenSlotCoordinate,
> {
    present(height, width, p, directions(height, width, p))
}

/// Every cell that `present` lists is inside the grid.
pub proof fn lemma_present_in_grid(
    height: usize,
    width: usize,
    p: UnevenSlotCoordinate,
    ds: Seq<(i64, i64)>,
)
    ensures
        forall|j: int|
            0 <= j < present(height, width, p, ds).len() ==> in_grid(
                height,
                width,
                #[trigger] present(height, width, p, ds)[j],
            ),
    decreases ds.len(),
{
    if ds.len() > 0 {
        let rest = present(height, width, p, ds.drop_last());
        lemma_present_in_grid(height, width, p, ds.drop_last());
        let all = present(height, width, p, ds);
        assert forall|j: int| 0 <= j < all.len() implies in_grid(height, width, #[trigger] all[j]) by {
            if j < rest.len() {
                assert(all[j] == rest[j]);
            }
        }
    }
}

impl Maze {
    /// Rows and columns match the dimensions, and expanded coordinates fit.
    pub open spec fn wf(&self) -> bool {
        &&& fits(self.height, self.width)
        &&& self.maze_slots@.len() == self.height
        &&& forall|r: int| 0 <= r < self.height ==> #[trigger] self.maze_slots@[r]@.len() == self.width
    }

    pub open spec fn contains(&self, p: UnevenSlotCoordinate) -> bool {
        in_grid(self.height, self.width, p)
    }

    /// The state of a cell.
    pub open spec fn cell(&self, p: UnevenSlotCoordinate) -> MazeSlotState {
        self.maze_slots@[p.row as int]@[p.column as int].state
    }

    pub open spec fn is_untouched(&self, p: UnevenSlotCoordinate) -> bool {
        self.cell(p) == MazeSlotState::UnTouched
    }

    /// The neighbors of `p` that are still untouched, in neighbor order.
    pub open spec fn untouched_of(&self, p: UnevenSlotCoordinate) -> Seq<UnevenSlotCoordinate> {
        neighbors_of(self.height, self.width, p).filter(self.untouched_filter())
    }

    pub open spec fn untouched_filter(&self) -> spec_fn(UnevenSlotCoordinate) -> bool {
        |q: UnevenSlotCoordinate| self.is_untouched(q)
    }

    /// A grid of the given dimensions with every cell untouched.
    pub fn new(height: usize, width: usize) -> (r: Self)
        requires
            fits(height, width),
        ensures
            r.wf(),
            r.height == height,
            r.width == width,
            forall|p: UnevenSlotCoordinate| r.contains(p) ==> #[trigger] r.cell(p) == MazeSlotState::UnTouched,
    {
        let mut maze_slots: Vec<Vec<MazeSlot>> = Vec::new();
        let mut r: usize = 0;
        while r < height
            invariant
                r <= height,
                maze_slots@.len() == r,
                forall|i: int| 0 <= i < r ==> #[trigger] maze_slots@[i]@.len() == width,
                forall|i: int, j: int|
                    0 <= i < r && 0 <= j < width ==> (#[trigger] maze_slots@[i]@[j]).state
                        == MazeSlotState::UnTouched,
            decreases height - r,
        {
            let mut row: Vec<MazeSlot> = Vec::new();
            let mut c: usize = 0;
            while c < width
                invariant
                    c <= width,
                    row@.len() == c,
                    forall|j: int| 0 <= j < c ==> (#[trigger] row@[j]).state == MazeSlotState::UnTouched,
                decreases width - c,
            {
                row.push(MazeSlot { state: MazeSlotState::UnTouched });
                c = c + 1;
            }
            maze_slots.push(row);
            r = r + 1;
        }
        let m = Maze { height, width, maze_slots };
        assert forall|p: UnevenSlotCoordinate| m.contains(p) implies #[trigger] m.cell(p)
            == MazeSlotState::UnTouched by {
            assert(m.maze_slots@[p.row as int]@[p.column as int].state == MazeSlotState::UnTouched);
        }
        m
    }

    /// The state of a cell inside the grid.
    pub fn state_at(&self, position: &UnevenSlotCoordinate) -> (r: MazeSlotState)
        requires
            self.wf(),
            self.contains(*position),
        ensures
            r == self.cell(*position),
    {
        self.maze_slots[position.row][position.column].state
    }

    /// Sets the state of a cell inside the grid, leaving every other cell as
    /// it was.
    pub fn mark(&mut self, position: &UnevenSlotCoordinate, state: MazeSlotState)
        requires
            old(self).wf(),
            old(self).contains(*position),
        ensures
            final(self).wf(),
            final(self).height == old(self).height,
            final(self).width == old(self).width,
            final(self).cell(*position) == state,
            forall|q: UnevenSlotCoordinate|
                final(self).contains(q) && q != *position ==> #[trigger] final(self).cell(q)
                    == old(self).cell(q),
    {
        self.maze_slots[position.row][position.column].state = state;
    }
    /// The directions in which the neighbors of `position` are listed.
    fn directions_at(&self, position: &UnevenSlotCoordinate) -> (r: Vec<(i64, i64)>)
        requires
            self.contains(*position),
        ensures
            r@ == directions(self.height, self.width, *position),
    {
        let last_row = self.height - 1;
        let last_column = self.width - 1;
        let ds = if position.row == 0 && position.column == 0 {
            vec![(1i64, 0i64), (0i64, 1i64)]
        } else if position.row == 0 && position.column == last_column {
            vec![(1i64, 0i64), (0i64, -1i64)]
        } else if position.row == last_row && position.column == last_column {
            vec![(-1i64, 0i64), (0i64, -1i64)]
        } else if position.row == last_row && position.column == 0 {
            vec![(-1i64, 0i64), (0i64, 1i64)]
        } else if position.row == 0 {
            vec![(0i64, 1i64), (0i64, -1i64), (1i64, 0i64)]
        } else if position.column == 0 {
            vec![(1i64, 0i64), (0i64, 1i64), (-1i64, 0i64)]
        } else if position.row == last_row {
            vec![(0i64, 1i64), (-1i64, 0i64), (0i64, -1i64)]
        } else if position.column == last_column {
            vec![(-1i64, 0i64), (0i64, -1i64), (1i64, 0i64)]
        } else {
            vec![(1i64, 0i64), (0i64, 1i64), (-1i64, 0i64), (0i64, -1i64)]
        };
        assert(ds@ =~= directions(self.height, self.width, *position));
        ds
    }

    /// The grid-adjacent cells of `position`, south, east, north and west in
    /// the order fixed for its kind of position, leaving out those outside
    /// the grid.
    pub fn neighbors(&self, position: &UnevenSlotCoordinate) -> (r: Vec<UnevenSlotCoordinate>)
        requires
            self.contains(*position),
        ensures
            r@ == neighbors_of(self.height, self.width, *position),
            forall|j: int| 0 <= j < r@.len() ==> self.contains(#[trigger] r@[j]),
    {
        proof {
            lemma_present_in_grid(
                self.height,
                self.width,
                *position,
                directions(self.height, self.width, *position),
            );
        }
        let ds = self.directions_at(position);
        let mut neighbors: Vec<UnevenSlotCoordinate> = Vec::new();
        let mut i: usize = 0;
        while i < ds.len()
            invariant
                i <= ds@.len(),
                ds@ == directions(self.height, self.width, *position),
                neighbors@ == present(self.height, self.width, *position, ds@.subrange(0, i as int)),
            decreases ds@.len() - i,
        {
            let (dr, dc) = ds[i];
            assert(ds@.subrange(0, i + 1).drop_last() =~= ds@.subrange(0, i as int));
            if let Some(q) = position.try_walk(dr, dc) {
                if q.row < self.height && q.column < self.width {
                    neighbors.push(q);
                }
            }
            i = i + 1;
        }
        assert(ds@.subrange(0, ds@.len() as int) =~= ds@);
        neighbors
    }

    /// The neighbors of `position` that are still untouched, in neighbor
    /// order.
    pub fn untouched_neighbors(&self, position: &UnevenSlotCoordinate) -> (r: Vec<
        UnevenSlotCoordinate,
    >)
        requires
            self.wf(),
            self.contains(*position),
        ensures
            r@ == self.untouched_of(*position),
    {
        let all = self.neighbors(position);
        let ghost pred = self.untouched_filter();
        let mut untouched: Vec<UnevenSlotCoordinate> = Vec::new();
        let mut i: usize = 0;
        while i < all.len()
            invariant
                self.wf(),
                i <= all@.len(),
                all@ == neighbors_of(self.height, self.width, *position),
                forall|j: int| 0 <= j < all@.len() ==> self.contains(#[trigger] all@[j]),
                pred == self.untouched_filter(),
                untouched@ == all@.subrange(0, i as int).filter(pred),
            decreases all@.len() - i,
        {
            let q = all[i];
            let ghost prefix = all@.subrange(0, i + 1);
            assert(prefix =~= all@.subrange(0, i as int).push(q));
            proof {
                all@.subrange(0, i as int).lemma_filter_push(q, pred);
            }
            let is_untouched = self.state_at(&q) == MazeSlotState::UnTouched;
            if is_untouched {
                untouched.push(q);
            }
            assert(untouched@ == prefix.filter(pred));
            i = i + 1;
        }
        assert(all@.subrange(0, all@.len() as int) =~= all@);
        untouched
    }

    /// A cell of the given row at a column drawn uniformly from the random
    /// source.
    pub fn get_random_slot_in_row(&self, row: usize, rng: &mut StdRng) -> (r: UnevenSlotCoordinate)
        requires
            self.width > 0,
        ensures
            r.row == row,
            r.column < self.width,
    {
        let column = random_below(rng, self.width);
        UnevenSlotCoordinate { row, column }
    }
}

} // verus!
