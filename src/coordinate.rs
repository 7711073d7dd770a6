//! Grid geometry: logical cell coordinates, expanded slot coordinates, and
//! stepping by signed deltas.
use vstd::prelude::*;

verus! {

/// Adds a signed delta to an unsigned value; `None` when the sum leaves the
/// range of `usize`.
pub open spec fn shifted(v: usize, d: i64) -> Option<usize> {
    if 0 <= v + d <= usize::MAX {
        Some((v + d) as usize)
    } else {
        None
    }
}

fn shift(v: usize, d: i64) -> (r: Option<usize>)
    ensures
        r == shifted(v, d),
{
    let vu = v as u64;
    if d >= 0 {
        let du = d as u64;
        if du <= (usize::MAX as u64) - vu {
            Some((vu + du) as usize)
        } else {
            None
        }
    } else {
        let m = (-(d + 1)) as u64 + 1;
        if m <= vu {
            Some((vu - m) as usize)
        } else {
            None
        }
    }
}

/// A cell of the logical maze grid, indexed by row and column from zero.
#[derive(Clone, Copy, Debug, PartialEq, Eq, Structural)]
pub struct UnevenSlotCoordinate {
    pub row: usize,
    pub column: usize,
}

/// A slot of the expanded grid that holds both cells and the walls or
/// corridors between them.
#[derive(Clone, Copy, Debug, PartialEq, Eq, Structural)]
pub struct SlotCoordinate {
    pub row: usize,
    pub column: usize,
}

/// The logical coordinate reached by moving `(dr, dc)` from `p`, when both
/// axes stay non-negative and within `usize`.
pub open spec fn try_walk_spec(p: UnevenSlotCoordinate, dr: i64, dc: i64) -> Option<
    UnevenSlotCoordinate,
> {
    match (shifted(p.row, dr), shifted(p.column, dc)) {
        (Some(row), Some(column)) => Some(UnevenSlotCoordinate { row, column }),
        _ => None,
    }
}

/// The slot of the expanded grid at which a logical cell is drawn.
pub open spec fn expanded(p: UnevenSlotCoordinate) -> SlotCoordinate {
    SlotCoordinate { row: (1 + 2 * p.row) as usize, column: (1 + 2 * p.column) as usize }
}

/// Whether a logical coordinate can be converted to an expanded one without
/// leaving `usize`.
pub open spec fn expandable(p: UnevenSlotCoordinate) -> bool {
    1 + 2 * p.row <= usize::MAX && 1 + 2 * p.column <= usize::MAX
}

impl UnevenSlotCoordinate {
    pub fn new(row: usize, column: usize) -> (r: Self)
        ensures
            r == (UnevenSlotCoordinate { row, column }),
    {
        UnevenSlotCoordinate { row, column }
    }

    /// Moves by a signed delta on each axis; `None` when an axis would leave
    /// the unsigned coordinate space.
    pub fn try_walk(&self, row_delta: i64, column_delta: i64) -> (r: Option<Self>)
        ensures
            r == try_walk_spec(*self, row_delta, column_delta),
    {
        let row = shift(self.row, row_delta)?;
        let column = shift(self.column, column_delta)?;
        Some(UnevenSlotCoordinate { row, column })
    }

    /// Moves by a signed delta on each axis, which the caller guarantees to
    /// stay within the coordinate space.
    pub fn walk(&self, row_delta: i64, column_delta: i64) -> (r: Self)
        requires
            try_walk_spec(*self, row_delta, column_delta).is_some(),
        ensures
            r == try_walk_spec(*self, row_delta, column_delta).unwrap(),
    {
        match self.try_walk(row_delta, column_delta) {
            Some(c) => c,
            None => *self,
        }
    }
}

/// The expanded coordinate reached by moving `(dr, dc)` from `s`.
pub open spec fn slot_walk_spec(s: SlotCoordinate, dr: i64, dc: i64) -> Option<SlotCoordinate> {
    match (shifted(s.row, dr), shifted(s.column, dc)) {
        (Some(row), Some(column)) => Some(SlotCoordinate { row, column }),
        _ => None,
    }
}

impl SlotCoordinate {
    /// The slot at which a logical cell is drawn: `1 + 2 * x` on each axis.
    pub fn from(uneven_slot_coordinate: UnevenSlotCoordinate) -> (r: Self)
        requires
            expandable(uneven_slot_coordinate),
        ensures
            r == expanded(uneven_slot_coordinate),
    {
        SlotCoordinate {
            row: 1 + 2 * uneven_slot_coordinate.row,
            column: 1 + 2 * uneven_slot_coordinate.column,
        }
    }

    /// Moves by a signed delta on each axis, which the caller guarantees to
    /// stay within the coordinate space.
    pub fn walk(&self, row_delta: i64, column_delta: i64) -> (r: Self)
        requires
            slot_walk_spec(*self, row_delta, column_delta).is_some(),
        ensures
            r == slot_walk_spec(*self, row_delta, column_delta).unwrap(),
    {
        let row = match shift(self.row, row_delta) {
            Some(v) => v,
            None => self.row,
        };
        let column = match shift(self.column, column_delta) {
            Some(v) => v,
            None => self.column,
        };
        SlotCoordinate { row, column }
    }
}

} // verus!
