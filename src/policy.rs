//! The generation policy: which untouched neighbor the search moves to next,
//! with a bias toward continuing in a straight line.
use crate::coordinate::UnevenSlotCoordinate;
use crate::maze::Maze;
use crate::random::{random_below, random_ratio};
use rand::rngs::StdRng;
use vstd::prelude::*;

verus! {

/// The chance of keeping straight ahead, when that is possible, is
/// `STRAIGHT_CHANCE_NUMERATOR / STRAIGHT_CHANCE_DENOMINATOR`.
pub const STRAIGHT_CHANCE_NUMERATOR: u32 = 4;

pub const STRAIGHT_CHANCE_DENOMINATOR: u32 = 5;

/// The cell one step further along the line from `previous` through
/// `position`, when it is one of the untouched neighbors of `position`.
pub open spec fn straight_ahead(
    maze: &Maze,
    position: UnevenSlotCoordinate,
    previous: Option<UnevenSlotCoordinate>,
) -> Option<UnevenSlotCoordinate> {
    match previous {
        None => None,
        Some(prev) => {
            let row = 2 * position.row - prev.row;
            let column = 2 * position.column - prev.column;
            if 0 <= row && 0 <= column && maze.untouched_of(position).contains(
                UnevenSlotCoordinate { row: row as usize, column: column as usize },
            ) {
                Some(UnevenSlotCoordinate { row: row as usize, column: column as usize })
            } else {
                None
            }
        },
    }
}

/// The next cell given the candidate `options`, the straight-ahead cell, and
/// the outcome of the two random draws: whether to keep straight, and an
/// index among the options (taken modulo their number).
pub open spec fn choice(
    options: Seq<UnevenSlotCoordinate>,
    straight: Option<UnevenSlotCoordinate>,
    keep_straight: bool,
    pick: usize,
) -> Option<UnevenSlotCoordinate> {
    if options.len() == 0 {
        None
    } else if options.len() == 1 {
        Some(options[0])
    } else if keep_straight && straight.is_some() {
        straight
    } else {
        Some(options[pick as int % options.len() as int])
    }
}

/// Inputs on which the policy may be asked for a move: a well-formed grid, a
/// position inside it, and a previous position inside it if there is one.
pub open spec fn policy_input(
    maze: &Maze,
    position: UnevenSlotCoordinate,
    previous: Option<UnevenSlotCoordinate>,
) -> bool {
    &&& maze.wf()
    &&& maze.contains(position)
    &&& (previous matches Some(prev) ==> maze.contains(prev))
}

impl Maze {
    /// The straight-ahead cell among `options`, the untouched neighbors of
    /// `position`.
    fn straight_candidate(
        &self,
        position: &UnevenSlotCoordinate,
        previous: Option<UnevenSlotCoordinate>,
        options: &Vec<UnevenSlotCoordinate>,
    ) -> (r: Option<UnevenSlotCoordinate>)
        requires
            policy_input(self, *position, previous),
            options@ == self.untouched_of(*position),
        ensures
            r == straight_ahead(self, *position, previous),
    {
        match previous {
            None => None,
            Some(prev) => {
                assert(usize::MAX <= u64::MAX);
                assert(position.row < usize::MAX / 2 && prev.row < usize::MAX / 2);
                assert(position.column < usize::MAX / 2 && prev.column < usize::MAX / 2);
                let row_delta = position.row as i64 - prev.row as i64;
                let column_delta = position.column as i64 - prev.column as i64;
                match position.try_walk(row_delta, column_delta) {
                    None => None,
                    Some(candidate) => {
                        assert(candidate.row == 2 * position.row - prev.row);
                        assert(candidate.column == 2 * position.column - prev.column);
                        let mut i: usize = 0;
                        while i < options.len()
                            invariant
                                i <= options@.len(),
                                options@ == self.untouched_of(*position),
                                previous == Some(prev),
                                candidate.row == 2 * position.row - prev.row,
                                candidate.column == 2 * position.column - prev.column,
                                forall|j: int| 0 <= j < i ==> options@[j] != candidate,
                            decreases options@.len() - i,
                        {
                            if options[i] == candidate {
                                assert(options@[i as int] == candidate);
                                assert(self.untouched_of(*position).contains(candidate));
                                assert(candidate == UnevenSlotCoordinate {
                                    row: (2 * position.row - prev.row) as usize,
                                    column: (2 * position.column - prev.column) as usize,
                                });
                                return Some(candidate);
                            }
                            i = i + 1;
                        }
                        None
                    },
                }
            },
        }
    }

    /// The next cell of the search after drawing `keep_straight` and `pick`:
    /// `None` when `position` has no untouched neighbor, the only one when
    /// there is one, the straight-ahead cell when `keep_straight` is drawn and
    /// it is available, and otherwise the option at `pick` modulo their
    /// number.
    pub fn choose_next(
        &self,
        position: &UnevenSlotCoordinate,
        previous: Option<UnevenSlotCoordinate>,
        keep_straight: bool,
        pick: usize,
    ) -> (r: Option<UnevenSlotCoordinate>)
        requires
            policy_input(self, *position, previous),
        ensures
            r == choice(
                self.untouched_of(*position),
                straight_ahead(self, *position, previous),
                keep_straight,
                pick,
            ),
    {
        let options = self.untouched_neighbors(position);
        if options.len() == 0 {
            None
        } else if options.len() == 1 {
            Some(options[0])
        } else {
            let straight = self.straight_candidate(position, previous, &options);
            if keep_straight && straight.is_some() {
                straight
            } else {
                Some(options[pick % options.len()])
            }
        }
    }

    /// Draws what the policy needs from `rng` when `position` has several
    /// untouched neighbors: whether to keep straight, with chance four in
    /// five, and an index among the options, uniformly. With fewer options no
    /// draw is made.
    pub fn draw_choices(&self, position: &UnevenSlotCoordinate, rng: &mut StdRng) -> (r: (
        bool,
        usize,
    ))
        requires
            self.wf(),
            self.contains(*position),
        ensures
            self.untouched_of(*position).len() >= 2 ==> r.1 < self.untouched_of(*position).len(),
            self.untouched_of(*position).len() < 2 ==> r == (false, 0usize),
    {
        let count = self.untouched_neighbors(position).len();
        if count < 2 {
            (false, 0)
        } else {
            let keep_straight = random_ratio(
                rng,
                STRAIGHT_CHANCE_NUMERATOR,
                STRAIGHT_CHANCE_DENOMINATOR,
            );
            let pick = random_below(rng, count);
            (keep_straight, pick)
        }
    }

    /// Picks the next cell of the search from the untouched neighbors of
    /// `position`, drawing from `rng`: the straight-ahead cell, when there is
    /// one among several options, with chance four in five, and otherwise an
    /// option chosen uniformly. `None` exactly when no neighbor is untouched.
    pub fn get_next_random_untouched_position(
        &self,
        position: &UnevenSlotCoordinate,
        previous: Option<UnevenSlotCoordinate>,
        rng: &mut StdRng,
    ) -> (r: Option<UnevenSlotCoordinate>)
        requires
            policy_input(self, *position, previous),
        ensures
            exists|keep_straight: bool, pick: usize|
                r == choice(
                    self.untouched_of(*position),
                    straight_ahead(self, *position, previous),
                    keep_straight,
                    pick,
                ),
            r is None <==> self.untouched_of(*position).len() == 0,
            r matches Some(next) ==> self.untouched_of(*position).contains(next),
    {
        let (keep_straight, pick) = self.draw_choices(position, rng);
        let r = self.choose_next(position, previous, keep_straight, pick);
        proof {
            lemma_choice_is_an_option(
                self.untouched_of(*position),
                straight_ahead(self, *position, previous),
                keep_straight,
                pick,
            );
            lemma_straight_is_an_option(self, *position, previous);
        }
        r
    }
}

/// The straight-ahead cell, when there is one, is an untouched neighbor.
pub proof fn lemma_straight_is_an_option(
    maze: &Maze,
    position: UnevenSlotCoordinate,
    previous: Option<UnevenSlotCoordinate>,
)
    ensures
        straight_ahead(maze, position, previous) matches Some(s) ==> maze.untouched_of(
            position,
        ).contains(s),
{
}

/// The policy moves exactly when there is an option, and only to an option
/// or to the straight-ahead cell.
pub proof fn lemma_choice_is_an_option(
    options: Seq<UnevenSlotCoordinate>,
    straight: Option<UnevenSlotCoordinate>,
    keep_straight: bool,
    pick: usize,
)
    ensures
        choice(options, straight, keep_straight, pick) is None <==> options.len() == 0,
        choice(options, straight, keep_straight, pick) matches Some(next) ==> options.contains(next)
            || straight == Some(next),
{
    if options.len() > 0 {
        let i = pick as int % options.len() as int;
        assert(0 <= i < options.len());
        assert(options.contains(options[i]));
        assert(options.contains(options[0]));
    }
}

} // verus!
