//! The crucible puzzle: the least heat loss from the top-left cell of a grid
//! to its bottom-right cell, for a mover that must keep its heading for a
//! bounded run of cells.
use crate::grid::{is_parse_result, viewed, Coordinate, GridModel, ParseError};
use crate::route::{is_search_result, Rules};
use crate::search::{found, ConstrainedSearchEngine, SearchError};
use vstd::prelude::*;
use vstd::string::StringSliceAdditionalSpecFns;

verus! {

/// The rule of the puzzle's first part: runs of 1 to 3 cells.
pub open spec fn plain_rules() -> Rules {
    Rules { min_run: 1, max_run: 3, all_initial: false }
}

/// The rule of the puzzle's second part: runs of 4 to 10 cells.
pub open spec fn ultra_rules() -> Rules {
    Rules { min_run: 4, max_run: 10, all_initial: false }
}

/// Reads the puzzle's grid.
pub fn parse(input: &str) -> (r: Result<GridModel, ParseError>)
    ensures
        is_parse_result(input.spec_bytes(), viewed(r)),
        r matches Ok(g) ==> g@.wf(),
{
    GridModel::parse(input)
}

/// The least heat loss on a legal route from the top-left cell of `game` to
/// its bottom-right cell, under the rule of the second part where `part2` is
/// set and under that of the first part where it is not.
pub fn find_path(game: &GridModel, part2: bool) -> (r: Result<u64, SearchError>)
    ensures
        is_search_result(
            game@,
            if part2 {
                ultra_rules()
            } else {
                plain_rules()
            },
            (Coordinate { x: 0, y: 0 }),
            (Coordinate { x: (game@.width - 1) as i32, y: (game@.height - 1) as i32 }),
            found(r),
        ),
{
    let start = Coordinate { x: 0, y: 0 };
    let goal = game.bottom_right();
    let made = if part2 {
        ConstrainedSearchEngine::new(4, 10)
    } else {
        ConstrainedSearchEngine::new(1, 3)
    };
    match made {
        Ok(engine) => engine.find_min_cost(game, start, goal),
        Err(_) => Err(SearchError::NoPath),
    }
}

/// The answer to the first part.
pub fn part1(input: &GridModel) -> (r: Result<u64, SearchError>)
    ensures
        is_search_result(
            input@,
            plain_rules(),
            (Coordinate { x: 0, y: 0 }),
            (Coordinate { x: (input@.width - 1) as i32, y: (input@.height - 1) as i32 }),
            found(r),
        ),
{
    find_path(input, false)
}

/// The answer to the second part.
pub fn part2(input: &GridModel) -> (r: Result<u64, SearchError>)
    ensures
        is_search_result(
            input@,
            ultra_rules(),
            (Coordinate { x: 0, y: 0 }),
            (Coordinate { x: (input@.width - 1) as i32, y: (input@.height - 1) as i32 }),
            found(r),
        ),
{
    find_path(input, true)
}

} // verus!
