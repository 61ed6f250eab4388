//! The gravity field as a mathematical object.
//!
//! A field assigns to every cell of the map the first step of a route to a
//! resource and the cost of that route. This module defines the cell type and
//! the search that produces a field from the terrain, the obstacles and the
//! list of sources, as specification functions.

use crate::direction::{compass, Direction};
use crate::terrain::{height_of, on_map, width_of};
use vstd::prelude::*;

verus! {

/// What the field records for one cell.
///
/// `direction` is `None` while no source is known to be reachable from the
/// cell, `Some(Center)` on a source that nothing cheaper can be reached
/// from, and otherwise the heading of the first step towards a source.
/// `distance` is the cost of the route: its steps plus the starting distance
/// of the source it ends on.
#[derive(Clone, Copy, Debug, PartialEq, Eq)]
pub struct GravityMapCell {
    pub direction: Option<Direction>,
    pub distance: u64,
}

impl Default for GravityMapCell {
    fn default() -> (cell: GravityMapCell)
        ensures
            cell == blank_cell(),
    {
        GravityMapCell { direction: None, distance: 0 }
    }
}

/// The record of a cell that no search has reached.
pub open spec fn blank_cell() -> GravityMapCell {
    GravityMapCell { direction: None, distance: 0 }
}

/// The record of a source with the given starting distance.
pub open spec fn source_cell(start: u32) -> GravityMapCell {
    GravityMapCell { direction: Some(Direction::Center), distance: start as u64 }
}

/// The record at `(x, y)` of a field stored row by row.
pub open spec fn at(cells: Seq<Seq<GravityMapCell>>, x: int, y: int) -> GravityMapCell {
    cells[y][x]
}

/// Whether the field has a direction for `(x, y)`.
pub open spec fn labelled(cells: Seq<Seq<GravityMapCell>>, x: int, y: int) -> bool {
    at(cells, x, y).direction is Some
}

/// Whether `cells` has `height` rows of `width` records each.
pub open spec fn shaped(cells: Seq<Seq<GravityMapCell>>, width: int, height: int) -> bool {
    &&& cells.len() == height
    &&& forall|y: int| 0 <= y < height ==> (#[trigger] cells[y]).len() == width
}

/// The field in which no cell is labelled.
pub open spec fn blank_field(width: int, height: int) -> Seq<Seq<GravityMapCell>> {
    Seq::new(height as nat, |y: int| Seq::new(width as nat, |x: int| blank_cell()))
}

/// The field that records `cell` at `(x, y)` and is otherwise `cells`.
pub open spec fn mark(cells: Seq<Seq<GravityMapCell>>, x: int, y: int, cell: GravityMapCell) -> Seq<
    Seq<GravityMapCell>,
> {
    cells.update(y, cells[y].update(x, cell))
}

/// Whether a unit may stand on `(x, y)` on its way to a source: the cell is
/// on the map, passable, and not occupied by an obstacle.
pub open spec fn open_cell(
    land: Seq<Seq<bool>>,
    obstacles: Set<(i32, i32)>,
    x: int,
    y: int,
) -> bool {
    on_map(land, x, y) && land[y][x] && !obstacles.contains((x as i32, y as i32))
}

/// Whether every source lies on the map.
pub open spec fn sources_on_map(land: Seq<Seq<bool>>, sources: Seq<(i32, i32, u32)>) -> bool {
    forall|i: int|
        0 <= i < sources.len() ==> on_map(land, (#[trigger] sources[i]).0 as int, sources[i].1 as int)
}

/// The state of a search: the field built so far and the cells that wait to
/// have their neighbours examined, oldest first.
pub struct Search {
    pub cells: Seq<Seq<GravityMapCell>>,
    pub pending: Seq<(i32, i32)>,
}

/// Whether the listing `(x, y, start)` enters the search: the cell has no
/// label yet, or one with a distance above `start`.
pub open spec fn enters(cells: Seq<Seq<GravityMapCell>>, x: int, y: int, start: u32) -> bool {
    !labelled(cells, x, y) || at(cells, x, y).distance > start
}

/// The search state after the first `n` sources have been gone through, in
/// the order of the list: a listing that enters is recorded with its
/// starting distance and queued, any other is passed over. So a cell that
/// is listed more than once enters with the least of its starting
/// distances.
pub open spec fn seed(cells: Seq<Seq<GravityMapCell>>, sources: Seq<(i32, i32, u32)>, n: nat) -> Search
    decreases n,
{
    if n == 0 {
        Search { cells, pending: Seq::empty() }
    } else {
        let before = seed(cells, sources, (n - 1) as nat);
        let (x, y, start) = sources[n - 1];
        if enters(before.cells, x as int, y as int, start) {
            Search {
                cells: mark(before.cells, x as int, y as int, source_cell(start)),
                pending: before.pending.push((x, y)),
            }
        } else {
            before
        }
    }
}

/// Whether examining the neighbour of `(x, y)` in the `k`-th direction of
/// the examination order records something: the neighbour is open, and it
/// has no label yet or one with a distance more than one above that of
/// `(x, y)`.
pub open spec fn claims(
    s: Search,
    land: Seq<Seq<bool>>,
    obstacles: Set<(i32, i32)>,
    x: int,
    y: int,
    k: int,
) -> bool {
    let nx = x + compass(k).step_x();
    let ny = y + compass(k).step_y();
    open_cell(land, obstacles, nx, ny) && (!labelled(s.cells, nx, ny) || at(s.cells, nx, ny).distance
        > at(s.cells, x, y).distance + 1)
}

/// Examines the neighbour of `(x, y)` in the `k`-th direction of the
/// examination order. An open neighbour that has no label, or a label with
/// a distance more than one above that of `(x, y)`, is labelled with the
/// heading back to `(x, y)` and one more than the distance of `(x, y)`, and
/// queued: a cheaper way to it has been found. Any other neighbour is left
/// alone.
pub open spec fn probe(
    s: Search,
    land: Seq<Seq<bool>>,
    obstacles: Set<(i32, i32)>,
    x: int,
    y: int,
    k: int,
) -> Search {
    let heading = compass(k);
    let nx = x + heading.step_x();
    let ny = y + heading.step_y();
    if claims(s, land, obstacles, x, y, k) {
        let cell = GravityMapCell {
            direction: Some(heading.reverse()),
            distance: (at(s.cells, x, y).distance + 1) as u64,
        };
        Search { cells: mark(s.cells, nx, ny, cell), pending: s.pending.push((nx as i32, ny as i32)) }
    } else {
        s
    }
}

/// The search state after the first `n` neighbours of `(x, y)` have been
/// examined.
pub open spec fn expand(
    s: Search,
    land: Seq<Seq<bool>>,
    obstacles: Set<(i32, i32)>,
    x: int,
    y: int,
    n: nat,
) -> Search
    decreases n,
{
    if n == 0 {
        s
    } else {
        probe(expand(s, land, obstacles, x, y, (n - 1) as nat), land, obstacles, x, y, n - 1)
    }
}

/// One round of the search: the oldest pending cell leaves the queue and its
/// eight neighbours are examined. With nothing pending the state stays as it
/// is.
pub open spec fn advance(s: Search, land: Seq<Seq<bool>>, obstacles: Set<(i32, i32)>) -> Search {
    if s.pending.len() == 0 {
        s
    } else {
        let first = s.pending[0];
        let rest = Search { cells: s.cells, pending: s.pending.drop_first() };
        expand(rest, land, obstacles, first.0 as int, first.1 as int, 8)
    }
}

/// The search state after `rounds` rounds.
pub open spec fn run(s: Search, land: Seq<Seq<bool>>, obstacles: Set<(i32, i32)>, rounds: nat) -> Search
    decreases rounds,
{
    if rounds == 0 {
        s
    } else {
        advance(run(s, land, obstacles, (rounds - 1) as nat), land, obstacles)
    }
}

/// The search state once every source has been entered.
pub open spec fn seeded(land: Seq<Seq<bool>>, sources: Seq<(i32, i32, u32)>) -> Search {
    seed(blank_field(width_of(land), height_of(land)), sources, sources.len())
}

/// A distance that no search on this map exceeds: the largest starting
/// distance there can be, and one step for every cell.
pub open spec fn distance_cap(land: Seq<Seq<bool>>) -> int {
    u32::MAX + width_of(land) * height_of(land)
}

/// A number of rounds after which nothing is pending: every round takes one
/// cell from the queue, and a cell enters the queue only as a source or when
/// its label is set to a distance below the one it had.
pub open spec fn enough_rounds(land: Seq<Seq<bool>>, sources: Seq<(i32, i32, u32)>) -> nat {
    (sources.len() + height_of(land) * (width_of(land) * (distance_cap(land) + 1))) as nat
}

/// The gravity field of a map: the result of entering the sources in the
/// order given and running the search until nothing is pending. Among routes
/// of equal cost the order of the sources and the examination order decide
/// which one a cell points along.
pub open spec fn gravity_field(
    land: Seq<Seq<bool>>,
    obstacles: Set<(i32, i32)>,
    sources: Seq<(i32, i32, u32)>,
) -> Seq<Seq<GravityMapCell>> {
    run(seeded(land, sources), land, obstacles, enough_rounds(land, sources)).cells
}

} // verus!
