//! What it means for a field to be the finished result of a search, stated
//! cell by cell and without reference to the order in which cells were
//! visited.

use crate::direction::{compass, Direction};
use crate::field::{at, blank_cell, labelled, open_cell, shaped, source_cell, GravityMapCell};
use crate::terrain::{height_of, on_map, width_of};
use vstd::prelude::*;

verus! {

/// Whether the `i`-th source lies on `(x, y)`.
pub open spec fn lists(sources: Seq<(i32, i32, u32)>, i: int, x: int, y: int) -> bool {
    sources[i].0 == x && sources[i].1 == y
}

/// The index of the cheapest of the first `n` sources that lie on `(x, y)`,
/// the earliest of them where several are equally cheap, or `-1` if none of
/// the `n` lies there.
pub open spec fn best_listing(sources: Seq<(i32, i32, u32)>, n: nat, x: int, y: int) -> int
    decreases n,
{
    if n == 0 {
        -1
    } else {
        let before = best_listing(sources, (n - 1) as nat, x, y);
        if lists(sources, n - 1, x, y) && (before < 0 || sources[n - 1].2 < sources[before].2) {
            n - 1
        } else {
            before
        }
    }
}

/// Whether `(x, y)` is listed among the sources.
pub open spec fn is_source(sources: Seq<(i32, i32, u32)>, x: int, y: int) -> bool {
    best_listing(sources, sources.len(), x, y) >= 0
}

/// The starting distance of the source cell `(x, y)`: the least among its
/// listings.
pub open spec fn start_of(sources: Seq<(i32, i32, u32)>, x: int, y: int) -> u32 {
    sources[best_listing(sources, sources.len(), x, y)].2
}

/// Whether the labelled cell `(x, y)` points at a neighbour that is on the
/// map and labelled, with a distance exactly one below its own, and is
/// itself a cell that a unit may stand on.
pub open spec fn linked(
    land: Seq<Seq<bool>>,
    obstacles: Set<(i32, i32)>,
    cells: Seq<Seq<GravityMapCell>>,
    x: int,
    y: int,
) -> bool {
    let cell = at(cells, x, y);
    let heading = cell.direction->0;
    let px = x + heading.step_x();
    let py = y + heading.step_y();
    &&& cell.direction is Some
    &&& heading != Direction::Center
    &&& open_cell(land, obstacles, x, y)
    &&& on_map(land, px, py)
    &&& labelled(cells, px, py)
    &&& cell.distance == at(cells, px, py).distance + 1
}

/// Whether the record of `(x, y)` is one that a finished search leaves.
///
/// A cell without direction is blank. A cell that says `Center` is a source
/// and holds its starting distance, the least among its listings. Any other
/// cell is linked to a neighbour one step closer. A source is always
/// labelled, and never with more than its starting distance: where a
/// cheaper way leads from it to another source, it points along that way.
pub open spec fn explained(
    land: Seq<Seq<bool>>,
    obstacles: Set<(i32, i32)>,
    sources: Seq<(i32, i32, u32)>,
    cells: Seq<Seq<GravityMapCell>>,
    x: int,
    y: int,
) -> bool {
    let cell = at(cells, x, y);
    &&& match cell.direction {
        None => cell == blank_cell(),
        Some(Direction::Center) => is_source(sources, x, y) && cell == source_cell(
            start_of(sources, x, y),
        ),
        Some(_) => linked(land, obstacles, cells, x, y),
    }
    &&& is_source(sources, x, y) ==> cell.direction is Some && cell.distance <= start_of(
        sources,
        x,
        y,
    )
}

/// Whether the neighbour of `(x, y)` in the `k`-th direction, if open, is
/// labelled with a distance at most one above that of `(x, y)`.
pub open spec fn near(
    land: Seq<Seq<bool>>,
    obstacles: Set<(i32, i32)>,
    cells: Seq<Seq<GravityMapCell>>,
    x: int,
    y: int,
    k: int,
) -> bool {
    let nx = x + compass(k).step_x();
    let ny = y + compass(k).step_y();
    open_cell(land, obstacles, nx, ny) ==> labelled(cells, nx, ny) && at(cells, nx, ny).distance
        <= at(cells, x, y).distance + 1
}

/// Whether the first `n` neighbours of `(x, y)` are near it where open.
pub open spec fn snug(
    land: Seq<Seq<bool>>,
    obstacles: Set<(i32, i32)>,
    cells: Seq<Seq<GravityMapCell>>,
    x: int,
    y: int,
    n: int,
) -> bool {
    forall|k: int| 0 <= k < n ==> #[trigger] near(land, obstacles, cells, x, y, k)
}

/// Whether `cells` has the shape of the map and every record is explained.
pub open spec fn settled(
    land: Seq<Seq<bool>>,
    obstacles: Set<(i32, i32)>,
    sources: Seq<(i32, i32, u32)>,
    cells: Seq<Seq<GravityMapCell>>,
) -> bool {
    &&& shaped(cells, width_of(land), height_of(land))
    &&& forall|x: int, y: int|
        on_map(land, x, y) ==> #[trigger] explained(land, obstacles, sources, cells, x, y)
}

/// Whether every open neighbour of a labelled cell is labelled, with a
/// distance at most one above that of the cell: no step onto a neighbour
/// finds a cell that could be reached more cheaply through the cell stepped
/// from.
pub open spec fn level(
    land: Seq<Seq<bool>>,
    obstacles: Set<(i32, i32)>,
    cells: Seq<Seq<GravityMapCell>>,
) -> bool {
    forall|x: int, y: int|
        on_map(land, x, y) && labelled(cells, x, y) ==> #[trigger] snug(
            land,
            obstacles,
            cells,
            x,
            y,
            8,
        )
}

/// Whether the starting distances never fall along the list.
pub open spec fn rising_starts(sources: Seq<(i32, i32, u32)>) -> bool {
    forall|i: int, j: int|
        0 <= i <= j < sources.len() ==> (#[trigger] sources[i]).2 <= (#[trigger] sources[j]).2
}

/// What the index of the cheapest listing says about the list: it names a
/// listing of the cell, and no listing of the cell among the first `n` has
/// a smaller starting distance.
pub proof fn lemma_best_listing(sources: Seq<(i32, i32, u32)>, n: nat, x: int, y: int)
    requires
        n <= sources.len(),
    ensures
        -1 <= best_listing(sources, n, x, y) < n,
        best_listing(sources, n, x, y) >= 0 ==> lists(
            sources,
            best_listing(sources, n, x, y),
            x,
            y,
        ),
        forall|i: int|
            0 <= i < n && #[trigger] lists(sources, i, x, y) ==> best_listing(sources, n, x, y)
                >= 0 && sources[best_listing(sources, n, x, y)].2 <= sources[i].2,
    decreases n,
{
    if n > 0 {
        lemma_best_listing(sources, (n - 1) as nat, x, y);
    }
}

/// Every listing names a source cell whose starting distance is at most
/// that of the listing.
pub proof fn lemma_listing_counts(sources: Seq<(i32, i32, u32)>, i: int)
    requires
        0 <= i < sources.len(),
    ensures
        is_source(sources, sources[i].0 as int, sources[i].1 as int),
        start_of(sources, sources[i].0 as int, sources[i].1 as int) <= sources[i].2,
{
    lemma_best_listing(sources, sources.len(), sources[i].0 as int, sources[i].1 as int);
    assert(lists(sources, i, sources[i].0 as int, sources[i].1 as int));
}

} // verus!
