//! Routes through a field: what a unit finds when it follows the recorded
//! directions, and how the recorded distance compares with every route that
//! exists on the map.

use crate::direction::{compass, Direction};
use crate::field::{
    at, enough_rounds, gravity_field, labelled, open_cell, run, seeded, sources_on_map,
    GravityMapCell,
};
use crate::search_proof::{lemma_finished, lemma_rounds_suffice};
use crate::settled::{
    best_listing, explained, is_source, lemma_best_listing, lemma_listing_counts,
    level, linked, near, settled, snug, start_of,
};
use crate::terrain::{is_land, on_map};
use vstd::prelude::*;

verus! {

/// The cell that the record of `p` points at; `p` itself where the record
/// has no direction or says `Center`.
pub open spec fn follow(cells: Seq<Seq<GravityMapCell>>, p: (int, int)) -> (int, int) {
    match at(cells, p.0, p.1).direction {
        Some(heading) => (p.0 + heading.step_x(), p.1 + heading.step_y()),
        None => p,
    }
}

/// The cell reached from `p` by following the recorded directions `n` times.
pub open spec fn trail(cells: Seq<Seq<GravityMapCell>>, p: (int, int), n: nat) -> (int, int)
    decreases n,
{
    if n == 0 {
        p
    } else {
        trail(cells, follow(cells, p), (n - 1) as nat)
    }
}

/// Whether one step in one of the eight directions leads from `a` to `b`.
pub open spec fn touching(a: (int, int), b: (int, int)) -> bool {
    &&& a != b
    &&& -1 <= a.0 - b.0 <= 1
    &&& -1 <= a.1 - b.1 <= 1
}

/// Whether `route` is a walk that a unit can make: each cell but the last is
/// open, each step leads to one of the eight neighbours, and the last cell
/// is on the map. The last cell, where the resource lies, need not be open.
pub open spec fn is_route(land: Seq<Seq<bool>>, obstacles: Set<(i32, i32)>, route: Seq<(int, int)>) -> bool {
    &&& route.len() >= 1
    &&& on_map(land, route.last().0, route.last().1)
    &&& forall|i: int|
        0 <= i < route.len() - 1 ==> open_cell(land, obstacles, (#[trigger] route[i]).0, route[i].1)
            && touching(route[i], route[i + 1])
}

/// Whether `route` leads from `(x, y)` to `(ex, ey)`.
pub open spec fn reaches(
    land: Seq<Seq<bool>>,
    obstacles: Set<(i32, i32)>,
    route: Seq<(int, int)>,
    x: int,
    y: int,
    ex: int,
    ey: int,
) -> bool {
    &&& is_route(land, obstacles, route)
    &&& route[0] == (x, y)
    &&& route.last() == (ex, ey)
}

/// Whether `route` leads from `(x, y)` to the `i`-th source.
pub open spec fn leads_to(
    land: Seq<Seq<bool>>,
    obstacles: Set<(i32, i32)>,
    sources: Seq<(i32, i32, u32)>,
    route: Seq<(int, int)>,
    x: int,
    y: int,
    i: int,
) -> bool {
    &&& 0 <= i < sources.len()
    &&& reaches(land, obstacles, route, x, y, sources[i].0 as int, sources[i].1 as int)
}

/// Whether two lists of sources name the same cells and every cell enters
/// the search with the same starting distance under both.
pub open spec fn same_starts(a: Seq<(i32, i32, u32)>, b: Seq<(i32, i32, u32)>) -> bool {
    forall|x: int, y: int|
        (#[trigger] is_source(a, x, y)) == is_source(b, x, y) && (is_source(a, x, y) ==> start_of(
            a,
            x,
            y,
        ) == start_of(b, x, y))
}

/// The cost of walking `route` to a source with starting distance `start`:
/// the number of steps plus the wait.
pub open spec fn route_cost(route: Seq<(int, int)>, start: u32) -> int {
    route.len() - 1 + start
}

/// The field that the search computes is settled and level, whatever the
/// sources.
pub proof fn lemma_field_settled(
    land: Seq<Seq<bool>>,
    obstacles: Set<(i32, i32)>,
    sources: Seq<(i32, i32, u32)>,
)
    requires
        is_land(land),
        sources_on_map(land, sources),
    ensures
        settled(land, obstacles, sources, gravity_field(land, obstacles, sources)),
        level(land, obstacles, gravity_field(land, obstacles, sources)),
{
    let end = run(seeded(land, sources), land, obstacles, enough_rounds(land, sources));
    lemma_rounds_suffice(land, obstacles, sources);
    lemma_finished(land, obstacles, sources, end);
}

/// Following the recorded directions from a labelled cell leads to a source
/// and never runs longer than the recorded distance.
///
/// The walk takes `steps` steps. With every step the recorded distance falls
/// by exactly one; every cell walked over before the source is open, so none
/// of them holds an obstacle; the walk ends on a cell whose record says
/// `Center`, which is a source; and the distance recorded at the start is
/// `steps` plus the starting distance recorded for that source.
pub proof fn lemma_trail_descends(
    land: Seq<Seq<bool>>,
    obstacles: Set<(i32, i32)>,
    sources: Seq<(i32, i32, u32)>,
    cells: Seq<Seq<GravityMapCell>>,
    x: int,
    y: int,
) -> (steps: nat)
    requires
        settled(land, obstacles, sources, cells),
        on_map(land, x, y),
        labelled(cells, x, y),
    ensures
        steps <= at(cells, x, y).distance,
        forall|i: nat|
            i <= steps ==> {
                let p = #[trigger] trail(cells, (x, y), i);
                &&& on_map(land, p.0, p.1)
                &&& labelled(cells, p.0, p.1)
                &&& at(cells, p.0, p.1).distance + i == at(cells, x, y).distance
            },
        forall|i: nat|
            i < steps ==> {
                let p = #[trigger] trail(cells, (x, y), i);
                &&& open_cell(land, obstacles, p.0, p.1)
                &&& at(cells, p.0, p.1).direction != Some(Direction::Center)
                &&& touching(p, trail(cells, (x, y), i + 1))
            },
        ({
            let end = trail(cells, (x, y), steps);
            &&& at(cells, end.0, end.1).direction == Some(Direction::Center)
            &&& is_source(sources, end.0, end.1)
            &&& at(cells, x, y).distance == steps + start_of(sources, end.0, end.1)
        }),
    decreases at(cells, x, y).distance,
{
    assert(explained(land, obstacles, sources, cells, x, y));
    if at(cells, x, y).direction == Some(Direction::Center) {
        assert(trail(cells, (x, y), 0) == (x, y));
        assert forall|i: nat| i <= 0 implies {
            let p = #[trigger] trail(cells, (x, y), i);
            &&& on_map(land, p.0, p.1)
            &&& labelled(cells, p.0, p.1)
            &&& at(cells, p.0, p.1).distance + i == at(cells, x, y).distance
        } by {
            assert(i == 0);
        }
        0
    } else {
        assert(linked(land, obstacles, cells, x, y));
        let next = follow(cells, (x, y));
        let rest = lemma_trail_descends(land, obstacles, sources, cells, next.0, next.1);
        let steps = rest + 1;
        assert forall|i: nat| i <= steps implies {
            let p = #[trigger] trail(cells, (x, y), i);
            &&& on_map(land, p.0, p.1)
            &&& labelled(cells, p.0, p.1)
            &&& at(cells, p.0, p.1).distance + i == at(cells, x, y).distance
        } by {
            if i > 0 {
                assert(trail(cells, (x, y), i) == trail(cells, next, (i - 1) as nat));
            }
        }
        assert forall|i: nat| i < steps implies {
            let p = #[trigger] trail(cells, (x, y), i);
            &&& open_cell(land, obstacles, p.0, p.1)
            &&& at(cells, p.0, p.1).direction != Some(Direction::Center)
            &&& touching(p, trail(cells, (x, y), i + 1))
        } by {
            assert(trail(cells, (x, y), i + 1) == trail(cells, next, i));
            if i > 0 {
                assert(trail(cells, (x, y), i) == trail(cells, next, (i - 1) as nat));
                assert(trail(cells, next, ((i - 1) as nat) + 1) == trail(cells, next, i));
            } else {
                assert(trail(cells, next, 0) == next);
            }
        }
        assert(trail(cells, (x, y), steps) == trail(cells, next, rest));
        steps
    }
}

/// Where no source has a starting distance above zero, following the
/// recorded directions from a labelled cell reaches a source after exactly as
/// many steps as the distance recorded for the cell, and not before.
pub proof fn lemma_trail_takes_distance_steps(
    land: Seq<Seq<bool>>,
    obstacles: Set<(i32, i32)>,
    sources: Seq<(i32, i32, u32)>,
    cells: Seq<Seq<GravityMapCell>>,
    x: int,
    y: int,
)
    requires
        settled(land, obstacles, sources, cells),
        on_map(land, x, y),
        labelled(cells, x, y),
        forall|i: int| 0 <= i < sources.len() ==> (#[trigger] sources[i]).2 == 0,
    ensures
        ({
            let end = trail(cells, (x, y), at(cells, x, y).distance as nat);
            at(cells, end.0, end.1).direction == Some(Direction::Center)
        }),
        forall|i: nat|
            i < at(cells, x, y).distance ==> {
                let p = #[trigger] trail(cells, (x, y), i);
                at(cells, p.0, p.1).direction != Some(Direction::Center)
            },
{
    let steps = lemma_trail_descends(land, obstacles, sources, cells, x, y);
    let end = trail(cells, (x, y), steps);
    lemma_best_listing(sources, sources.len(), end.0, end.1);
}

/// No cell that a unit walks over on its way along the recorded directions
/// holds an obstacle; only the source at the end may.
pub proof fn lemma_trail_avoids_obstacles(
    land: Seq<Seq<bool>>,
    obstacles: Set<(i32, i32)>,
    sources: Seq<(i32, i32, u32)>,
    cells: Seq<Seq<GravityMapCell>>,
    x: int,
    y: int,
    i: nat,
)
    requires
        settled(land, obstacles, sources, cells),
        on_map(land, x, y),
        labelled(cells, x, y),
        at(cells, trail(cells, (x, y), i).0, trail(cells, (x, y), i).1).direction != Some(
            Direction::Center,
        ),
    ensures
        !obstacles.contains((trail(cells, (x, y), i).0 as i32, trail(cells, (x, y), i).1 as i32)),
        on_map(land, trail(cells, (x, y), i).0, trail(cells, (x, y), i).1),
        land[trail(cells, (x, y), i).1][trail(cells, (x, y), i).0],
    decreases i,
{
    assert(explained(land, obstacles, sources, cells, x, y));
    if at(cells, x, y).direction == Some(Direction::Center) {
        lemma_trail_rests(cells, (x, y), i);
    } else {
        assert(linked(land, obstacles, cells, x, y));
        if i > 0 {
            let next = follow(cells, (x, y));
            lemma_trail_avoids_obstacles(land, obstacles, sources, cells, next.0, next.1, (i - 1) as nat);
        }
    }
}

/// A cell that holds an obstacle is labelled only if it is a source: no
/// route to a resource leads over it.
pub proof fn lemma_obstacle_is_no_hop(
    land: Seq<Seq<bool>>,
    obstacles: Set<(i32, i32)>,
    sources: Seq<(i32, i32, u32)>,
    cells: Seq<Seq<GravityMapCell>>,
    x: int,
    y: int,
)
    requires
        settled(land, obstacles, sources, cells),
        on_map(land, x, y),
        obstacles.contains((x as i32, y as i32)) || !land[y][x],
        !is_source(sources, x, y),
    ensures
        at(cells, x, y).direction is None,
{
    assert(explained(land, obstacles, sources, cells, x, y));
}

/// A trail that starts on a cell marked `Center` stays there.
pub proof fn lemma_trail_rests(cells: Seq<Seq<GravityMapCell>>, p: (int, int), n: nat)
    requires
        at(cells, p.0, p.1).direction == Some(Direction::Center),
    ensures
        trail(cells, p, n) == p,
    decreases n,
{
    if n > 0 {
        assert(follow(cells, p) == p);
        lemma_trail_rests(cells, p, (n - 1) as nat);
    }
}

/// A cell that touches another is its neighbour in one of the eight
/// directions of the examination order.
pub proof fn lemma_touching(a: (int, int), b: (int, int)) -> (k: int)
    requires
        touching(a, b),
    ensures
        0 <= k < 8,
        a.0 == b.0 + compass(k).step_x(),
        a.1 == b.1 + compass(k).step_y(),
{
    let dx = a.0 - b.0;
    let dy = a.1 - b.1;
    if dx == 0 && dy == 1 {
        0
    } else if dx == 0 && dy == -1 {
        1
    } else if dx == 1 && dy == 0 {
        2
    } else if dx == -1 && dy == 0 {
        3
    } else if dx == 1 && dy == 1 {
        4
    } else if dx == -1 && dy == -1 {
        5
    } else if dx == 1 && dy == -1 {
        6
    } else {
        7
    }
}

/// Every cell from which a route leads to a source is labelled.
pub proof fn lemma_reachable_is_labelled(
    land: Seq<Seq<bool>>,
    obstacles: Set<(i32, i32)>,
    sources: Seq<(i32, i32, u32)>,
    cells: Seq<Seq<GravityMapCell>>,
    route: Seq<(int, int)>,
    x: int,
    y: int,
    i: int,
)
    requires
        settled(land, obstacles, sources, cells),
        level(land, obstacles, cells),
        leads_to(land, obstacles, sources, route, x, y, i),
    ensures
        on_map(land, x, y),
        labelled(cells, x, y),
{
    let ex = sources[i].0 as int;
    let ey = sources[i].1 as int;
    lemma_listing_counts(sources, i);
    lemma_distance_is_within(land, obstacles, sources, cells, route, x, y, ex, ey);
}

/// The distance recorded for a labelled cell is the cost of a route that
/// exists: a route leads from the cell to one of the listed sources, and its
/// steps plus the starting distance of that listing, the cheapest of its
/// cell, are the recorded distance.
pub proof fn lemma_label_has_route(
    land: Seq<Seq<bool>>,
    obstacles: Set<(i32, i32)>,
    sources: Seq<(i32, i32, u32)>,
    cells: Seq<Seq<GravityMapCell>>,
    x: int,
    y: int,
) -> (found: (Seq<(int, int)>, int))
    requires
        settled(land, obstacles, sources, cells),
        on_map(land, x, y),
        labelled(cells, x, y),
    ensures
        leads_to(land, obstacles, sources, found.0, x, y, found.1),
        found.1 == best_listing(sources, sources.len(), found.0.last().0, found.0.last().1),
        at(cells, x, y).distance == route_cost(found.0, sources[found.1].2),
    decreases at(cells, x, y).distance,
{
    assert(explained(land, obstacles, sources, cells, x, y));
    if at(cells, x, y).direction == Some(Direction::Center) {
        lemma_best_listing(sources, sources.len(), x, y);
        let route = seq![(x, y)];
        (route, best_listing(sources, sources.len(), x, y))
    } else {
        assert(linked(land, obstacles, cells, x, y));
        let next = follow(cells, (x, y));
        let (rest, i) = lemma_label_has_route(land, obstacles, sources, cells, next.0, next.1);
        let route = seq![(x, y)] + rest;
        assert(route.last() == rest.last());
        assert forall|j: int| 0 <= j < route.len() - 1 implies open_cell(
            land,
            obstacles,
            (#[trigger] route[j]).0,
            route[j].1,
        ) && touching(route[j], route[j + 1]) by {
            if j > 0 {
                assert(route[j] == rest[j - 1]);
                assert(route[j + 1] == rest[j]);
            } else {
                assert(route[1] == rest[0]);
            }
        }
        (route, i)
    }
}

/// No route to a source is cheaper than the recorded distance: whatever
/// route leads from a cell to a source cell, the cell is labelled and its
/// distance is at most the steps of the route plus the starting distance
/// with which that source entered the search.
pub proof fn lemma_distance_is_within(
    land: Seq<Seq<bool>>,
    obstacles: Set<(i32, i32)>,
    sources: Seq<(i32, i32, u32)>,
    cells: Seq<Seq<GravityMapCell>>,
    route: Seq<(int, int)>,
    x: int,
    y: int,
    ex: int,
    ey: int,
)
    requires
        settled(land, obstacles, sources, cells),
        level(land, obstacles, cells),
        reaches(land, obstacles, route, x, y, ex, ey),
        is_source(sources, ex, ey),
    ensures
        on_map(land, x, y),
        labelled(cells, x, y),
        at(cells, x, y).distance <= route.len() - 1 + start_of(sources, ex, ey),
    decreases route.len(),
{
    if route.len() == 1 {
        assert(explained(land, obstacles, sources, cells, x, y));
    } else {
        let rest = route.drop_first();
        assert(rest.last() == route.last());
        assert forall|j: int| 0 <= j < rest.len() - 1 implies open_cell(
            land,
            obstacles,
            (#[trigger] rest[j]).0,
            rest[j].1,
        ) && touching(rest[j], rest[j + 1]) by {
            assert(rest[j] == route[j + 1]);
            assert(rest[j + 1] == route[j + 2]);
        }
        let next = route[1];
        assert(rest[0] == next);
        lemma_distance_is_within(land, obstacles, sources, cells, rest, next.0, next.1, ex, ey);
        assert(route[0] == (x, y));
        assert(touching(route[0], route[1]));
        let k = lemma_touching((x, y), next);
        assert(snug(land, obstacles, cells, next.0, next.1, 8));
        assert(near(land, obstacles, cells, next.0, next.1, k));
    }
}

/// No route to a listed source is cheaper than the recorded distance:
/// whatever route leads from a cell to a listed source, the cell is labelled
/// and its distance is at most the steps of the route plus the starting
/// distance of that listing.
pub proof fn lemma_distance_is_least(
    land: Seq<Seq<bool>>,
    obstacles: Set<(i32, i32)>,
    sources: Seq<(i32, i32, u32)>,
    cells: Seq<Seq<GravityMapCell>>,
    route: Seq<(int, int)>,
    x: int,
    y: int,
    i: int,
)
    requires
        settled(land, obstacles, sources, cells),
        level(land, obstacles, cells),
        leads_to(land, obstacles, sources, route, x, y, i),
    ensures
        on_map(land, x, y),
        labelled(cells, x, y),
        at(cells, x, y).distance <= route_cost(route, sources[i].2),
{
    lemma_listing_counts(sources, i);
    lemma_distance_is_within(
        land,
        obstacles,
        sources,
        cells,
        route,
        x,
        y,
        sources[i].0 as int,
        sources[i].1 as int,
    );
}

/// Every listed source is labelled, with a distance of at most the
/// starting distance of the listing.
pub proof fn lemma_source_is_within_its_start(
    land: Seq<Seq<bool>>,
    obstacles: Set<(i32, i32)>,
    sources: Seq<(i32, i32, u32)>,
    cells: Seq<Seq<GravityMapCell>>,
    i: int,
)
    requires
        settled(land, obstacles, sources, cells),
        0 <= i < sources.len(),
        on_map(land, sources[i].0 as int, sources[i].1 as int),
    ensures
        labelled(cells, sources[i].0 as int, sources[i].1 as int),
        at(cells, sources[i].0 as int, sources[i].1 as int).distance <= sources[i].2,
{
    lemma_listing_counts(sources, i);
    assert(explained(land, obstacles, sources, cells, sources[i].0 as int, sources[i].1 as int));
}

/// The labels and distances of a field depend on the sources only through
/// the cells they name and the starting distance with which each cell
/// enters the search: two fields for the same map and obstacles whose
/// sources agree in that label the same cells and record the same
/// distances, in whatever order the sources were listed. The headings may
/// differ where two routes cost the same.
pub proof fn lemma_costs_follow_starts(
    land: Seq<Seq<bool>>,
    obstacles: Set<(i32, i32)>,
    one: Seq<(i32, i32, u32)>,
    other: Seq<(i32, i32, u32)>,
    cells: Seq<Seq<GravityMapCell>>,
    others: Seq<Seq<GravityMapCell>>,
    x: int,
    y: int,
)
    requires
        settled(land, obstacles, one, cells),
        level(land, obstacles, cells),
        settled(land, obstacles, other, others),
        level(land, obstacles, others),
        same_starts(one, other),
        on_map(land, x, y),
    ensures
        labelled(cells, x, y) == labelled(others, x, y),
        at(cells, x, y).distance == at(others, x, y).distance,
{
    assert(explained(land, obstacles, one, cells, x, y));
    assert(explained(land, obstacles, other, others, x, y));
    if labelled(cells, x, y) {
        let found = lemma_label_has_route(land, obstacles, one, cells, x, y);
        let end = found.0.last();
        assert(is_source(one, end.0, end.1));
        lemma_distance_is_within(land, obstacles, other, others, found.0, x, y, end.0, end.1);
    }
    if labelled(others, x, y) {
        let found = lemma_label_has_route(land, obstacles, other, others, x, y);
        let end = found.0.last();
        assert(is_source(other, end.0, end.1));
        assert(is_source(one, end.0, end.1));
        lemma_distance_is_within(land, obstacles, one, cells, found.0, x, y, end.0, end.1);
    }
}

/// The gravity field records the least cost, whatever the sources: no route
/// from a cell to a listed source costs less than the distance recorded for
/// the cell, and every cell from which such a route exists is labelled.
/// With `lemma_field_cost_is_attained` this makes the recorded distance the
/// minimum, over all listed sources and all routes to them, of the steps of
/// the route plus the starting distance of the source.
pub proof fn lemma_field_is_cheapest(
    land: Seq<Seq<bool>>,
    obstacles: Set<(i32, i32)>,
    sources: Seq<(i32, i32, u32)>,
    route: Seq<(int, int)>,
    x: int,
    y: int,
    i: int,
)
    requires
        is_land(land),
        sources_on_map(land, sources),
        leads_to(land, obstacles, sources, route, x, y, i),
    ensures
        labelled(gravity_field(land, obstacles, sources), x, y),
        at(gravity_field(land, obstacles, sources), x, y).distance <= route_cost(
            route,
            sources[i].2,
        ),
{
    lemma_field_settled(land, obstacles, sources);
    lemma_distance_is_least(
        land,
        obstacles,
        sources,
        gravity_field(land, obstacles, sources),
        route,
        x,
        y,
        i,
    );
}

/// The distance that the gravity field records for a labelled cell is the
/// cost of a route that exists, whatever the starting distances.
pub proof fn lemma_field_cost_is_attained(
    land: Seq<Seq<bool>>,
    obstacles: Set<(i32, i32)>,
    sources: Seq<(i32, i32, u32)>,
    x: int,
    y: int,
) -> (found: (Seq<(int, int)>, int))
    requires
        is_land(land),
        sources_on_map(land, sources),
        on_map(land, x, y),
        labelled(gravity_field(land, obstacles, sources), x, y),
    ensures
        leads_to(land, obstacles, sources, found.0, x, y, found.1),
        at(gravity_field(land, obstacles, sources), x, y).distance == route_cost(
            found.0,
            sources[found.1].2,
        ),
{
    lemma_field_settled(land, obstacles, sources);
    lemma_label_has_route(land, obstacles, sources, gravity_field(land, obstacles, sources), x, y)
}

/// A cell of the gravity field is labelled exactly when a route leads from
/// it to a listed source. A cell that obstacles or terrain cut off from
/// every source has no direction.
pub proof fn lemma_field_labels_the_reachable(
    land: Seq<Seq<bool>>,
    obstacles: Set<(i32, i32)>,
    sources: Seq<(i32, i32, u32)>,
    x: int,
    y: int,
)
    requires
        is_land(land),
        sources_on_map(land, sources),
        on_map(land, x, y),
    ensures
        labelled(gravity_field(land, obstacles, sources), x, y) <==> exists|
            route: Seq<(int, int)>,
            i: int,
        | #[trigger] leads_to(land, obstacles, sources, route, x, y, i),
{
    let cells = gravity_field(land, obstacles, sources);
    lemma_field_settled(land, obstacles, sources);
    if labelled(cells, x, y) {
        let found = lemma_label_has_route(land, obstacles, sources, cells, x, y);
        assert(leads_to(land, obstacles, sources, found.0, x, y, found.1));
    }
    if exists|route: Seq<(int, int)>, i: int| #[trigger]
        leads_to(land, obstacles, sources, route, x, y, i) {
        let (route, i) = choose|route: Seq<(int, int)>, i: int| #[trigger]
            leads_to(land, obstacles, sources, route, x, y, i);
        lemma_reachable_is_labelled(land, obstacles, sources, cells, route, x, y, i);
    }
}

} // verus!
