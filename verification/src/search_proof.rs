//! Why the search ends, and why it ends in a field that is settled and
//! level: the invariant that every round keeps, and the proof that it does.

use crate::direction::{compass, Direction};
use crate::field::{
    advance, at, blank_cell, blank_field, claims, distance_cap, enough_rounds, enters, expand,
    labelled, open_cell, probe, run, seed, seeded, shaped, source_cell, sources_on_map,
    GravityMapCell, Search,
};
use crate::settled::{
    best_listing, explained, is_source, lemma_best_listing, level, linked, lists, near, settled,
    snug, start_of,
};
use crate::tally::{
    blanks, lemma_blank_field, lemma_grid_bound, lemma_mark, lemma_mark_blanks,
    lemma_mark_potential, lemma_potential_bound, potential, toll,
};
use crate::terrain::{height_of, is_land, on_map, width_of};
use vstd::prelude::*;

verus! {

/// Whether `(x, y)` waits in the queue.
pub open spec fn queued(pending: Seq<(i32, i32)>, x: int, y: int) -> bool {
    exists|j: int| 0 <= j < pending.len() && (#[trigger] pending[j]).0 == x && pending[j].1 == y
}

/// Whether a queue entry names a labelled cell of the map.
pub open spec fn entry_ok(land: Seq<Seq<bool>>, cells: Seq<Seq<GravityMapCell>>, p: (i32, i32)) -> bool {
    on_map(land, p.0 as int, p.1 as int) && labelled(cells, p.0 as int, p.1 as int)
}

/// Whether the distance of `(x, y)` leaves room for one more step for every
/// cell that is still blank.
pub open spec fn within(land: Seq<Seq<bool>>, cells: Seq<Seq<GravityMapCell>>, x: int, y: int) -> bool {
    at(cells, x, y).distance + blanks(cells) <= distance_cap(land)
}

/// Whether the labelled cell `(x, y)` is open and points at a neighbour that
/// is on the map and labelled, with a distance at least one below its own.
/// While the search runs the neighbour may have found a cheaper way since.
pub open spec fn tied(
    land: Seq<Seq<bool>>,
    obstacles: Set<(i32, i32)>,
    cells: Seq<Seq<GravityMapCell>>,
    x: int,
    y: int,
) -> bool {
    let cell = at(cells, x, y);
    let heading = cell.direction->0;
    let px = x + heading.step_x();
    let py = y + heading.step_y();
    &&& cell.direction is Some
    &&& heading != Direction::Center
    &&& open_cell(land, obstacles, x, y)
    &&& on_map(land, px, py)
    &&& labelled(cells, px, py)
    &&& cell.distance >= at(cells, px, py).distance + 1
}

/// Whether the record of `(x, y)` is one that a running search can hold.
pub open spec fn sound(
    land: Seq<Seq<bool>>,
    obstacles: Set<(i32, i32)>,
    sources: Seq<(i32, i32, u32)>,
    cells: Seq<Seq<GravityMapCell>>,
    x: int,
    y: int,
) -> bool {
    let cell = at(cells, x, y);
    &&& match cell.direction {
        None => cell == blank_cell(),
        Some(Direction::Center) => is_source(sources, x, y) && cell == source_cell(
            start_of(sources, x, y),
        ),
        Some(_) => tied(land, obstacles, cells, x, y),
    }
    &&& is_source(sources, x, y) ==> cell.direction is Some && cell.distance <= start_of(
        sources,
        x,
        y,
    )
}

/// The part of the invariant that speaks of single records.
pub open spec fn frame(
    land: Seq<Seq<bool>>,
    obstacles: Set<(i32, i32)>,
    sources: Seq<(i32, i32, u32)>,
    s: Search,
) -> bool {
    &&& is_land(land)
    &&& shaped(s.cells, width_of(land), height_of(land))
    &&& forall|j: int| 0 <= j < s.pending.len() ==> entry_ok(land, s.cells, #[trigger] s.pending[j])
    &&& forall|x: int, y: int|
        on_map(land, x, y) ==> #[trigger] sound(land, obstacles, sources, s.cells, x, y)
    &&& forall|x: int, y: int|
        on_map(land, x, y) && labelled(s.cells, x, y) ==> #[trigger] within(land, s.cells, x, y)
}

/// Whether the labelled cell `(x, y)` is accounted for: it waits in the
/// queue, or all its open neighbours are near it, or it is the cell under
/// examination and the first `k` of them are.
pub open spec fn cover(
    land: Seq<Seq<bool>>,
    obstacles: Set<(i32, i32)>,
    s: Search,
    x: int,
    y: int,
    fx: int,
    fy: int,
    k: int,
) -> bool {
    ||| queued(s.pending, x, y)
    ||| snug(land, obstacles, s.cells, x, y, 8)
    ||| (x == fx && y == fy && snug(land, obstacles, s.cells, x, y, k))
}

/// Whether every labelled cell is accounted for while `(fx, fy)` is under
/// examination. A focus off the map stands for the time between two rounds.
pub open spec fn covered(
    land: Seq<Seq<bool>>,
    obstacles: Set<(i32, i32)>,
    s: Search,
    fx: int,
    fy: int,
    k: int,
) -> bool {
    forall|x: int, y: int|
        on_map(land, x, y) && labelled(s.cells, x, y) ==> #[trigger] cover(
            land,
            obstacles,
            s,
            x,
            y,
            fx,
            fy,
            k,
        )
}

/// The invariant between two rounds.
pub open spec fn fit(
    land: Seq<Seq<bool>>,
    obstacles: Set<(i32, i32)>,
    sources: Seq<(i32, i32, u32)>,
    s: Search,
) -> bool {
    frame(land, obstacles, sources, s) && covered(land, obstacles, s, -1, -1, 0)
}

/// The invariant while `(fx, fy)` is under examination and its first `k`
/// neighbours have been handled.
pub open spec fn fit_mid(
    land: Seq<Seq<bool>>,
    obstacles: Set<(i32, i32)>,
    sources: Seq<(i32, i32, u32)>,
    s: Search,
    fx: int,
    fy: int,
    k: int,
) -> bool {
    &&& frame(land, obstacles, sources, s)
    &&& covered(land, obstacles, s, fx, fy, k)
    &&& on_map(land, fx, fy)
    &&& labelled(s.cells, fx, fy)
}

/// The work left: every round takes at least one from it.
pub open spec fn effort(land: Seq<Seq<bool>>, s: Search) -> int {
    potential(s.cells, distance_cap(land)) + s.pending.len()
}

/// Whether every label of `before` is a label of `after` with the same
/// distance or a smaller one.
pub open spec fn eased(
    land: Seq<Seq<bool>>,
    before: Seq<Seq<GravityMapCell>>,
    after: Seq<Seq<GravityMapCell>>,
) -> bool {
    forall|x: int, y: int|
        on_map(land, x, y) && labelled(before, x, y) ==> labelled(after, x, y) && (#[trigger] at(
            after,
            x,
            y,
        )).distance <= at(before, x, y).distance
}

/// Recorded distances fit the field's integer type.
pub proof fn lemma_limit(land: Seq<Seq<bool>>)
    requires
        is_land(land),
    ensures
        0 <= width_of(land) * height_of(land) <= 0x3fff_ffff_0000_0001,
        u32::MAX <= distance_cap(land) < u64::MAX - 1,
{
    let w = width_of(land);
    let h = height_of(land);
    assert(0 <= w * h <= 0x7fff_ffff * 0x7fff_ffff) by (nonlinear_arith)
        requires
            1 <= w <= 0x7fff_ffff,
            1 <= h <= 0x7fff_ffff,
    ;
}

/// The two steps of a heading and its reverse cancel.
pub proof fn lemma_reverse(k: int)
    requires
        0 <= k < 8,
    ensures
        compass(k) != Direction::Center,
        compass(k).reverse() != Direction::Center,
        compass(k).reverse().step_x() == -compass(k).step_x(),
        compass(k).reverse().step_y() == -compass(k).step_y(),
        -1 <= compass(k).step_x() <= 1,
        -1 <= compass(k).step_y() <= 1,
        compass(k).step_x() != 0 || compass(k).step_y() != 0,
{
}

/// The place in the examination order of the heading that undoes `heading`.
pub proof fn lemma_way_back(heading: Direction) -> (k: int)
    requires
        heading != Direction::Center,
    ensures
        0 <= k < 8,
        compass(k).step_x() == -heading.step_x(),
        compass(k).step_y() == -heading.step_y(),
{
    match heading {
        Direction::North => 1,
        Direction::South => 0,
        Direction::East => 3,
        Direction::West => 2,
        Direction::Northeast => 5,
        Direction::Southwest => 4,
        Direction::Southeast => 7,
        _ => 6,
    }
}

/// The state after going through the first `n` sources, cell by cell: a
/// listed cell holds the least of its starting distances so far and waits
/// in the queue, any other cell is blank.
pub proof fn lemma_seed(land: Seq<Seq<bool>>, sources: Seq<(i32, i32, u32)>, n: nat)
    requires
        is_land(land),
        sources_on_map(land, sources),
        n <= sources.len(),
    ensures
        ({
            let s = seed(blank_field(width_of(land), height_of(land)), sources, n);
            &&& shaped(s.cells, width_of(land), height_of(land))
            &&& s.pending.len() <= n
            &&& forall|j: int|
                0 <= j < s.pending.len() ==> on_map(
                    land,
                    (#[trigger] s.pending[j]).0 as int,
                    s.pending[j].1 as int,
                ) && best_listing(sources, n, s.pending[j].0 as int, s.pending[j].1 as int) >= 0
            &&& forall|x: int, y: int|
                on_map(land, x, y) ==> #[trigger] at(s.cells, x, y) == if best_listing(
                    sources,
                    n,
                    x,
                    y,
                ) >= 0 {
                    source_cell(sources[best_listing(sources, n, x, y)].2)
                } else {
                    blank_cell()
                }
            &&& forall|x: int, y: int|
                on_map(land, x, y) && best_listing(sources, n, x, y) >= 0 ==> #[trigger] queued(
                    s.pending,
                    x,
                    y,
                )
        }),
    decreases n,
{
    let w = width_of(land);
    let h = height_of(land);
    let s = seed(blank_field(w, h), sources, n);
    if n == 0 {
        lemma_blank_field(w, h);
    } else {
        lemma_seed(land, sources, (n - 1) as nat);
        let before = seed(blank_field(w, h), sources, (n - 1) as nat);
        let (sx, sy, start) = sources[n - 1];
        assert(on_map(land, sx as int, sy as int));
        assert(lists(sources, n - 1, sx as int, sy as int));
        lemma_best_listing(sources, (n - 1) as nat, sx as int, sy as int);
        let was = at(before.cells, sx as int, sy as int);
        if enters(before.cells, sx as int, sy as int, start) {
            lemma_mark(before.cells, w, h, sx as int, sy as int, source_cell(start));
            assert(s.pending == before.pending.push((sx, sy)));
            assert forall|j: int| 0 <= j < s.pending.len() implies on_map(
                land,
                (#[trigger] s.pending[j]).0 as int,
                s.pending[j].1 as int,
            ) && best_listing(sources, n, s.pending[j].0 as int, s.pending[j].1 as int) >= 0 by {
                if j < before.pending.len() {
                    assert(s.pending[j] == before.pending[j]);
                }
            }
            assert forall|x: int, y: int|
                on_map(land, x, y) && best_listing(sources, n, x, y) >= 0 implies #[trigger] queued(
                s.pending,
                x,
                y,
            ) by {
                if x == sx && y == sy {
                    assert(s.pending[before.pending.len() as int] == (sx, sy));
                } else {
                    assert(!lists(sources, n - 1, x, y));
                    assert(queued(before.pending, x, y));
                    let j = choose|j: int|
                        0 <= j < before.pending.len() && (#[trigger] before.pending[j]).0 == x
                            && before.pending[j].1 == y;
                    assert(s.pending[j] == before.pending[j]);
                }
            }
            assert forall|x: int, y: int| on_map(land, x, y) implies #[trigger] at(s.cells, x, y)
                == if best_listing(sources, n, x, y) >= 0 {
                source_cell(sources[best_listing(sources, n, x, y)].2)
            } else {
                blank_cell()
            } by {
                if !(x == sx && y == sy) {
                    assert(!lists(sources, n - 1, x, y));
                    assert(at(s.cells, x, y) == at(before.cells, x, y));
                }
            }
        } else {
            assert(s == before);
            assert forall|x: int, y: int| on_map(land, x, y) implies #[trigger] at(s.cells, x, y)
                == if best_listing(sources, n, x, y) >= 0 {
                source_cell(sources[best_listing(sources, n, x, y)].2)
            } else {
                blank_cell()
            } by {
                assert(at(s.cells, x, y) == at(before.cells, x, y));
                if !(x == sx && y == sy) {
                    assert(!lists(sources, n - 1, x, y));
                }
            }
            assert forall|x: int, y: int|
                on_map(land, x, y) && best_listing(sources, n, x, y) >= 0 implies #[trigger] queued(
                s.pending,
                x,
                y,
            ) by {
                if !(x == sx && y == sy) {
                    assert(!lists(sources, n - 1, x, y));
                }
                assert(at(before.cells, x, y) == at(s.cells, x, y));
                assert(queued(before.pending, x, y));
            }
        }
    }
}

/// Once all sources are gone through the invariant holds, and the work left
/// is within the number of rounds that the search is given.
pub proof fn lemma_seeded_fit(
    land: Seq<Seq<bool>>,
    obstacles: Set<(i32, i32)>,
    sources: Seq<(i32, i32, u32)>,
)
    requires
        is_land(land),
        sources_on_map(land, sources),
    ensures
        fit(land, obstacles, sources, seeded(land, sources)),
        0 <= effort(land, seeded(land, sources)) <= enough_rounds(land, sources),
{
    let w = width_of(land);
    let h = height_of(land);
    let cap = distance_cap(land);
    let s = seeded(land, sources);
    lemma_seed(land, sources, sources.len());
    lemma_grid_bound(s.cells, w, h);
    lemma_limit(land);
    assert forall|x: int, y: int| 0 <= x < w && 0 <= y < h implies toll(
        #[trigger] at(s.cells, x, y),
        cap,
    ) <= cap + 1 by {
        assert(on_map(land, x, y));
    }
    lemma_potential_bound(s.cells, w, h, cap);
    assert forall|j: int| 0 <= j < s.pending.len() implies entry_ok(
        land,
        s.cells,
        #[trigger] s.pending[j],
    ) by {
        assert(labelled(s.cells, s.pending[j].0 as int, s.pending[j].1 as int));
    }
    assert forall|x: int, y: int| on_map(land, x, y) implies #[trigger] sound(
        land,
        obstacles,
        sources,
        s.cells,
        x,
        y,
    ) by {
        assert(at(s.cells, x, y) == if is_source(sources, x, y) {
            source_cell(start_of(sources, x, y))
        } else {
            blank_cell()
        });
    }
    assert forall|x: int, y: int| on_map(land, x, y) && labelled(s.cells, x, y) implies #[trigger] within(
        land,
        s.cells,
        x,
        y,
    ) by {
        assert(at(s.cells, x, y).distance <= u32::MAX);
    }
    assert forall|x: int, y: int| on_map(land, x, y) && labelled(s.cells, x, y) implies #[trigger] cover(
        land,
        obstacles,
        s,
        x,
        y,
        -1,
        -1,
        0,
    ) by {
        assert(at(s.cells, x, y).direction is Some);
        assert(queued(s.pending, x, y));
    }
}

/// Near neighbours stay near when labels are eased and the cell itself is
/// as it was.
pub proof fn lemma_snug_eases(
    land: Seq<Seq<bool>>,
    obstacles: Set<(i32, i32)>,
    before: Seq<Seq<GravityMapCell>>,
    after: Seq<Seq<GravityMapCell>>,
    x: int,
    y: int,
    n: int,
)
    requires
        eased(land, before, after),
        at(after, x, y) == at(before, x, y),
        snug(land, obstacles, before, x, y, n),
    ensures
        snug(land, obstacles, after, x, y, n),
{
    assert forall|k: int| 0 <= k < n implies #[trigger] near(land, obstacles, after, x, y, k) by {
        assert(near(land, obstacles, before, x, y, k));
        let nx = x + compass(k).step_x();
        let ny = y + compass(k).step_y();
        if open_cell(land, obstacles, nx, ny) {
            assert(at(after, nx, ny).distance <= at(before, nx, ny).distance);
        }
    }
}

/// Labels that are eased twice are eased.
pub proof fn lemma_eased_twice(
    land: Seq<Seq<bool>>,
    first: Seq<Seq<GravityMapCell>>,
    second: Seq<Seq<GravityMapCell>>,
    third: Seq<Seq<GravityMapCell>>,
)
    requires
        eased(land, first, second),
        eased(land, second, third),
    ensures
        eased(land, first, third),
{
    assert forall|x: int, y: int| on_map(land, x, y) && labelled(first, x, y) implies labelled(
        third,
        x,
        y,
    ) && (#[trigger] at(third, x, y)).distance <= at(first, x, y).distance by {
        assert(at(second, x, y).distance <= at(first, x, y).distance);
        assert(at(third, x, y).distance <= at(second, x, y).distance);
    }
}

/// Examining one neighbour keeps the part of the invariant that speaks of
/// single records, eases the labels, leaves the cell under examination as
/// it is, and adds no work.
pub proof fn lemma_probe_frame(
    land: Seq<Seq<bool>>,
    obstacles: Set<(i32, i32)>,
    sources: Seq<(i32, i32, u32)>,
    s: Search,
    fx: int,
    fy: int,
    k: int,
)
    requires
        frame(land, obstacles, sources, s),
        on_map(land, fx, fy),
        labelled(s.cells, fx, fy),
        0 <= k < 8,
    ensures
        frame(land, obstacles, sources, probe(s, land, obstacles, fx, fy, k)),
        eased(land, s.cells, probe(s, land, obstacles, fx, fy, k).cells),
        at(probe(s, land, obstacles, fx, fy, k).cells, fx, fy) == at(s.cells, fx, fy),
        effort(land, probe(s, land, obstacles, fx, fy, k)) <= effort(land, s),
        at(s.cells, fx, fy).distance <= distance_cap(land),
        claims(s, land, obstacles, fx, fy, k) ==> at(s.cells, fx, fy).distance < distance_cap(
            land,
        ),
{
    let w = width_of(land);
    let h = height_of(land);
    let cap = distance_cap(land);
    let heading = compass(k);
    let nx = fx + heading.step_x();
    let ny = fy + heading.step_y();
    let t = probe(s, land, obstacles, fx, fy, k);
    lemma_reverse(k);
    lemma_limit(land);
    assert(within(land, s.cells, fx, fy));
    if claims(s, land, obstacles, fx, fy, k) {
        let cell = GravityMapCell {
            direction: Some(heading.reverse()),
            distance: (at(s.cells, fx, fy).distance + 1) as u64,
        };
        let old = at(s.cells, nx, ny);
        lemma_mark(s.cells, w, h, nx, ny, cell);
        lemma_mark_blanks(s.cells, w, h, nx, ny, cell);
        lemma_mark_potential(s.cells, w, h, nx, ny, cell, cap);
        if labelled(s.cells, nx, ny) {
            assert(within(land, s.cells, nx, ny));
        }
        assert(at(s.cells, fx, fy).distance + 1 <= cap);
        assert(cell.distance == at(s.cells, fx, fy).distance + 1);
        assert(toll(cell, cap) < toll(old, cap));
        assert(blanks(t.cells) <= blanks(s.cells));
        assert(sound(land, obstacles, sources, s.cells, nx, ny));
        assert forall|j: int| 0 <= j < t.pending.len() implies entry_ok(
            land,
            t.cells,
            #[trigger] t.pending[j],
        ) by {
            if j < s.pending.len() {
                assert(entry_ok(land, s.cells, s.pending[j]));
                assert(t.pending[j] == s.pending[j]);
            }
        }
        assert forall|x: int, y: int| on_map(land, x, y) implies #[trigger] sound(
            land,
            obstacles,
            sources,
            t.cells,
            x,
            y,
        ) by {
            assert(sound(land, obstacles, sources, s.cells, x, y));
            if x == nx && y == ny {
                assert(at(t.cells, fx, fy) == at(s.cells, fx, fy));
                assert(tied(land, obstacles, t.cells, x, y));
            } else {
                assert(at(t.cells, x, y) == at(s.cells, x, y));
                let c = at(s.cells, x, y);
                if c.direction is Some && c.direction != Some(Direction::Center) {
                    let px = x + c.direction->0.step_x();
                    let py = y + c.direction->0.step_y();
                    assert(tied(land, obstacles, s.cells, x, y));
                    if !(px == nx && py == ny) {
                        assert(at(t.cells, px, py) == at(s.cells, px, py));
                    }
                    assert(tied(land, obstacles, t.cells, x, y));
                }
            }
        }
        assert forall|x: int, y: int| on_map(land, x, y) && labelled(t.cells, x, y) implies #[trigger] within(
            land,
            t.cells,
            x,
            y,
        ) by {
            if !(x == nx && y == ny) {
                assert(at(t.cells, x, y) == at(s.cells, x, y));
                assert(within(land, s.cells, x, y));
            }
        }
        assert forall|x: int, y: int| on_map(land, x, y) && labelled(s.cells, x, y) implies labelled(
            t.cells,
            x,
            y,
        ) && (#[trigger] at(t.cells, x, y)).distance <= at(s.cells, x, y).distance by {
            if !(x == nx && y == ny) {
                assert(at(t.cells, x, y) == at(s.cells, x, y));
            }
        }
    } else {
        assert(t == s);
    }
}

/// Examining one neighbour keeps every labelled cell accounted for.
pub proof fn lemma_probe_covered(
    land: Seq<Seq<bool>>,
    obstacles: Set<(i32, i32)>,
    sources: Seq<(i32, i32, u32)>,
    s: Search,
    fx: int,
    fy: int,
    k: int,
)
    requires
        fit_mid(land, obstacles, sources, s, fx, fy, k),
        0 <= k < 8,
    ensures
        fit_mid(land, obstacles, sources, probe(s, land, obstacles, fx, fy, k), fx, fy, k + 1),
{
    let w = width_of(land);
    let h = height_of(land);
    let heading = compass(k);
    let nx = fx + heading.step_x();
    let ny = fy + heading.step_y();
    let t = probe(s, land, obstacles, fx, fy, k);
    lemma_probe_frame(land, obstacles, sources, s, fx, fy, k);
    lemma_limit(land);
    if claims(s, land, obstacles, fx, fy, k) {
        let cell = GravityMapCell {
            direction: Some(heading.reverse()),
            distance: (at(s.cells, fx, fy).distance + 1) as u64,
        };
        lemma_mark(s.cells, w, h, nx, ny, cell);
        assert(at(t.cells, nx, ny) == cell);
    }
    assert(near(land, obstacles, t.cells, fx, fy, k));
    assert forall|x: int, y: int| on_map(land, x, y) && labelled(t.cells, x, y) implies #[trigger] cover(
        land,
        obstacles,
        t,
        x,
        y,
        fx,
        fy,
        k + 1,
    ) by {
        if claims(s, land, obstacles, fx, fy, k) && x == nx && y == ny {
            assert(t.pending[s.pending.len() as int] == (nx as i32, ny as i32));
        } else {
            assert(at(t.cells, x, y) == at(s.cells, x, y));
            assert(cover(land, obstacles, s, x, y, fx, fy, k));
            if queued(s.pending, x, y) {
                let j = choose|j: int|
                    0 <= j < s.pending.len() && (#[trigger] s.pending[j]).0 == x && s.pending[j].1
                        == y;
                assert(t.pending[j] == s.pending[j]);
            } else if snug(land, obstacles, s.cells, x, y, 8) {
                lemma_snug_eases(land, obstacles, s.cells, t.cells, x, y, 8);
            } else {
                lemma_snug_eases(land, obstacles, s.cells, t.cells, x, y, k);
                assert forall|i: int| 0 <= i < k + 1 implies #[trigger] near(
                    land,
                    obstacles,
                    t.cells,
                    x,
                    y,
                    i,
                ) by {
                    if i < k {
                        assert(near(land, obstacles, t.cells, x, y, i));
                    }
                }
            }
        }
    }
}

/// Examining the first `n` neighbours of the cell under examination keeps
/// the invariant, eases the labels, leaves the cell itself as it is and
/// adds no work.
pub proof fn lemma_expand(
    land: Seq<Seq<bool>>,
    obstacles: Set<(i32, i32)>,
    sources: Seq<(i32, i32, u32)>,
    s: Search,
    fx: int,
    fy: int,
    n: nat,
)
    requires
        fit_mid(land, obstacles, sources, s, fx, fy, 0),
        n <= 8,
    ensures
        fit_mid(land, obstacles, sources, expand(s, land, obstacles, fx, fy, n), fx, fy, n as int),
        eased(land, s.cells, expand(s, land, obstacles, fx, fy, n).cells),
        at(expand(s, land, obstacles, fx, fy, n).cells, fx, fy) == at(s.cells, fx, fy),
        effort(land, expand(s, land, obstacles, fx, fy, n)) <= effort(land, s),
    decreases n,
{
    if n > 0 {
        let k = (n - 1) as nat;
        let mid = expand(s, land, obstacles, fx, fy, k);
        lemma_expand(land, obstacles, sources, s, fx, fy, k);
        lemma_probe_frame(land, obstacles, sources, mid, fx, fy, k as int);
        lemma_probe_covered(land, obstacles, sources, mid, fx, fy, k as int);
        lemma_eased_twice(land, s.cells, mid.cells, probe(mid, land, obstacles, fx, fy, k as int).cells);
    }
}

/// The state in which the oldest pending cell has left the queue.
pub open spec fn popped(s: Search) -> Search {
    Search { cells: s.cells, pending: s.pending.drop_first() }
}

/// Taking the oldest pending cell from the queue puts it under examination.
pub proof fn lemma_pop(
    land: Seq<Seq<bool>>,
    obstacles: Set<(i32, i32)>,
    sources: Seq<(i32, i32, u32)>,
    s: Search,
)
    requires
        fit(land, obstacles, sources, s),
        s.pending.len() > 0,
    ensures
        fit_mid(
            land,
            obstacles,
            sources,
            popped(s),
            s.pending[0].0 as int,
            s.pending[0].1 as int,
            0,
        ),
        effort(land, popped(s)) + 1 == effort(land, s),
{
    let t = popped(s);
    let fx = s.pending[0].0 as int;
    let fy = s.pending[0].1 as int;
    assert(entry_ok(land, s.cells, s.pending[0]));
    assert forall|j: int| 0 <= j < t.pending.len() implies entry_ok(
        land,
        t.cells,
        #[trigger] t.pending[j],
    ) by {
        assert(t.pending[j] == s.pending[j + 1]);
        assert(entry_ok(land, s.cells, s.pending[j + 1]));
    }
    assert forall|x: int, y: int| on_map(land, x, y) implies #[trigger] sound(
        land,
        obstacles,
        sources,
        t.cells,
        x,
        y,
    ) by {
        assert(sound(land, obstacles, sources, s.cells, x, y));
    }
    assert forall|x: int, y: int| on_map(land, x, y) && labelled(t.cells, x, y) implies #[trigger] within(
        land,
        t.cells,
        x,
        y,
    ) by {
        assert(within(land, s.cells, x, y));
    }
    assert forall|x: int, y: int| on_map(land, x, y) && labelled(t.cells, x, y) implies #[trigger] cover(
        land,
        obstacles,
        t,
        x,
        y,
        fx,
        fy,
        0,
    ) by {
        assert(cover(land, obstacles, s, x, y, -1, -1, 0));
        if queued(s.pending, x, y) {
            let j = choose|j: int|
                0 <= j < s.pending.len() && (#[trigger] s.pending[j]).0 == x && s.pending[j].1 == y;
            if j > 0 {
                assert(t.pending[j - 1] == s.pending[j]);
            }
        }
    }
}

/// When all eight neighbours have been examined the round is over.
pub proof fn lemma_close(
    land: Seq<Seq<bool>>,
    obstacles: Set<(i32, i32)>,
    sources: Seq<(i32, i32, u32)>,
    s: Search,
    fx: int,
    fy: int,
)
    requires
        fit_mid(land, obstacles, sources, s, fx, fy, 8),
    ensures
        fit(land, obstacles, sources, s),
{
    assert forall|x: int, y: int| on_map(land, x, y) && labelled(s.cells, x, y) implies #[trigger] cover(
        land,
        obstacles,
        s,
        x,
        y,
        -1,
        -1,
        0,
    ) by {
        assert(cover(land, obstacles, s, x, y, fx, fy, 8));
    }
}

/// A round keeps the invariant, and takes at least one from the work left
/// if there was a pending cell.
pub proof fn lemma_advance(
    land: Seq<Seq<bool>>,
    obstacles: Set<(i32, i32)>,
    sources: Seq<(i32, i32, u32)>,
    s: Search,
)
    requires
        fit(land, obstacles, sources, s),
    ensures
        fit(land, obstacles, sources, advance(s, land, obstacles)),
        s.pending.len() > 0 ==> effort(land, advance(s, land, obstacles)) + 1 <= effort(land, s),
        s.pending.len() == 0 ==> advance(s, land, obstacles) == s,
{
    if s.pending.len() > 0 {
        let fx = s.pending[0].0 as int;
        let fy = s.pending[0].1 as int;
        lemma_pop(land, obstacles, sources, s);
        lemma_expand(land, obstacles, sources, popped(s), fx, fy, 8);
        lemma_close(land, obstacles, sources, expand(popped(s), land, obstacles, fx, fy, 8), fx, fy);
    }
}

/// Any number of rounds keeps the invariant; while a cell is pending, each
/// round so far has taken at least one from the work left.
pub proof fn lemma_run(
    land: Seq<Seq<bool>>,
    obstacles: Set<(i32, i32)>,
    sources: Seq<(i32, i32, u32)>,
    s: Search,
    rounds: nat,
)
    requires
        fit(land, obstacles, sources, s),
    ensures
        fit(land, obstacles, sources, run(s, land, obstacles, rounds)),
        run(s, land, obstacles, rounds).pending.len() == 0 || effort(
            land,
            run(s, land, obstacles, rounds),
        ) + rounds <= effort(land, s),
    decreases rounds,
{
    if rounds > 0 {
        let before = run(s, land, obstacles, (rounds - 1) as nat);
        lemma_run(land, obstacles, sources, s, (rounds - 1) as nat);
        lemma_advance(land, obstacles, sources, before);
    }
}

/// Once nothing is pending, further rounds change nothing.
pub proof fn lemma_run_idle(
    s: Search,
    land: Seq<Seq<bool>>,
    obstacles: Set<(i32, i32)>,
    done: nat,
    rounds: nat,
)
    requires
        done <= rounds,
        run(s, land, obstacles, done).pending.len() == 0,
    ensures
        run(s, land, obstacles, rounds) == run(s, land, obstacles, done),
    decreases rounds,
{
    if rounds > done {
        lemma_run_idle(s, land, obstacles, done, (rounds - 1) as nat);
    }
}

/// The work left is never negative.
pub proof fn lemma_effort_floor(
    land: Seq<Seq<bool>>,
    obstacles: Set<(i32, i32)>,
    sources: Seq<(i32, i32, u32)>,
    s: Search,
)
    requires
        frame(land, obstacles, sources, s),
    ensures
        0 <= s.pending.len() <= effort(land, s),
{
    let cap = distance_cap(land);
    lemma_limit(land);
    assert forall|x: int, y: int|
        0 <= x < width_of(land) && 0 <= y < height_of(land) implies toll(
        #[trigger] at(s.cells, x, y),
        cap,
    ) <= cap + 1 by {
        assert(on_map(land, x, y));
        if labelled(s.cells, x, y) {
            assert(within(land, s.cells, x, y));
        }
    }
    lemma_potential_bound(s.cells, width_of(land), height_of(land), cap);
}

/// With nothing pending, the invariant says that the field is settled and
/// level.
pub proof fn lemma_finished(
    land: Seq<Seq<bool>>,
    obstacles: Set<(i32, i32)>,
    sources: Seq<(i32, i32, u32)>,
    s: Search,
)
    requires
        fit(land, obstacles, sources, s),
        s.pending.len() == 0,
    ensures
        settled(land, obstacles, sources, s.cells),
        level(land, obstacles, s.cells),
{
    assert forall|x: int, y: int| on_map(land, x, y) && labelled(s.cells, x, y) implies #[trigger] snug(
        land,
        obstacles,
        s.cells,
        x,
        y,
        8,
    ) by {
        assert(cover(land, obstacles, s, x, y, -1, -1, 0));
    }
    assert forall|x: int, y: int| on_map(land, x, y) implies #[trigger] explained(
        land,
        obstacles,
        sources,
        s.cells,
        x,
        y,
    ) by {
        assert(sound(land, obstacles, sources, s.cells, x, y));
        let cell = at(s.cells, x, y);
        if cell.direction is Some && cell.direction != Some(Direction::Center) {
            let heading = cell.direction->0;
            let px = x + heading.step_x();
            let py = y + heading.step_y();
            assert(tied(land, obstacles, s.cells, x, y));
            let k = lemma_way_back(heading);
            assert(snug(land, obstacles, s.cells, px, py, 8));
            assert(near(land, obstacles, s.cells, px, py, k));
            assert(linked(land, obstacles, s.cells, x, y));
        }
    }
}

/// After enough rounds nothing is pending.
pub proof fn lemma_rounds_suffice(
    land: Seq<Seq<bool>>,
    obstacles: Set<(i32, i32)>,
    sources: Seq<(i32, i32, u32)>,
)
    requires
        is_land(land),
        sources_on_map(land, sources),
    ensures
        fit(
            land,
            obstacles,
            sources,
            run(seeded(land, sources), land, obstacles, enough_rounds(land, sources)),
        ),
        run(seeded(land, sources), land, obstacles, enough_rounds(land, sources)).pending.len()
            == 0,
{
    let end = run(seeded(land, sources), land, obstacles, enough_rounds(land, sources));
    lemma_seeded_fit(land, obstacles, sources);
    lemma_run(land, obstacles, sources, seeded(land, sources), enough_rounds(land, sources));
    lemma_effort_floor(land, obstacles, sources, end);
}

} // verus!
