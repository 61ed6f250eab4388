//! The gravity field of a map, kept in memory and recomputed on demand.

use crate::direction::{nth_direction, Direction};
use crate::field::{
    advance, at, blank_cell, blank_field, claims, enough_rounds, expand, gravity_field, labelled,
    mark, probe, run, seed, seeded, shaped, sources_on_map, GravityMapCell, Search,
};
use crate::routes::lemma_field_settled;
use crate::search_proof::{
    effort, fit_mid, lemma_effort_floor, lemma_expand, lemma_limit, lemma_pop, lemma_probe_frame,
    lemma_run, lemma_run_idle, lemma_seeded_fit, popped,
};
use crate::settled::{level, settled};
use crate::tables::cell_set_contains;
use crate::tally::lemma_mark;
use crate::terrain::{height_of, is_land, on_map, rows_of, width_of, Terrain};
use fnv::FnvHashSet;
use std::collections::VecDeque;
use vstd::prelude::*;

verus! {

/// A dense grid with one record per cell of the map.
#[derive(Debug)]
pub struct GravityMap {
    terrain: Terrain,
    map: Vec<Vec<GravityMapCell>>,
}

impl View for GravityMap {
    type V = Seq<Seq<GravityMapCell>>;

    /// The records row by row: the record of `(x, y)` is `self@[y][x]`.
    closed spec fn view(&self) -> Seq<Seq<GravityMapCell>> {
        rows_of(self.map)
    }
}

impl GravityMap {
    /// The passability grid of the map that this field belongs to.
    pub closed spec fn land(&self) -> Seq<Seq<bool>> {
        self.terrain@
    }

    /// The representation invariant: the terrain is well formed and the grid
    /// has its shape.
    pub closed spec fn wf(&self) -> bool {
        &&& self.terrain.wf()
        &&& shaped(self@, width_of(self.terrain@), height_of(self.terrain@))
    }

    /// What `update` makes of a field: a well-formed field for the same
    /// map that holds the gravity field of the sources and obstacles given.
    /// Nothing of the records before the call enters into it.
    pub open spec fn recomputed(
        before: GravityMap,
        after: GravityMap,
        sources: Seq<(i32, i32, u32)>,
        obstacles: Set<(i32, i32)>,
    ) -> bool {
        &&& after.wf()
        &&& after.land() == before.land()
        &&& after@ == gravity_field(before.land(), obstacles, sources)
    }

    /// Recomputing a second time with the same sources and obstacles gives
    /// the same grid, record for record.
    pub proof fn lemma_recompute_twice(
        start: GravityMap,
        once: GravityMap,
        twice: GravityMap,
        sources: Seq<(i32, i32, u32)>,
        obstacles: Set<(i32, i32)>,
    )
        requires
            GravityMap::recomputed(start, once, sources, obstacles),
            GravityMap::recomputed(once, twice, sources, obstacles),
        ensures
            twice@ == once@,
            twice.land() == once.land(),
    {
    }

    /// Two fields for the same map, whatever they held, are the same grid
    /// once recomputed with the same sources and obstacles.
    pub proof fn lemma_recompute_forgets(
        one: GravityMap,
        other: GravityMap,
        one_after: GravityMap,
        other_after: GravityMap,
        sources: Seq<(i32, i32, u32)>,
        obstacles: Set<(i32, i32)>,
    )
        requires
            one.land() == other.land(),
            GravityMap::recomputed(one, one_after, sources, obstacles),
            GravityMap::recomputed(other, other_after, sources, obstacles),
        ensures
            one_after@ == other_after@,
    {
    }

    /// A well-formed field belongs to a map and has its shape.
    pub proof fn lemma_wf(&self)
        requires
            self.wf(),
        ensures
            is_land(self.land()),
            shaped(self@, width_of(self.land()), height_of(self.land())),
    {
        self.terrain.lemma_wf_is_land();
    }

    /// A field for the given terrain in which no cell is labelled.
    pub fn new(terrain: &Terrain) -> (g: GravityMap)
        requires
            terrain.wf(),
        ensures
            g.wf(),
            g.land() == terrain@,
            g@ == blank_field(width_of(terrain@), height_of(terrain@)),
    {
        let width = terrain.width();
        let height = terrain.height();
        let mut map: Vec<Vec<GravityMapCell>> = Vec::new();
        let mut y: usize = 0;
        while y < height
            invariant
                y <= height,
                map@.len() == y,
                forall|j: int| 0 <= j < y ==> (#[trigger] map@[j])@ == Seq::new(
                    width as nat,
                    |x: int| blank_cell(),
                ),
            decreases height - y,
        {
            let mut row: Vec<GravityMapCell> = Vec::new();
            let mut x: usize = 0;
            while x < width
                invariant
                    x <= width,
                    row@.len() == x,
                    forall|i: int| 0 <= i < x ==> (#[trigger] row@[i]) == blank_cell(),
                decreases width - x,
            {
                row.push(GravityMapCell { direction: None, distance: 0 });
                x += 1;
            }
            assert(row@ =~= Seq::new(width as nat, |x: int| blank_cell()));
            map.push(row);
            y += 1;
        }
        let g = GravityMap { terrain: terrain.clone(), map };
        assert(g@ =~~= blank_field(width_of(terrain@), height_of(terrain@)));
        g
    }

    /// Number of columns of the map.
    pub fn width(&self) -> (w: usize)
        requires
            self.wf(),
        ensures
            w == width_of(self.land()),
            1 <= w <= i32::MAX,
    {
        self.terrain.width()
    }

    /// Number of rows of the map.
    pub fn height(&self) -> (h: usize)
        requires
            self.wf(),
        ensures
            h == height_of(self.land()),
            1 <= h <= i32::MAX,
    {
        self.terrain.height()
    }

    /// Whether `(x, y)` is a cell of the map.
    pub fn contains(&self, x: i32, y: i32) -> (b: bool)
        requires
            self.wf(),
        ensures
            b == on_map(self.land(), x as int, y as int),
    {
        self.terrain.contains(x, y)
    }

    /// The record of the cell `(x, y)`.
    pub fn get(&self, x: i32, y: i32) -> (cell: &GravityMapCell)
        requires
            self.wf(),
            on_map(self.land(), x as int, y as int),
        ensures
            *cell == at(self@, x as int, y as int),
    {
        &self.map[y as usize][x as usize]
    }

    /// The first step from `(x, y)` towards a resource: `None` where no
    /// resource can be reached, `Center` where the cell itself is the
    /// cheapest source.
    pub fn direction_toward_resource(&self, x: i32, y: i32) -> (heading: Option<Direction>)
        requires
            self.wf(),
            on_map(self.land(), x as int, y as int),
        ensures
            heading == at(self@, x as int, y as int).direction,
    {
        self.get(x, y).direction
    }

    /// The cost of the route from `(x, y)` to a resource, `None` where no
    /// resource can be reached.
    pub fn distance_to_resource(&self, x: i32, y: i32) -> (cost: Option<u64>)
        requires
            self.wf(),
            on_map(self.land(), x as int, y as int),
        ensures
            cost == if labelled(self@, x as int, y as int) {
                Some(at(self@, x as int, y as int).distance)
            } else {
                None
            },
    {
        let cell = self.get(x, y);
        if cell.direction.is_some() {
            Some(cell.distance)
        } else {
            None
        }
    }

    /// Forgets every label.
    fn initialize(&mut self)
        requires
            old(self).wf(),
        ensures
            final(self).wf(),
            final(self).land() == old(self).land(),
            final(self)@ == blank_field(width_of(old(self).land()), height_of(old(self).land())),
    {
        let width = self.terrain.width();
        let height = self.terrain.height();
        let ghost land = self.terrain@;
        let mut y: usize = 0;
        while y < height
            invariant
                y <= height,
                self.wf(),
                self.terrain@ == land,
                width == width_of(land),
                height == height_of(land),
                forall|j: int, i: int|
                    0 <= j < y && 0 <= i < width ==> #[trigger] at(self@, i, j) == blank_cell(),
            decreases height - y,
        {
            let mut x: usize = 0;
            while x < width
                invariant
                    x <= width,
                    y < height,
                    self.wf(),
                    self.terrain@ == land,
                    width == width_of(land),
                    height == height_of(land),
                    forall|j: int, i: int|
                        0 <= j < y && 0 <= i < width ==> #[trigger] at(self@, i, j) == blank_cell(),
                    forall|i: int| 0 <= i < x ==> #[trigger] at(self@, i, y as int) == blank_cell(),
                decreases width - x,
            {
                self.set(x, y, GravityMapCell { direction: None, distance: 0 });
                x += 1;
            }
            y += 1;
        }
        assert(self@ =~~= blank_field(width_of(land), height_of(land))) by {
            assert forall|j: int| 0 <= j < height implies #[trigger] self@[j] =~= blank_field(
                width_of(land),
                height_of(land),
            )[j] by {
                assert forall|i: int| 0 <= i < width implies self@[j][i] == blank_cell() by {
                    assert(at(self@, i, j) == blank_cell());
                }
            }
        }
    }

    /// Records `cell` at `(x, y)`.
    fn set(&mut self, x: usize, y: usize, cell: GravityMapCell)
        requires
            old(self).wf(),
            on_map(old(self).land(), x as int, y as int),
        ensures
            final(self).wf(),
            final(self).terrain == old(self).terrain,
            final(self)@ == mark(old(self)@, x as int, y as int, cell),
            at(final(self)@, x as int, y as int) == cell,
            forall|ox: int, oy: int|
                on_map(old(self).land(), ox, oy) && !(ox == x && oy == y) ==> #[trigger] at(
                    final(self)@,
                    ox,
                    oy,
                ) == at(old(self)@, ox, oy),
    {
        proof {
            lemma_mark(
                self@,
                width_of(self.terrain@),
                height_of(self.terrain@),
                x as int,
                y as int,
                cell,
            );
            assert(self@[y as int].len() == width_of(self.terrain@));
        }
        self.map[y][x] = cell;
        assert(self@ =~~= mark(old(self)@, x as int, y as int, cell));
    }

    /// Recomputes the field from scratch.
    ///
    /// The sources are gone through in the order given, a cell that is
    /// listed more than once entering with the least of its starting
    /// distances, and the search runs until nothing is pending; a cell is
    /// labelled again whenever a cheaper way to it turns up. The result
    /// depends on the terrain, the sources and the obstacles alone. It is
    /// settled and level, so that every recorded distance is the least cost
    /// of any route to any listed source.
    pub fn update(&mut self, locations: Vec<(i32, i32, u32)>, obstacles: &FnvHashSet<(i32, i32)>)
        requires
            old(self).wf(),
            sources_on_map(old(self).land(), locations@),
        ensures
            GravityMap::recomputed(*old(self), *final(self), locations@, obstacles@),
            settled(old(self).land(), obstacles@, locations@, final(self)@),
            level(old(self).land(), obstacles@, final(self)@),
    {
        self.initialize();
        let ghost land = self.terrain@;
        let ghost sources = locations@;
        let ghost blocked = obstacles@;
        proof {
            self.terrain.lemma_wf_is_land();
        }
        let mut visit_queue: VecDeque<(i32, i32)> = VecDeque::with_capacity(locations.len());
        let mut i: usize = 0;
        while i < locations.len()
            invariant
                i <= locations.len(),
                self.wf(),
                self.terrain@ == land,
                is_land(land),
                sources == locations@,
                sources_on_map(land, sources),
                (Search { cells: self@, pending: visit_queue@ }) == seed(
                    blank_field(width_of(land), height_of(land)),
                    sources,
                    i as nat,
                ),
            decreases locations.len() - i,
        {
            let (x, y, dist) = locations[i];
            assert(on_map(land, sources[i as int].0 as int, sources[i as int].1 as int));
            let cell = self.get(x, y);
            if cell.direction.is_none() || cell.distance > dist as u64 {
                self.set(
                    x as usize,
                    y as usize,
                    GravityMapCell { direction: Some(Direction::Center), distance: dist as u64 },
                );
                visit_queue.push_back((x, y));
            }
            i += 1;
        }
        let width = self.terrain.width() as i32;
        let height = self.terrain.height() as i32;
        let ghost mut rounds: nat = 0;
        proof {
            lemma_seeded_fit(land, blocked, sources);
        }
        while visit_queue.len() > 0
            invariant
                self.wf(),
                self.terrain@ == land,
                is_land(land),
                sources_on_map(land, sources),
                blocked == obstacles@,
                width == width_of(land),
                height == height_of(land),
                (Search { cells: self@, pending: visit_queue@ }) == run(
                    seeded(land, sources),
                    land,
                    blocked,
                    rounds,
                ),
                rounds <= enough_rounds(land, sources),
            decreases enough_rounds(land, sources) - rounds,
        {
            let ghost before = Search { cells: self@, pending: visit_queue@ };
            proof {
                lemma_seeded_fit(land, blocked, sources);
                lemma_run(land, blocked, sources, seeded(land, sources), rounds);
                lemma_pop(land, blocked, sources, before);
            }
            let (x, y) = visit_queue.pop_front().unwrap();
            let ghost start = Search { cells: self@, pending: visit_queue@ };
            assert(start == popped(before));
            proof {
                lemma_probe_frame(land, blocked, sources, start, x as int, y as int, 0);
                lemma_limit(land);
            }
            let ndist = self.get(x, y).distance + 1;
            let mut k: usize = 0;
            while k < 8
                invariant
                    k <= 8,
                    self.wf(),
                    self.terrain@ == land,
                    is_land(land),
                    blocked == obstacles@,
                    width == width_of(land),
                    height == height_of(land),
                    on_map(land, x as int, y as int),
                    fit_mid(land, blocked, sources, start, x as int, y as int, 0),
                    ndist == at(start.cells, x as int, y as int).distance + 1,
                    (Search { cells: self@, pending: visit_queue@ }) == expand(
                        start,
                        land,
                        blocked,
                        x as int,
                        y as int,
                        k as nat,
                    ),
                decreases 8 - k,
            {
                let ghost current = Search { cells: self@, pending: visit_queue@ };
                proof {
                    lemma_expand(land, blocked, sources, start, x as int, y as int, k as nat);
                    lemma_probe_frame(land, blocked, sources, current, x as int, y as int, k as int);
                    lemma_limit(land);
                    assert(at(current.cells, x as int, y as int) == at(
                        start.cells,
                        x as int,
                        y as int,
                    ));
                }
                let direction = nth_direction(k);
                let nx = x + direction.dx();
                let ny = y + direction.dy();
                if !(ny < 0 || ny >= height || nx < 0 || nx >= width) {
                    let cell = self.get(nx, ny);
                    if (cell.direction.is_none() || cell.distance > ndist)
                        && self.terrain.is_passable(nx, ny) && !cell_set_contains(
                        obstacles,
                        nx,
                        ny,
                    ) {
                        assert(claims(current, land, blocked, x as int, y as int, k as int));
                        visit_queue.push_back((nx, ny));
                        self.set(
                            nx as usize,
                            ny as usize,
                            GravityMapCell {
                                direction: Some(direction.opposite()),
                                distance: ndist,
                            },
                        );
                    }
                }
                k += 1;
                assert((Search { cells: self@, pending: visit_queue@ }) == probe(
                    current,
                    land,
                    blocked,
                    x as int,
                    y as int,
                    k - 1,
                ));
            }
            proof {
                assert((Search { cells: self@, pending: visit_queue@ }) == advance(
                    before,
                    land,
                    blocked,
                ));
                lemma_effort_floor(land, blocked, sources, before);
                assert(effort(land, before) >= 1);
                rounds = rounds + 1;
            }
        }
        proof {
            lemma_run_idle(
                seeded(land, sources),
                land,
                blocked,
                rounds,
                enough_rounds(land, sources),
            );
            lemma_field_settled(land, blocked, sources);
        }
    }
}

} // verus!
