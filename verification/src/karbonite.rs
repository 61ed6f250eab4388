//! What is known about resources: how much each cell holds now, and what
//! will arrive later.

use crate::field::{at, blank_field, gravity_field, labelled, sources_on_map};
use crate::gravity::GravityMap;
use crate::schedule::{
    all_ahead, arrange, latest_first, lemma_front_in_order, lemma_remaining_is_ahead, remaining,
    schedule_of, upcoming,
};
use crate::routes::lemma_source_is_within_its_start;
use crate::settled::{level, rising_starts, settled};
use crate::tables::{cell_map_get, cell_map_insert, cell_map_new, cell_map_remove};
use crate::terrain::{height_of, on_map, rows_of, width_of, Terrain};
use fnv::{FnvHashMap, FnvHashSet};
use vstd::prelude::*;

verus! {

/// How many ticks ahead the field looks for resources that have not arrived.
pub const HORIZON: u32 = 100;

/// The quantities after an inspection of `(x, y)` found `amount` there: a
/// cell with nothing left is forgotten, any other is recorded with what it
/// holds.
pub open spec fn settle(known: Map<(i32, i32), u32>, x: i32, y: i32, amount: u32) -> Map<
    (i32, i32),
    u32,
> {
    if amount > 0 {
        known.insert((x, y), amount)
    } else {
        known.remove((x, y))
    }
}

/// The quantities once every event that has arrived by `tick` is taken off
/// the end of the schedule and recorded, soonest first.
pub open spec fn promoted(
    known: Map<(i32, i32), u32>,
    schedule: Seq<(u32, i32, i32, u32)>,
    tick: u32,
) -> Map<(i32, i32), u32>
    decreases schedule.len(),
{
    if schedule.len() > 0 && schedule.last().0 <= tick {
        promoted(
            settle(known, schedule.last().1, schedule.last().2, schedule.last().3),
            schedule.drop_last(),
            tick,
        )
    } else {
        known
    }
}

/// The quantities that a starting layout gives: every cell of the map with a
/// positive entry, with that entry.
pub open spec fn deposits(land: Seq<Seq<bool>>, layout: Seq<Seq<u32>>) -> Map<(i32, i32), u32> {
    Map::new(
        |k: (i32, i32)| on_map(land, k.0 as int, k.1 as int) && layout[k.1 as int][k.0 as int] > 0,
        |k: (i32, i32)| layout[k.1 as int][k.0 as int],
    )
}

/// The cells of row `y` with a known quantity among the first `n` columns,
/// from left to right, each with starting distance zero.
pub open spec fn known_in_row(known: Map<(i32, i32), u32>, y: int, n: nat) -> Seq<(i32, i32, u32)>
    decreases n,
{
    if n == 0 {
        Seq::empty()
    } else {
        let before = known_in_row(known, y, (n - 1) as nat);
        if known.contains_key(((n - 1) as i32, y as i32)) {
            before.push(((n - 1) as i32, y as i32, 0u32))
        } else {
            before
        }
    }
}

/// The cells with a known quantity in the first `rows` rows of a map of the
/// given width, row by row and from left to right in each row, each with
/// starting distance zero.
pub open spec fn known_cells(known: Map<(i32, i32), u32>, width: nat, rows: nat) -> Seq<
    (i32, i32, u32),
>
    decreases rows,
{
    if rows == 0 {
        Seq::empty()
    } else {
        known_cells(known, width, (rows - 1) as nat) + known_in_row(known, rows - 1, width)
    }
}

/// The active sources at `tick`: the cells with a known quantity, row by
/// row, followed by the upcoming events of the schedule, soonest first.
pub open spec fn active_list(
    land: Seq<Seq<bool>>,
    known: Map<(i32, i32), u32>,
    schedule: Seq<(u32, i32, i32, u32)>,
    tick: u32,
    horizon: u32,
) -> Seq<(i32, i32, u32)> {
    known_cells(known, width_of(land) as nat, height_of(land) as nat) + upcoming(
        schedule,
        tick,
        horizon,
    )
}

/// Whether `part` lists every cell of `known` within the first `width`
/// columns and `rows` rows once, each with starting distance zero, and
/// nothing else.
pub open spec fn lists_known(
    known: Map<(i32, i32), u32>,
    part: Seq<(i32, i32, u32)>,
    width: int,
    rows: int,
) -> bool {
    &&& part.no_duplicates()
    &&& forall|j: int|
        0 <= j < part.len() ==> (#[trigger] part[j]).2 == 0 && 0 <= part[j].0 < width && 0
            <= part[j].1 < rows && known.contains_key((part[j].0, part[j].1))
    &&& forall|k: (i32, i32)| #[trigger]
        known.contains_key(k) && 0 <= k.0 < width && 0 <= k.1 < rows ==> part.contains(
            (k.0, k.1, 0u32),
        )
}

/// The known cells of one row are those of the row with a known quantity,
/// each once.
pub proof fn lemma_known_in_row(known: Map<(i32, i32), u32>, y: int, n: nat)
    requires
        0 <= y <= i32::MAX,
        n <= i32::MAX,
    ensures
        known_in_row(known, y, n).no_duplicates(),
        forall|j: int|
            0 <= j < known_in_row(known, y, n).len() ==> {
                let entry = #[trigger] known_in_row(known, y, n)[j];
                entry.2 == 0 && 0 <= entry.0 < n && entry.1 == y && known.contains_key(
                    (entry.0, entry.1),
                )
            },
        forall|k: (i32, i32)| #[trigger]
            known.contains_key(k) && 0 <= k.0 < n && k.1 == y ==> known_in_row(
                known,
                y,
                n,
            ).contains((k.0, k.1, 0u32)),
    decreases n,
{
    let row = known_in_row(known, y, n);
    if n > 0 {
        let before = known_in_row(known, y, (n - 1) as nat);
        lemma_known_in_row(known, y, (n - 1) as nat);
        let entry = ((n - 1) as i32, y as i32, 0u32);
        if known.contains_key(((n - 1) as i32, y as i32)) {
            assert(row == before.push(entry));
            assert forall|i: int, j: int| 0 <= i < row.len() && 0 <= j < row.len() && i != j implies row[i]
                != row[j] by {
                if i < before.len() {
                    assert(row[i] == before[i]);
                }
                if j < before.len() {
                    assert(row[j] == before[j]);
                }
            }
            assert forall|j: int| 0 <= j < row.len() implies {
                let e = #[trigger] row[j];
                e.2 == 0 && 0 <= e.0 < n && e.1 == y && known.contains_key((e.0, e.1))
            } by {
                if j < before.len() {
                    assert(row[j] == before[j]);
                }
            }
            assert forall|k: (i32, i32)| #[trigger]
                known.contains_key(k) && 0 <= k.0 < n && k.1 == y implies row.contains(
                (k.0, k.1, 0u32),
            ) by {
                if k.0 < n - 1 {
                    assert(before.contains((k.0, k.1, 0u32)));
                    let j = choose|j: int| 0 <= j < before.len() && before[j] == (k.0, k.1, 0u32);
                    assert(row[j] == before[j]);
                } else {
                    assert(row[before.len() as int] == entry);
                }
            }
        } else {
            assert forall|k: (i32, i32)| #[trigger]
                known.contains_key(k) && 0 <= k.0 < n && k.1 == y implies row.contains(
                (k.0, k.1, 0u32),
            ) by {
                assert(k.0 < n - 1);
            }
        }
    }
}

/// The known cells are the cells of the map with a known quantity, each
/// once and with starting distance zero.
pub proof fn lemma_known_cells(known: Map<(i32, i32), u32>, width: nat, rows: nat)
    requires
        width <= i32::MAX,
        rows <= i32::MAX,
    ensures
        lists_known(known, known_cells(known, width, rows), width as int, rows as int),
    decreases rows,
{
    let all = known_cells(known, width, rows);
    if rows > 0 {
        let above = known_cells(known, width, (rows - 1) as nat);
        let row = known_in_row(known, rows - 1, width);
        lemma_known_cells(known, width, (rows - 1) as nat);
        lemma_known_in_row(known, rows - 1, width);
        assert forall|j: int| 0 <= j < all.len() implies (#[trigger] all[j]).2 == 0 && 0
            <= all[j].0 < width && 0 <= all[j].1 < rows && known.contains_key(
            (all[j].0, all[j].1),
        ) by {
            if j < above.len() {
                assert(all[j] == above[j]);
            } else {
                assert(all[j] == row[j - above.len()]);
            }
        }
        assert forall|i: int, j: int| 0 <= i < all.len() && 0 <= j < all.len() && i != j implies all[i]
            != all[j] by {
            if i < above.len() {
                assert(all[i] == above[i]);
            } else {
                assert(all[i] == row[i - above.len()]);
            }
            if j < above.len() {
                assert(all[j] == above[j]);
            } else {
                assert(all[j] == row[j - above.len()]);
            }
        }
        assert forall|k: (i32, i32)| #[trigger]
            known.contains_key(k) && 0 <= k.0 < width && 0 <= k.1 < rows implies all.contains(
            (k.0, k.1, 0u32),
        ) by {
            if k.1 < rows - 1 {
                assert(above.contains((k.0, k.1, 0u32)));
                let j = choose|j: int| 0 <= j < above.len() && above[j] == (k.0, k.1, 0u32);
                assert(all[j] == above[j]);
            } else {
                assert(row.contains((k.0, k.1, 0u32)));
                let j = choose|j: int| 0 <= j < row.len() && row[j] == (k.0, k.1, 0u32);
                assert(all[above.len() + j] == row[j]);
            }
        }
    }
}

/// Whether every event of the schedule targets a cell of the map.
pub open spec fn schedule_on_map(land: Seq<Seq<bool>>, schedule: Seq<(u32, i32, i32, u32)>) -> bool {
    forall|i: int|
        0 <= i < schedule.len() ==> on_map(
            land,
            (#[trigger] schedule[i]).1 as int,
            schedule[i].2 as int,
        )
}

/// Whether every known quantity is positive and belongs to a cell of the
/// map.
pub open spec fn known_on_map(land: Seq<Seq<bool>>, known: Map<(i32, i32), u32>) -> bool {
    forall|k: (i32, i32)| #[trigger]
        known.contains_key(k) ==> on_map(land, k.0 as int, k.1 as int) && known[k] > 0
}

/// The store of resource knowledge, together with the field computed from
/// it.
#[derive(Debug)]
pub struct KnownKarbonite {
    karbonite_locations: FnvHashMap<(i32, i32), u32>,
    future_karbonite: Vec<(u32, i32, i32, u32)>,
    gravity_map: GravityMap,
}

impl KnownKarbonite {
    /// The quantity known for each cell that holds a resource.
    pub closed spec fn known(&self) -> Map<(i32, i32), u32> {
        self.karbonite_locations@
    }

    /// The events that have not arrived, latest first: tick of arrival, `x`,
    /// `y`, quantity.
    pub closed spec fn schedule(&self) -> Seq<(u32, i32, i32, u32)> {
        self.future_karbonite@
    }

    /// The field as last computed.
    pub closed spec fn field(&self) -> GravityMap {
        self.gravity_map
    }

    /// The representation invariant: the field is well formed, the known
    /// quantities are positive and on the map, and the schedule is in order
    /// and on the map.
    pub closed spec fn wf(&self) -> bool {
        &&& self.gravity_map.wf()
        &&& known_on_map(self.gravity_map.land(), self.karbonite_locations@)
        &&& latest_first(self.future_karbonite@)
        &&& schedule_on_map(self.gravity_map.land(), self.future_karbonite@)
    }

    /// What well-formedness says in terms of the public views.
    pub proof fn lemma_wf(&self)
        requires
            self.wf(),
        ensures
            self.field().wf(),
            known_on_map(self.field().land(), self.known()),
            latest_first(self.schedule()),
            schedule_on_map(self.field().land(), self.schedule()),
    {
    }

    /// The store at the start of a match.
    ///
    /// `layout[y][x]` is the quantity that the cell `(x, y)` holds at the
    /// start; `asteroids` are the events to come, in any order.
    pub fn new(
        terrain: &Terrain,
        layout: &Vec<Vec<u32>>,
        asteroids: &Vec<(u32, i32, i32, u32)>,
    ) -> (store: KnownKarbonite)
        requires
            terrain.wf(),
            rows_of(*layout).len() == height_of(terrain@),
            forall|y: int|
                0 <= y < height_of(terrain@) ==> (#[trigger] rows_of(*layout)[y]).len() == width_of(
                    terrain@,
                ),
            schedule_on_map(terrain@, asteroids@),
        ensures
            store.wf(),
            store.field().land() == terrain@,
            store.field()@ == blank_field(width_of(terrain@), height_of(terrain@)),
            store.known() == deposits(terrain@, rows_of(*layout)),
            store.schedule() == arrange(asteroids@, asteroids@.len()),
    {
        let width = terrain.width();
        let height = terrain.height();
        let ghost land = terrain@;
        let ghost plan = rows_of(*layout);
        let mut locs = cell_map_new();
        let mut y: usize = 0;
        while y < height
            invariant
                y <= height,
                width == width_of(land),
                height == height_of(land),
                1 <= width <= i32::MAX,
                1 <= height <= i32::MAX,
                plan == rows_of(*layout),
                plan.len() == height,
                forall|j: int| 0 <= j < height ==> (#[trigger] plan[j]).len() == width,
                locs@ == Map::new(
                    |k: (i32, i32)|
                        on_map(land, k.0 as int, k.1 as int) && k.1 < y && plan[k.1 as int][k.0 as int]
                            > 0,
                    |k: (i32, i32)| plan[k.1 as int][k.0 as int],
                ),
            decreases height - y,
        {
            let mut x: usize = 0;
            assert(plan[y as int].len() == width);
            while x < width
                invariant
                    x <= width,
                    y < height,
                    width == width_of(land),
                    height == height_of(land),
                    1 <= width <= i32::MAX,
                    1 <= height <= i32::MAX,
                    plan == rows_of(*layout),
                    plan.len() == height,
                    plan[y as int].len() == width,
                    locs@ == Map::new(
                        |k: (i32, i32)|
                            on_map(land, k.0 as int, k.1 as int) && (k.1 < y || (k.1 == y && k.0
                                < x)) && plan[k.1 as int][k.0 as int] > 0,
                        |k: (i32, i32)| plan[k.1 as int][k.0 as int],
                    ),
                decreases width - x,
            {
                let karbonite = layout[y][x];
                if karbonite > 0 {
                    cell_map_insert(&mut locs, x as i32, y as i32, karbonite);
                }
                x += 1;
                assert(locs@ =~= Map::new(
                    |k: (i32, i32)|
                        on_map(land, k.0 as int, k.1 as int) && (k.1 < y || (k.1 == y && k.0 < x))
                            && plan[k.1 as int][k.0 as int] > 0,
                    |k: (i32, i32)| plan[k.1 as int][k.0 as int],
                ));
            }
            y += 1;
            assert(locs@ =~= Map::new(
                |k: (i32, i32)|
                    on_map(land, k.0 as int, k.1 as int) && k.1 < y && plan[k.1 as int][k.0 as int]
                        > 0,
                |k: (i32, i32)| plan[k.1 as int][k.0 as int],
            ));
        }
        assert(locs@ =~= deposits(land, plan));
        let future_karbonite = schedule_of(asteroids);
        proof {
            let sorted = future_karbonite@;
            assert forall|i: int| 0 <= i < sorted.len() implies on_map(
                land,
                (#[trigger] sorted[i]).1 as int,
                sorted[i].2 as int,
            ) by {
                broadcast use vstd::seq_lib::group_to_multiset_ensures;

                assert(sorted.to_multiset().count(sorted[i]) > 0);
                assert(asteroids@.to_multiset().count(sorted[i]) > 0);
                assert(asteroids@.contains(sorted[i]));
                let j = choose|j: int| 0 <= j < asteroids@.len() && asteroids@[j] == sorted[i];
                assert(on_map(land, asteroids@[j].1 as int, asteroids@[j].2 as int));
            }
        }
        let map = GravityMap::new(terrain);
        KnownKarbonite { karbonite_locations: locs, future_karbonite, gravity_map: map }
    }

    /// The field computed by the last `update`.
    pub fn gravity_map(&self) -> (g: &GravityMap)
        ensures
            *g == self.field(),
    {
        &self.gravity_map
    }

    /// The quantity known at `(x, y)`; zero for a cell that is not known to
    /// hold a resource.
    pub fn get(&self, x: i32, y: i32) -> (amount: u32)
        ensures
            amount == if self.known().contains_key((x, y)) {
                self.known()[(x, y)]
            } else {
                0
            },
    {
        match cell_map_get(&self.karbonite_locations, x, y) {
            Some(amt) => amt,
            None => 0u32,
        }
    }

    /// Records what an inspection of `(x, y)` found.
    pub fn set(&mut self, x: i32, y: i32, karbonite: u32)
        requires
            old(self).wf(),
            on_map(old(self).field().land(), x as int, y as int),
        ensures
            final(self).wf(),
            final(self).known() == settle(old(self).known(), x, y, karbonite),
            final(self).schedule() == old(self).schedule(),
            final(self).field() == old(self).field(),
    {
        if karbonite > 0 {
            cell_map_insert(&mut self.karbonite_locations, x, y, karbonite);
        } else {
            cell_map_remove(&mut self.karbonite_locations, x, y);
        }
    }

    /// Promotes the events that have arrived by `current_tick` and lists the
    /// sources for the field.
    ///
    /// Every event of the schedule that has arrived is taken off and
    /// recorded as an inspection would be, soonest first. The list holds the
    /// cells with a known quantity, each with starting distance zero, row by
    /// row over the map, and then the events that arrive less than `horizon`
    /// ticks ahead, soonest first, each with the ticks until its arrival.
    /// Starting distances never fall along the list.
    pub fn active_sources(&mut self, horizon: u32, current_tick: u32) -> (sources: Vec<
        (i32, i32, u32),
    >)
        requires
            old(self).wf(),
        ensures
            final(self).wf(),
            final(self).field() == old(self).field(),
            final(self).schedule() == remaining(old(self).schedule(), current_tick),
            final(self).known() == promoted(old(self).known(), old(self).schedule(), current_tick),
            sources@ == active_list(
                final(self).field().land(),
                final(self).known(),
                final(self).schedule(),
                current_tick,
                horizon,
            ),
            rising_starts(sources@),
            sources_on_map(final(self).field().land(), sources@),
    {
        let ghost land = self.gravity_map.land();
        while self.future_karbonite.len() > 0 && self.future_karbonite[self.future_karbonite.len()
            - 1].0 <= current_tick
            invariant
                self.wf(),
                self.gravity_map == old(self).gravity_map,
                land == self.gravity_map.land(),
                remaining(self.future_karbonite@, current_tick) == remaining(
                    old(self).future_karbonite@,
                    current_tick,
                ),
                promoted(self.karbonite_locations@, self.future_karbonite@, current_tick)
                    == promoted(
                    old(self).karbonite_locations@,
                    old(self).future_karbonite@,
                    current_tick,
                ),
            decreases self.future_karbonite.len(),
        {
            let ghost before = self.future_karbonite@;
            let (_, x, y, amt) = self.future_karbonite.pop().unwrap();
            assert(self.future_karbonite@ =~= before.drop_last());
            assert(on_map(land, before[before.len() - 1].1 as int, before[before.len() - 1].2 as int));
            assert forall|i: int| 0 <= i < self.future_karbonite@.len() implies on_map(
                land,
                (#[trigger] self.future_karbonite@[i]).1 as int,
                self.future_karbonite@[i].2 as int,
            ) by {
                assert(self.future_karbonite@[i] == before[i]);
            }
            proof {
                lemma_front_in_order(before, before.len() - 1);
            }
            self.set(x, y, amt);
        }
        let width = self.gravity_map.width();
        let height = self.gravity_map.height();
        let ghost known = self.karbonite_locations@;
        let mut sources: Vec<(i32, i32, u32)> = Vec::new();
        let mut y: usize = 0;
        while y < height
            invariant
                y <= height,
                self.wf(),
                known == self.karbonite_locations@,
                width == width_of(land),
                height == height_of(land),
                1 <= width <= i32::MAX,
                1 <= height <= i32::MAX,
                sources@ == known_cells(known, width as nat, y as nat),
            decreases height - y,
        {
            let mut x: usize = 0;
            assert(sources@ + known_in_row(known, y as int, 0) =~= sources@);
            while x < width
                invariant
                    x <= width,
                    y < height,
                    self.wf(),
                    known == self.karbonite_locations@,
                    1 <= width <= i32::MAX,
                    1 <= height <= i32::MAX,
                    sources@ == known_cells(known, width as nat, y as nat) + known_in_row(
                        known,
                        y as int,
                        x as nat,
                    ),
                decreases width - x,
            {
                let ghost before = sources@;
                let ghost row = known_in_row(known, y as int, x as nat);
                if self.get(x as i32, y as i32) > 0 {
                    sources.push((x as i32, y as i32, 0));
                    assert(sources@ =~= known_cells(known, width as nat, y as nat) + row.push(
                        (x as i32, y as i32, 0u32),
                    ));
                }
                x += 1;
            }
            y += 1;
        }
        let ghost known_part = sources@;
        proof {
            lemma_known_cells(known, width as nat, height as nat);
            assert forall|a: int, b: int| 0 <= a <= b < sources@.len() implies (
            #[trigger] sources@[a]).2 <= (#[trigger] sources@[b]).2 by {}
            assert forall|a: int| 0 <= a < sources@.len() implies on_map(
                land,
                (#[trigger] sources@[a]).0 as int,
                sources@[a].1 as int,
            ) by {}
        }
        let mut i: usize = self.future_karbonite.len();
        let ghost schedule = self.future_karbonite@;
        proof {
            lemma_remaining_is_ahead(old(self).future_karbonite@, current_tick);
            assert(schedule == remaining(schedule, current_tick));
            assert(schedule.take(schedule.len() as int) =~= schedule);
            assert(sources@.subrange(known_part.len() as int, sources@.len() as int) + upcoming(
                schedule,
                current_tick,
                horizon,
            ) =~= upcoming(schedule, current_tick, horizon));
        }
        while i > 0 && self.future_karbonite[i - 1].0 - current_tick < horizon
            invariant
                i <= self.future_karbonite.len(),
                schedule == self.future_karbonite@,
                latest_first(schedule),
                schedule_on_map(land, schedule),
                forall|j: int| 0 <= j < schedule.len() ==> (#[trigger] schedule[j]).0 > current_tick,
                known_part.len() <= sources@.len(),
                forall|j: int| 0 <= j < known_part.len() ==> (#[trigger] known_part[j]).2 == 0,
                sources@.subrange(0, known_part.len() as int) == known_part,
                sources@.subrange(known_part.len() as int, sources@.len() as int) + upcoming(
                    schedule.take(i as int),
                    current_tick,
                    horizon,
                ) == upcoming(schedule, current_tick, horizon),
                rising_starts(sources@),
                sources_on_map(land, sources@),
                i < schedule.len() ==> sources@.len() > 0 && sources@.last().2 == schedule[i as int].0
                    - current_tick,
                i == schedule.len() ==> sources@ == known_part,
            decreases i,
        {
            let (round, x, y, _) = self.future_karbonite[i - 1];
            let ghost before = sources@;
            let ghost head = schedule.take(i as int);
            assert(head.last() == schedule[i - 1]);
            assert(head.drop_last() =~= schedule.take(i - 1));
            sources.push((x, y, round - current_tick));
            i -= 1;
            proof {
                let entry = (x, y, (round - current_tick) as u32);
                assert(upcoming(head, current_tick, horizon) == seq![entry] + upcoming(
                    schedule.take(i as int),
                    current_tick,
                    horizon,
                ));
                assert(sources@.subrange(0, known_part.len() as int) =~= before.subrange(
                    0,
                    known_part.len() as int,
                ));
                assert(sources@.subrange(known_part.len() as int, sources@.len() as int)
                    =~= before.subrange(known_part.len() as int, before.len() as int).push(entry));
                assert(before.subrange(known_part.len() as int, before.len() as int).push(entry)
                    + upcoming(schedule.take(i as int), current_tick, horizon) =~= before.subrange(
                    known_part.len() as int,
                    before.len() as int,
                ) + (seq![entry] + upcoming(schedule.take(i as int), current_tick, horizon)));
                assert forall|a: int, b: int| 0 <= a <= b < sources@.len() implies (
                #[trigger] sources@[a]).2 <= (#[trigger] sources@[b]).2 by {
                    if b < before.len() {
                        assert(sources@[a] == before[a]);
                        assert(sources@[b] == before[b]);
                    } else if a < before.len() {
                        assert(sources@[a] == before[a]);
                        if i + 1 < schedule.len() {
                            assert(before[a].2 <= before.last().2);
                            assert(schedule[i as int].0 >= schedule[i + 1].0);
                        } else {
                            assert(before == known_part);
                            assert(known_part[a].2 == 0);
                        }
                    }
                }
                assert forall|a: int| 0 <= a < sources@.len() implies on_map(
                    land,
                    (#[trigger] sources@[a]).0 as int,
                    sources@[a].1 as int,
                ) by {
                    if a < before.len() {
                        assert(sources@[a] == before[a]);
                    } else {
                        assert(on_map(land, schedule[i as int].1 as int, schedule[i as int].2 as int));
                    }
                }
            }
        }
        proof {
            let tail = upcoming(schedule, current_tick, horizon);
            let listed = sources@.subrange(known_part.len() as int, sources@.len() as int);
            assert(upcoming(schedule.take(i as int), current_tick, horizon) =~= Seq::empty()) by {
                if i > 0 {
                    assert(schedule.take(i as int).last() == schedule[i - 1]);
                }
            }
            assert(listed + Seq::<(i32, i32, u32)>::empty() =~= listed);
            assert(listed == tail);
            assert(sources@ =~= known_part + tail);
        }
        sources
    }

    /// Brings the store to `round_num` and recomputes the field.
    ///
    /// The sources are those of `active_sources` with the horizon `HORIZON`,
    /// so the field is a function of the quantities, the schedule, the tick
    /// and the obstacles.
    pub fn update(&mut self, round_num: u32, obstacles: &FnvHashSet<(i32, i32)>)
        requires
            old(self).wf(),
        ensures
            brought_to(*old(self), *final(self), round_num, obstacles@),
    {
        let sources = self.active_sources(HORIZON, round_num);
        self.gravity_map.update(sources, obstacles);
    }
}

/// The active sources of the store at `tick`, as `update` lists them.
pub open spec fn active_now(store: KnownKarbonite, tick: u32) -> Seq<(i32, i32, u32)> {
    active_list(store.field().land(), store.known(), store.schedule(), tick, HORIZON)
}

/// Whether the field of the store is the gravity field of its active
/// sources at `tick`. The field is then settled and level.
pub open spec fn recomputed_from(store: KnownKarbonite, tick: u32, obstacles: Set<(i32, i32)>) -> bool {
    &&& rising_starts(active_now(store, tick))
    &&& sources_on_map(store.field().land(), active_now(store, tick))
    &&& store.field()@ == gravity_field(store.field().land(), obstacles, active_now(store, tick))
    &&& settled(store.field().land(), obstacles, active_now(store, tick), store.field()@)
    &&& level(store.field().land(), obstacles, store.field()@)
}

/// What `update` does to the store: the events that have arrived by `tick`
/// are promoted, and the field is recomputed from the active sources.
pub open spec fn brought_to(
    before: KnownKarbonite,
    after: KnownKarbonite,
    tick: u32,
    obstacles: Set<(i32, i32)>,
) -> bool {
    &&& after.wf()
    &&& after.field().wf()
    &&& after.field().land() == before.field().land()
    &&& after.schedule() == remaining(before.schedule(), tick)
    &&& after.known() == promoted(before.known(), before.schedule(), tick)
    &&& recomputed_from(after, tick, obstacles)
}

/// Promotion leaves a cell alone that no arrived event targets.
pub proof fn lemma_promotion_spares(
    known: Map<(i32, i32), u32>,
    schedule: Seq<(u32, i32, i32, u32)>,
    tick: u32,
    x: i32,
    y: i32,
)
    requires
        forall|j: int|
            0 <= j < schedule.len() && (#[trigger] schedule[j]).0 <= tick ==> !(schedule[j].1 == x
                && schedule[j].2 == y),
    ensures
        promoted(known, schedule, tick).contains_key((x, y)) == known.contains_key((x, y)),
        known.contains_key((x, y)) ==> promoted(known, schedule, tick)[(x, y)] == known[(x, y)],
    decreases schedule.len(),
{
    if schedule.len() > 0 && schedule.last().0 <= tick {
        let last = schedule.last();
        let fewer = schedule.drop_last();
        assert forall|j: int| 0 <= j < fewer.len() && (#[trigger] fewer[j]).0 <= tick implies !(
        fewer[j].1 == x && fewer[j].2 == y) by {
            assert(fewer[j] == schedule[j]);
        }
        lemma_promotion_spares(settle(known, last.1, last.2, last.3), fewer, tick, x, y);
    }
}

/// An event that has arrived by `tick` is off the schedule, and its cell is
/// known with its quantity, unless an event that arrived later on the same
/// cell has overwritten it. An event without quantity leaves the cell
/// unknown.
pub proof fn lemma_event_arrived(
    known: Map<(i32, i32), u32>,
    schedule: Seq<(u32, i32, i32, u32)>,
    i: int,
    tick: u32,
)
    requires
        latest_first(schedule),
        0 <= i < schedule.len(),
        schedule[i].0 <= tick,
        forall|j: int|
            0 <= j < i && (#[trigger] schedule[j]).0 <= tick ==> !(schedule[j].1 == schedule[i].1
                && schedule[j].2 == schedule[i].2),
    ensures
        remaining(schedule, tick).len() <= i,
        all_ahead(remaining(schedule, tick), tick),
        schedule[i].3 > 0 ==> promoted(known, schedule, tick).contains_key(
            (schedule[i].1, schedule[i].2),
        ) && promoted(known, schedule, tick)[(schedule[i].1, schedule[i].2)] == schedule[i].3,
        schedule[i].3 == 0 ==> !promoted(known, schedule, tick).contains_key(
            (schedule[i].1, schedule[i].2),
        ),
    decreases schedule.len(),
{
    lemma_remaining_is_ahead(schedule, tick);
    let last = schedule.last();
    let fewer = schedule.drop_last();
    assert(last.0 <= schedule[i].0);
    lemma_front_in_order(schedule, schedule.len() - 1);
    let next = settle(known, last.1, last.2, last.3);
    if i == schedule.len() - 1 {
        assert forall|j: int| 0 <= j < fewer.len() && (#[trigger] fewer[j]).0 <= tick implies !(
        fewer[j].1 == last.1 && fewer[j].2 == last.2) by {
            assert(fewer[j] == schedule[j]);
        }
        lemma_promotion_spares(next, fewer, tick, last.1, last.2);
        lemma_remaining_is_ahead(fewer, tick);
    } else {
        assert(fewer[i] == schedule[i]);
        assert forall|j: int| 0 <= j < i && (#[trigger] fewer[j]).0 <= tick implies !(fewer[j].1
            == fewer[i].1 && fewer[j].2 == fewer[i].2) by {
            assert(fewer[j] == schedule[j]);
        }
        lemma_event_arrived(next, fewer, i, tick);
    }
}

/// Promotion changes nothing where every event lies ahead.
pub proof fn lemma_nothing_to_promote(
    known: Map<(i32, i32), u32>,
    schedule: Seq<(u32, i32, i32, u32)>,
    tick: u32,
)
    requires
        all_ahead(schedule, tick),
    ensures
        promoted(known, schedule, tick) == known,
        remaining(schedule, tick) == schedule,
{
    if schedule.len() > 0 {
        assert(schedule.last() == schedule[schedule.len() - 1]);
    }
}

/// Updating the store a second time at the same tick and with the same
/// obstacles changes nothing: the quantities, the schedule and every record
/// of the field are as the first update left them.
pub proof fn lemma_update_again(
    start: KnownKarbonite,
    once: KnownKarbonite,
    twice: KnownKarbonite,
    tick: u32,
    obstacles: Set<(i32, i32)>,
)
    requires
        start.wf(),
        brought_to(start, once, tick, obstacles),
        brought_to(once, twice, tick, obstacles),
    ensures
        twice.known() == once.known(),
        twice.schedule() == once.schedule(),
        twice.field().land() == once.field().land(),
        twice.field()@ == once.field()@,
{
    start.lemma_wf();
    lemma_remaining_is_ahead(start.schedule(), tick);
    lemma_nothing_to_promote(once.known(), once.schedule(), tick);
}

/// After an update a cell with a known quantity is a resource at hand: the
/// field records distance zero for it, whatever else is scheduled for the
/// cell.
pub proof fn lemma_known_cell_costs_nothing(
    store: KnownKarbonite,
    tick: u32,
    obstacles: Set<(i32, i32)>,
    x: i32,
    y: i32,
)
    requires
        store.wf(),
        recomputed_from(store, tick, obstacles),
        store.known().contains_key((x, y)),
    ensures
        on_map(store.field().land(), x as int, y as int),
        labelled(store.field()@, x as int, y as int),
        at(store.field()@, x as int, y as int).distance == 0,
{
    let land = store.field().land();
    let sources = active_now(store, tick);
    let first = known_cells(store.known(), width_of(land) as nat, height_of(land) as nat);
    store.lemma_wf();
    store.field().lemma_wf();
    lemma_known_cells(store.known(), width_of(land) as nat, height_of(land) as nat);
    assert(first.contains((x, y, 0u32)));
    let i = choose|i: int| 0 <= i < first.len() && first[i] == (x, y, 0u32);
    assert(sources[i] == first[i]);
    lemma_source_is_within_its_start(land, obstacles, sources, store.field()@, i);
}

} // verus!
