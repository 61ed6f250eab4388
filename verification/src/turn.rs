//! What the agent knows at the start of a tick.

use crate::karbonite::{
    brought_to, deposits, promoted, recomputed_from, schedule_on_map, KnownKarbonite,
};
use crate::schedule::{arrange, remaining};
use crate::tables::{cell_set_insert, cell_set_new};
use crate::terrain::{height_of, rows_of, width_of, Terrain};
use crate::units::{belongs, occupied, sort_units, KnownUnits, Location, Team, Unit, UnitType};
use fnv::FnvHashSet;
use vstd::prelude::*;

verus! {

/// The generator of `rand::thread_rng`, carried through as an opaque value.
#[verifier::external_type_specification]
#[verifier::external_body]
pub struct ExThreadRng(rand::ThreadRng);

/// The state that is carried from tick to tick.
#[derive(Debug)]
pub struct Turn {
    pub rng: rand::ThreadRng,
    pub known_karbonite: KnownKarbonite,
    pub my_units: KnownUnits,
    pub enemy_units: KnownUnits,
}

/// The obstacles of this tick: the cells on which an opposing unit stands.
pub fn obstacle_snapshot(enemies: &KnownUnits) -> (obstacles: FnvHashSet<(i32, i32)>)
    ensures
        obstacles@ == occupied(enemies.all()),
{
    let units = enemies.iter();
    let mut obstacles = cell_set_new();
    let mut i: usize = 0;
    while i < units.len()
        invariant
            i <= units.len(),
            obstacles@ == occupied(units@.take(i as int)),
        decreases units.len() - i,
    {
        let ghost seen = units@.take(i as int);
        let ghost before = obstacles@;
        if let Location::OnMap(x, y) = units[i].location {
            cell_set_insert(&mut obstacles, x, y);
        }
        i += 1;
        proof {
            let now = units@.take(i as int);
            assert forall|p: (i32, i32)| obstacles@.contains(p) <==> occupied(now).contains(
                p,
            ) by {
                if occupied(now).contains(p) {
                    let j = choose|j: int|
                        0 <= j < now.len() && (#[trigger] now[j]).location == Location::OnMap(
                            p.0,
                            p.1,
                        );
                    if j < i - 1 {
                        assert(seen[j] == now[j]);
                        assert(occupied(seen).contains(p));
                    }
                }
                if before.contains(p) {
                    let j = choose|j: int|
                        0 <= j < seen.len() && (#[trigger] seen[j]).location == Location::OnMap(
                            p.0,
                            p.1,
                        );
                    assert(now[j] == seen[j]);
                } else if obstacles@.contains(p) {
                    assert(now[i - 1].location == Location::OnMap(p.0, p.1));
                }
            }
            assert(obstacles@ =~= occupied(now));
        }
    }
    assert(units@.take(units@.len() as int) =~= units@);
    obstacles
}

impl Turn {
    /// Whether the resource knowledge is well formed.
    pub open spec fn wf(&self) -> bool {
        self.known_karbonite.wf()
    }

    /// Whether the two lists of units are `units` sorted by side and kind.
    pub open spec fn sorted_from(&self, my_team: Team, units: Seq<Unit>) -> bool {
        &&& forall|kind: UnitType| #[trigger]
            self.my_units.of_type(kind) == units.filter(belongs(my_team, true, kind))
        &&& forall|kind: UnitType| #[trigger]
            self.enemy_units.of_type(kind) == units.filter(belongs(my_team, false, kind))
    }

    /// The state at the start of a match, already refreshed for the first
    /// tick.
    ///
    /// `layout[y][x]` is the quantity that the cell `(x, y)` holds at the
    /// start, `asteroids` the events to come, `units` the units seen at
    /// `round_num`.
    pub fn new(
        rng: rand::ThreadRng,
        terrain: &Terrain,
        layout: &Vec<Vec<u32>>,
        asteroids: &Vec<(u32, i32, i32, u32)>,
        round_num: u32,
        my_team: Team,
        units: &Vec<Unit>,
    ) -> (turn: Turn)
        requires
            terrain.wf(),
            rows_of(*layout).len() == height_of(terrain@),
            forall|y: int|
                0 <= y < height_of(terrain@) ==> (#[trigger] rows_of(*layout)[y]).len() == width_of(
                    terrain@,
                ),
            schedule_on_map(terrain@, asteroids@),
        ensures
            turn.wf(),
            turn.sorted_from(my_team, units@),
            turn.known_karbonite.field().wf(),
            turn.known_karbonite.field().land() == terrain@,
            turn.known_karbonite.schedule() == remaining(
                arrange(asteroids@, asteroids@.len()),
                round_num,
            ),
            turn.known_karbonite.known() == promoted(
                deposits(terrain@, rows_of(*layout)),
                arrange(asteroids@, asteroids@.len()),
                round_num,
            ),
            recomputed_from(turn.known_karbonite, round_num, occupied(turn.enemy_units.all())),
    {
        let mut turn = Turn {
            rng,
            known_karbonite: KnownKarbonite::new(terrain, layout, asteroids),
            my_units: KnownUnits::new(),
            enemy_units: KnownUnits::new(),
        };
        turn.update(round_num, my_team, units);
        turn
    }

    /// Takes in what is seen at `round_num`: the units are sorted by side
    /// and kind, and the resource knowledge is brought to `round_num` with
    /// the cells of the opposing units as obstacles.
    pub fn update(&mut self, round_num: u32, my_team: Team, units: &Vec<Unit>)
        requires
            old(self).wf(),
        ensures
            final(self).wf(),
            final(self).sorted_from(my_team, units@),
            brought_to(
                old(self).known_karbonite,
                final(self).known_karbonite,
                round_num,
                occupied(final(self).enemy_units.all()),
            ),
    {
        sort_units(units, my_team, &mut self.my_units, &mut self.enemy_units);
        let obstacles = obstacle_snapshot(&self.enemy_units);
        self.known_karbonite.update(round_num, &obstacles);
    }
}

} // verus!
