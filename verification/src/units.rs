//! The units seen on the map, sorted by kind.

use vstd::prelude::*;

verus! {

/// The kinds of unit.
#[derive(Clone, Copy, Debug, PartialEq, Eq, Structural, Hash)]
pub enum UnitType {
    Worker,
    Knight,
    Ranger,
    Mage,
    Healer,
    Factory,
    Rocket,
}

/// The two sides of a match.
#[derive(Clone, Copy, Debug, PartialEq, Eq, Structural, Hash)]
pub enum Team {
    Red,
    Blue,
}

/// Where a unit is.
#[derive(Clone, Copy, Debug, PartialEq, Eq)]
pub enum Location {
    /// On the cell `(x, y)` of the map.
    OnMap(i32, i32),
    /// Inside the structure with the given id.
    InGarrison(u16),
    /// Travelling between planets.
    InSpace,
    /// Not known.
    Unknown,
}

/// What the field and the tick driver need to know of a unit.
#[derive(Clone, Copy, Debug, PartialEq, Eq)]
pub struct Unit {
    pub id: u16,
    pub team: Team,
    pub unit_type: UnitType,
    pub location: Location,
}

/// The units of one side, one list per kind, each in the order in which the
/// units were added.
#[derive(Debug)]
pub struct KnownUnits {
    pub workers: Vec<Unit>,
    pub knights: Vec<Unit>,
    pub rangers: Vec<Unit>,
    pub mages: Vec<Unit>,
    pub healers: Vec<Unit>,
    pub factories: Vec<Unit>,
    pub rockets: Vec<Unit>,
}

/// The test that picks, from a list of units, those of one kind that belong
/// to `team` (if `own`) or to the other side (if not).
pub open spec fn belongs(team: Team, own: bool, kind: UnitType) -> spec_fn(Unit) -> bool {
    |unit: Unit| (unit.team == team) == own && unit.unit_type == kind
}

/// The cells on which some unit of the list stands.
pub open spec fn occupied(units: Seq<Unit>) -> Set<(i32, i32)> {
    Set::new(
        |p: (i32, i32)|
            exists|i: int|
                0 <= i < units.len() && (#[trigger] units[i]).location == Location::OnMap(p.0, p.1),
    )
}

impl KnownUnits {
    /// The list kept for one kind.
    pub open spec fn of_type(&self, kind: UnitType) -> Seq<Unit> {
        match kind {
            UnitType::Worker => self.workers@,
            UnitType::Knight => self.knights@,
            UnitType::Ranger => self.rangers@,
            UnitType::Mage => self.mages@,
            UnitType::Healer => self.healers@,
            UnitType::Factory => self.factories@,
            UnitType::Rocket => self.rockets@,
        }
    }

    /// All units: workers first, then knights, rangers, mages, healers,
    /// factories and rockets.
    pub open spec fn all(&self) -> Seq<Unit> {
        self.workers@ + self.knights@ + self.rangers@ + self.mages@ + self.healers@
            + self.factories@ + self.rockets@
    }

    /// Whether no unit is listed.
    pub open spec fn is_empty(&self) -> bool {
        forall|kind: UnitType| #[trigger] self.of_type(kind) == Seq::<Unit>::empty()
    }

    /// Seven empty lists.
    pub fn new() -> (units: KnownUnits)
        ensures
            units.is_empty(),
    {
        KnownUnits {
            workers: Vec::new(),
            knights: Vec::new(),
            rangers: Vec::new(),
            mages: Vec::new(),
            healers: Vec::new(),
            factories: Vec::new(),
            rockets: Vec::new(),
        }
    }

    /// Forgets every unit.
    pub fn reset(&mut self)
        ensures
            final(self).is_empty(),
    {
        self.workers.clear();
        self.knights.clear();
        self.rangers.clear();
        self.mages.clear();
        self.healers.clear();
        self.factories.clear();
        self.rockets.clear();
    }

    /// Appends the unit to the list of its kind.
    pub fn add(&mut self, unit: Unit)
        ensures
            forall|kind: UnitType| #[trigger]
                final(self).of_type(kind) == if kind == unit.unit_type {
                    old(self).of_type(kind).push(unit)
                } else {
                    old(self).of_type(kind)
                },
    {
        match unit.unit_type {
            UnitType::Worker => self.workers.push(unit),
            UnitType::Knight => self.knights.push(unit),
            UnitType::Ranger => self.rangers.push(unit),
            UnitType::Mage => self.mages.push(unit),
            UnitType::Healer => self.healers.push(unit),
            UnitType::Factory => self.factories.push(unit),
            UnitType::Rocket => self.rockets.push(unit),
        }
    }

    /// All units in one list, kind by kind.
    pub fn iter(&self) -> (units: Vec<Unit>)
        ensures
            units@ == self.all(),
    {
        let mut units: Vec<Unit> = Vec::new();
        append_units(&mut units, &self.workers);
        append_units(&mut units, &self.knights);
        append_units(&mut units, &self.rangers);
        append_units(&mut units, &self.mages);
        append_units(&mut units, &self.healers);
        append_units(&mut units, &self.factories);
        append_units(&mut units, &self.rockets);
        units
    }
}

impl Default for KnownUnits {
    fn default() -> (units: KnownUnits)
        ensures
            units.is_empty(),
    {
        KnownUnits::new()
    }
}

/// Appends a copy of every unit of `more` to `units`.
fn append_units(units: &mut Vec<Unit>, more: &Vec<Unit>)
    ensures
        final(units)@ == old(units)@ + more@,
{
    let mut i: usize = 0;
    while i < more.len()
        invariant
            i <= more.len(),
            units@ == old(units)@ + more@.take(i as int),
        decreases more.len() - i,
    {
        units.push(more[i]);
        i += 1;
        assert(units@ =~= old(units)@ + more@.take(i as int));
    }
    assert(more@.take(more@.len() as int) =~= more@);
}

/// Sorts the units seen this tick into those of `my_team` and the others,
/// each side kind by kind, in the order in which they were seen.
pub fn sort_units(units: &Vec<Unit>, my_team: Team, mine: &mut KnownUnits, others: &mut KnownUnits)
    ensures
        forall|kind: UnitType| #[trigger]
            final(mine).of_type(kind) == units@.filter(belongs(my_team, true, kind)),
        forall|kind: UnitType| #[trigger]
            final(others).of_type(kind) == units@.filter(belongs(my_team, false, kind)),
{
    mine.reset();
    others.reset();
    let mut i: usize = 0;
    proof {
        reveal(Seq::filter);
        assert(units@.take(0) =~= Seq::empty());
    }
    while i < units.len()
        invariant
            i <= units.len(),
            forall|kind: UnitType| #[trigger]
                mine.of_type(kind) == units@.take(i as int).filter(belongs(my_team, true, kind)),
            forall|kind: UnitType| #[trigger]
                others.of_type(kind) == units@.take(i as int).filter(belongs(my_team, false, kind)),
        decreases units.len() - i,
    {
        let unit = units[i];
        let ghost seen = units@.take(i as int);
        let ghost mine_before = *mine;
        let ghost others_before = *others;
        if unit.team == my_team {
            mine.add(unit);
        } else {
            others.add(unit);
        }
        i += 1;
        proof {
            reveal(Seq::filter);
            let now = units@.take(i as int);
            assert(now.drop_last() =~= seen);
            assert(now.last() == unit);
            assert forall|kind: UnitType| #[trigger]
                mine.of_type(kind) == now.filter(belongs(my_team, true, kind)) by {
                assert(mine_before.of_type(kind) == seen.filter(belongs(my_team, true, kind)));
            }
            assert forall|kind: UnitType| #[trigger]
                others.of_type(kind) == now.filter(belongs(my_team, false, kind)) by {
                assert(others_before.of_type(kind) == seen.filter(belongs(my_team, false, kind)));
            }
        }
    }
    assert(units@.take(units@.len() as int) =~= units@);
}

} // verus!
