//! What a worker does in its turn, decided one step at a time.
//!
//! The worker's turn is a short dialogue with the game engine. The plan
//! below holds the decisions: given the answer to the last question it says
//! what to ask next, or which command ends the turn. Whoever drives the plan
//! puts the questions to the engine and carries out the command.

use crate::direction::{compass, nth_direction, Direction};
use crate::field::at;
use crate::karbonite::{settle, KnownKarbonite};
use crate::terrain::{is_land, on_map};
use crate::turn::Turn;
use crate::units::Location;
use vstd::prelude::*;

verus! {

/// Workers replicate while there are fewer of them than this.
pub const ENOUGH_WORKERS: usize = 6;

/// What the engine is asked.
#[derive(Clone, Copy, Debug, PartialEq, Eq)]
pub enum Question {
    /// Can the worker replicate in this direction?
    CanReplicate(Direction),
    /// How much does the cell `(x, y)` hold?
    KarboniteAt(i32, i32),
    /// Can the worker harvest in this direction?
    CanHarvest(Direction),
    /// Is the worker ready to move?
    IsMoveReady,
    /// Can the worker move in this direction?
    CanMove(Direction),
}

/// A command that ends the worker's turn.
#[derive(Clone, Copy, Debug, PartialEq, Eq)]
pub enum Command {
    Replicate(Direction),
    Harvest(Direction),
    Move(Direction),
}

/// What the driver does next.
#[derive(Clone, Copy, Debug, PartialEq, Eq)]
pub enum Step {
    /// Put the question to the engine and come back with the answer.
    Ask(Question),
    /// Carry out the command; the turn is over.
    Act(Command),
    /// Nothing to do; the turn is over.
    Rest,
}

/// The engine's answer to a question.
#[derive(Clone, Copy, Debug, PartialEq, Eq)]
pub enum Answer {
    Yes,
    No,
    Amount(u32),
}

/// How far the worker's turn has come.
#[derive(Clone, Copy, Debug, PartialEq, Eq)]
pub enum Stage {
    /// Asked whether it can replicate in the given direction.
    Replicating(Direction),
    /// Asked how much the cell in the `i`-th harvest direction holds.
    Inspecting(usize),
    /// Asked whether it can harvest in the `i`-th harvest direction.
    Harvesting(usize),
    /// Asked whether it is ready to move.
    Readying,
    /// Asked whether it can move in the given direction.
    Moving(Direction),
    /// The turn is over.
    Finished,
}

/// The plan of one worker for one turn.
#[derive(Clone, Copy, Debug, PartialEq, Eq)]
pub struct WorkerPlan {
    pub location: Location,
    pub stage: Stage,
}

/// The `i`-th direction in which a worker looks for something to harvest:
/// its own cell first, then the eight neighbours in the examination order.
pub open spec fn harvest_heading(i: int) -> Direction {
    if i == 0 {
        Direction::Center
    } else {
        compass(i - 1)
    }
}

/// The cell in the `i`-th harvest direction from `(x, y)`.
pub open spec fn harvest_target(x: i32, y: i32, i: int) -> (int, int) {
    (x + harvest_heading(i).step_x(), y + harvest_heading(i).step_y())
}

/// The quantity known at a cell, zero where nothing is known.
pub open spec fn quantity(known: Map<(i32, i32), u32>, x: int, y: int) -> u32 {
    if known.contains_key((x as i32, y as i32)) {
        known[(x as i32, y as i32)]
    } else {
        0
    }
}

/// The first harvest direction, from the `from`-th on, in which a quantity
/// is known; nine if there is none.
pub open spec fn first_known(known: Map<(i32, i32), u32>, x: i32, y: i32, from: int) -> int
    decreases 9 - from,
{
    if from >= 9 {
        9
    } else if quantity(known, harvest_target(x, y, from).0, harvest_target(x, y, from).1) > 0 {
        from
    } else {
        first_known(known, x, y, from + 1)
    }
}

/// Looking for something to harvest from the `from`-th direction on: the
/// first cell with a known quantity is inspected; if there is none the
/// worker turns to moving.
pub open spec fn seek(known: Map<(i32, i32), u32>, x: i32, y: i32, from: int) -> (Stage, Step) {
    let i = first_known(known, x, y, from);
    if i < 9 {
        (
            Stage::Inspecting(i as usize),
            Step::Ask(
                Question::KarboniteAt(
                    harvest_target(x, y, i).0 as i32,
                    harvest_target(x, y, i).1 as i32,
                ),
            ),
        )
    } else {
        (Stage::Readying, Step::Ask(Question::IsMoveReady))
    }
}

/// What follows once replication is off the table: a worker on the map
/// looks for something to harvest, any other rests.
pub open spec fn settle_down(known: Map<(i32, i32), u32>, location: Location) -> (Stage, Step) {
    match location {
        Location::OnMap(x, y) => seek(known, x, y, 0),
        _ => (Stage::Finished, Step::Rest),
    }
}

/// How the turn opens: with fewer than `ENOUGH_WORKERS` workers the worker
/// asks whether it can replicate in the direction drawn for it.
pub open spec fn opening(
    known: Map<(i32, i32), u32>,
    num_workers: usize,
    location: Location,
    heading: Direction,
) -> (Stage, Step) {
    if num_workers < ENOUGH_WORKERS {
        (Stage::Replicating(heading), Step::Ask(Question::CanReplicate(heading)))
    } else {
        settle_down(known, location)
    }
}

/// Whether `answer` is of the kind that the stage waits for.
pub open spec fn awaited(stage: Stage, answer: Answer) -> bool {
    match stage {
        Stage::Inspecting(_) => answer is Amount,
        Stage::Finished => false,
        _ => answer is Yes || answer is No,
    }
}

/// What the knowledge of resources is after the answer: an inspection is
/// recorded for the inspected cell, nothing else changes it.
pub open spec fn learned(
    known: Map<(i32, i32), u32>,
    plan: WorkerPlan,
    answer: Answer,
) -> Map<(i32, i32), u32> {
    match (plan.location, plan.stage, answer) {
        (Location::OnMap(x, y), Stage::Inspecting(i), Answer::Amount(amount)) => settle(
            known,
            harvest_target(x, y, i as int).0 as i32,
            harvest_target(x, y, i as int).1 as i32,
            amount,
        ),
        _ => known,
    }
}

/// The stage and step that follow `answer`. `known` is the knowledge after
/// the answer, `heading` the direction that the field records for the
/// worker's cell.
pub open spec fn reaction(
    known: Map<(i32, i32), u32>,
    heading: Option<Direction>,
    plan: WorkerPlan,
    answer: Answer,
) -> (Stage, Step) {
    match plan.stage {
        Stage::Replicating(towards) => if answer is Yes {
            (Stage::Finished, Step::Act(Command::Replicate(towards)))
        } else {
            settle_down(known, plan.location)
        },
        Stage::Inspecting(i) => match (plan.location, answer) {
            (Location::OnMap(x, y), Answer::Amount(amount)) => if amount > 0 {
                (Stage::Harvesting(i), Step::Ask(Question::CanHarvest(harvest_heading(i as int))))
            } else {
                seek(known, x, y, i + 1)
            },
            _ => (Stage::Finished, Step::Rest),
        },
        Stage::Harvesting(i) => match plan.location {
            Location::OnMap(x, y) => if answer is Yes {
                (Stage::Finished, Step::Act(Command::Harvest(harvest_heading(i as int))))
            } else {
                seek(known, x, y, i + 1)
            },
            _ => (Stage::Finished, Step::Rest),
        },
        Stage::Readying => match heading {
            Some(towards) => if answer is Yes {
                (Stage::Moving(towards), Step::Ask(Question::CanMove(towards)))
            } else {
                (Stage::Finished, Step::Rest)
            },
            None => (Stage::Finished, Step::Rest),
        },
        Stage::Moving(towards) => if answer is Yes {
            (Stage::Finished, Step::Act(Command::Move(towards)))
        } else {
            (Stage::Finished, Step::Rest)
        },
        Stage::Finished => (Stage::Finished, Step::Rest),
    }
}

/// How many more questions the stage can lead to at most.
pub open spec fn questions_left(stage: Stage) -> int {
    match stage {
        Stage::Replicating(_) => 21,
        Stage::Inspecting(i) => 20 - 2 * i,
        Stage::Harvesting(i) => 19 - 2 * i,
        Stage::Readying => 2,
        Stage::Moving(_) => 1,
        Stage::Finished => 0,
    }
}

/// Whether the step belongs to the stage: a question is open exactly while
/// the turn is not over.
pub open spec fn in_step(stage: Stage, step: Step) -> bool {
    (stage is Finished) == !(step is Ask)
}

impl WorkerPlan {
    /// Whether the plan can be carried on against the store: the worker, if
    /// on the map, stands on a cell of the store's map, and a harvest
    /// direction under way is one of the nine.
    pub open spec fn fits(&self, store: KnownKarbonite) -> bool {
        &&& store.wf()
        &&& match self.location {
            Location::OnMap(x, y) => on_map(store.field().land(), x as int, y as int),
            _ => !(self.stage is Inspecting || self.stage is Harvesting || self.stage is Readying
                || self.stage is Moving),
        }
        &&& match self.stage {
            Stage::Inspecting(i) => match self.location {
                Location::OnMap(x, y) => i < 9 && quantity(
                    store.known(),
                    harvest_target(x, y, i as int).0,
                    harvest_target(x, y, i as int).1,
                ) > 0,
                _ => false,
            },
            Stage::Harvesting(i) => i < 9,
            _ => true,
        }
    }

    /// The direction that the field records for the worker's cell.
    pub open spec fn guidance(&self, store: KnownKarbonite) -> Option<Direction> {
        match self.location {
            Location::OnMap(x, y) => at(store.field()@, x as int, y as int).direction,
            _ => None,
        }
    }

    /// Opens the turn of a worker. `heading` is the direction drawn for a
    /// replication.
    pub fn start(
        num_workers: usize,
        location: Location,
        heading: Direction,
        store: &KnownKarbonite,
    ) -> (opened: (WorkerPlan, Step))
        requires
            store.wf(),
            location matches Location::OnMap(x, y) ==> on_map(
                store.field().land(),
                x as int,
                y as int,
            ),
        ensures
            opened.0.location == location,
            (opened.0.stage, opened.1) == opening(store.known(), num_workers, location, heading),
            opened.0.fits(*store),
            in_step(opened.0.stage, opened.1),
    {
        if num_workers < ENOUGH_WORKERS {
            (
                WorkerPlan { location, stage: Stage::Replicating(heading) },
                Step::Ask(Question::CanReplicate(heading)),
            )
        } else {
            let (stage, step) = look_around(location, store);
            (WorkerPlan { location, stage }, step)
        }
    }

    /// Takes the engine's answer to the open question and says what comes
    /// next. The answer to an inspection is recorded in the store. Every
    /// answer brings the end of the turn nearer.
    pub fn next(&mut self, answer: Answer, store: &mut KnownKarbonite) -> (step: Step)
        requires
            old(self).fits(*old(store)),
            awaited(old(self).stage, answer),
        ensures
            final(self).location == old(self).location,
            final(store).wf(),
            final(store).known() == learned(old(store).known(), *old(self), answer),
            final(store).schedule() == old(store).schedule(),
            final(store).field() == old(store).field(),
            (final(self).stage, step) == reaction(
                final(store).known(),
                old(self).guidance(*old(store)),
                *old(self),
                answer,
            ),
            final(self).fits(*final(store)),
            in_step(final(self).stage, step),
            questions_left(final(self).stage) < questions_left(old(self).stage),
    {
        proof {
            store.lemma_wf();
            store.field().lemma_wf();
        }
        let (stage, step) = match self.stage {
            Stage::Replicating(towards) => match answer {
                Answer::Yes => (Stage::Finished, Step::Act(Command::Replicate(towards))),
                _ => look_around(self.location, store),
            },
            Stage::Inspecting(i) => match (self.location, answer) {
                (Location::OnMap(x, y), Answer::Amount(amount)) => {
                    let towards = harvest_direction(i);
                    store.set(x + towards.dx(), y + towards.dy(), amount);
                    if amount > 0 {
                        (Stage::Harvesting(i), Step::Ask(Question::CanHarvest(towards)))
                    } else {
                        look_from(x, y, i + 1, store)
                    }
                },
                _ => (Stage::Finished, Step::Rest),
            },
            Stage::Harvesting(i) => match (self.location, answer) {
                (Location::OnMap(x, y), Answer::Yes) => (
                    Stage::Finished,
                    Step::Act(Command::Harvest(harvest_direction(i))),
                ),
                (Location::OnMap(x, y), _) => look_from(x, y, i + 1, store),
                _ => (Stage::Finished, Step::Rest),
            },
            Stage::Readying => match (self.location, answer) {
                (Location::OnMap(x, y), Answer::Yes) => {
                    match store.gravity_map().direction_toward_resource(x, y) {
                        Some(towards) => (Stage::Moving(towards), Step::Ask(Question::CanMove(towards))),
                        None => (Stage::Finished, Step::Rest),
                    }
                },
                _ => (Stage::Finished, Step::Rest),
            },
            Stage::Moving(towards) => match answer {
                Answer::Yes => (Stage::Finished, Step::Act(Command::Move(towards))),
                _ => (Stage::Finished, Step::Rest),
            },
            Stage::Finished => (Stage::Finished, Step::Rest),
        };
        self.stage = stage;
        step
    }
}

/// The `i`-th direction in which a worker looks for something to harvest.
pub fn harvest_direction(i: usize) -> (towards: Direction)
    requires
        i < 9,
    ensures
        towards == harvest_heading(i as int),
{
    if i == 0 {
        Direction::Center
    } else {
        nth_direction(i - 1)
    }
}

/// Looks for something to harvest around a worker on the map; a worker
/// elsewhere rests.
fn look_around(location: Location, store: &KnownKarbonite) -> (found: (Stage, Step))
    requires
        store.wf(),
        location matches Location::OnMap(x, y) ==> on_map(store.field().land(), x as int, y as int),
    ensures
        found == settle_down(store.known(), location),
        in_step(found.0, found.1),
        questions_left(found.0) <= 20,
        (WorkerPlan { location, stage: found.0 }).fits(*store),
{
    match location {
        Location::OnMap(x, y) => look_from(x, y, 0, store),
        _ => (Stage::Finished, Step::Rest),
    }
}

/// Looks for something to harvest around `(x, y)`, from the `from`-th
/// harvest direction on.
fn look_from(x: i32, y: i32, from: usize, store: &KnownKarbonite) -> (found: (Stage, Step))
    requires
        store.wf(),
        on_map(store.field().land(), x as int, y as int),
        from <= 9,
    ensures
        found == seek(store.known(), x, y, from as int),
        in_step(found.0, found.1),
        questions_left(found.0) <= 20 - 2 * from,
        (WorkerPlan { location: Location::OnMap(x, y), stage: found.0 }).fits(*store),
{
    proof {
        store.lemma_wf();
        store.field().lemma_wf();
    }
    let mut i: usize = from;
    while i < 9
        invariant
            from <= i <= 9,
            store.wf(),
            on_map(store.field().land(), x as int, y as int),
            is_land(store.field().land()),
            first_known(store.known(), x, y, from as int) == first_known(store.known(), x, y, i as int),
        decreases 9 - i,
    {
        let towards = harvest_direction(i);
        let tx = x + towards.dx();
        let ty = y + towards.dy();
        if store.get(tx, ty) > 0 {
            return (Stage::Inspecting(i), Step::Ask(Question::KarboniteAt(tx, ty)));
        }
        i += 1;
    }
    (Stage::Readying, Step::Ask(Question::IsMoveReady))
}

/// `rand::seq::sample_iter` on a list of headings.
///
/// Where the list has at least `amount` entries, the sample is `Ok` and
/// holds `amount` of them. Which ones depends on the generator; nothing is
/// said of it. Where the list is shorter, the sample is `Err` and holds the
/// whole list in its order. The generator reseeds itself from the operating
/// system now and then and panics if that fails.
#[verifier::external_body]
fn sample_headings(rng: &mut rand::ThreadRng, headings: Vec<Direction>, amount: usize) -> (drawn:
    Result<Vec<Direction>, Vec<Direction>>)
    ensures
        amount <= headings@.len() ==> drawn is Ok && drawn->Ok_0@.len() == amount && forall|i: int|
            0 <= i < amount ==> headings@.contains(#[trigger] drawn->Ok_0@[i]),
        amount > headings@.len() ==> drawn is Err && drawn->Err_0@ == headings@,
{
    rand::seq::sample_iter(rng, headings, amount)
}

/// The eight headings in the examination order.
pub fn all_directions() -> (headings: Vec<Direction>)
    ensures
        headings@.len() == 8,
        forall|k: int| 0 <= k < 8 ==> (#[trigger] headings@[k]) == compass(k),
{
    let mut headings: Vec<Direction> = Vec::new();
    let mut k: usize = 0;
    while k < 8
        invariant
            k <= 8,
            headings@.len() == k,
            forall|j: int| 0 <= j < k ==> (#[trigger] headings@[j]) == compass(j),
        decreases 8 - k,
    {
        headings.push(nth_direction(k));
        k += 1;
    }
    headings
}

/// The heading that a sample stands for: the first entry of a sample that
/// came out whole, nothing for one that fell short or is empty.
pub open spec fn first_drawn(sample: Result<Vec<Direction>, Vec<Direction>>) -> Option<Direction> {
    match sample {
        Ok(drawn) => if drawn@.len() > 0 {
            Some(drawn@[0])
        } else {
            None
        },
        Err(_) => None,
    }
}

/// Reads the heading off a sample.
pub fn drawn_heading(sample: &Result<Vec<Direction>, Vec<Direction>>) -> (heading: Option<Direction>)
    ensures
        heading == first_drawn(*sample),
{
    match sample {
        Ok(drawn) => if drawn.len() > 0 {
            Some(drawn[0])
        } else {
            None
        },
        Err(_) => None,
    }
}

/// Draws one of the eight headings at random.
///
/// Which heading comes out is the generator's choice; whatever it is, it is
/// one that moves.
pub fn random_direction(rng: &mut rand::ThreadRng) -> (heading: Direction)
    ensures
        heading != Direction::Center,
{
    let headings = all_directions();
    let ghost offered = headings@;
    let sample = sample_headings(rng, headings, 1);
    proof {
        let picked = sample->Ok_0@[0];
        assert(offered.contains(picked));
        let k = choose|k: int| 0 <= k < offered.len() && offered[k] == picked;
        assert(offered[k] == compass(k));
    }
    drawn_heading(&sample).unwrap()
}

/// Opens the turn of the `index`-th worker of the tick: draws a direction
/// for a replication and starts the plan with it.
pub fn plan_worker(turn: &mut Turn, index: usize) -> (opened: (WorkerPlan, Step))
    requires
        old(turn).wf(),
        index < old(turn).my_units.workers@.len(),
        old(turn).my_units.workers@[index as int].location matches Location::OnMap(x, y) ==> on_map(
            old(turn).known_karbonite.field().land(),
            x as int,
            y as int,
        ),
    ensures
        final(turn).known_karbonite == old(turn).known_karbonite,
        final(turn).my_units == old(turn).my_units,
        final(turn).enemy_units == old(turn).enemy_units,
        opened.0.location == old(turn).my_units.workers@[index as int].location,
        exists|heading: Direction|
            heading != Direction::Center && (opened.0.stage, opened.1) == #[trigger] opening(
                old(turn).known_karbonite.known(),
                old(turn).my_units.workers.len(),
                opened.0.location,
                heading,
            ),
        opened.0.fits(final(turn).known_karbonite),
        in_step(opened.0.stage, opened.1),
{
    let heading = random_direction(&mut turn.rng);
    let num_workers = turn.my_units.workers.len();
    let location = turn.my_units.workers[index].location;
    let opened = WorkerPlan::start(num_workers, location, heading, &turn.known_karbonite);
    assert((opened.0.stage, opened.1) == opening(
        turn.known_karbonite.known(),
        num_workers,
        location,
        heading,
    ));
    opened
}

} // verus!
