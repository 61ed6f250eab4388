use benone::direction::Direction;
use benone::terrain::Terrain;
use benone::turn::{obstacle_snapshot, Turn};
use benone::units::{KnownUnits, Location, Team, Unit, UnitType};
use benone::worker::{
    all_directions, drawn_heading, harvest_direction, plan_worker, random_direction, Answer, Command, Question,
    Stage, Step, WorkerPlan,
};

fn unit(id: u16, team: Team, unit_type: UnitType, location: Location) -> Unit {
    Unit { id, team, unit_type, location }
}

fn open_grid(width: usize, height: usize) -> Terrain {
    Terrain::new(vec![vec![true; width]; height]).unwrap()
}

fn corridor_turn(layout: Vec<u32>, asteroids: Vec<(u32, i32, i32, u32)>, units: Vec<Unit>) -> Turn {
    let width = layout.len();
    Turn::new(
        rand::thread_rng(),
        &open_grid(width, 1),
        &vec![layout],
        &asteroids,
        1,
        Team::Red,
        &units,
    )
}

#[test]
fn units_are_kept_by_kind_in_order_of_arrival() {
    let mut known = KnownUnits::new();
    let a = unit(1, Team::Red, UnitType::Knight, Location::InSpace);
    let b = unit(2, Team::Red, UnitType::Worker, Location::OnMap(1, 1));
    let c = unit(3, Team::Red, UnitType::Rocket, Location::Unknown);
    let d = unit(4, Team::Red, UnitType::Worker, Location::InGarrison(3));
    let e = unit(5, Team::Red, UnitType::Healer, Location::OnMap(0, 0));
    let f = unit(6, Team::Red, UnitType::Mage, Location::OnMap(0, 1));
    let g = unit(7, Team::Red, UnitType::Ranger, Location::OnMap(0, 2));
    let h = unit(8, Team::Red, UnitType::Factory, Location::OnMap(0, 3));
    for u in [a, b, c, d, e, f, g, h] {
        known.add(u);
    }
    assert_eq!(known.workers, vec![b, d]);
    assert_eq!(known.knights, vec![a]);
    assert_eq!(known.rockets, vec![c]);
    assert_eq!(known.iter(), vec![b, d, a, g, f, e, h, c]);
    known.reset();
    assert_eq!(known.iter(), Vec::new());
    assert!(known.workers.is_empty());
    assert!(KnownUnits::default().iter().is_empty());
}

#[test]
fn obstacles_are_the_cells_of_units_on_the_map() {
    let mut enemies = KnownUnits::new();
    enemies.add(unit(1, Team::Blue, UnitType::Knight, Location::OnMap(2, 3)));
    enemies.add(unit(2, Team::Blue, UnitType::Worker, Location::InGarrison(9)));
    enemies.add(unit(3, Team::Blue, UnitType::Ranger, Location::OnMap(0, 1)));
    enemies.add(unit(4, Team::Blue, UnitType::Rocket, Location::InSpace));
    enemies.add(unit(5, Team::Blue, UnitType::Mage, Location::OnMap(2, 3)));
    let obstacles = obstacle_snapshot(&enemies);
    assert_eq!(obstacles.len(), 2);
    assert!(obstacles.contains(&(2, 3)));
    assert!(obstacles.contains(&(0, 1)));
    assert!(!obstacles.contains(&(3, 2)));
    assert!(obstacle_snapshot(&KnownUnits::new()).is_empty());
}

#[test]
fn turn_sorts_units_and_treats_the_other_side_as_obstacles() {
    let mine = unit(1, Team::Red, UnitType::Worker, Location::OnMap(0, 0));
    let theirs = unit(2, Team::Blue, UnitType::Knight, Location::OnMap(2, 0));
    let turn = corridor_turn(vec![0, 0, 0, 0, 7], Vec::new(), vec![mine, theirs]);
    assert_eq!(turn.my_units.workers, vec![mine]);
    assert_eq!(turn.enemy_units.knights, vec![theirs]);
    assert!(turn.my_units.knights.is_empty());
    let field = turn.known_karbonite.gravity_map();
    assert_eq!(field.distance_to_resource(3, 0), Some(1));
    assert_eq!(field.direction_toward_resource(2, 0), None);
    assert_eq!(field.direction_toward_resource(0, 0), None);
}

#[test]
fn obstacles_do_not_outlive_the_tick() {
    let mine = unit(1, Team::Red, UnitType::Worker, Location::OnMap(0, 0));
    let theirs = unit(2, Team::Blue, UnitType::Knight, Location::OnMap(2, 0));
    let mut turn = corridor_turn(vec![0, 0, 0, 0, 7], Vec::new(), vec![mine, theirs]);
    assert_eq!(turn.known_karbonite.gravity_map().direction_toward_resource(0, 0), None);
    let moved = unit(2, Team::Blue, UnitType::Knight, Location::InSpace);
    turn.update(2, Team::Red, &vec![mine, moved]);
    let field = turn.known_karbonite.gravity_map();
    assert_eq!(field.direction_toward_resource(0, 0), Some(Direction::East));
    assert_eq!(field.distance_to_resource(0, 0), Some(4));
    turn.update(3, Team::Blue, &vec![mine, moved]);
    assert_eq!(turn.my_units.knights, vec![moved]);
    assert_eq!(turn.enemy_units.workers, vec![mine]);
    assert_eq!(turn.known_karbonite.gravity_map().direction_toward_resource(0, 0), None);
    assert_eq!(turn.known_karbonite.gravity_map().direction_toward_resource(1, 0), Some(Direction::East));
}

#[test]
fn random_direction_is_a_compass_heading() {
    let mut rng = rand::thread_rng();
    let mut seen = Vec::new();
    for _ in 0..400 {
        let heading = random_direction(&mut rng);
        assert!(heading != Direction::Center);
        if !seen.contains(&heading) {
            seen.push(heading);
        }
    }
    assert!(seen.len() > 1);
}

#[test]
fn harvest_directions_start_with_the_own_cell() {
    assert_eq!(harvest_direction(0), Direction::Center);
    assert_eq!(harvest_direction(1), Direction::North);
    assert_eq!(harvest_direction(2), Direction::South);
    assert_eq!(harvest_direction(3), Direction::East);
    assert_eq!(harvest_direction(4), Direction::West);
    assert_eq!(harvest_direction(5), Direction::Northeast);
    assert_eq!(harvest_direction(6), Direction::Southwest);
    assert_eq!(harvest_direction(7), Direction::Southeast);
    assert_eq!(harvest_direction(8), Direction::Northwest);
}

#[test]
fn few_workers_ask_to_replicate_first() {
    let worker = unit(1, Team::Red, UnitType::Worker, Location::OnMap(1, 0));
    let mut turn = corridor_turn(vec![0, 0, 4], Vec::new(), vec![worker]);
    let (mut plan, step) = plan_worker(&mut turn, 0);
    let Step::Ask(Question::CanReplicate(heading)) = step else {
        panic!("expected a replication question");
    };
    assert!(heading != Direction::Center);
    assert_eq!(plan.stage, Stage::Replicating(heading));
    let end = plan.next(Answer::Yes, &mut turn.known_karbonite);
    assert_eq!(end, Step::Act(Command::Replicate(heading)));
    assert_eq!(plan.stage, Stage::Finished);
}

#[test]
fn worker_that_cannot_replicate_inspects_the_known_cell() {
    let worker = unit(1, Team::Red, UnitType::Worker, Location::OnMap(1, 0));
    let mut turn = corridor_turn(vec![0, 0, 4], Vec::new(), vec![worker]);
    let (mut plan, _) = plan_worker(&mut turn, 0);
    let step = plan.next(Answer::No, &mut turn.known_karbonite);
    assert_eq!(step, Step::Ask(Question::KarboniteAt(2, 0)));
    assert_eq!(plan.stage, Stage::Inspecting(3));
    let step = plan.next(Answer::Amount(3), &mut turn.known_karbonite);
    assert_eq!(turn.known_karbonite.get(2, 0), 3);
    assert_eq!(step, Step::Ask(Question::CanHarvest(Direction::East)));
    let step = plan.next(Answer::Yes, &mut turn.known_karbonite);
    assert_eq!(step, Step::Act(Command::Harvest(Direction::East)));
}

#[test]
fn enough_workers_skip_replication() {
    let store_turn = corridor_turn(vec![5, 0, 0], Vec::new(), Vec::new());
    let (plan, step) = WorkerPlan::start(6, Location::OnMap(0, 0), Direction::North, &store_turn.known_karbonite);
    assert_eq!(step, Step::Ask(Question::KarboniteAt(0, 0)));
    assert_eq!(plan.stage, Stage::Inspecting(0));
    let (plan, step) = WorkerPlan::start(5, Location::OnMap(0, 0), Direction::North, &store_turn.known_karbonite);
    assert_eq!(step, Step::Ask(Question::CanReplicate(Direction::North)));
    assert_eq!(plan.stage, Stage::Replicating(Direction::North));
}

#[test]
fn exhausted_cell_is_forgotten_and_the_worker_moves_on() {
    let mut turn = corridor_turn(vec![5, 0, 0, 0, 8], Vec::new(), Vec::new());
    let (mut plan, step) = WorkerPlan::start(9, Location::OnMap(0, 0), Direction::North, &turn.known_karbonite);
    assert_eq!(step, Step::Ask(Question::KarboniteAt(0, 0)));
    let step = plan.next(Answer::Amount(0), &mut turn.known_karbonite);
    assert_eq!(turn.known_karbonite.get(0, 0), 0);
    assert_eq!(step, Step::Ask(Question::IsMoveReady));
    let step = plan.next(Answer::Yes, &mut turn.known_karbonite);
    assert_eq!(step, Step::Ask(Question::CanMove(Direction::Center)));

    turn.update(2, Team::Red, &Vec::new());
    let (mut plan, step) = WorkerPlan::start(9, Location::OnMap(0, 0), Direction::North, &turn.known_karbonite);
    assert_eq!(step, Step::Ask(Question::IsMoveReady));
    let step = plan.next(Answer::Yes, &mut turn.known_karbonite);
    assert_eq!(step, Step::Ask(Question::CanMove(Direction::East)));
    assert_eq!(plan.stage, Stage::Moving(Direction::East));
    let step = plan.next(Answer::Yes, &mut turn.known_karbonite);
    assert_eq!(step, Step::Act(Command::Move(Direction::East)));
    assert_eq!(plan.stage, Stage::Finished);
}

#[test]
fn refused_harvest_goes_on_to_the_next_known_cell() {
    let terrain = open_grid(3, 3);
    let layout = vec![vec![0, 0, 0], vec![2, 0, 3], vec![0, 0, 0]];
    let mut turn = Turn::new(rand::thread_rng(), &terrain, &layout, &Vec::new(), 1, Team::Red, &Vec::new());
    let (mut plan, step) =
        WorkerPlan::start(6, Location::OnMap(1, 1), Direction::North, &turn.known_karbonite);
    assert_eq!(step, Step::Ask(Question::KarboniteAt(2, 1)));
    assert_eq!(plan.stage, Stage::Inspecting(3));
    let step = plan.next(Answer::Amount(3), &mut turn.known_karbonite);
    assert_eq!(step, Step::Ask(Question::CanHarvest(Direction::East)));
    let step = plan.next(Answer::No, &mut turn.known_karbonite);
    assert_eq!(step, Step::Ask(Question::KarboniteAt(0, 1)));
    assert_eq!(plan.stage, Stage::Inspecting(4));
    let step = plan.next(Answer::Amount(1), &mut turn.known_karbonite);
    assert_eq!(turn.known_karbonite.get(0, 1), 1);
    assert_eq!(step, Step::Ask(Question::CanHarvest(Direction::West)));
    let step = plan.next(Answer::No, &mut turn.known_karbonite);
    assert_eq!(step, Step::Ask(Question::IsMoveReady));
    let step = plan.next(Answer::No, &mut turn.known_karbonite);
    assert_eq!(step, Step::Rest);
}

#[test]
fn worker_without_guidance_or_off_the_map_rests() {
    let mut turn = corridor_turn(vec![0, 0, 0], Vec::new(), Vec::new());
    let (mut plan, step) =
        WorkerPlan::start(6, Location::OnMap(1, 0), Direction::North, &turn.known_karbonite);
    assert_eq!(step, Step::Ask(Question::IsMoveReady));
    assert_eq!(plan.next(Answer::Yes, &mut turn.known_karbonite), Step::Rest);

    let (plan, step) = WorkerPlan::start(6, Location::InSpace, Direction::North, &turn.known_karbonite);
    assert_eq!(step, Step::Rest);
    assert_eq!(plan.stage, Stage::Finished);

    let (mut plan, step) =
        WorkerPlan::start(2, Location::InGarrison(4), Direction::West, &turn.known_karbonite);
    assert_eq!(step, Step::Ask(Question::CanReplicate(Direction::West)));
    assert_eq!(plan.next(Answer::No, &mut turn.known_karbonite), Step::Rest);
}

#[test]
fn blocked_move_ends_the_turn() {
    let mut turn = corridor_turn(vec![0, 0, 6], Vec::new(), Vec::new());
    let (mut plan, step) =
        WorkerPlan::start(6, Location::OnMap(0, 0), Direction::North, &turn.known_karbonite);
    assert_eq!(step, Step::Ask(Question::IsMoveReady));
    assert_eq!(
        plan.next(Answer::Yes, &mut turn.known_karbonite),
        Step::Ask(Question::CanMove(Direction::East))
    );
    assert_eq!(plan.next(Answer::No, &mut turn.known_karbonite), Step::Rest);
}

#[test]
fn heading_is_read_off_the_head_of_a_whole_sample() {
    assert_eq!(drawn_heading(&Ok(vec![Direction::West])), Some(Direction::West));
    assert_eq!(
        drawn_heading(&Ok(vec![Direction::Southeast, Direction::North])),
        Some(Direction::Southeast)
    );
    assert_eq!(drawn_heading(&Ok(Vec::new())), None);
    assert_eq!(drawn_heading(&Err(vec![Direction::West])), None);
    assert_eq!(drawn_heading(&Err(Vec::new())), None);
}

#[test]
fn all_directions_are_the_eight_in_examination_order() {
    assert_eq!(all_directions(), benone::direction::DIRECTIONS.to_vec());
}
