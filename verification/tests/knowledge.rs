use benone::direction::Direction;
use benone::karbonite::{KnownKarbonite, HORIZON};
use benone::schedule::{insert_event, schedule_of};
use benone::terrain::Terrain;
use fnv::FnvHashSet;

fn open_grid(width: usize, height: usize) -> Terrain {
    Terrain::new(vec![vec![true; width]; height]).unwrap()
}

fn empty_layout(width: usize, height: usize) -> Vec<Vec<u32>> {
    vec![vec![0; width]; height]
}

#[test]
fn starting_layout_is_known() {
    let layout = vec![vec![0, 5, 0], vec![7, 0, 0]];
    let store = KnownKarbonite::new(&open_grid(3, 2), &layout, &Vec::new());
    assert_eq!(store.get(1, 0), 5);
    assert_eq!(store.get(0, 1), 7);
    assert_eq!(store.get(0, 0), 0);
    assert_eq!(store.get(2, 1), 0);
    assert_eq!(store.get(10, 10), 0);
}

#[test]
fn observing_overwrites_and_zero_forgets() {
    let layout = vec![vec![0, 5, 0]];
    let mut store = KnownKarbonite::new(&open_grid(3, 1), &layout, &Vec::new());
    store.set(1, 0, 3);
    assert_eq!(store.get(1, 0), 3);
    store.set(2, 0, 9);
    assert_eq!(store.get(2, 0), 9);
    store.set(1, 0, 0);
    assert_eq!(store.get(1, 0), 0);
    let sources = store.active_sources(HORIZON, 1);
    assert_eq!(sources, vec![(2, 0, 0)]);
}

#[test]
fn known_cells_come_first_with_distance_zero() {
    let layout = vec![vec![4, 0, 6, 0]];
    let asteroids = vec![(30, 3, 0, 20), (12, 1, 0, 40)];
    let mut store = KnownKarbonite::new(&open_grid(4, 1), &layout, &asteroids);
    let sources = store.active_sources(HORIZON, 10);
    assert_eq!(sources, vec![(0, 0, 0), (2, 0, 0), (1, 0, 2), (3, 0, 20)]);
    for pair in sources.windows(2) {
        assert!(pair[0].2 <= pair[1].2);
    }
}

#[test]
fn event_one_tick_ahead_has_distance_one_and_is_not_known() {
    let asteroids = vec![(50, 2, 0, 33)];
    let mut store = KnownKarbonite::new(&open_grid(3, 1), &empty_layout(3, 1), &asteroids);
    let sources = store.active_sources(HORIZON, 49);
    assert_eq!(sources, vec![(2, 0, 1)]);
    assert_eq!(store.get(2, 0), 0);
}

#[test]
fn event_is_promoted_at_its_tick() {
    let asteroids = vec![(50, 2, 0, 33)];
    let mut store = KnownKarbonite::new(&open_grid(3, 1), &empty_layout(3, 1), &asteroids);
    let sources = store.active_sources(HORIZON, 50);
    assert_eq!(sources, vec![(2, 0, 0)]);
    assert_eq!(store.get(2, 0), 33);
    let later = store.active_sources(HORIZON, 51);
    assert_eq!(later, vec![(2, 0, 0)]);
    assert_eq!(store.get(2, 0), 33);
}

#[test]
fn event_is_promoted_when_first_asked_after_its_tick() {
    let asteroids = vec![(50, 2, 0, 33)];
    let mut store = KnownKarbonite::new(&open_grid(3, 1), &empty_layout(3, 1), &asteroids);
    let sources = store.active_sources(HORIZON, 70);
    assert_eq!(sources, vec![(2, 0, 0)]);
    assert_eq!(store.get(2, 0), 33);
}

#[test]
fn all_due_events_are_promoted_together() {
    let asteroids = vec![(5, 0, 0, 10), (6, 1, 0, 11), (7, 2, 0, 12), (9, 3, 0, 13)];
    let mut store = KnownKarbonite::new(&open_grid(4, 1), &empty_layout(4, 1), &asteroids);
    let sources = store.active_sources(HORIZON, 7);
    assert_eq!(store.get(0, 0), 10);
    assert_eq!(store.get(1, 0), 11);
    assert_eq!(store.get(2, 0), 12);
    assert_eq!(store.get(3, 0), 0);
    assert_eq!(sources, vec![(0, 0, 0), (1, 0, 0), (2, 0, 0), (3, 0, 2)]);
}

#[test]
fn later_event_on_a_cell_overwrites_the_earlier() {
    let asteroids = vec![(5, 1, 0, 10), (6, 1, 0, 25)];
    let mut store = KnownKarbonite::new(&open_grid(2, 1), &empty_layout(2, 1), &asteroids);
    store.active_sources(HORIZON, 8);
    assert_eq!(store.get(1, 0), 25);
}

#[test]
fn event_beyond_the_horizon_is_left_out_until_it_comes_near() {
    let asteroids = vec![(150, 1, 0, 20)];
    let mut store = KnownKarbonite::new(&open_grid(2, 1), &empty_layout(2, 1), &asteroids);
    assert_eq!(store.active_sources(100, 50), Vec::new());
    assert_eq!(store.active_sources(100, 30), Vec::new());
    assert_eq!(store.active_sources(100, 51), vec![(1, 0, 99)]);
    assert_eq!(store.active_sources(100, 100), vec![(1, 0, 50)]);
    assert_eq!(store.get(1, 0), 0);
}

#[test]
fn horizon_cuts_the_list_at_the_first_far_event() {
    let asteroids = vec![(20, 0, 0, 1), (40, 1, 0, 1), (300, 2, 0, 1)];
    let mut store = KnownKarbonite::new(&open_grid(3, 1), &empty_layout(3, 1), &asteroids);
    assert_eq!(store.active_sources(25, 10), vec![(0, 0, 10)]);
    assert_eq!(store.active_sources(31, 10), vec![(0, 0, 10), (1, 0, 30)]);
    assert_eq!(store.active_sources(HORIZON, 10), vec![(0, 0, 10), (1, 0, 30)]);
}

#[test]
fn schedule_is_latest_first_and_keeps_order_within_a_tick() {
    let events = vec![(7, 0, 0, 1), (9, 1, 0, 2), (7, 2, 0, 3), (3, 3, 0, 4), (9, 4, 0, 5)];
    let schedule = schedule_of(&events);
    assert_eq!(
        schedule,
        vec![(9, 1, 0, 2), (9, 4, 0, 5), (7, 0, 0, 1), (7, 2, 0, 3), (3, 3, 0, 4)]
    );
}

#[test]
fn update_recomputes_the_field_from_the_store() {
    let layout = vec![vec![0, 0, 0, 0, 9]];
    let asteroids = vec![(11, 0, 0, 20)];
    let mut store = KnownKarbonite::new(&open_grid(5, 1), &layout, &asteroids);
    store.update(10, &FnvHashSet::default());
    let field = store.gravity_map();
    assert_eq!(field.direction_toward_resource(2, 0), Some(Direction::East));
    assert_eq!(field.distance_to_resource(2, 0), Some(2));
    assert_eq!(field.distance_to_resource(0, 0), Some(1));
    assert_eq!(field.distance_to_resource(1, 0), Some(2));
    assert_eq!(field.direction_toward_resource(1, 0), Some(Direction::West));
}

#[test]
fn update_respects_obstacles_and_exhausted_cells() {
    let layout = vec![vec![5, 0, 0, 0, 9]];
    let mut store = KnownKarbonite::new(&open_grid(5, 1), &layout, &Vec::new());
    let mut obstacles = FnvHashSet::default();
    obstacles.insert((3, 0));
    store.update(1, &obstacles);
    assert_eq!(store.gravity_map().direction_toward_resource(2, 0), Some(Direction::West));
    assert_eq!(store.gravity_map().distance_to_resource(2, 0), Some(2));
    assert_eq!(store.gravity_map().direction_toward_resource(3, 0), None);
    store.set(0, 0, 0);
    store.update(2, &obstacles);
    assert_eq!(store.gravity_map().direction_toward_resource(2, 0), None);
    assert_eq!(store.gravity_map().direction_toward_resource(4, 0), Some(Direction::Center));
}

#[test]
fn event_without_quantity_leaves_the_cell_unknown() {
    let layout = vec![vec![0, 5]];
    let asteroids = vec![(4, 1, 0, 0), (5, 0, 0, 0)];
    let mut store = KnownKarbonite::new(&open_grid(2, 1), &layout, &asteroids);
    assert_eq!(store.active_sources(HORIZON, 3), vec![(1, 0, 0), (1, 0, 1), (0, 0, 2)]);
    assert_eq!(store.active_sources(HORIZON, 4), vec![(0, 0, 1)]);
    assert_eq!(store.get(1, 0), 0);
    assert_eq!(store.active_sources(HORIZON, 5), Vec::new());
    assert_eq!(store.get(0, 0), 0);
}

#[test]
fn inserted_event_stands_behind_those_of_its_tick() {
    let mut schedule = vec![(9, 0, 0, 1), (5, 1, 0, 2), (5, 2, 0, 3), (2, 3, 0, 4)];
    insert_event(&mut schedule, (5, 4, 0, 5));
    assert_eq!(
        schedule,
        vec![(9, 0, 0, 1), (5, 1, 0, 2), (5, 2, 0, 3), (5, 4, 0, 5), (2, 3, 0, 4)]
    );
    insert_event(&mut schedule, (10, 5, 0, 6));
    assert_eq!(schedule[0], (10, 5, 0, 6));
    insert_event(&mut schedule, (1, 6, 0, 7));
    assert_eq!(schedule[6], (1, 6, 0, 7));
    let mut empty = Vec::new();
    insert_event(&mut empty, (3, 0, 0, 1));
    assert_eq!(empty, vec![(3, 0, 0, 1)]);
}

#[test]
fn of_two_events_of_one_tick_the_first_given_is_recorded_last() {
    let asteroids = vec![(5, 0, 0, 10), (5, 0, 0, 20)];
    let mut store = KnownKarbonite::new(&open_grid(1, 1), &empty_layout(1, 1), &asteroids);
    store.active_sources(HORIZON, 5);
    assert_eq!(store.get(0, 0), 10);
}

#[test]
fn event_far_ahead_does_not_draw_units_away_from_a_near_resource() {
    let layout = vec![vec![0, 0, 0, 0, 1]];
    let asteroids = vec![(5, 0, 0, 20)];
    let mut store = KnownKarbonite::new(&open_grid(5, 1), &layout, &asteroids);
    store.update(0, &FnvHashSet::default());
    let field = store.gravity_map();
    assert_eq!(field.distance_to_resource(1, 0), Some(3));
    assert_eq!(field.direction_toward_resource(1, 0), Some(Direction::East));
    assert_eq!(field.distance_to_resource(0, 0), Some(4));
    assert_eq!(field.direction_toward_resource(0, 0), Some(Direction::East));
    assert_eq!(field.distance_to_resource(4, 0), Some(0));
}

#[test]
fn horizon_is_one_hundred_ticks() {
    assert_eq!(HORIZON, 100);
    let asteroids = vec![(100, 0, 0, 1), (101, 1, 0, 1)];
    let mut store = KnownKarbonite::new(&open_grid(2, 1), &empty_layout(2, 1), &asteroids);
    store.update(1, &FnvHashSet::default());
    assert_eq!(store.gravity_map().distance_to_resource(0, 0), Some(99));
    assert_eq!(store.gravity_map().distance_to_resource(1, 0), Some(100));
    assert_eq!(store.gravity_map().direction_toward_resource(1, 0), Some(Direction::West));
    store.update(2, &FnvHashSet::default());
    assert_eq!(store.gravity_map().distance_to_resource(0, 0), Some(98));
    assert_eq!(store.gravity_map().distance_to_resource(1, 0), Some(99));
    assert_eq!(store.gravity_map().direction_toward_resource(1, 0), Some(Direction::Center));
}

#[test]
fn updating_again_at_the_same_tick_changes_nothing() {
    let layout = vec![vec![3, 0, 0, 0, 0], vec![0, 0, 0, 0, 2], vec![0, 7, 0, 0, 0]];
    let asteroids = vec![(4, 2, 1, 9), (12, 4, 2, 5), (30, 0, 2, 6), (400, 3, 0, 1)];
    let mut store = KnownKarbonite::new(&open_grid(5, 3), &layout, &asteroids);
    let mut obstacles = FnvHashSet::default();
    obstacles.insert((1, 1));
    store.update(6, &obstacles);
    let mut cells = Vec::new();
    let mut amounts = Vec::new();
    for y in 0..3 {
        for x in 0..5 {
            cells.push(*store.gravity_map().get(x, y));
            amounts.push(store.get(x, y));
        }
    }
    assert_eq!(store.get(2, 1), 9);
    store.update(6, &obstacles);
    let mut i = 0;
    for y in 0..3 {
        for x in 0..5 {
            assert_eq!(*store.gravity_map().get(x, y), cells[i]);
            assert_eq!(store.get(x, y), amounts[i]);
            i += 1;
        }
    }
    assert_eq!(store.active_sources(HORIZON, 6).len(), 6);
}

#[test]
fn known_cells_are_listed_row_by_row() {
    let layout = vec![vec![0, 2, 0], vec![5, 0, 1], vec![0, 0, 0], vec![4, 3, 0]];
    let asteroids = vec![(9, 1, 1, 8), (7, 2, 2, 8)];
    let mut store = KnownKarbonite::new(&open_grid(3, 4), &layout, &asteroids);
    store.set(2, 0, 6);
    store.set(0, 1, 0);
    assert_eq!(
        store.active_sources(HORIZON, 1),
        vec![(1, 0, 0), (2, 0, 0), (2, 1, 0), (0, 3, 0), (1, 3, 0), (2, 2, 6), (1, 1, 8)]
    );
    assert_eq!(
        store.active_sources(HORIZON, 7),
        vec![(1, 0, 0), (2, 0, 0), (2, 1, 0), (2, 2, 0), (0, 3, 0), (1, 3, 0), (1, 1, 2)]
    );
}

#[test]
fn known_cell_with_an_event_to_come_counts_as_present() {
    let layout = vec![vec![0, 5, 0]];
    let asteroids = vec![(15, 1, 0, 9)];
    let mut store = KnownKarbonite::new(&open_grid(3, 1), &layout, &asteroids);
    store.update(10, &FnvHashSet::default());
    let field = store.gravity_map();
    assert_eq!(field.distance_to_resource(1, 0), Some(0));
    assert_eq!(field.direction_toward_resource(1, 0), Some(Direction::Center));
    assert_eq!(field.distance_to_resource(0, 0), Some(1));
    assert_eq!(field.distance_to_resource(2, 0), Some(1));
}

#[test]
fn of_two_events_on_one_cell_the_sooner_counts() {
    let asteroids = vec![(30, 0, 0, 9), (12, 0, 0, 4)];
    let mut store = KnownKarbonite::new(&open_grid(3, 1), &empty_layout(3, 1), &asteroids);
    store.update(10, &FnvHashSet::default());
    let field = store.gravity_map();
    assert_eq!(field.distance_to_resource(0, 0), Some(2));
    assert_eq!(field.distance_to_resource(1, 0), Some(3));
    assert_eq!(field.distance_to_resource(2, 0), Some(4));
}
