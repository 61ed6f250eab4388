use benone::direction::Direction;
use benone::field::GravityMapCell;
use benone::gravity::GravityMap;
use benone::terrain::Terrain;
use fnv::FnvHashSet;

fn open_grid(width: usize, height: usize) -> Terrain {
    Terrain::new(vec![vec![true; width]; height]).unwrap()
}

fn no_obstacles() -> FnvHashSet<(i32, i32)> {
    FnvHashSet::default()
}

fn step(direction: Direction) -> (i32, i32) {
    (direction.dx(), direction.dy())
}

#[test]
fn open_three_by_three_points_diagonally() {
    let mut field = GravityMap::new(&open_grid(3, 3));
    field.update(vec![(2, 2, 0)], &no_obstacles());
    let heading = field.direction_toward_resource(0, 0).unwrap();
    assert_eq!(heading, Direction::Northeast);
    assert_eq!(step(heading), (1, 1));
    assert_eq!(field.distance_to_resource(0, 0), Some(2));
    assert_eq!(field.direction_toward_resource(2, 2), Some(Direction::Center));
    assert_eq!(field.distance_to_resource(2, 2), Some(0));
    assert_eq!(field.distance_to_resource(1, 1), Some(1));
}

#[test]
fn corridor_prefers_the_present_resource_over_the_waiting_one() {
    let mut field = GravityMap::new(&open_grid(5, 1));
    field.update(vec![(4, 0, 0), (0, 0, 1)], &no_obstacles());
    assert_eq!(field.direction_toward_resource(2, 0), Some(Direction::East));
    assert_eq!(field.distance_to_resource(2, 0), Some(2));
    assert_eq!(field.distance_to_resource(1, 0), Some(2));
    assert_eq!(field.direction_toward_resource(1, 0), Some(Direction::West));
    assert_eq!(field.distance_to_resource(3, 0), Some(1));
    assert_eq!(field.distance_to_resource(0, 0), Some(1));
    assert_eq!(field.direction_toward_resource(0, 0), Some(Direction::Center));
}

#[test]
fn corridor_prefers_the_cheaper_side() {
    let mut field = GravityMap::new(&open_grid(5, 1));
    field.update(vec![(0, 0, 0), (4, 0, 1)], &no_obstacles());
    assert_eq!(field.direction_toward_resource(2, 0), Some(Direction::West));
    assert_eq!(field.distance_to_resource(2, 0), Some(2));
}

#[test]
fn corridor_tie_goes_to_the_source_listed_first() {
    let mut first = GravityMap::new(&open_grid(5, 1));
    first.update(vec![(4, 0, 0), (0, 0, 0)], &no_obstacles());
    assert_eq!(first.direction_toward_resource(2, 0), Some(Direction::East));
    assert_eq!(first.distance_to_resource(2, 0), Some(2));

    let mut second = GravityMap::new(&open_grid(5, 1));
    second.update(vec![(0, 0, 0), (4, 0, 0)], &no_obstacles());
    assert_eq!(second.direction_toward_resource(2, 0), Some(Direction::West));
    assert_eq!(second.distance_to_resource(2, 0), Some(2));
}

#[test]
fn obstacle_on_the_only_way_cuts_the_far_side_off() {
    let mut field = GravityMap::new(&open_grid(5, 1));
    let mut obstacles = no_obstacles();
    obstacles.insert((2, 0));
    field.update(vec![(4, 0, 0)], &obstacles);
    assert_eq!(field.distance_to_resource(3, 0), Some(1));
    assert_eq!(field.direction_toward_resource(2, 0), None);
    assert_eq!(field.distance_to_resource(2, 0), None);
    assert_eq!(field.direction_toward_resource(1, 0), None);
    assert_eq!(field.direction_toward_resource(0, 0), None);
    assert_eq!(field.distance_to_resource(0, 0), None);
}

#[test]
fn obstacle_is_walked_around_where_there_is_room() {
    let mut field = GravityMap::new(&open_grid(3, 3));
    let mut obstacles = no_obstacles();
    obstacles.insert((1, 1));
    field.update(vec![(2, 2, 0)], &obstacles);
    assert_eq!(field.direction_toward_resource(1, 1), None);
    assert_eq!(field.distance_to_resource(0, 0), Some(3));
    let heading = field.direction_toward_resource(0, 0).unwrap();
    let (dx, dy) = step(heading);
    assert!((dx, dy) != (1, 1));
    let next = field.distance_to_resource(dx, dy);
    assert_eq!(next, Some(2));
}

#[test]
fn impassable_terrain_blocks_like_an_obstacle() {
    let terrain = Terrain::new(vec![vec![true, true, false, true, true]]).unwrap();
    let mut field = GravityMap::new(&terrain);
    field.update(vec![(0, 0, 0)], &no_obstacles());
    assert_eq!(field.distance_to_resource(1, 0), Some(1));
    assert_eq!(field.distance_to_resource(2, 0), None);
    assert_eq!(field.distance_to_resource(3, 0), None);
    assert_eq!(field.distance_to_resource(4, 0), None);
}

#[test]
fn source_under_an_obstacle_still_attracts() {
    let mut field = GravityMap::new(&open_grid(3, 1));
    let mut obstacles = no_obstacles();
    obstacles.insert((2, 0));
    field.update(vec![(2, 0, 0)], &obstacles);
    assert_eq!(field.direction_toward_resource(2, 0), Some(Direction::Center));
    assert_eq!(field.direction_toward_resource(1, 0), Some(Direction::East));
    assert_eq!(field.distance_to_resource(0, 0), Some(2));
}

#[test]
fn no_source_leaves_every_cell_without_guidance() {
    let mut field = GravityMap::new(&open_grid(4, 3));
    field.update(Vec::new(), &no_obstacles());
    for y in 0..3 {
        for x in 0..4 {
            assert_eq!(field.direction_toward_resource(x, y), None);
            assert_eq!(field.distance_to_resource(x, y), None);
            assert_eq!(field.get(x, y).distance, 0);
        }
    }
}

#[test]
fn recomputing_with_the_same_inputs_gives_the_same_grid() {
    let terrain = vec![
        vec![true, true, true, true, true],
        vec![true, false, false, true, true],
        vec![true, true, true, false, true],
        vec![true, true, true, true, true],
    ];
    let mut obstacles = no_obstacles();
    obstacles.insert((4, 2));
    let sources = vec![(0, 0, 0), (4, 3, 0), (2, 2, 1)];
    let mut field = GravityMap::new(&Terrain::new(terrain.clone()).unwrap());
    field.update(sources.clone(), &obstacles);
    let mut first = Vec::new();
    for y in 0..4 {
        for x in 0..5 {
            first.push(*field.get(x, y));
        }
    }
    field.update(sources.clone(), &obstacles);
    let mut fresh = GravityMap::new(&Terrain::new(terrain).unwrap());
    fresh.update(vec![(1, 0, 7)], &no_obstacles());
    fresh.update(sources, &obstacles);
    let mut i = 0;
    for y in 0..4 {
        for x in 0..5 {
            assert_eq!(*field.get(x, y), first[i]);
            assert_eq!(*fresh.get(x, y), first[i]);
            i += 1;
        }
    }
}

#[test]
fn recomputing_forgets_the_previous_field() {
    let mut field = GravityMap::new(&open_grid(3, 1));
    field.update(vec![(0, 0, 0)], &no_obstacles());
    assert_eq!(field.distance_to_resource(2, 0), Some(2));
    let mut obstacles = no_obstacles();
    obstacles.insert((1, 0));
    field.update(vec![(0, 0, 0)], &obstacles);
    assert_eq!(field.distance_to_resource(2, 0), None);
    assert_eq!(field.get(2, 0).distance, 0);
}

fn reference_costs(
    passable: &Vec<Vec<bool>>,
    obstacles: &FnvHashSet<(i32, i32)>,
    sources: &Vec<(i32, i32, u32)>,
) -> Vec<Vec<Option<u64>>> {
    let height = passable.len() as i32;
    let width = passable[0].len() as i32;
    let mut cost: Vec<Vec<Option<u64>>> = vec![vec![None; width as usize]; height as usize];
    for &(x, y, start) in sources {
        let here = &mut cost[y as usize][x as usize];
        if here.map_or(true, |c| c > start as u64) {
            *here = Some(start as u64);
        }
    }
    let mut changed = true;
    while changed {
        changed = false;
        for y in 0..height {
            for x in 0..width {
                if !passable[y as usize][x as usize] || obstacles.contains(&(x, y)) {
                    continue;
                }
                for dy in -1..=1 {
                    for dx in -1..=1 {
                        let (nx, ny) = (x + dx, y + dy);
                        if (dx, dy) == (0, 0) || nx < 0 || ny < 0 || nx >= width || ny >= height {
                            continue;
                        }
                        if let Some(c) = cost[ny as usize][nx as usize] {
                            let mine = &mut cost[y as usize][x as usize];
                            if mine.map_or(true, |m| m > c + 1) {
                                *mine = Some(c + 1);
                                changed = true;
                            }
                        }
                    }
                }
            }
        }
    }
    cost
}

fn walls() -> Vec<Vec<bool>> {
    vec![
        vec![true, true, true, true, true],
        vec![true, false, false, false, true],
        vec![true, true, true, false, true],
        vec![false, false, true, false, true],
        vec![true, true, true, true, true],
    ]
}

#[test]
fn distances_are_least_on_a_five_by_five_grid() {
    let terrain = walls();
    let mut obstacles = no_obstacles();
    obstacles.insert((2, 4));
    let sources = vec![(0, 0, 0), (4, 4, 0), (1, 4, 1), (2, 2, 1)];
    let expected = reference_costs(&terrain, &obstacles, &sources);
    let mut field = GravityMap::new(&Terrain::new(terrain).unwrap());
    field.update(sources, &obstacles);
    for y in 0..5 {
        for x in 0..5 {
            assert_eq!(field.distance_to_resource(x, y), expected[y as usize][x as usize]);
        }
    }
}

#[test]
fn following_directions_reaches_a_source_in_distance_steps() {
    let terrain = walls();
    let sources = vec![(0, 0, 0), (4, 4, 0)];
    let mut field = GravityMap::new(&Terrain::new(terrain).unwrap());
    field.update(sources, &no_obstacles());
    for y in 0..5 {
        for x in 0..5 {
            let Some(distance) = field.distance_to_resource(x, y) else {
                continue;
            };
            let (mut cx, mut cy) = (x, y);
            let mut walked = 0u64;
            loop {
                let cell = *field.get(cx, cy);
                assert_eq!(cell.distance + walked, distance);
                let heading = cell.direction.unwrap();
                if heading == Direction::Center {
                    break;
                }
                cx += heading.dx();
                cy += heading.dy();
                walked += 1;
            }
            assert_eq!(walked, distance);
        }
    }
}

#[test]
fn waiting_source_next_to_a_present_one_points_at_it() {
    let mut field = GravityMap::new(&open_grid(4, 1));
    field.update(vec![(0, 0, 0), (1, 0, 5)], &no_obstacles());
    assert_eq!(field.direction_toward_resource(0, 0), Some(Direction::Center));
    assert_eq!(field.direction_toward_resource(1, 0), Some(Direction::West));
    assert_eq!(field.distance_to_resource(1, 0), Some(1));
    assert_eq!(field.direction_toward_resource(2, 0), Some(Direction::West));
    assert_eq!(field.distance_to_resource(2, 0), Some(2));
    assert_eq!(field.distance_to_resource(3, 0), Some(3));
}

#[test]
fn long_wait_loses_against_a_few_steps() {
    let mut field = GravityMap::new(&open_grid(5, 1));
    field.update(vec![(4, 0, 0), (0, 0, 5)], &no_obstacles());
    assert_eq!(field.distance_to_resource(1, 0), Some(3));
    assert_eq!(field.direction_toward_resource(1, 0), Some(Direction::East));
    assert_eq!(field.distance_to_resource(2, 0), Some(2));
    assert_eq!(field.distance_to_resource(3, 0), Some(1));
    assert_eq!(field.distance_to_resource(4, 0), Some(0));
    assert_eq!(field.distance_to_resource(0, 0), Some(4));
    assert_eq!(field.direction_toward_resource(0, 0), Some(Direction::East));
}

#[test]
fn waiting_source_behind_a_wall_keeps_its_wait() {
    let terrain = Terrain::new(vec![vec![true, true, false, true, true]]).unwrap();
    let mut field = GravityMap::new(&terrain);
    field.update(vec![(4, 0, 0), (0, 0, 5)], &no_obstacles());
    assert_eq!(field.direction_toward_resource(0, 0), Some(Direction::Center));
    assert_eq!(field.distance_to_resource(0, 0), Some(5));
    assert_eq!(field.distance_to_resource(1, 0), Some(6));
    assert_eq!(field.direction_toward_resource(1, 0), Some(Direction::West));
    assert_eq!(field.distance_to_resource(3, 0), Some(1));
}

#[test]
fn sources_out_of_order_still_give_the_least_cost() {
    let mut field = GravityMap::new(&open_grid(5, 1));
    field.update(vec![(0, 0, 1), (4, 0, 0)], &no_obstacles());
    assert_eq!(field.distance_to_resource(2, 0), Some(2));
    assert_eq!(field.direction_toward_resource(2, 0), Some(Direction::East));
    assert_eq!(field.distance_to_resource(1, 0), Some(2));
    assert_eq!(field.distance_to_resource(3, 0), Some(1));
}

#[test]
fn a_cell_listed_twice_counts_with_its_least_starting_distance() {
    let mut field = GravityMap::new(&open_grid(2, 1));
    field.update(vec![(0, 0, 0), (0, 0, 3)], &no_obstacles());
    assert_eq!(field.distance_to_resource(0, 0), Some(0));
    assert_eq!(field.distance_to_resource(1, 0), Some(1));

    let mut row = GravityMap::new(&open_grid(3, 1));
    row.update(vec![(1, 0, 0), (1, 0, 5)], &no_obstacles());
    assert_eq!(row.distance_to_resource(1, 0), Some(0));
    assert_eq!(row.direction_toward_resource(1, 0), Some(Direction::Center));
    assert_eq!(row.distance_to_resource(0, 0), Some(1));
    assert_eq!(row.distance_to_resource(2, 0), Some(1));

    let mut turned = GravityMap::new(&open_grid(3, 1));
    turned.update(vec![(1, 0, 5), (1, 0, 0), (1, 0, 2)], &no_obstacles());
    assert_eq!(turned.distance_to_resource(1, 0), Some(0));
    assert_eq!(turned.direction_toward_resource(1, 0), Some(Direction::Center));
    assert_eq!(turned.distance_to_resource(0, 0), Some(1));
    assert_eq!(turned.distance_to_resource(2, 0), Some(1));
}

#[test]
fn terrain_rejects_what_is_not_a_grid() {
    assert!(Terrain::new(Vec::new()).is_none());
    assert!(Terrain::new(vec![Vec::new()]).is_none());
    assert!(Terrain::new(vec![vec![true, true], vec![true]]).is_none());
    let terrain = Terrain::new(vec![vec![true, false], vec![false, true]]).unwrap();
    assert_eq!(terrain.width(), 2);
    assert_eq!(terrain.height(), 2);
    assert!(terrain.is_passable(0, 0));
    assert!(!terrain.is_passable(1, 0));
    assert!(!terrain.is_passable(0, 1));
    assert!(terrain.is_passable(1, 1));
}

#[test]
fn directions_reverse_and_step() {
    let all = [
        (Direction::North, 0, 1, Direction::South),
        (Direction::Northeast, 1, 1, Direction::Southwest),
        (Direction::East, 1, 0, Direction::West),
        (Direction::Southeast, 1, -1, Direction::Northwest),
        (Direction::South, 0, -1, Direction::North),
        (Direction::Southwest, -1, -1, Direction::Northeast),
        (Direction::West, -1, 0, Direction::East),
        (Direction::Northwest, -1, 1, Direction::Southeast),
        (Direction::Center, 0, 0, Direction::Center),
    ];
    for (direction, dx, dy, opposite) in all {
        assert_eq!(direction.dx(), dx);
        assert_eq!(direction.dy(), dy);
        assert_eq!(direction.opposite(), opposite);
    }
    assert_eq!(
        benone::direction::DIRECTIONS,
        [
            Direction::North,
            Direction::South,
            Direction::East,
            Direction::West,
            Direction::Northeast,
            Direction::Southwest,
            Direction::Southeast,
            Direction::Northwest,
        ]
    );
}

#[test]
fn bounds_are_those_of_the_terrain() {
    let terrain = Terrain::new(vec![vec![true; 4]; 2]).unwrap();
    assert!(terrain.contains(0, 0));
    assert!(terrain.contains(3, 1));
    assert!(!terrain.contains(4, 0));
    assert!(!terrain.contains(0, 2));
    assert!(!terrain.contains(-1, 0));
    assert!(!terrain.contains(0, -1));
    let field = GravityMap::new(&terrain);
    assert!(field.contains(3, 1));
    assert!(!field.contains(3, 2));
    assert!(!field.contains(-1, 1));
}

#[test]
fn cloned_terrain_is_the_same_grid() {
    let terrain = Terrain::new(vec![vec![true, false, true], vec![false, true, true]]).unwrap();
    let copy = terrain.clone();
    assert_eq!(copy.width(), 3);
    assert_eq!(copy.height(), 2);
    for y in 0..2 {
        for x in 0..3 {
            assert_eq!(copy.is_passable(x, y), terrain.is_passable(x, y));
        }
    }
}

#[test]
fn fresh_field_is_blank() {
    let field = GravityMap::new(&open_grid(2, 2));
    for y in 0..2 {
        for x in 0..2 {
            assert_eq!(*field.get(x, y), GravityMapCell { direction: None, distance: 0 });
            assert_eq!(*field.get(x, y), GravityMapCell::default());
        }
    }
}

#[test]
fn walk_ends_on_the_source_whose_wait_is_counted() {
    let mut field = GravityMap::new(&open_grid(6, 1));
    field.update(vec![(5, 0, 3), (0, 0, 4)], &no_obstacles());
    let expected = [(4, 0), (5, 1), (6, 2), (5, 2), (4, 1), (3, 0)];
    for x in 0..6 {
        let (distance, steps) = expected[x as usize];
        assert_eq!(field.distance_to_resource(x, 0), Some(distance));
        let mut cx = x;
        let mut walked = 0;
        loop {
            let heading = field.direction_toward_resource(cx, 0).unwrap();
            if heading == Direction::Center {
                break;
            }
            cx += heading.dx();
            walked += 1;
        }
        assert_eq!(walked, steps);
        let start = field.distance_to_resource(cx, 0).unwrap();
        assert_eq!(walked + start, distance);
    }
}

struct Lcg(u64);

impl Lcg {
    fn next(&mut self, bound: u64) -> u64 {
        self.0 = self.0.wrapping_mul(6364136223846793005).wrapping_add(1442695040888963407);
        (self.0 >> 33) % bound
    }
}

#[test]
fn distances_are_least_on_many_small_grids() {
    let mut lcg = Lcg(7);
    for _ in 0..200 {
        let width = 1 + lcg.next(6) as usize;
        let height = 1 + lcg.next(6) as usize;
        let mut passable = vec![vec![true; width]; height];
        for row in passable.iter_mut() {
            for cell in row.iter_mut() {
                *cell = lcg.next(4) != 0;
            }
        }
        let mut obstacles = no_obstacles();
        for _ in 0..lcg.next(4) {
            obstacles.insert((lcg.next(width as u64) as i32, lcg.next(height as u64) as i32));
        }
        let mut sources: Vec<(i32, i32, u32)> = Vec::new();
        for _ in 0..lcg.next(6) {
            let cell = (lcg.next(width as u64) as i32, lcg.next(height as u64) as i32);
            sources.push((cell.0, cell.1, lcg.next(12) as u32));
        }
        if lcg.next(3) != 0 {
            sources.sort_by_key(|s| s.2);
        }
        let expected = reference_costs(&passable, &obstacles, &sources);
        let mut field = GravityMap::new(&Terrain::new(passable).unwrap());
        field.update(sources, &obstacles);
        for y in 0..height as i32 {
            for x in 0..width as i32 {
                assert_eq!(field.distance_to_resource(x, y), expected[y as usize][x as usize]);
            }
        }
    }
}

fn plain_search(
    passable: &Vec<Vec<bool>>,
    obstacles: &FnvHashSet<(i32, i32)>,
    sources: &Vec<(i32, i32, u32)>,
) -> Vec<Vec<GravityMapCell>> {
    let height = passable.len() as i32;
    let width = passable[0].len() as i32;
    let order = [(0, 1), (0, -1), (1, 0), (-1, 0), (1, 1), (-1, -1), (1, -1), (-1, 1)];
    let back = [
        Direction::South,
        Direction::North,
        Direction::West,
        Direction::East,
        Direction::Southwest,
        Direction::Northeast,
        Direction::Northwest,
        Direction::Southeast,
    ];
    let mut cells =
        vec![vec![GravityMapCell { direction: None, distance: 0 }; width as usize]; height as usize];
    let mut queue = std::collections::VecDeque::new();
    for &(x, y, start) in sources {
        let seen = cells[y as usize][x as usize];
        if seen.direction.is_none() || seen.distance > start as u64 {
            cells[y as usize][x as usize] =
                GravityMapCell { direction: Some(Direction::Center), distance: start as u64 };
            queue.push_back((x, y));
        }
    }
    while let Some((x, y)) = queue.pop_front() {
        let distance = cells[y as usize][x as usize].distance + 1;
        for k in 0..8 {
            let (nx, ny) = (x + order[k].0, y + order[k].1);
            if nx < 0 || ny < 0 || nx >= width || ny >= height {
                continue;
            }
            if !passable[ny as usize][nx as usize] || obstacles.contains(&(nx, ny)) {
                continue;
            }
            let seen = cells[ny as usize][nx as usize];
            if seen.direction.is_none() || seen.distance > distance {
                cells[ny as usize][nx as usize] =
                    GravityMapCell { direction: Some(back[k]), distance };
                queue.push_back((nx, ny));
            }
        }
    }
    cells
}

#[test]
fn field_is_the_plain_search_record_for_record() {
    let mut lcg = Lcg(99);
    for _ in 0..200 {
        let width = 1 + lcg.next(7) as usize;
        let height = 1 + lcg.next(7) as usize;
        let mut passable = vec![vec![true; width]; height];
        for row in passable.iter_mut() {
            for cell in row.iter_mut() {
                *cell = lcg.next(5) != 0;
            }
        }
        let mut obstacles = no_obstacles();
        for _ in 0..lcg.next(5) {
            obstacles.insert((lcg.next(width as u64) as i32, lcg.next(height as u64) as i32));
        }
        let mut sources: Vec<(i32, i32, u32)> = Vec::new();
        for _ in 0..lcg.next(6) {
            sources.push((
                lcg.next(width as u64) as i32,
                lcg.next(height as u64) as i32,
                lcg.next(9) as u32,
            ));
        }
        let expected = plain_search(&passable, &obstacles, &sources);
        let mut field = GravityMap::new(&Terrain::new(passable).unwrap());
        field.update(sources, &obstacles);
        for y in 0..height {
            for x in 0..width {
                assert_eq!(*field.get(x as i32, y as i32), expected[y][x]);
            }
        }
    }
}

#[test]
fn order_of_the_sources_changes_no_distance() {
    let mut lcg = Lcg(2024);
    for _ in 0..120 {
        let width = 1 + lcg.next(6) as usize;
        let height = 1 + lcg.next(6) as usize;
        let mut passable = vec![vec![true; width]; height];
        for row in passable.iter_mut() {
            for cell in row.iter_mut() {
                *cell = lcg.next(5) != 0;
            }
        }
        let mut sources: Vec<(i32, i32, u32)> = Vec::new();
        for _ in 0..1 + lcg.next(5) {
            let cell = (lcg.next(width as u64) as i32, lcg.next(height as u64) as i32);
            if sources.iter().all(|s| (s.0, s.1) != cell) {
                sources.push((cell.0, cell.1, lcg.next(20) as u32));
            }
        }
        let mut turned = sources.clone();
        turned.reverse();
        let terrain = Terrain::new(passable).unwrap();
        let mut one = GravityMap::new(&terrain);
        one.update(sources, &no_obstacles());
        let mut other = GravityMap::new(&terrain);
        other.update(turned, &no_obstacles());
        for y in 0..height as i32 {
            for x in 0..width as i32 {
                assert_eq!(one.distance_to_resource(x, y), other.distance_to_resource(x, y));
            }
        }
    }
}
