use advent2022::hill::search::solve;
use advent2022::hill::vec2::Vec2;
use advent2022::hill::{HillError, NodeType, Terrain};

const TEST_DATA: &str = "Sabqponm
abcryxxl
accszExk
acctuvwj
abdefghi";

fn sample() -> Terrain {
    Terrain::parse(&TEST_DATA.lines().collect::<Vec<_>>()).unwrap()
}

#[test]
fn main_test() {
    let map = sample();
    let initial_set = vec![map.start];
    println!("{}", solve(&map, initial_set).unwrap().len());
}

#[test]
fn shortest_climb_of_the_sample() {
    let map = sample();
    assert_eq!(map.start, Vec2::new(0, 0));
    assert_eq!(map.end, Vec2::new(5, 2));
    assert_eq!(map.size, Vec2::new(8, 5));
    let path = solve(&map, vec![map.start]).unwrap();
    assert_eq!(path.len(), 31);
    assert_eq!(path[0], map.end);
}

#[test]
fn shortest_climb_from_any_lowest_point() {
    let map = sample();
    let mut initial_set = vec![map.start];
    for x in 0..map.size.x {
        for y in 0..map.size.y {
            if map.get(Vec2::new(x, y)) == Some(NodeType::Step(0)) {
                initial_set.push(Vec2::new(x, y));
            }
        }
    }
    assert_eq!(solve(&map, initial_set).unwrap().len(), 29);
}

#[test]
fn terrain_rejects_other_characters() {
    let r = Terrain::parse(&["Sab", "a?E"]);
    assert_eq!(r.err(), Some(HillError::InvalidNode('?')));
}

#[test]
fn terrain_get_outside_is_none() {
    let map = sample();
    assert_eq!(map.get(Vec2::new(-1, 0)), None);
    assert_eq!(map.get(Vec2::new(8, 0)), None);
    assert_eq!(map.get(Vec2::new(0, 0)), Some(NodeType::Start));
    assert_eq!(map.get(Vec2::new(1, 1)), Some(NodeType::Step(1)));
    assert_eq!(map.get(Vec2::new(5, 2)), Some(NodeType::End));
}

#[test]
fn search_fails_off_the_map() {
    let map = sample();
    assert_eq!(solve(&map, vec![Vec2::new(-1, -1)]).err(), Some(HillError::OffMap));
}

#[test]
fn search_fails_without_a_route() {
    let map = Terrain::parse(&["SazE"]).unwrap();
    assert_eq!(solve(&map, vec![map.start]).err(), Some(HillError::NoRoute));
}

#[test]
fn search_from_the_end_is_empty() {
    let map = sample();
    assert_eq!(solve(&map, vec![map.end]).unwrap(), vec![]);
}

#[test]
fn vec2_add_and_sub() {
    let a = Vec2::new(3, -4);
    let b = Vec2::new(1, 2);
    assert_eq!(a.add(&b), Vec2::new(4, -2));
    assert_eq!(a.sub(&b), Vec2::new(2, -6));
    assert_eq!(a.abs(), Vec2::new(3, 4));
    assert_eq!(Vec2::direction(&a, &b), Vec2::new(1, -1));
    assert_eq!(Vec2::from_dir("L"), Vec2::new(-1, 0));
    assert_eq!(Vec2::origin(), Vec2::from((0, 0)));
    assert_eq!(a.to_pair(), (3, -4));
}

#[test]
fn search_misses_the_marked_end() {
    let map = Terrain::parse(&["EzSzE"]).unwrap();
    assert_eq!(map.end, Vec2::new(4, 0));
    assert_eq!(
        solve(&map, vec![Vec2::new(1, 0)]).err(),
        Some(HillError::EndNotReached)
    );
    assert_eq!(solve(&map, vec![Vec2::new(3, 0)]).unwrap(), vec![Vec2::new(4, 0)]);
}

#[test]
fn search_stops_at_the_first_bad_initial_point() {
    let map = sample();
    assert_eq!(solve(&map, vec![map.end, Vec2::new(-1, 0)]).unwrap(), vec![]);
    assert_eq!(
        solve(&map, vec![map.start, Vec2::new(-1, 0), map.end]).err(),
        Some(HillError::OffMap)
    );
}

#[test]
fn path_is_a_walk_back_from_the_end() {
    let map = sample();
    let path = solve(&map, vec![map.start]).unwrap();
    let mut at = map.start;
    for next in path.iter().rev() {
        let step = next.sub(&at).abs();
        assert_eq!(step.x + step.y, 1, "{:?} -> {:?}", at, next);
        at = *next;
    }
    assert_eq!(at, map.end);
}

#[test]
fn starting_points_of_the_sample() {
    let map = sample();
    assert_eq!(
        map.starting_points(),
        vec![Vec2::new(0, 0), Vec2::new(1, 1), Vec2::new(1, 4), Vec2::new(2, 0)]
    );
    assert_eq!(solve(&map, map.starting_points()).unwrap().len(), 28);
}

#[test]
fn directions_by_name() {
    let chars = |s: &str| s.chars().collect::<Vec<_>>();
    assert_eq!(Vec2::from_chars(&chars("U")), Some(Vec2::new(0, 1)));
    assert_eq!(Vec2::from_chars(&chars("R")), Some(Vec2::from_dir("R")));
    assert_eq!(Vec2::from_chars(&chars("D")), Some(Vec2::new(0, -1)));
    assert_eq!(Vec2::from_chars(&chars("L")), Some(Vec2::new(-1, 0)));
    assert_eq!(Vec2::from_chars(&chars("X")), None);
    assert_eq!(Vec2::from_chars(&chars("UU")), None);
    assert_eq!(Vec2::from_chars(&chars("")), None);
}
