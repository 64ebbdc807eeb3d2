use advent::pipes::Direction::{East, North, South, West};
use advent::pipes::MapNode::{
    EastWest, Empty, NorthEast, NorthSouth, NorthWest, SouthWest, StartPoint,
};
use advent::pipes::{Critter, Direction, PipeMap};
use std::collections::HashSet;

fn example_input() -> Vec<String> {
    [".....", ".S-7.", ".|.|.", ".L-J.", "....."]
        .iter()
        .map(|line| line.to_string())
        .collect()
}

#[test]
fn test_parse() {
    let map = PipeMap::parse(example_input());
    assert_eq!(
        map,
        PipeMap {
            map: vec![
                vec![Empty, Empty, Empty, Empty, Empty],
                vec![Empty, StartPoint, EastWest, SouthWest, Empty],
                vec![Empty, NorthSouth, Empty, NorthSouth, Empty],
                vec![Empty, NorthEast, EastWest, NorthWest, Empty],
                vec![Empty, Empty, Empty, Empty, Empty],
            ],
            start_point: (1, 1),
        }
    );
}

#[test]
fn test_start_critters() {
    let map = PipeMap::parse(example_input());
    assert_eq!(
        map.get_possible_start_critters(),
        vec![
            Critter::new((1, 1), Direction::East),
            Critter::new((1, 1), Direction::South)
        ]
    );
}

#[test]
fn test_move_critter() {
    let map = PipeMap::parse(example_input());
    let mut critter = Critter::new(map.start_point, East);

    assert!(map.move_critter(&mut critter).is_ok());
    assert_eq!(critter, Critter::new((2, 1), East));
    assert!(map.move_critter(&mut critter).is_ok());
    assert_eq!(critter, Critter::new((3, 1), South));
    assert!(map.move_critter(&mut critter).is_ok());
    assert_eq!(critter, Critter::new((3, 2), South));
    assert!(map.move_critter(&mut critter).is_ok());
    assert_eq!(critter, Critter::new((3, 3), West));
    assert!(map.move_critter(&mut critter).is_ok());
    assert_eq!(critter, Critter::new((2, 3), West));
    assert!(map.move_critter(&mut critter).is_ok());
    assert_eq!(critter, Critter::new((1, 3), North));
    assert!(map.move_critter(&mut critter).is_ok());
    assert_eq!(critter, Critter::new((1, 2), North));
    assert!(map.move_critter(&mut critter).is_ok());
    assert_eq!(critter, Critter::new(map.start_point, North));
}

#[test]
fn test_move_critter_around() {
    let map = PipeMap::parse(example_input());
    let mut critter = Critter::new(map.start_point, East);
    let route = map.move_critter_around(&mut critter).unwrap();
    let visited: HashSet<(usize, usize)> = route.into_iter().collect();
    assert_eq!(
        visited,
        HashSet::from([
            (2, 1),
            (3, 1),
            (3, 2),
            (3, 3),
            (2, 3),
            (1, 3),
            (1, 2),
            (1, 1),
        ])
    );
}

#[test]
fn walker_stops_where_no_pipe_connects() {
    let map = PipeMap::parse(example_input());
    // north of the start lies empty ground: no step is possible
    let mut critter = Critter::new((1, 1), North);
    assert!(map.move_critter(&mut critter).is_err());
    assert_eq!(critter, Critter::new((1, 1), North));
}

#[test]
fn walk_fails_on_an_open_pipe() {
    let lines: Vec<String> = ["S-.", "..."].iter().map(|l| l.to_string()).collect();
    let map = PipeMap::parse(lines);
    let mut critter = Critter::new(map.start_point, East);
    assert!(map.move_critter_around(&mut critter).is_err());
}
