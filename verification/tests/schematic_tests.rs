use advent::schematic::{MapItem, Position, Schematic};
use advent::schematic_gears;
use advent::schematic_parts;

fn example_input() -> Vec<String> {
    [
        "467..114..",
        "...*......",
        "..35..633.",
        "......#...",
        "617*......",
        ".....+.58.",
        "..592.....",
        "......755.",
        "...$.*....",
        ".664.598..",
    ]
    .iter()
    .map(|line| line.to_string())
    .collect()
}

#[test]
fn test_parse_map() {
    let map = Schematic::parse(
        vec![".....+.58.".to_string(), ".....-.18.".to_string()],
    );
    assert_eq!(
        map.map,
        vec![
            MapItem::Marker {
                pos: Position { x: 5, y: 0 },
                sign: '+'
            },
            MapItem::Number {
                pos: Position { x: 7, y: 0 },
                length: 2,
                value: 58
            },
            MapItem::Marker {
                pos: Position { x: 5, y: 1 },
                sign: '-'
            },
            MapItem::Number {
                pos: Position { x: 7, y: 1 },
                length: 2,
                value: 18
            },
        ]
    );
}

#[test]
fn test_neighboures() {
    let map = Schematic::parse(example_input());
    assert_eq!(
        map.neighbours(&Position { x: 0, y: 0 }, 3),
        vec![MapItem::Marker {
            pos: Position { x: 3, y: 1 },
            sign: '*'
        }]
    );
}

#[test]
fn test_part_numbers() {
    let map = Schematic::parse(example_input());
    let mut parts = map.part_numbers();
    parts.sort_by_key(|item| item.num().unwrap());
    assert_eq!(
        parts,
        vec![
            MapItem::Number {
                pos: Position { x: 2, y: 2 },
                length: 2,
                value: 35
            },
            MapItem::Number {
                pos: Position { x: 0, y: 0 },
                length: 3,
                value: 467
            },
            MapItem::Number {
                pos: Position { x: 2, y: 6 },
                length: 3,
                value: 592
            },
            MapItem::Number {
                pos: Position { x: 5, y: 9 },
                length: 3,
                value: 598
            },
            MapItem::Number {
                pos: Position { x: 0, y: 4 },
                length: 3,
                value: 617
            },
            MapItem::Number {
                pos: Position { x: 6, y: 2 },
                length: 3,
                value: 633
            },
            MapItem::Number {
                pos: Position { x: 1, y: 9 },
                length: 3,
                value: 664
            },
            MapItem::Number {
                pos: Position { x: 6, y: 7 },
                length: 3,
                value: 755
            }
        ]
    );
    assert_eq!(
        map.part_number_values(),
        vec![35, 467, 592, 598, 617, 633, 664, 755]
    );
}

#[test]
fn test_example() {
    assert_eq!(schematic_parts::compute(example_input()), 4361)
}

#[test]
fn main_test_example() {
    assert_eq!(schematic_gears::compute(example_input()), 467835)
}
