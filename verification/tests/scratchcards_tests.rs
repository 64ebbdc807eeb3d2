use advent::scratchcards::{count_matches, parse_line};
use advent::scratchcards_copies;
use advent::scratchcards_points;
use std::collections::HashSet;

fn example_input() -> Vec<String> {
    [
        "Card 1: 41 48 83 86 17 | 83 86  6 31 17  9 48 53",
        "Card 2: 13 32 20 16 61 | 61 30 68 82 17 32 24 19",
        "Card 3:  1 21 53 59 44 | 69 82 63 72 16 21 14  1",
        "Card 4: 41 92 73 84 69 | 59 84 76 51 58  5 54 83",
        "Card 5: 87 83 26 28 32 | 88 30 70 12 93 22 82 36",
        "Card 6: 31 18 13 56 72 | 74 77 10 23 35 67 36 11",
    ]
    .iter()
    .map(|line| line.to_string())
    .collect()
}

#[test]
fn test_parse_line() {
    let (winning, have) = parse_line("Card 1: 41 48 83 86 17 | 83 86  6 31 17  9 48 53");
    assert_eq!(
        winning.iter().copied().collect::<HashSet<u32>>(),
        HashSet::from([41, 48, 83, 86, 17])
    );
    assert_eq!(
        have.iter().copied().collect::<HashSet<u32>>(),
        HashSet::from([83, 86, 6, 31, 17, 9, 48, 53])
    );
}

#[test]
fn main_test_compute() {
    assert_eq!(scratchcards_points::compute(&example_input()), 13);
    assert_eq!(scratchcards_copies::compute(&example_input()), 30);
}

#[test]
fn duplicate_numbers_count_once() {
    let (winning, have) = parse_line("Card 1: 7 7 7 | 7 7");
    assert_eq!(winning, vec![7]);
    assert_eq!(have, vec![7]);
    assert_eq!(count_matches(&winning, &have), 1);
}
