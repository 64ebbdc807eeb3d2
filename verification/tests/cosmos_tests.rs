use advent::cosmos::{calculate, get_expansion_offsets, get_galaxies};

fn example_input() -> Vec<String> {
    [
        "...#......",
        ".......#..",
        "#.........",
        "..........",
        "......#...",
        ".#........",
        ".........#",
        "..........",
        ".......#..",
        "#...#.....",
    ]
    .iter()
    .map(|line| line.to_string())
    .collect()
}

#[test]
fn test_get_galaxies() {
    let input = example_input();
    assert_eq!(
        get_galaxies(&input),
        vec![
            (3, 0),
            (7, 1),
            (0, 2),
            (6, 4),
            (1, 5),
            (9, 6),
            (7, 8),
            (0, 9),
            (4, 9)
        ]
    );
}

#[test]
fn test_get_expansion_offsets() {
    let input = example_input();
    let galaxies = get_galaxies(&input);
    assert_eq!(
        get_expansion_offsets(&galaxies, 1),
        (
            vec![0, 0, 1, 1, 1, 2, 2, 2, 3, 3],
            vec![0, 0, 0, 1, 1, 1, 1, 2, 2, 2]
        )
    );
    assert_eq!(
        get_expansion_offsets(&galaxies, 10),
        (
            vec![0, 0, 10, 10, 10, 20, 20, 20, 30, 30],
            vec![0, 0, 0, 10, 10, 10, 10, 20, 20, 20]
        )
    );
}

#[test]
fn main_test_calculate() {
    assert_eq!(calculate(&example_input(), 1), 374);
    assert_eq!(calculate(&example_input(), 9), 1030);
}
