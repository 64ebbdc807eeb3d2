use advent::cube_game::{Game, Hand};
use advent::cube_game_possible;
use advent::cube_game_power;

fn example_input() -> Vec<String> {
    [
        "Game 1: 3 blue, 4 red; 1 red, 2 green, 6 blue; 2 green",
        "Game 2: 1 blue, 2 green; 3 green, 4 blue, 1 red; 1 green, 1 blue",
        "Game 3: 8 green, 6 blue, 20 red; 5 blue, 4 red, 13 green; 5 green, 1 red",
        "Game 4: 1 green, 3 red, 6 blue; 3 green, 6 red; 3 green, 15 blue, 14 red",
        "Game 5: 6 red, 1 blue, 3 green; 2 blue, 1 red, 2 green",
    ]
    .iter()
    .map(|line| line.to_string())
    .collect()
}

#[test]
fn test_hand_parse() {
    assert_eq!(
        Hand::parse("1 green, 2 blue, 3 red"),
        Hand {
            red: 3,
            green: 1,
            blue: 2
        }
    );
    assert_eq!(
        Hand::parse("2 blue, 3 red"),
        Hand {
            red: 3,
            green: 0,
            blue: 2
        }
    );
    assert_eq!(
        Hand::parse("bad"),
        Hand {
            red: 0,
            green: 0,
            blue: 0
        }
    );
}

#[test]
fn test_hand_validate() {
    let hand = Hand {
        red: 1,
        green: 2,
        blue: 3,
    };
    assert!(hand.validate(1, 2, 3));
    assert!(!hand.validate(0, 0, 0));
    assert!(!hand.validate(2, 2, 2));
    assert!(hand.validate(3, 4, 5));
}

#[test]
fn test_game_parse() {
    assert_eq!(
        Game::parse("Game 2: 2 blue, 4 red, 7 green; 3 blue, 2 green; 3 green, 14 red, 1 blue"),
        Game {
            id: 2,
            hands: vec![
                Hand {
                    red: 4,
                    green: 7,
                    blue: 2
                },
                Hand {
                    red: 0,
                    green: 2,
                    blue: 3
                },
                Hand {
                    red: 14,
                    green: 3,
                    blue: 1
                },
            ]
        }
    );
    assert_eq!(
        Game::parse(
            "Game 2: 2 blue, 4 red, 7 green; 17 red, 3 blue, 2 green; 3 green, 14 red, 1 blue"
        ),
        Game {
            id: 2,
            hands: vec![
                Hand {
                    red: 4,
                    green: 7,
                    blue: 2
                },
                Hand {
                    red: 17,
                    green: 2,
                    blue: 3
                },
                Hand {
                    red: 14,
                    green: 3,
                    blue: 1
                },
            ]
        }
    );
}

#[test]
fn test_game_validate() {
    let game =
        Game::parse("Game 2: 2 blue, 4 red, 7 green; 3 blue, 2 green; 3 green, 14 red, 1 blue");
    assert!(game.validate(14, 7, 3));
    assert!(!game.validate(13, 7, 3));
}

#[test]
fn test_game_max_hand() {
    let game =
        Game::parse("Game 2: 2 blue, 4 red, 7 green; 3 blue, 2 green; 3 green, 14 red, 1 blue");
    assert_eq!(
        game.max_hand(),
        Hand {
            red: 14,
            green: 7,
            blue: 3
        }
    )
}

#[test]
fn test_compute() {
    assert_eq!(cube_game_possible::compute(&example_input()), 8);
    assert_eq!(cube_game_power::compute(&example_input()), 2286);
}

#[test]
fn power_of_max_hand() {
    let game =
        Game::parse("Game 2: 2 blue, 4 red, 7 green; 3 blue, 2 green; 3 green, 14 red, 1 blue");
    assert_eq!(game.max_hand().power(), 14 * 7 * 3);
}
