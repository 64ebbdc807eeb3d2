use advent::race::{compute, solve_race, Race};

#[test]
fn race_compute_examples() {
    assert_eq!(
        compute(vec![Race::new(7, 9), Race::new(15, 40), Race::new(30, 200),]),
        288
    );
    assert_eq!(compute(vec![Race::new(71530, 940200),]), 71503);
}

#[test]
fn first_and_last_winning_holds() {
    let race = Race::new(7, 9);
    assert_eq!(solve_race(&race), (2, 5));
}
