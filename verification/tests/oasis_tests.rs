use advent::oasis::{calculate, extrapolate_back, extrapolate_front, transform};

fn example_input() -> Vec<String> {
    ["0 3 6 9 12 15", "1 3 6 10 15 21", "10 13 16 21 30 45"]
        .iter()
        .map(|line| line.to_string())
        .collect()
}

#[test]
fn test_calculate() {
    assert_eq!(calculate(&example_input(), false), 114);
    assert_eq!(calculate(&example_input(), true), 2);
}

#[test]
fn test_transform() {
    assert_eq!(
        transform(vec![10, 13, 16, 21, 30, 45, 68]),
        vec![3, 3, 5, 9, 15, 23]
    );
}

#[test]
fn test_extrapolate_front() {
    assert_eq!(extrapolate_front(vec![10, 13, 16, 21, 30, 45]), 68);
}

#[test]
fn test_extrapolate_back() {
    assert_eq!(extrapolate_back(vec![10, 13, 16, 21, 30, 45]), 5);
    assert_eq!(extrapolate_back(vec![1, 3, 6, 10, 15, 21]), 0);
}
