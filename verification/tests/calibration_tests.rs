use advent::calibration::Extractor;
use advent::calibration_digits::{compute as compute_digits, SimpleExtractor};
use advent::calibration_words::{compute as compute_words, AdvancedExtractor};

#[test]
fn test_extractor() {
    let extractor = SimpleExtractor::new();

    assert_eq!(extractor.parse_line("1234"), (1, 4));
    assert_eq!(extractor.parse_line("1"), (1, 1));
    assert_eq!(extractor.parse_line("sadsa1das23da4dasda"), (1, 4));
    assert_eq!(extractor.parse_line("asdas1dasda"), (1, 1))
}

#[test]
fn test_with_example() {
    let input: Vec<String> = ["1abc2", "pqr3stu8vwx", "a1b2c3d4e5f", "treb7uchet"]
        .iter()
        .map(|line| line.to_string())
        .collect();
    assert_eq!(compute_digits(input), 142)
}

#[test]
fn main_test_extractor() {
    let extractor = AdvancedExtractor::new();

    assert_eq!(extractor.parse_line("1234"), (1, 4));
    assert_eq!(extractor.parse_line("1"), (1, 1));
    assert_eq!(extractor.parse_line("sadsa1das23da4dasda"), (1, 4));
    assert_eq!(extractor.parse_line("asdas1dasda"), (1, 1));
    assert_eq!(extractor.parse_line("one"), (1, 1));
    assert_eq!(extractor.parse_line("onetwo"), (1, 2));
    assert_eq!(extractor.parse_line("some1onemore"), (1, 1));
    assert_eq!(extractor.parse_line("fancyeightwoandmore"), (8, 2));
}

#[test]
fn main_test_with_example() {
    let input: Vec<String> = [
        "two1nine",
        "eightwothree",
        "abcone2threexyz",
        "xtwone3four",
        "4nineeightseven2",
        "zoneight234",
        "7pqrstsixteen",
    ]
    .iter()
    .map(|line| line.to_string())
    .collect();
    assert_eq!(compute_words(input), 281)
}
