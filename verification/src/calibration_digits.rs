//! The plain calibration reading: the first and last digit character of
//! each line.

use vstd::prelude::*;

verus! {

use crate::calibration::{
    capture_group_texts, compute as calibration_compute, digit_value, digit_value_exec,
    first_group_matches, get_bounding_matches, Extractor,
};

/// Finds every digit of a line through an overlapping look-ahead scan.
pub struct SimpleExtractor {}

/// The digit texts the scan yields for a line, or nothing usable.
pub open spec fn simple_captures(line: Seq<char>) -> Seq<Seq<char>> {
    match first_group_matches("(?=(\\d))"@, line) {
        Some(caps) => caps,
        None => Seq::empty(),
    }
}

/// The pair of values the plain extractor reads from a line: the first
/// and last captured digit, or zeroes when the scan yields nothing.
pub open spec fn simple_line_value(line: Seq<char>) -> (int, int) {
    let caps = simple_captures(line);
    if caps.len() >= 1 {
        (digit_value(caps[0]), digit_value(caps[caps.len() - 1]))
    } else {
        (0, 0)
    }
}

impl SimpleExtractor {
    pub fn new() -> (r: SimpleExtractor) {
        SimpleExtractor {  }
    }
}

impl Extractor for SimpleExtractor {
    open spec fn line_value(&self, line: Seq<char>) -> (int, int) {
        simple_line_value(line)
    }

    open spec fn values_bounded(&self) -> bool {
        true
    }

    /// The first and last digit of the line, as the overlapping scan
    /// reports them.
    fn parse_line(&self, line: &str) -> (r: (u32, u32)) {
        match capture_group_texts("(?=(\\d))", line) {
            Some(caps) => {
                if caps.len() >= 1 {
                    proof {
                        assert(caps@.map_values(|s: String| s@)[0] == caps@[0]@);
                        assert(caps@.map_values(|s: String| s@)[caps@.len() - 1] == caps@[caps@.len()
                            - 1]@);
                    }
                    let (first, second) = get_bounding_matches(&caps);
                    (digit_value_exec(first.as_str()), digit_value_exec(second.as_str()))
                } else {
                    (0, 0)
                }
            },
            None => (0, 0),
        }
    }

    proof fn lemma_bounded(&self, line: Seq<char>) {
    }
}

/// Sums the two-digit values read by the plain digit scan.
pub fn compute(input: Vec<String>) -> (r: u32)
    requires
        crate::calibration::calibration_total(&(SimpleExtractor {  }), input@, 0) <= u32::MAX,
    ensures
        r == crate::calibration::calibration_total(&(SimpleExtractor {  }), input@, 0),
{
    let extractor = SimpleExtractor::new();
    calibration_compute(input, &extractor)
}

} // verus!
