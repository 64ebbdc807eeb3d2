//! The full calibration reading: spelled-out number words count as
//! digits too, and overlapping words are all seen.

use vstd::prelude::*;

verus! {

use crate::calibration::{
    capture_group_texts, compute as calibration_compute, digit_value, first_group_matches,
    get_bounding_matches, Extractor,
};
use vstd::string::StrSliceExecFns;

/// Finds every digit or spelled-out number of a line through an
/// overlapping look-ahead scan.
pub struct AdvancedExtractor {}

/// The value of a captured token: a spelled-out number word, else a
/// digit, else nothing.
pub open spec fn word_value(s: Seq<char>) -> int {
    if s.len() == 3 && s[0] == 'o' && s[1] == 'n' && s[2] == 'e' {
        1
    } else if s.len() == 3 && s[0] == 't' && s[1] == 'w' && s[2] == 'o' {
        2
    } else if s.len() == 5 && s[0] == 't' && s[1] == 'h' && s[2] == 'r' && s[3] == 'e' && s[4]
        == 'e' {
        3
    } else if s.len() == 4 && s[0] == 'f' && s[1] == 'o' && s[2] == 'u' && s[3] == 'r' {
        4
    } else if s.len() == 4 && s[0] == 'f' && s[1] == 'i' && s[2] == 'v' && s[3] == 'e' {
        5
    } else if s.len() == 3 && s[0] == 's' && s[1] == 'i' && s[2] == 'x' {
        6
    } else if s.len() == 5 && s[0] == 's' && s[1] == 'e' && s[2] == 'v' && s[3] == 'e' && s[4]
        == 'n' {
        7
    } else if s.len() == 5 && s[0] == 'e' && s[1] == 'i' && s[2] == 'g' && s[3] == 'h' && s[4]
        == 't' {
        8
    } else if s.len() == 4 && s[0] == 'n' && s[1] == 'i' && s[2] == 'n' && s[3] == 'e' {
        9
    } else {
        digit_value(s)
    }
}

/// Reads a captured token as a number word or a digit.
pub fn word_value_exec(s: &str) -> (r: u32)
    ensures
        r as int == word_value(s@),
        r <= 9,
{
    let n = s.unicode_len();
    if n == 3 {
        let c0 = s.get_char(0);
        let c1 = s.get_char(1);
        let c2 = s.get_char(2);
        if c0 == 'o' && c1 == 'n' && c2 == 'e' {
            return 1;
        }
        if c0 == 't' && c1 == 'w' && c2 == 'o' {
            return 2;
        }
        if c0 == 's' && c1 == 'i' && c2 == 'x' {
            return 6;
        }
    } else if n == 4 {
        let c0 = s.get_char(0);
        let c1 = s.get_char(1);
        let c2 = s.get_char(2);
        let c3 = s.get_char(3);
        if c0 == 'f' && c1 == 'o' && c2 == 'u' && c3 == 'r' {
            return 4;
        }
        if c0 == 'f' && c1 == 'i' && c2 == 'v' && c3 == 'e' {
            return 5;
        }
        if c0 == 'n' && c1 == 'i' && c2 == 'n' && c3 == 'e' {
            return 9;
        }
    } else if n == 5 {
        let c0 = s.get_char(0);
        let c1 = s.get_char(1);
        let c2 = s.get_char(2);
        let c3 = s.get_char(3);
        let c4 = s.get_char(4);
        if c0 == 't' && c1 == 'h' && c2 == 'r' && c3 == 'e' && c4 == 'e' {
            return 3;
        }
        if c0 == 's' && c1 == 'e' && c2 == 'v' && c3 == 'e' && c4 == 'n' {
            return 7;
        }
        if c0 == 'e' && c1 == 'i' && c2 == 'g' && c3 == 'h' && c4 == 't' {
            return 8;
        }
    }
    crate::calibration::digit_value_exec(s)
}

/// The tokens the word-aware scan yields for a line, or nothing usable.
pub open spec fn advanced_captures(line: Seq<char>) -> Seq<Seq<char>> {
    match first_group_matches(
        "(?=(one|two|three|four|five|six|seven|eight|nine|\\d))"@,
        line,
    ) {
        Some(caps) => caps,
        None => Seq::empty(),
    }
}

/// The pair of values the word-aware extractor reads from a line.
pub open spec fn advanced_line_value(line: Seq<char>) -> (int, int) {
    let caps = advanced_captures(line);
    if caps.len() >= 1 {
        (word_value(caps[0]), word_value(caps[caps.len() - 1]))
    } else {
        (0, 0)
    }
}

impl AdvancedExtractor {
    pub fn new() -> (r: AdvancedExtractor) {
        AdvancedExtractor {  }
    }
}

impl Extractor for AdvancedExtractor {
    open spec fn line_value(&self, line: Seq<char>) -> (int, int) {
        advanced_line_value(line)
    }

    open spec fn values_bounded(&self) -> bool {
        true
    }

    /// The first and last digit or number word of the line, as the
    /// overlapping scan reports them.
    fn parse_line(&self, line: &str) -> (r: (u32, u32)) {
        match capture_group_texts("(?=(one|two|three|four|five|six|seven|eight|nine|\\d))", line) {
            Some(caps) => {
                if caps.len() >= 1 {
                    proof {
                        assert(caps@.map_values(|s: String| s@)[0] == caps@[0]@);
                        assert(caps@.map_values(|s: String| s@)[caps@.len() - 1] == caps@[caps@.len()
                            - 1]@);
                    }
                    let (first, second) = get_bounding_matches(&caps);
                    (word_value_exec(first.as_str()), word_value_exec(second.as_str()))
                } else {
                    (0, 0)
                }
            },
            None => (0, 0),
        }
    }

    proof fn lemma_bounded(&self, line: Seq<char>) {
    }
}

/// Sums the two-digit values read by the word-aware scan.
pub fn compute(input: Vec<String>) -> (r: u32)
    requires
        crate::calibration::calibration_total(&(AdvancedExtractor {  }), input@, 0) <= u32::MAX,
    ensures
        r == crate::calibration::calibration_total(&(AdvancedExtractor {  }), input@, 0),
{
    let extractor = AdvancedExtractor::new();
    calibration_compute(input, &extractor)
}

} // verus!
