//! Calibration lines: each line hides a first and a last value, found by
//! an overlapping regular-expression scan; the answer sums ten times the
//! first plus the last over all lines.

use vstd::prelude::*;

verus! {

/// What `fancy_regex` finds: the first capture group of every match of
/// `pattern` in `line`, in match order — `None` when the pattern does
/// not compile or a match carries no group. A function of the pattern
/// and the line alone.
pub uninterp spec fn first_group_matches(pattern: Seq<char>, line: Seq<char>) -> Option<
    Seq<Seq<char>>,
>;

/// Relies on fancy_regex::Regex::new and Regex::captures_iter: the
/// texts of capture group 1 of each match, in order. The look-around
/// patterns used here need that crate's engine.
#[verifier::external_body]
pub(crate) fn capture_group_texts(pattern: &str, line: &str) -> (r: Option<Vec<String>>)
    ensures
        (match r {
            Some(v) => first_group_matches(pattern@, line@) == Some(
                v@.map_values(|s: String| s@),
            ),
            None => first_group_matches(pattern@, line@) is None,
        }),
{
    let re = match fancy_regex::Regex::new(pattern) {
        Ok(re) => re,
        Err(_) => return None,
    };
    let mut out: Vec<String> = Vec::new();
    for c in re.captures_iter(line) {
        match c {
            Ok(cap) if cap.get(1).is_some() => out.push(cap.get(1).unwrap().as_str().to_string()),
            _ => return None,
        }
    }
    Some(out)
}

/// The first and the last of the matched texts; a lone match serves as
/// both.
pub fn get_bounding_matches(matches: &Vec<String>) -> (r: (String, String))
    requires
        matches@.len() >= 1,
    ensures
        r.0@ == matches@[0]@,
        r.1@ == matches@[matches@.len() - 1]@,
{
    let first = matches[0].clone();
    let second = matches[matches.len() - 1].clone();
    (first, second)
}

/// A strategy for reading the two calibration values out of one line.
pub trait Extractor {
    /// The pair this extractor assigns to a line.
    spec fn line_value(&self, line: Seq<char>) -> (int, int);

    /// Both values are single digits.
    spec fn values_bounded(&self) -> bool;

    fn parse_line(&self, line: &str) -> (r: (u32, u32))
        ensures
            r.0 as int == self.line_value(line@).0,
            r.1 as int == self.line_value(line@).1,
    ;

    proof fn lemma_bounded(&self, line: Seq<char>)
        requires
            self.values_bounded(),
        ensures
            0 <= self.line_value(line).0 <= 9,
            0 <= self.line_value(line).1 <= 9,
    ;
}

/// The sum of `10 * first + last` over the lines from `i` on.
pub open spec fn calibration_total<E: Extractor>(e: &E, lines: Seq<String>, i: int) -> int
    decreases lines.len() - i,
{
    if i < 0 || i >= lines.len() {
        0
    } else {
        10 * e.line_value(lines[i]@).0 + e.line_value(lines[i]@).1 + calibration_total(
            e,
            lines,
            i + 1,
        )
    }
}

proof fn lemma_calibration_total_bounds<E: Extractor>(e: &E, lines: Seq<String>, i: int)
    requires
        e.values_bounded(),
    ensures
        0 <= calibration_total(e, lines, i),
    decreases lines.len() - i,
{
    if 0 <= i < lines.len() {
        e.lemma_bounded(lines[i]@);
        lemma_calibration_total_bounds(e, lines, i + 1);
    }
}

/// Sums each line's two-digit calibration value under the given
/// extractor.
pub fn compute<E: Extractor>(input: Vec<String>, extractor: &E) -> (r: u32)
    requires
        extractor.values_bounded(),
        calibration_total(extractor, input@, 0) <= u32::MAX,
    ensures
        r == calibration_total(extractor, input@, 0),
{
    let mut acc: u32 = 0;
    let mut i: usize = 0;
    let n = input.len();
    while i < n
        invariant
            0 <= i <= n,
            n == input@.len(),
            extractor.values_bounded(),
            calibration_total(extractor, input@, 0) <= u32::MAX,
            calibration_total(extractor, input@, 0) == acc + calibration_total(
                extractor,
                input@,
                i as int,
            ),
        decreases n - i,
    {
        proof {
            extractor.lemma_bounded(input@[i as int]@);
            lemma_calibration_total_bounds(extractor, input@, i as int + 1);
        }
        let line = input[i].as_str();
        let (first, last) = extractor.parse_line(line);
        acc = acc + (10 * first + last);
        i = i + 1;
    }
    acc
}

/// The value of a single captured digit; anything else counts nothing.
pub open spec fn digit_value(s: Seq<char>) -> int {
    if s.len() == 1 && '0' <= s[0] <= '9' {
        s[0] as int - 48
    } else {
        0
    }
}

/// Reads a captured digit.
pub fn digit_value_exec(s: &str) -> (r: u32)
    ensures
        r as int == digit_value(s@),
        r <= 9,
{
    let n = s.unicode_len();
    if n == 1 {
        let c = s.get_char(0);
        if c >= '0' && c <= '9' {
            return (c as u32) - 48;
        }
    }
    0
}

} // verus!
