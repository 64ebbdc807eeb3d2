//! The part-number sum: every number touched by a marker counts.

use vstd::prelude::*;

verus! {

use crate::schematic::{
    schematic_wf, sort_vals, spec_items, spec_part_numbers, values_of, Schematic,
};

/// The sum of the values from `i` on.
pub open spec fn sum_from(vs: Seq<u32>, i: int) -> int
    decreases vs.len() - i,
{
    if i < 0 || i >= vs.len() {
        0
    } else {
        vs[i] + sum_from(vs, i + 1)
    }
}

proof fn lemma_sum_from_nonneg(vs: Seq<u32>, i: int)
    ensures
        sum_from(vs, i) >= 0,
    decreases vs.len() - i,
{
    if 0 <= i < vs.len() {
        lemma_sum_from_nonneg(vs, i + 1);
    }
}

/// The sorted part-number values of the schematic the lines carry.
pub open spec fn spec_part_values(lines: Seq<String>) -> Seq<u32> {
    sort_vals(values_of(spec_part_numbers(spec_items(lines, 0), 0)))
}

/// Sums every part number of the schematic.
pub fn compute(lines: Vec<String>) -> (r: u32)
    requires
        schematic_wf(spec_items(lines@, 0)),
        sum_from(spec_part_values(lines@), 0) <= u32::MAX,
    ensures
        r == sum_from(spec_part_values(lines@), 0),
{
    let ghost target = spec_part_values(lines@);
    let map = Schematic::parse(lines);
    let values = map.part_number_values();
    let mut acc: u32 = 0;
    let mut i: usize = 0;
    let n = values.len();
    while i < n
        invariant
            0 <= i <= n,
            n == values@.len(),
            values@ == target,
            sum_from(target, 0) <= u32::MAX,
            acc + sum_from(target, i as int) == sum_from(target, 0),
        decreases n - i,
    {
        proof {
            lemma_sum_from_nonneg(target, i as int + 1);
        }
        acc = acc + values[i];
        i = i + 1;
    }
    acc
}

} // verus!
