//! The gear-ratio sum: a `*` marker touching exactly two numbers
//! multiplies them.

use vstd::prelude::*;

verus! {

use crate::schematic::{
    gears_view, schematic_wf, spec_gears, spec_items, value_of, MapItem, Position, Schematic,
};

/// What one gear entry contributes: the product of its two numbers, or
/// nothing when the marker touches any other count.
pub open spec fn gear_value(e: (Position, Seq<MapItem>)) -> int {
    if e.1.len() == 2 {
        value_of(e.1[0]) * value_of(e.1[1])
    } else {
        0
    }
}

/// The sum of the gear values from `i` on.
pub open spec fn gears_total(gs: Seq<(Position, Seq<MapItem>)>, i: int) -> int
    decreases gs.len() - i,
{
    if i < 0 || i >= gs.len() {
        0
    } else {
        gear_value(gs[i]) + gears_total(gs, i + 1)
    }
}

/// Every gear product and the running sum stay within `u32`.
pub open spec fn gears_ok(gs: Seq<(Position, Seq<MapItem>)>) -> bool {
    &&& forall|i: int| 0 <= i < gs.len() ==> 0 <= gear_value(#[trigger] gs[i]) <= u32::MAX
    &&& gears_total(gs, 0) <= u32::MAX
}

proof fn lemma_gears_total_nonneg(gs: Seq<(Position, Seq<MapItem>)>, i: int)
    requires
        forall|k: int| 0 <= k < gs.len() ==> 0 <= gear_value(#[trigger] gs[k]) <= u32::MAX,
    ensures
        gears_total(gs, i) >= 0,
    decreases gs.len() - i,
{
    if 0 <= i < gs.len() {
        lemma_gears_total_nonneg(gs, i + 1);
    }
}

/// Sums the gear ratios of the schematic.
pub fn compute(lines: Vec<String>) -> (r: u32)
    requires
        schematic_wf(spec_items(lines@, 0)),
        gears_ok(spec_gears(spec_items(lines@, 0))),
    ensures
        r == gears_total(spec_gears(spec_items(lines@, 0)), 0),
{
    let ghost target = spec_gears(spec_items(lines@, 0));
    let map = Schematic::parse(lines);
    let gears = map.get_gears();
    let mut acc: u32 = 0;
    let mut i: usize = 0;
    let n = gears.len();
    proof {
        assert(gears_view(gears@).len() == gears@.len());
    }
    while i < n
        invariant
            0 <= i <= n,
            n == gears@.len(),
            gears_view(gears@) == target,
            gears_ok(target),
            target.len() == n,
            acc + gears_total(target, i as int) == gears_total(target, 0),
        decreases n - i,
    {
        proof {
            assert(gears_view(gears@)[i as int] == (gears@[i as int].0, gears@[i as int].1@));
            lemma_gears_total_nonneg(target, i as int + 1);
            assert(0 <= gear_value(target[i as int]) <= u32::MAX);
        }
        let entry = &gears[i];
        if entry.1.len() == 2 {
            let v0 = value_of_entry(&entry.1, 0);
            let v1 = value_of_entry(&entry.1, 1);
            proof {
                vstd::arithmetic::mul::lemma_mul_nonnegative(v0 as int, v1 as int);
            }
            acc = acc + v0 * v1;
        }
        i = i + 1;
    }
    acc
}

fn value_of_entry(items: &Vec<MapItem>, i: usize) -> (r: u32)
    requires
        i < items@.len(),
    ensures
        r == value_of(items@[i as int]),
{
    match &items[i] {
        MapItem::Number { pos: _, length: _, value } => *value,
        MapItem::Marker { .. } => 0,
    }
}

} // verus!
