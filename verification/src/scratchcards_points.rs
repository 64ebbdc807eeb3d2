//! Points for each card: the first match is worth one point, and every
//! further match doubles it.

use vstd::prelude::*;

verus! {

use crate::scratchcards::{card_ok, count_matches, match_count, parse_line, spec_have, spec_winning};
use crate::text::lines_bytes;
use vstd::string::StringSliceAdditionalSpecFns;

pub open spec fn pow2(n: nat) -> nat
    decreases n,
{
    if n == 0 {
        1
    } else {
        2 * pow2((n - 1) as nat)
    }
}

proof fn lemma_pow2_mono(a: nat, b: nat)
    requires
        a <= b,
    ensures
        pow2(a) <= pow2(b),
    decreases b,
{
    if a < b {
        lemma_pow2_mono(a, (b - 1) as nat);
        assert(pow2(b) == 2 * pow2((b - 1) as nat));
    }
}

proof fn lemma_pow2_31()
    ensures
        pow2(31) == 0x80000000,
{
    reveal_with_fuel(pow2, 32);
}

/// What one card is worth: nothing without matches, else a point
/// doubled for every match after the first.
pub open spec fn line_points(line: Seq<u8>) -> int {
    let c = match_count(spec_winning(line), spec_have(line));
    if c > 0 {
        pow2((c - 1) as nat) as int
    } else {
        0
    }
}

pub open spec fn spec_points_total(lb: Seq<Seq<u8>>, i: int) -> int
    decreases lb.len() - i,
{
    if i < 0 || i >= lb.len() {
        0
    } else {
        line_points(lb[i]) + spec_points_total(lb, i + 1)
    }
}

/// Every card parses and its match count keeps the doubling within
/// `u32`, so the unchecked power never wraps.
pub open spec fn all_cards_ok(lb: Seq<Seq<u8>>) -> bool {
    forall|i: int|
        0 <= i < lb.len() ==> card_ok(#[trigger] lb[i]) && match_count(
            spec_winning(lb[i]),
            spec_have(lb[i]),
        ) <= 32
}

proof fn lemma_points_total_nonneg(lb: Seq<Seq<u8>>, i: int)
    ensures
        spec_points_total(lb, i) >= 0,
    decreases lb.len() - i,
{
    if 0 <= i < lb.len() {
        lemma_points_total_nonneg(lb, i + 1);
    }
}

/// A card's worth, from its match count.
fn points_for(count: usize) -> (r: u32)
    requires
        count <= 32,
    ensures
        count == 0 ==> r == 0,
        count > 0 ==> r == pow2((count - 1) as nat),
{
    if count == 0 {
        return 0;
    }
    let mut p: u32 = 1;
    let mut j: usize = 1;
    while j < count
        invariant
            1 <= j <= count,
            count <= 32,
            p == pow2((j - 1) as nat),
        decreases count - j,
    {
        proof {
            lemma_pow2_mono((j - 1) as nat, 30);
            lemma_pow2_mono(30, 31);
            lemma_pow2_31();
        }
        p = p * 2;
        j = j + 1;
    }
    p
}

/// Sums the points of all cards.
pub fn compute(lines: &Vec<String>) -> (r: u32)
    requires
        all_cards_ok(lines_bytes(lines@)),
        spec_points_total(lines_bytes(lines@), 0) <= u32::MAX,
    ensures
        r == spec_points_total(lines_bytes(lines@), 0),
{
    let ghost lb = lines_bytes(lines@);
    let mut acc: u32 = 0;
    let mut i: usize = 0;
    let n = lines.len();
    while i < n
        invariant
            0 <= i <= n,
            n == lines@.len(),
            lb == lines_bytes(lines@),
            all_cards_ok(lb),
            spec_points_total(lb, 0) <= u32::MAX,
            acc + spec_points_total(lb, i as int) == spec_points_total(lb, 0),
        decreases n - i,
    {
        proof {
            assert(lb[i as int] == crate::text::sbytes(lines@[i as int]@));
            lemma_points_total_nonneg(lb, i as int + 1);
        }
        let line = lines[i].as_str();
        let (winning, have) = parse_line(line);
        let count = count_matches(&winning, &have);
        let p = points_for(count);
        acc = acc + p;
        i = i + 1;
    }
    acc
}

} // verus!
