//! Scratchcards: a card line names the winning numbers and the numbers
//! you have; what counts is how many of the winning numbers appear on
//! the right-hand side.

use vstd::prelude::*;

verus! {

use crate::text::{
    digits_val, parse_u32, parses_to_u32, spec_split_either, spec_tokens, split_either, tokenize,
    vecs_view,
};
use vstd::string::StringSliceAdditionalSpecFns;

/// The numbers of one side of a card, first occurrences only, in order —
/// the same contents a set of them would hold.
pub open spec fn dedup_from(vals: Seq<u32>, acc: Seq<u32>) -> Seq<u32>
    decreases vals.len(),
{
    if vals.len() == 0 {
        acc
    } else if acc.contains(vals[0]) {
        dedup_from(vals.drop_first(), acc)
    } else {
        dedup_from(vals.drop_first(), acc.push(vals[0]))
    }
}

/// The numeric tokens of one side of a card, in reading order.
pub open spec fn group_vals(piece: Seq<u8>) -> Seq<u32> {
    spec_tokens(piece).map_values(|t: Seq<u8>| digits_val(t) as u32)
}

pub open spec fn spec_card_group(piece: Seq<u8>) -> Seq<u32> {
    dedup_from(group_vals(piece), Seq::empty())
}

/// A card line splits at `:` and `|` into exactly three parts, and both
/// number groups hold only `u32` numerals.
pub open spec fn card_ok(line: Seq<u8>) -> bool {
    let parts = spec_split_either(line, 58, 124);
    &&& parts.len() == 3
    &&& forall|j: int|
        0 <= j < spec_tokens(parts[1]).len() ==> parses_to_u32(#[trigger] spec_tokens(parts[1])[j])
    &&& forall|j: int|
        0 <= j < spec_tokens(parts[2]).len() ==> parses_to_u32(#[trigger] spec_tokens(parts[2])[j])
}

pub open spec fn spec_winning(line: Seq<u8>) -> Seq<u32> {
    spec_card_group(spec_split_either(line, 58, 124)[1])
}

pub open spec fn spec_have(line: Seq<u8>) -> Seq<u32> {
    spec_card_group(spec_split_either(line, 58, 124)[2])
}

/// How many winning numbers appear among the numbers you have.
pub open spec fn match_count(w: Seq<u32>, h: Seq<u32>) -> int
    decreases w.len(),
{
    if w.len() == 0 {
        0int
    } else {
        (if h.contains(w[0]) {
            1int
        } else {
            0int
        }) + match_count(w.drop_first(), h)
    }
}

fn vec_contains(v: &Vec<u32>, x: u32) -> (r: bool)
    ensures
        r == v@.contains(x),
{
    let mut i: usize = 0;
    while i < v.len()
        invariant
            0 <= i <= v@.len(),
            forall|k: int| 0 <= k < i ==> v@[k] != x,
        decreases v@.len() - i,
    {
        if v[i] == x {
            return true;
        }
        i = i + 1;
    }
    proof {
        assert(!v@.contains(x));
    }
    false
}

/// Reads one side of a card: its numbers in order, duplicates dropped.
fn parse_group(piece: &[u8]) -> (r: Vec<u32>)
    requires
        forall|j: int|
            0 <= j < spec_tokens(piece@).len() ==> parses_to_u32(#[trigger] spec_tokens(piece@)[j]),
    ensures
        r@ == spec_card_group(piece@),
{
    let toks = tokenize(piece);
    let ghost gv = group_vals(piece@);
    let mut out: Vec<u32> = Vec::new();
    let mut j: usize = 0;
    proof {
        assert(gv.skip(0) =~= gv);
        assert(gv.len() == toks@.len());
    }
    while j < toks.len()
        invariant
            0 <= j <= toks@.len(),
            vecs_view(toks@) == spec_tokens(piece@),
            gv == group_vals(piece@),
            gv.len() == toks@.len(),
            forall|k: int|
                0 <= k < spec_tokens(piece@).len() ==> parses_to_u32(
                    #[trigger] spec_tokens(piece@)[k],
                ),
            spec_card_group(piece@) == dedup_from(gv.skip(j as int), out@),
        decreases toks@.len() - j,
    {
        proof {
            assert(vecs_view(toks@)[j as int] == toks@[j as int]@);
            assert(parses_to_u32(toks@[j as int]@));
            crate::text::lemma_digits_val_nonneg(toks@[j as int]@);
            assert(gv.skip(j as int)[0] == gv[j as int]);
            assert(gv.skip(j as int).drop_first() =~= gv.skip(j as int + 1));
            assert(gv[j as int] == digits_val(toks@[j as int]@) as u32);
        }
        let v = match parse_u32(toks[j].as_slice()) {
            Some(v) => v,
            None => {
                proof {
                    assert(false);
                }
                0
            },
        };
        if !vec_contains(&out, v) {
            out.push(v);
        }
        j = j + 1;
    }
    proof {
        assert(gv.skip(gv.len() as int) =~= Seq::<u32>::empty());
    }
    out
}

/// Reads a card line into its two number groups, each with duplicates
/// dropped, as the sets the puzzle speaks of.
pub fn parse_line(line: &str) -> (r: (Vec<u32>, Vec<u32>))
    requires
        card_ok(line.spec_bytes()),
    ensures
        r.0@ == spec_winning(line.spec_bytes()),
        r.1@ == spec_have(line.spec_bytes()),
{
    let parts = split_either(line.as_bytes(), 58, 124);
    proof {
        assert(vecs_view(parts@)[1] == parts@[1]@);
        assert(vecs_view(parts@)[2] == parts@[2]@);
    }
    let winning = parse_group(parts[1].as_slice());
    let have = parse_group(parts[2].as_slice());
    (winning, have)
}

/// Counts how many of the winning numbers you have.
pub fn count_matches(winning: &Vec<u32>, have: &Vec<u32>) -> (r: usize)
    ensures
        r == match_count(winning@, have@),
        r <= winning@.len(),
{
    let mut count: usize = 0;
    let mut i: usize = 0;
    proof {
        assert(winning@.skip(0) =~= winning@);
        lemma_match_count_bounds(winning@, have@);
    }
    while i < winning.len()
        invariant
            0 <= i <= winning@.len(),
            count <= i,
            match_count(winning@, have@) == count + match_count(
                winning@.skip(i as int),
                have@,
            ),
        decreases winning@.len() - i,
    {
        proof {
            assert(winning@.skip(i as int)[0] == winning@[i as int]);
            assert(winning@.skip(i as int).drop_first() =~= winning@.skip(i as int + 1));
        }
        if vec_contains(have, winning[i]) {
            count = count + 1;
        }
        i = i + 1;
    }
    proof {
        assert(winning@.skip(winning@.len() as int) =~= Seq::<u32>::empty());
    }
    count
}

/// A match count never exceeds the number of winning entries, and is
/// never negative.
pub proof fn lemma_match_count_bounds(w: Seq<u32>, h: Seq<u32>)
    ensures
        0 <= match_count(w, h) <= w.len(),
    decreases w.len(),
{
    if w.len() > 0 {
        lemma_match_count_bounds(w.drop_first(), h);
    }
}

} // verus!
