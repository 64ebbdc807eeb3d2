//! Copied scratchcards: a card with `c` matches wins one copy of each
//! of the next `c` cards, copies win more copies, and the answer is how
//! many cards end up in hand.

use vstd::prelude::*;

verus! {

use crate::scratchcards::{card_ok, count_matches, match_count, parse_line, spec_have, spec_winning};
use crate::text::lines_bytes;
use vstd::string::StringSliceAdditionalSpecFns;

/// The match count of every card, in order.
pub open spec fn counts_of(lb: Seq<Seq<u8>>) -> Seq<int> {
    Seq::new(lb.len(), |i: int| match_count(spec_winning(lb[i]), spec_have(lb[i])))
}

/// One card at a time in hand, before any copies are won.
pub open spec fn ones(n: nat) -> Seq<int> {
    Seq::new(n, |i: int| 1int)
}

/// Card `i`'s copies handed to the cards `j ..= upto`.
pub open spec fn bump(cards: Seq<int>, i: int, j: int, upto: int) -> Seq<int>
    decreases upto - j + 1,
{
    if j > upto || j < 0 {
        cards
    } else {
        bump(cards.update(j, cards[j] + cards[i]), i, j + 1, upto)
    }
}

/// Every card's copies handed forward, cards taken in order.
pub open spec fn propagate(cards: Seq<int>, counts: Seq<int>, i: int) -> Seq<int>
    decreases counts.len() - i,
{
    if i < 0 || i >= counts.len() {
        cards
    } else {
        propagate(bump(cards, i, i + 1, i + counts[i]), counts, i + 1)
    }
}

/// Every step of the propagation stays inside the card list and within
/// `u32`, so the unchecked additions and indexing never go wrong.
pub open spec fn bump_ok(cards: Seq<int>, i: int, j: int, upto: int) -> bool
    decreases upto - j + 1,
{
    if j > upto || j < 0 {
        true
    } else {
        &&& 0 <= i < cards.len()
        &&& j < cards.len()
        &&& cards[j] + cards[i] <= u32::MAX
        &&& bump_ok(cards.update(j, cards[j] + cards[i]), i, j + 1, upto)
    }
}

proof fn lemma_bump_ok_upto(cards: Seq<int>, i: int, j: int, upto: int)
    requires
        bump_ok(cards, i, j, upto),
        0 <= j <= upto,
    ensures
        upto < cards.len(),
    decreases upto - j + 1,
{
    if j < upto {
        lemma_bump_ok_upto(cards.update(j, cards[j] + cards[i]), i, j + 1, upto);
    }
}

pub open spec fn propagate_ok(cards: Seq<int>, counts: Seq<int>, i: int) -> bool
    decreases counts.len() - i,
{
    if i < 0 || i >= counts.len() {
        true
    } else {
        &&& bump_ok(cards, i, i + 1, i + counts[i])
        &&& propagate_ok(bump(cards, i, i + 1, i + counts[i]), counts, i + 1)
    }
}

pub open spec fn sum_ints(s: Seq<int>) -> int
    decreases s.len(),
{
    if s.len() == 0 {
        0
    } else {
        s[0] + sum_ints(s.drop_first())
    }
}

proof fn lemma_sum_ints_nonneg(s: Seq<int>)
    requires
        forall|k: int| 0 <= k < s.len() ==> #[trigger] s[k] >= 0,
    ensures
        sum_ints(s) >= 0,
    decreases s.len(),
{
    if s.len() > 0 {
        assert(forall|k: int|
            0 <= k < s.drop_first().len() ==> #[trigger] s.drop_first()[k] == s[k + 1]);
        lemma_sum_ints_nonneg(s.drop_first());
    }
}

/// The final hand after all copying, and what the computation answers.
pub open spec fn final_cards(lb: Seq<Seq<u8>>) -> Seq<int> {
    propagate(ones(lb.len()), counts_of(lb), 0)
}

pub open spec fn copies_ok(lb: Seq<Seq<u8>>) -> bool {
    &&& forall|i: int| 0 <= i < lb.len() ==> card_ok(#[trigger] lb[i])
    &&& propagate_ok(ones(lb.len()), counts_of(lb), 0)
    &&& sum_ints(final_cards(lb)) <= u32::MAX
    &&& forall|k: int| 0 <= k < final_cards(lb).len() ==> #[trigger] final_cards(lb)[k] >= 0
}

/// Counts the cards in hand once every copy has been handed out.
pub fn compute(lines: &Vec<String>) -> (r: u32)
    requires
        copies_ok(lines_bytes(lines@)),
    ensures
        r == sum_ints(final_cards(lines_bytes(lines@))),
{
    let ghost lb = lines_bytes(lines@);
    let n = lines.len();
    let ghost cspec = counts_of(lb);
    // read every card's match count first
    let mut counts: Vec<usize> = Vec::new();
    let mut i: usize = 0;
    while i < n
        invariant
            0 <= i <= n,
            n == lines@.len(),
            lb == lines_bytes(lines@),
            copies_ok(lb),
            cspec == counts_of(lb),
            counts@.len() == i,
            forall|k: int| 0 <= k < i ==> counts@[k] as int == cspec[k],
        decreases n - i,
    {
        proof {
            assert(lb[i as int] == crate::text::sbytes(lines@[i as int]@));
        }
        let line = lines[i].as_str();
        let (winning, have) = parse_line(line);
        let c = count_matches(&winning, &have);
        counts.push(c);
        i = i + 1;
    }
    // start with one of each card and hand copies forward
    let mut cards: Vec<u32> = vec![1u32; n];
    proof {
        assert(cards@.map_values(|x: u32| x as int) =~= ones(n as nat));
        assert(propagate(ones(n as nat), cspec, 0) == final_cards(lb));
    }
    let mut k: usize = 0;
    while k < n
        invariant
            0 <= k <= n,
            n == lines@.len(),
            cards@.len() == n,
            counts@.len() == n,
            cspec == counts_of(lb),
            cspec.len() == n,
            forall|m: int| 0 <= m < n ==> counts@[m] as int == cspec[m],
            final_cards(lb) == propagate(cards@.map_values(|x: u32| x as int), cspec, k as int),
            propagate_ok(cards@.map_values(|x: u32| x as int), cspec, k as int),
            copies_ok(lb),
            lb == lines_bytes(lines@),
        decreases n - k,
    {
        let ghost outer = cards@.map_values(|x: u32| x as int);
        let c = counts[k];
        let ghost upto = k as int + cspec[k as int];
        let mut j: usize = k + 1;
        proof {
            assert(bump(outer, k as int, k as int + 1, upto) == bump(
                cards@.map_values(|x: u32| x as int),
                k as int,
                j as int,
                upto,
            ));
            assert(bump_ok(outer, k as int, k as int + 1, upto));
            if c >= 1 {
                lemma_bump_ok_upto(outer, k as int, k as int + 1, upto);
            }
        }
        while j <= k + c
            invariant
                k + 1 <= j,
                j <= k + c + 1,
                k < n,
                k + c <= usize::MAX,
                k as int + c as int <= n,
                cards@.len() == n,
                cspec.len() == n,
                c as int == cspec[k as int],
                upto == k as int + cspec[k as int],
                bump(outer, k as int, k as int + 1, upto) == bump(
                    cards@.map_values(|x: u32| x as int),
                    k as int,
                    j as int,
                    upto,
                ),
                bump_ok(cards@.map_values(|x: u32| x as int), k as int, j as int, upto),
            decreases k + c + 1 - j,
        {
            let ghost cur = cards@.map_values(|x: u32| x as int);
            proof {
                assert(j as int <= upto);
                assert(0 <= k < cur.len() && (j as int) < cur.len());
                assert(cur[j as int] + cur[k as int] <= u32::MAX);
                assert(cur[j as int] == cards@[j as int] as int);
                assert(cur[k as int] == cards@[k as int] as int);
            }
            let add = cards[k];
            let old_val = cards[j];
            cards.set(j, old_val + add);
            proof {
                assert(cards@.map_values(|x: u32| x as int) =~= cur.update(
                    j as int,
                    cur[j as int] + cur[k as int],
                ));
            }
            j = j + 1;
        }
        proof {
            let now = cards@.map_values(|x: u32| x as int);
            assert(bump(now, k as int, j as int, upto) == now);
            assert(now == bump(outer, k as int, k as int + 1, upto));
        }
        k = k + 1;
    }
    // the answer: how many cards are in hand altogether
    let ghost fin = final_cards(lb);
    proof {
        assert(propagate(cards@.map_values(|x: u32| x as int), cspec, n as int)
            == cards@.map_values(|x: u32| x as int));
        assert(cards@.map_values(|x: u32| x as int) == fin);
        assert(fin.skip(0) =~= fin);
    }
    let mut acc: u32 = 0;
    let mut m: usize = 0;
    while m < n
        invariant
            0 <= m <= n,
            cards@.len() == n,
            fin == final_cards(lines_bytes(lines@)),
            cards@.map_values(|x: u32| x as int) == fin,
            sum_ints(fin) <= u32::MAX,
            forall|t: int| 0 <= t < fin.len() ==> #[trigger] fin[t] >= 0,
            acc + sum_ints(fin.skip(m as int)) == sum_ints(fin),
        decreases n - m,
    {
        proof {
            assert(fin.skip(m as int)[0] == fin[m as int]);
            assert(fin[m as int] == cards@[m as int] as int);
            assert(fin.skip(m as int).drop_first() =~= fin.skip(m as int + 1));
            assert(forall|t: int|
                0 <= t < fin.skip(m as int + 1).len() ==> #[trigger] fin.skip(m as int + 1)[t]
                    == fin[t + m + 1]);
            lemma_sum_ints_nonneg(fin.skip(m as int + 1));
        }
        acc = acc + cards[m];
        m = m + 1;
    }
    proof {
        assert(fin.skip(fin.len() as int) =~= Seq::<int>::empty());
    }
    acc
}

} // verus!
