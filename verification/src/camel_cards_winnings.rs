//! Total winnings: every hand is ranked by the camel-cards order, and
//! each bid pays its rank.

use vstd::prelude::*;

verus! {

use crate::camel_cards::{hand_wf, spec_hand_cmp, Hand};
use crate::text::{
    digits_val, lines_bytes, parse_usize, parses_to_usize, spec_tokens, tokenize, vecs_view,
};
use vstd::string::StringSliceAdditionalSpecFns;

/// The numeric value of one card byte.
pub open spec fn card_val_byte(b: u8, joker: bool) -> int {
    if 49 <= b <= 57 {
        b - 48
    } else if b == 84 {  // 'T'
        10
    } else if b == 74 {  // 'J'
        if joker {
            0
        } else {
            11
        }
    } else if b == 81 {  // 'Q'
        12
    } else if b == 75 {  // 'K'
        13
    } else if b == 65 {  // 'A'
        14
    } else {
        15
    }
}

/// A hand token: five known card bytes.
pub open spec fn hand_tok_ok(t: Seq<u8>) -> bool {
    t.len() == 5 && forall|i: int| 0 <= i < 5 ==> card_val_byte(#[trigger] t[i], false) <= 14
}

/// The card values of a hand token.
pub open spec fn cards_of(t: Seq<u8>, joker: bool) -> Seq<u8> {
    Seq::new(5, |i: int| card_val_byte(t[i], joker) as u8)
}

/// A play line: a hand token, then a bid.
pub open spec fn play_ok(line: Seq<u8>) -> bool {
    let toks = spec_tokens(line);
    toks.len() >= 2 && hand_tok_ok(toks[0]) && parses_to_usize(toks[1])
}

/// The hand values and bid of one line.
pub open spec fn spec_play(line: Seq<u8>, joker: bool) -> (Seq<u8>, int) {
    (cards_of(spec_tokens(line)[0], joker), digits_val(spec_tokens(line)[1]))
}

/// Every line's play, in input order.
pub open spec fn spec_plays(lb: Seq<Seq<u8>>, joker: bool) -> Seq<(Seq<u8>, int)> {
    Seq::new(lb.len(), |i: int| spec_play(lb[i], joker))
}

/// Stable insertion of a play into a run sorted by hand order.
pub open spec fn insert_play(rs: Seq<(Seq<u8>, int)>, x: (Seq<u8>, int), joker: bool) -> Seq<
    (Seq<u8>, int),
>
    decreases rs.len(),
{
    if rs.len() == 0 {
        seq![x]
    } else if spec_hand_cmp(rs.last().0, x.0, joker) > 0 {
        insert_play(rs.drop_last(), x, joker).push(rs.last())
    } else {
        rs.push(x)
    }
}

/// The plays sorted ascending by hand order; equal hands keep their
/// input order.
pub open spec fn sort_plays(rs: Seq<(Seq<u8>, int)>, joker: bool) -> Seq<(Seq<u8>, int)>
    decreases rs.len(),
{
    if rs.len() == 0 {
        Seq::empty()
    } else {
        insert_play(sort_plays(rs.drop_last(), joker), rs.last(), joker)
    }
}

/// The winnings of the ranked plays from `i` on: rank times bid.
pub open spec fn winnings_from(s: Seq<(Seq<u8>, int)>, i: int, acc: int) -> int
    decreases s.len() - i,
{
    if i < 0 || i >= s.len() {
        acc
    } else {
        winnings_from(s, i + 1, acc + (i + 1) * s[i].1)
    }
}

/// The running winnings stay within `usize` at every step.
pub open spec fn winnings_ok(s: Seq<(Seq<u8>, int)>, i: int, acc: int) -> bool
    decreases s.len() - i,
{
    if i < 0 || i >= s.len() {
        true
    } else {
        &&& 0 <= acc + (i + 1) * s[i].1 <= usize::MAX
        &&& winnings_ok(s, i + 1, acc + (i + 1) * s[i].1)
    }
}

/// Reads the five cards of a hand token.
fn parse_hand_token<const JOKER: bool>(t: &[u8]) -> (r: Hand<JOKER>)
    requires
        hand_tok_ok(t@),
    ensures
        r.cards@ == cards_of(t@, JOKER),
        hand_wf(r.cards@),
{
    let c0 = card_byte(t, 0, JOKER);
    let c1 = card_byte(t, 1, JOKER);
    let c2 = card_byte(t, 2, JOKER);
    let c3 = card_byte(t, 3, JOKER);
    let c4 = card_byte(t, 4, JOKER);
    let cards: [u8; 5] = [c0, c1, c2, c3, c4];
    proof {
        assert(cards@ =~= cards_of(t@, JOKER));
    }
    Hand { cards }
}

fn card_byte(t: &[u8], i: usize, joker: bool) -> (r: u8)
    requires
        hand_tok_ok(t@),
        i < 5,
    ensures
        r as int == card_val_byte(t@[i as int], joker),
        r <= 14,
{
    let b = t[i];
    if b >= 49 && b <= 57 {
        b - 48
    } else if b == 84 {
        10
    } else if b == 81 {
        12
    } else if b == 75 {
        13
    } else if b == 65 {
        14
    } else {
        proof {
            assert(card_val_byte(t@[i as int], false) <= 14);
            assert(t@[i as int] == 74);
        }
        if joker {
            0
        } else {
            11
        }
    }
}

/// The hand-and-bid views of a vector of plays.
pub open spec fn plays_view<const JOKER: bool>(v: Seq<(Hand<JOKER>, usize)>) -> Seq<(Seq<u8>, int)> {
    v.map_values(|p: (Hand<JOKER>, usize)| (p.0.cards@, p.1 as int))
}

proof fn lemma_insert_play_at(rs: Seq<(Seq<u8>, int)>, x: (Seq<u8>, int), joker: bool, j: int)
    requires
        0 <= j <= rs.len(),
        forall|m: int| j <= m < rs.len() ==> spec_hand_cmp((#[trigger] rs[m]).0, x.0, joker) > 0,
        j > 0 ==> spec_hand_cmp(rs[j - 1].0, x.0, joker) <= 0,
    ensures
        insert_play(rs, x, joker) == rs.insert(j, x),
    decreases rs.len(),
{
    if rs.len() == 0 {
        assert(insert_play(rs, x, joker) =~= rs.insert(0, x));
    } else if j == rs.len() {
        assert(insert_play(rs, x, joker) =~= rs.insert(j, x));
    } else {
        assert(spec_hand_cmp(rs[rs.len() - 1].0, x.0, joker) > 0);
        lemma_insert_play_at(rs.drop_last(), x, joker, j);
        assert(insert_play(rs.drop_last(), x, joker).push(rs.last())
            =~= rs.drop_last().insert(j, x).push(rs.last()));
        assert(rs.drop_last().insert(j, x).push(rs.last()) =~= rs.insert(j, x));
    }
}

/// Reads every play, ranks the hands from weakest up, and sums rank
/// times bid.
pub fn compute<const JOKER: bool>(lines: &Vec<String>) -> (r: usize)
    requires
        forall|i: int|
            0 <= i < lines_bytes(lines@).len() ==> play_ok(#[trigger] lines_bytes(lines@)[i]),
        winnings_ok(sort_plays(spec_plays(lines_bytes(lines@), JOKER), JOKER), 0, 0),
    ensures
        r == winnings_from(sort_plays(spec_plays(lines_bytes(lines@), JOKER), JOKER), 0, 0),
{
    let ghost lb = lines_bytes(lines@);
    let ghost target = spec_plays(lb, JOKER);
    let n = lines.len();
    let mut plays: Vec<(Hand<JOKER>, usize)> = Vec::new();
    let mut i: usize = 0;
    proof {
        assert(plays_view(plays@) =~= target.take(0));
    }
    while i < n
        invariant
            0 <= i <= n,
            n == lines@.len(),
            lb == lines_bytes(lines@),
            forall|k: int| 0 <= k < lb.len() ==> play_ok(#[trigger] lb[k]),
            target == spec_plays(lb, JOKER),
            plays_view(plays@) == target.take(i as int),
            forall|k: int|
                0 <= k < plays@.len() ==> hand_wf((#[trigger] plays@[k]).0.cards@),
        decreases n - i,
    {
        proof {
            assert(lb[i as int] == crate::text::sbytes(lines@[i as int]@));
            assert(play_ok(lb[i as int]));
        }
        let toks = tokenize(lines[i].as_str().as_bytes());
        proof {
            assert(vecs_view(toks@)[0] == toks@[0]@);
            assert(vecs_view(toks@)[1] == toks@[1]@);
            crate::text::lemma_digits_val_nonneg(toks@[1]@);
        }
        let hand = parse_hand_token::<JOKER>(toks[0].as_slice());
        let bid = match parse_usize(toks[1].as_slice()) {
            Some(v) => v,
            None => {
                proof {
                    assert(false);
                }
                0
            },
        };
        let ghost prev = plays@;
        plays.push((hand, bid));
        proof {
            assert(plays_view(plays@) =~= plays_view(prev) + seq![
                (hand.cards@, bid as int),
            ]);
            assert(target[i as int] == spec_play(lb[i as int], JOKER));
            assert(target.take(i as int + 1) =~= target.take(i as int) + seq![target[i as int]]);
        }
        i = i + 1;
    }
    proof {
        assert(target.take(target.len() as int) =~= target);
        assert(plays_view(plays@) == target);
    }
    // rank the plays: stable insertion keeps equal hands in input order
    let mut ranked: Vec<(Hand<JOKER>, usize)> = Vec::new();
    let mut k: usize = 0;
    proof {
        assert(plays@.take(0) =~= Seq::<(Hand<JOKER>, usize)>::empty());
        assert(plays_view(plays@.take(0)) =~= Seq::<(Seq<u8>, int)>::empty());
        assert(plays_view(ranked@) =~= sort_plays(plays_view(plays@.take(0)), JOKER));
    }
    while k < plays.len()
        invariant
            0 <= k <= plays@.len(),
            plays_view(plays@) == target,
            target == spec_plays(lb, JOKER),
            forall|m: int|
                0 <= m < plays@.len() ==> hand_wf((#[trigger] plays@[m]).0.cards@),
            forall|m: int|
                0 <= m < ranked@.len() ==> hand_wf((#[trigger] ranked@[m]).0.cards@),
            plays_view(ranked@) == sort_plays(plays_view(plays@.take(k as int)), JOKER),
        decreases plays@.len() - k,
    {
        let x = plays[k];
        proof {
            assert(plays_view(plays@)[k as int] == (plays@[k as int].0.cards@, plays@[k as int].1 as int));
        }
        let mut j: usize = ranked.len();
        let mut scanning: bool = true;
        while scanning
            invariant
                0 <= j <= ranked@.len(),
                forall|m: int|
                    0 <= m < ranked@.len() ==> hand_wf((#[trigger] ranked@[m]).0.cards@),
                hand_wf(x.0.cards@),
                forall|m: int|
                    j <= m < ranked@.len() ==> spec_hand_cmp(
                        (#[trigger] plays_view(ranked@)[m]).0,
                        x.0.cards@,
                        JOKER,
                    ) > 0,
                !scanning ==> (j == 0 || spec_hand_cmp(plays_view(ranked@)[j - 1].0, x.0.cards@, JOKER) <= 0),
            decreases j + (if scanning { 1int } else { 0int }),
        {
            if j > 0 {
                proof {
                    assert(plays_view(ranked@)[j as int - 1] == (ranked@[j as int - 1].0.cards@,
                        ranked@[j as int - 1].1 as int));
                }
                let ord = ranked[j - 1].0.cmp_hand(&x.0);
                match ord {
                    core::cmp::Ordering::Greater => {
                        j = j - 1;
                    },
                    _ => {
                        scanning = false;
                    },
                }
            } else {
                scanning = false;
            }
        }
        proof {
            if j > 0 {
                assert(plays_view(ranked@)[j as int - 1] == (ranked@[j as int - 1].0.cards@,
                    ranked@[j as int - 1].1 as int));
            }
            lemma_insert_play_at(plays_view(ranked@), (x.0.cards@, x.1 as int), JOKER, j as int);
        }
        let ghost prevr = ranked@;
        ranked.insert(j, x);
        proof {
            assert(plays_view(ranked@) =~= plays_view(prevr).insert(j as int, (
                plays@[k as int].0.cards@,
                plays@[k as int].1 as int,
            )));
            assert(plays@.take(k as int + 1).drop_last() =~= plays@.take(k as int));
            assert(plays_view(plays@.take(k as int + 1)).drop_last() =~= plays_view(
                plays@.take(k as int),
            ));
            assert(plays_view(plays@.take(k as int + 1)).last() == (plays@[k as int].0.cards@,
                plays@[k as int].1 as int));
            assert(forall|m: int|
                0 <= m < ranked@.len() ==> (#[trigger] ranked@[m]).0.cards@ == plays_view(
                    ranked@,
                )[m].0);
        }
        k = k + 1;
    }
    proof {
        assert(plays@.take(plays@.len() as int) =~= plays@);
        assert(plays_view(ranked@) == sort_plays(target, JOKER));
    }
    // pay each rank its bid
    let ghost sorted = sort_plays(target, JOKER);
    let mut acc: usize = 0;
    let mut m: usize = 0;
    while m < ranked.len()
        invariant
            0 <= m <= ranked@.len(),
            plays_view(ranked@) == sorted,
            winnings_ok(sorted, m as int, acc as int),
            winnings_from(sorted, 0, 0) == winnings_from(sorted, m as int, acc as int),
        decreases ranked@.len() - m,
    {
        proof {
            assert(sorted[m as int] == (ranked@[m as int].0.cards@, ranked@[m as int].1 as int));
        }
        let bid = ranked[m].1;
        acc = acc + (m + 1) * bid;
        m = m + 1;
    }
    acc
}

} // verus!
