//! Camel cards: a hand of five card values classifies by its repeated
//! cards, jokers stand in for whatever helps most, and hands order by
//! classification first, then card by card.

use vstd::prelude::*;

verus! {

/// The kinds of hand, weakest first.
#[derive(PartialEq, Eq, Structural, Debug)]
pub enum HandClassification {
    HighCard,
    OnePair,
    TwoPair,
    ThreeOfAKind,
    FullHouse,
    FourOfAKind,
    FiveOfAKind,
}

/// The strength order of the classifications.
pub open spec fn class_rank(c: HandClassification) -> int {
    match c {
        HandClassification::HighCard => 0,
        HandClassification::OnePair => 1,
        HandClassification::TwoPair => 2,
        HandClassification::ThreeOfAKind => 3,
        HandClassification::FullHouse => 4,
        HandClassification::FourOfAKind => 5,
        HandClassification::FiveOfAKind => 6,
    }
}

/// One hand of five cards; with `JOKER` the letter `J` reads as the
/// joker value zero instead of eleven.
#[derive(Debug, Clone, Copy)]
pub struct Hand<const JOKER: bool> {
    pub cards: [u8; 5],
}

impl<const JOKER: bool> PartialEq for Hand<JOKER> {
    /// Two hands are equal when their cards are, position by position.
    fn eq(&self, other: &Hand<JOKER>) -> (r: bool) {
        let mut i: usize = 0;
        while i < 5
            invariant
                0 <= i <= 5,
                self.cards@.len() == 5,
                other.cards@.len() == 5,
                forall|k: int| 0 <= k < i ==> self.cards@[k] == other.cards@[k],
            decreases 5 - i,
        {
            if self.cards[i] != other.cards[i] {
                proof {
                    assert(self.cards@ !~= other.cards@);
                }
                return false;
            }
            i = i + 1;
        }
        proof {
            assert(self.cards@ =~= other.cards@);
        }
        true
    }
}

impl<const JOKER: bool> vstd::std_specs::cmp::PartialEqSpecImpl for Hand<JOKER> {
    open spec fn obeys_eq_spec() -> bool {
        true
    }

    open spec fn eq_spec(&self, other: &Hand<JOKER>) -> bool {
        self.cards@ == other.cards@
    }
}

/// The numeric value of one card character.
pub open spec fn card_val(c: char, joker: bool) -> int {
    if '1' <= c <= '9' {
        c as int - 48
    } else if c == 'T' {
        10
    } else if c == 'J' {
        if joker {
            0
        } else {
            11
        }
    } else if c == 'Q' {
        12
    } else if c == 'K' {
        13
    } else if c == 'A' {
        14
    } else {
        15
    }
}

pub open spec fn valid_card(c: char) -> bool {
    card_val(c, false) <= 14
}

/// A readable hand string: exactly five known card characters.
pub open spec fn hand_str_ok(s: Seq<char>) -> bool {
    s.len() == 5 && forall|i: int| 0 <= i < 5 ==> valid_card(#[trigger] s[i])
}

/// Card values stay within the deck.
pub open spec fn hand_wf(cards: Seq<u8>) -> bool {
    cards.len() == 5 && forall|i: int| 0 <= i < 5 ==> (#[trigger] cards[i]) <= 14
}

/// How many of the five cards carry the value `v`.
pub open spec fn count_card(cards: Seq<u8>, v: int) -> int
    decreases cards.len(),
{
    if cards.len() == 0 {
        0
    } else {
        (if cards[0] == v {
            1int
        } else {
            0int
        }) + count_card(cards.drop_first(), v)
    }
}

/// How many distinct card values at or above `v` appear.
pub open spec fn distinct_from(cards: Seq<u8>, v: int) -> int
    decreases 15 - v,
{
    if v < 0 || v >= 15 {
        0
    } else {
        (if count_card(cards, v) > 0 {
            1int
        } else {
            0int
        }) + distinct_from(cards, v + 1)
    }
}

/// Some card value occurs exactly `n` times.
pub open spec fn has_count(cards: Seq<u8>, n: int) -> bool {
    exists|v: int| 0 <= v < 15 && #[trigger] count_card(cards, v) == n
}

/// The classification before jokers are considered: how many distinct
/// values the hand holds, refined by its largest repetition.
pub open spec fn base_class(cards: Seq<u8>) -> HandClassification {
    let d = distinct_from(cards, 0);
    if d == 5 {
        HandClassification::HighCard
    } else if d == 4 {
        HandClassification::OnePair
    } else if d == 3 {
        if has_count(cards, 3) {
            HandClassification::ThreeOfAKind
        } else {
            HandClassification::TwoPair
        }
    } else if d == 2 {
        if has_count(cards, 4) {
            HandClassification::FourOfAKind
        } else {
            HandClassification::FullHouse
        }
    } else {
        HandClassification::FiveOfAKind
    }
}

/// The classification with jokers joined to the best group.
pub open spec fn spec_classify(cards: Seq<u8>, joker: bool) -> HandClassification {
    let base = base_class(cards);
    if joker && count_card(cards, 0) > 0 {
        match base {
            HandClassification::FiveOfAKind => HandClassification::FiveOfAKind,
            HandClassification::FourOfAKind => HandClassification::FiveOfAKind,
            HandClassification::FullHouse => HandClassification::FiveOfAKind,
            HandClassification::ThreeOfAKind => HandClassification::FourOfAKind,
            HandClassification::TwoPair => if count_card(cards, 0) == 1 {
                HandClassification::FullHouse
            } else {
                HandClassification::FourOfAKind
            },
            HandClassification::OnePair => HandClassification::ThreeOfAKind,
            HandClassification::HighCard => HandClassification::OnePair,
        }
    } else {
        base
    }
}

impl<const JOKER: bool> Hand<JOKER> {
    /// Reads a hand from its five card characters.
    pub fn parse(input: &str) -> (r: Hand<JOKER>)
        requires
            hand_str_ok(input@),
        ensures
            hand_wf(r.cards@),
            forall|i: int| 0 <= i < 5 ==> (#[trigger] r.cards@[i]) as int == card_val(
                input@[i],
                JOKER,
            ),
    {
        let c0 = card_of(input, 0, JOKER);
        let c1 = card_of(input, 1, JOKER);
        let c2 = card_of(input, 2, JOKER);
        let c3 = card_of(input, 3, JOKER);
        let c4 = card_of(input, 4, JOKER);
        let cards: [u8; 5] = [c0, c1, c2, c3, c4];
        Hand { cards }
    }

    /// Classifies the hand: distinct values and repetitions decide, and
    /// jokers join the largest group.
    pub fn classify(&self) -> (r: HandClassification)
        requires
            hand_wf(self.cards@),
        ensures
            r == spec_classify(self.cards@, JOKER),
    {
        let ghost cv = self.cards@;
        let mut counts: Vec<u8> = vec![0u8, 0, 0, 0, 0, 0, 0, 0, 0, 0, 0, 0, 0, 0, 0];
        let mut i: usize = 0;
        proof {
            assert(cv.skip(0) =~= cv);
        }
        while i < 5
            invariant
                0 <= i <= 5,
                cv == self.cards@,
                hand_wf(cv),
                counts@.len() == 15,
                forall|v: int|
                    0 <= v < 15 ==> counts@[v] as int + count_card(cv.skip(i as int), v)
                        == count_card(cv, v),
                forall|v: int| 0 <= v < 15 ==> counts@[v] <= i,
            decreases 5 - i,
        {
            let c = self.cards[i];
            proof {
                assert(cv.skip(i as int)[0] == cv[i as int]);
                assert(cv.skip(i as int).drop_first() =~= cv.skip(i as int + 1));
                assert(forall|v: int|
                    0 <= v < 15 ==> count_card(cv.skip(i as int), v) == (if cv[i as int] == v {
                        1int
                    } else {
                        0int
                    }) + count_card(cv.skip(i as int + 1), v));
            }
            let ghost prev = counts@;
            let cur = counts[c as usize];
            counts.set(c as usize, cur + 1);
            i = i + 1;
        }
        proof {
            assert(cv.skip(5) =~= Seq::<u8>::empty());
            assert(forall|v: int| 0 <= v < 15 ==> counts@[v] as int == count_card(cv, v));
        }
        // count the distinct values and look for a triple or a quad
        let mut distinct: usize = 0;
        let mut triple: bool = false;
        let mut quad: bool = false;
        let mut v: usize = 0;
        while v < 15
            invariant
                0 <= v <= 15,
                counts@.len() == 15,
                forall|w: int| 0 <= w < 15 ==> counts@[w] as int == count_card(cv, w),
                distinct as int + distinct_from(cv, v as int) == distinct_from(cv, 0),
                distinct <= v,
                triple == exists|w: int| 0 <= w < v && #[trigger] count_card(cv, w) == 3,
                quad == exists|w: int| 0 <= w < v && #[trigger] count_card(cv, w) == 4,
            decreases 15 - v,
        {
            let c = counts[v];
            if c > 0 {
                distinct = distinct + 1;
            }
            if c == 3 {
                triple = true;
            }
            if c == 4 {
                quad = true;
            }
            v = v + 1;
        }
        proof {
            assert(distinct_from(cv, 15) == 0);
            assert(triple == has_count(cv, 3));
            assert(quad == has_count(cv, 4));
        }
        let base = if distinct == 5 {
            HandClassification::HighCard
        } else if distinct == 4 {
            HandClassification::OnePair
        } else if distinct == 3 {
            if triple {
                HandClassification::ThreeOfAKind
            } else {
                HandClassification::TwoPair
            }
        } else if distinct == 2 {
            if quad {
                HandClassification::FourOfAKind
            } else {
                HandClassification::FullHouse
            }
        } else {
            HandClassification::FiveOfAKind
        };
        if JOKER {
            let jokers = counts[0];
            if jokers > 0 {
                return match base {
                    HandClassification::FiveOfAKind => HandClassification::FiveOfAKind,
                    HandClassification::FourOfAKind => HandClassification::FiveOfAKind,
                    HandClassification::FullHouse => HandClassification::FiveOfAKind,
                    HandClassification::ThreeOfAKind => HandClassification::FourOfAKind,
                    HandClassification::TwoPair => if jokers == 1 {
                        HandClassification::FullHouse
                    } else {
                        HandClassification::FourOfAKind
                    },
                    HandClassification::OnePair => HandClassification::ThreeOfAKind,
                    HandClassification::HighCard => HandClassification::OnePair,
                };
            }
        }
        base
    }

    /// Orders two hands: equal cards tie; otherwise the classification
    /// decides, and equal classifications fall back to the cards in
    /// order.
    pub fn cmp_hand(&self, other: &Hand<JOKER>) -> (r: core::cmp::Ordering)
        requires
            hand_wf(self.cards@),
            hand_wf(other.cards@),
        ensures
            r is Less <==> spec_hand_cmp(self.cards@, other.cards@, JOKER) < 0,
            r is Greater <==> spec_hand_cmp(self.cards@, other.cards@, JOKER) > 0,
            r is Equal <==> spec_hand_cmp(self.cards@, other.cards@, JOKER) == 0,
    {
        let lex = lex_cmp_cards(&self.cards, &other.cards);
        if lex == 0 {
            return core::cmp::Ordering::Equal;
        }
        let ca = class_rank_exec(self.classify());
        let cb = class_rank_exec(other.classify());
        if ca == cb {
            if lex < 0 {
                core::cmp::Ordering::Less
            } else {
                core::cmp::Ordering::Greater
            }
        } else if ca < cb {
            core::cmp::Ordering::Less
        } else {
            core::cmp::Ordering::Greater
        }
    }
}

/// Reads one card character of the hand string.
fn card_of(input: &str, i: usize, joker: bool) -> (r: u8)
    requires
        hand_str_ok(input@),
        i < 5,
    ensures
        r as int == card_val(input@[i as int], joker),
        r <= 14,
{
    let c = input.get_char(i);
    if c >= '1' && c <= '9' {
        (c as u32 - 48) as u8
    } else if c == 'T' {
        10
    } else if c == 'Q' {
        12
    } else if c == 'K' {
        13
    } else if c == 'A' {
        14
    } else {
        proof {
            assert(valid_card(input@[i as int]));
            assert(input@[i as int] == 'J');
        }
        if joker {
            0
        } else {
            11
        }
    }
}

/// Lexicographic comparison of the card arrays: negative, zero or
/// positive as the first differing card decides.
pub open spec fn lex_cmp(a: Seq<u8>, b: Seq<u8>) -> int
    decreases a.len(),
{
    if a.len() == 0 || b.len() == 0 {
        0
    } else if a[0] < b[0] {
        -1
    } else if a[0] > b[0] {
        1
    } else {
        lex_cmp(a.drop_first(), b.drop_first())
    }
}

/// The order of two hands: cards tie outright; otherwise classification
/// first, then the cards lexicographically.
pub open spec fn spec_hand_cmp(a: Seq<u8>, b: Seq<u8>, joker: bool) -> int {
    let lex = lex_cmp(a, b);
    if lex == 0 {
        0
    } else {
        let ca = class_rank(spec_classify(a, joker));
        let cb = class_rank(spec_classify(b, joker));
        if ca == cb {
            lex
        } else if ca < cb {
            -1
        } else {
            1
        }
    }
}

fn lex_cmp_cards(a: &[u8; 5], b: &[u8; 5]) -> (r: i32)
    ensures
        r == lex_cmp(a@, b@),
        -1 <= r <= 1,
{
    let mut i: usize = 0;
    proof {
        assert(a@.skip(0) =~= a@);
        assert(b@.skip(0) =~= b@);
    }
    while i < 5
        invariant
            0 <= i <= 5,
            a@.len() == 5,
            b@.len() == 5,
            lex_cmp(a@, b@) == lex_cmp(a@.skip(i as int), b@.skip(i as int)),
        decreases 5 - i,
    {
        proof {
            assert(a@.skip(i as int)[0] == a@[i as int]);
            assert(b@.skip(i as int)[0] == b@[i as int]);
            assert(a@.skip(i as int).drop_first() =~= a@.skip(i as int + 1));
            assert(b@.skip(i as int).drop_first() =~= b@.skip(i as int + 1));
        }
        if a[i] < b[i] {
            return -1;
        }
        if a[i] > b[i] {
            return 1;
        }
        i = i + 1;
    }
    proof {
        assert(a@.skip(5).len() == 0);
    }
    0
}

fn class_rank_exec(c: HandClassification) -> (r: u8)
    ensures
        r as int == class_rank(c),
{
    match c {
        HandClassification::HighCard => 0,
        HandClassification::OnePair => 1,
        HandClassification::TwoPair => 2,
        HandClassification::ThreeOfAKind => 3,
        HandClassification::FullHouse => 4,
        HandClassification::FourOfAKind => 5,
        HandClassification::FiveOfAKind => 6,
    }
}

} // verus!
