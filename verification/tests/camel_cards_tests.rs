use advent::camel_cards::Hand;
use advent::camel_cards::HandClassification::{
    FiveOfAKind, FourOfAKind, FullHouse, HighCard, OnePair, ThreeOfAKind, TwoPair,
};
use advent::camel_cards_winnings::compute;
use std::cmp::Ordering;

pub type NJHand = Hand<false>;
pub type JHand = Hand<true>;

fn example_input() -> Vec<String> {
    [
        "32T3K 765",
        "T55J5 684",
        "KK677 28",
        "KTJJT 220",
        "QQQJA 483",
    ]
    .iter()
    .map(|line| line.to_string())
    .collect()
}

#[test]
fn main_test_hand_parse() {
    assert_eq!(
        NJHand::parse("J23TA"),
        Hand {
            cards: [11, 2, 3, 10, 14]
        }
    );
    assert_eq!(
        JHand::parse("J23TA"),
        Hand {
            cards: [0, 2, 3, 10, 14]
        }
    );
}

#[test]
fn test_classify() {
    assert_eq!(NJHand::parse("12345").classify(), HighCard);
    assert_eq!(NJHand::parse("12343").classify(), OnePair);
    assert_eq!(NJHand::parse("1J2JJ").classify(), ThreeOfAKind);
    assert_eq!(NJHand::parse("AA3AA").classify(), FourOfAKind);
    assert_eq!(NJHand::parse("KKKKK").classify(), FiveOfAKind);
    assert_eq!(NJHand::parse("KKKQQ").classify(), FullHouse);
}

#[test]
fn test_classify_jhand_without_joker() {
    assert_eq!(JHand::parse("12345").classify(), HighCard);
    assert_eq!(JHand::parse("12343").classify(), OnePair);
    assert_eq!(JHand::parse("42343").classify(), TwoPair);
    assert_eq!(JHand::parse("1A2AA").classify(), ThreeOfAKind);
    assert_eq!(JHand::parse("AA3AA").classify(), FourOfAKind);
    assert_eq!(JHand::parse("KKKKK").classify(), FiveOfAKind);
    assert_eq!(JHand::parse("KKKQQ").classify(), FullHouse);
}

#[test]
fn test_classify_jhand_with_joker() {
    assert_eq!(JHand::parse("1234J").classify(), OnePair);

    assert_eq!(JHand::parse("J2343").classify(), ThreeOfAKind);
    assert_eq!(JHand::parse("12J4J").classify(), ThreeOfAKind);

    assert_eq!(JHand::parse("4J343").classify(), FullHouse);
    assert_eq!(JHand::parse("J23J3").classify(), FourOfAKind);

    assert_eq!(JHand::parse("JA2AA").classify(), FourOfAKind);
    assert_eq!(JHand::parse("1J2JJ").classify(), FourOfAKind);

    assert_eq!(JHand::parse("AAJAA").classify(), FiveOfAKind);
    assert_eq!(JHand::parse("JJ1JJ").classify(), FiveOfAKind);

    assert_eq!(JHand::parse("JJJJJ").classify(), FiveOfAKind);
    assert_eq!(JHand::parse("KKKJJ").classify(), FiveOfAKind);
    assert_eq!(JHand::parse("JJJTT").classify(), FiveOfAKind);
}

#[test]
fn test_hand_ordering() {
    assert_eq!(
        NJHand::parse("33332").cmp_hand(&NJHand::parse("2AAAA")),
        Ordering::Greater
    );
    assert_eq!(
        NJHand::parse("2AAAA").cmp_hand(&NJHand::parse("33332")),
        Ordering::Less
    );
    assert_eq!(
        NJHand::parse("77888").cmp_hand(&NJHand::parse("77788")),
        Ordering::Greater
    );
    assert_eq!(
        NJHand::parse("77788").cmp_hand(&NJHand::parse("77888")),
        Ordering::Less
    );
    assert_eq!(
        NJHand::parse("A7A8A").cmp_hand(&NJHand::parse("A7A8A")),
        Ordering::Equal
    );
}

#[test]
fn camel_cards_compute_examples() {
    assert_eq!(compute::<false>(&example_input()), 6440);
    assert_eq!(compute::<true>(&example_input()), 5905);
}
