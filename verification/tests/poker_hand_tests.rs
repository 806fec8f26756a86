use poker_rust::Card;
use poker_rust::CardVector;
use poker_rust::HandRank;
use poker_rust::PokerHand;
use poker_rust::Rank;
use poker_rust::Suit;
use poker_rust::WildCardRule;
use poker_rust::fmt_cards;

use std::cmp::Ordering;

fn display_hand(hand: &PokerHand) -> String {
    format!("{} -> {}", fmt_cards(hand.cards()), hand.name())
}

fn _parse_hand(card_string: &str, is_wild: &Option<WildCardRule>) -> PokerHand {
    let card_vector = CardVector::parse(card_string);
    let hand = PokerHand::build(&card_vector.0, is_wild);
    println!("{} -> {}", card_string, display_hand(&hand));
    hand
}

fn parse_hand(card_string: &str) -> PokerHand {
    _parse_hand(card_string, &Some(WildCardRule::Jokers))
}

fn parse_hand_suicide_king(card_string: &str) -> PokerHand {
    _parse_hand(card_string, &Some(WildCardRule::SuicideKings))
}

#[test]
fn test_println() {
    let poker_hand = parse_hand("Ac As Ad Ah Jd");
    println!("{}", display_hand(&poker_hand));
}

#[test]
fn test_straight_flush() {
    assert_eq!(parse_hand("Ac Kc Qc Tc Jc").rank, HandRank::StraightFlush);
}

#[test]
fn test_straight_flush_with_jokers() {
    assert_eq!(parse_hand("Ac Kc Qc ?? Jc").rank, HandRank::StraightFlush);
    assert_eq!(parse_hand("Ac Kc ?? ?? Jc").rank, HandRank::StraightFlush);
}

#[test]
fn test_quads() {
    let poker_hand = parse_hand("Ac As Ad Ah Jd");
    let cards = poker_hand.cards();
    assert_eq!(poker_hand.rank, HandRank::Quads);

    assert_eq!(cards[0].rank, Rank::Ace);
    assert_eq!(cards[1].rank, Rank::Ace);
    assert_eq!(cards[2].rank, Rank::Ace);
    assert_eq!(cards[3].rank, Rank::Ace);
    assert_eq!(cards[4].rank, Rank::Jack);
}

#[test]
fn test_full_house() {
    let poker_hand = parse_hand("Ac As Ad Jh Jd");
    let cards = poker_hand.cards();
    assert_eq!(poker_hand.rank, HandRank::FullHouse);

    assert_eq!(cards[0].rank, Rank::Ace);
    assert_eq!(cards[1].rank, Rank::Ace);
    assert_eq!(cards[2].rank, Rank::Ace);
    assert_eq!(cards[3].rank, Rank::Jack);
    assert_eq!(cards[4].rank, Rank::Jack);
}

#[test]
fn test_one_joker() {
    assert_eq!(parse_hand("Ac As Ad ?? Jd").rank, HandRank::Quads);
    assert_eq!(parse_hand("Ac As ?? Jc Jd").rank, HandRank::FullHouse);
    assert_eq!(parse_hand("Ac As ?? Jc Td").rank, HandRank::Triplets);
    assert_eq!(parse_hand("Ac ?? Jc Td 7c").rank, HandRank::OnePair);
}

#[test]
fn test_two_joker() {
    assert_eq!(parse_hand("Ac As ?? ?? Jd").rank, HandRank::Quads);
    assert_eq!(parse_hand("Ac ?? ?? Td 7c").rank, HandRank::Triplets);
}

#[test]
fn test_flush() {
    let poker_hand = parse_hand("Ac Kc 7c Tc Jc");
    let cards = poker_hand.cards();
    assert_eq!(poker_hand.rank, HandRank::Flush);

    assert_eq!(cards[0].rank, Rank::Ace);
    assert_eq!(cards[1].rank, Rank::King);
    assert_eq!(cards[2].rank, Rank::Jack);
    assert_eq!(cards[3].rank, Rank::Ten);
    assert_eq!(cards[4].rank, Rank::Seven);
}

#[test]
fn test_flush_with_jokers() {
    assert_eq!(parse_hand("Ac Kc 7c Tc ??").rank, HandRank::Flush);
    assert_eq!(parse_hand("Ac Kc ?? Jc 7c").rank, HandRank::Flush);
}

#[test]
fn test_straight() {
    assert_eq!(parse_hand("Ac Kc Qc Ts Jd").rank, HandRank::Straight);
}

#[test]
fn test_low_straight() {
    assert_eq!(parse_hand("Ac 5c 4s 3s 2d").rank, HandRank::Straight);
    assert_eq!(parse_hand("5c 4s 3s 2d ??").rank, HandRank::Straight);
    assert_eq!(parse_hand("?? 4s 3s 2d Ac").rank, HandRank::Straight);
}

#[test]
fn test_straight_with_jokers() {
    assert_eq!(parse_hand("Ac Kc Qc Jd ??").rank, HandRank::Straight);
    assert_eq!(parse_hand("Ac Kc ?? ?? Ts").rank, HandRank::Straight);
}

#[test]
fn test_triplets() {
    assert_eq!(parse_hand("Ac Ah As Ts Jd").rank, HandRank::Triplets);
}

#[test]
fn test_two_pair() {
    assert_eq!(parse_hand("Ac Ah Qs Qd Jd").rank, HandRank::TwoPair);
}

#[test]
fn test_pair() {
    assert_eq!(parse_hand("Ac Ah Qs Td Jd").rank, HandRank::OnePair);
}

#[test]
fn test_high_card() {
    let poker_hand = parse_hand("Ac Jh 9s 7d 5d");
    let cards = poker_hand.cards();
    assert_eq!(poker_hand.rank, HandRank::HighCard);

    assert_eq!(cards[0], Rank::Ace.of(Suit::Clubs));
    assert_eq!(cards[1], Rank::Jack.of(Suit::Hearts));
    assert_eq!(cards[2], Rank::Nine.of(Suit::Spades));
    assert_eq!(cards[3], Rank::Seven.of(Suit::Diamonds));
    assert_eq!(cards[4], Rank::Five.of(Suit::Diamonds));
}

#[test]
fn test_suicide_king() {
    assert_eq!(parse_hand_suicide_king("9c Kh 7c 6c 5c").rank, HandRank::StraightFlush);
    assert_eq!(parse_hand_suicide_king("Ac Kh As Ad 7d").rank, HandRank::Quads);
    assert_eq!(parse_hand_suicide_king("Kc Kh 7c 6c 5c").rank, HandRank::Flush);
    assert_eq!(parse_hand_suicide_king("9c Kh 7s 6d 5d").rank, HandRank::Straight);
    assert_eq!(parse_hand_suicide_king("Ac Kh As 7c 7d").rank, HandRank::FullHouse);
    assert_eq!(parse_hand_suicide_king("Ac Kh As 6c 7d").rank, HandRank::Triplets);
    assert_eq!(parse_hand_suicide_king("Ac Kh 5c 6c 7d").rank, HandRank::OnePair);
}

#[test]
fn test_two_pair_edge_case() {
    let poker_hand = parse_hand("K♣ K♦ 5♠ 5♣ 3♥ 3♣");
    assert_eq!(poker_hand.rank, HandRank::TwoPair);

    println!("two_pair_edge_case: {}", display_hand(&poker_hand));
    assert_eq!(poker_hand.cards().len(), 5);
}

#[test]
fn test_cmp_wild_full_house() {
    let natural = parse_hand("Ac As Ad Jh Jd");
    let wild = parse_hand("Ac As ?? Jh Jd");

    assert_eq!(natural.rank, HandRank::FullHouse);
    assert_eq!(wild.rank, HandRank::FullHouse);

    assert_eq!(wild.partial_cmp(&natural), Some(Ordering::Equal));
    assert_eq!(natural.partial_cmp(&wild), Some(Ordering::Equal));
}

#[test]
fn test_cmp_wild_straight() {
    let natural = parse_hand("Ac Ks Qd Jh Td");
    let wild_one = parse_hand("Ac Ks ?? Jh Td");
    let wild_two = parse_hand("Ac Ks ?? ?? Td");

    assert_eq!(natural.rank, HandRank::Straight);
    assert_eq!(wild_one.rank, HandRank::Straight);
    assert_eq!(wild_two.rank, HandRank::Straight);

    assert_eq!(natural.partial_cmp(&wild_one), Some(Ordering::Equal));
    assert_eq!(natural.partial_cmp(&wild_two), Some(Ordering::Equal));

    assert_eq!(wild_one.partial_cmp(&natural), Some(Ordering::Equal));
    assert_eq!(wild_one.partial_cmp(&wild_two), Some(Ordering::Equal));

    assert_eq!(wild_two.partial_cmp(&natural), Some(Ordering::Equal));
    assert_eq!(wild_two.partial_cmp(&wild_one), Some(Ordering::Equal));
}

#[test]
fn test_cmp_wild_flush() {
    let natural = parse_hand("Ac Kc Qc 7c 6c");
    let wild_one = parse_hand("Ac ?? Qc 7c 6c");
    let wild_two = parse_hand("Ac ?? ?? 7c 6c");

    assert_eq!(natural.rank, HandRank::Flush);
    assert_eq!(wild_one.rank, HandRank::Flush);
    assert_eq!(wild_two.rank, HandRank::Flush);

    assert_eq!(natural.partial_cmp(&wild_one), Some(Ordering::Equal));
    assert_eq!(natural.partial_cmp(&wild_two), Some(Ordering::Equal));

    assert_eq!(wild_one.partial_cmp(&natural), Some(Ordering::Equal));
    assert_eq!(wild_one.partial_cmp(&wild_two), Some(Ordering::Equal));

    assert_eq!(wild_two.partial_cmp(&natural), Some(Ordering::Equal));
    assert_eq!(wild_two.partial_cmp(&wild_one), Some(Ordering::Equal));
}

#[test]
fn test_always_five_cards() {
    let hands = [
        "Ac Kc Qc Tc Jc",
        "Ac As Ad Ah Jd",
        "Ac Jh 9s 7d 5d",
        "K♣ K♦ 5♠ 5♣ 3♥ 3♣",
        "Ac Kd 7c 5s 2h 9d Js",
    ];
    for text in hands {
        let hand = _parse_hand(text, &None);
        assert_eq!(hand.cards().len(), 5);
        assert!(hand.rank.value() <= 8);
    }
}

#[test]
fn test_score_ordering_across_categories() {
    let ordered = [
        parse_hand("Ac Kc Qc Tc Jc"),
        parse_hand("Ac As Ad Ah Jd"),
        parse_hand("Ac As Ad Jh Jd"),
        parse_hand("Ac Kc 7c Tc Jc"),
        parse_hand("Ac Kc Qc Ts Jd"),
        parse_hand("Ac Ah As Ts Jd"),
        parse_hand("Ac Ah Qs Qd Jd"),
        parse_hand("Ac Ah Qs Td Jd"),
        parse_hand("Ac Jh 9s 7d 5d"),
    ];
    for w in ordered.windows(2) {
        assert_eq!(w[0].partial_cmp(&w[1]), Some(Ordering::Greater));
        assert_eq!(w[1].partial_cmp(&w[0]), Some(Ordering::Less));
    }
}

#[test]
fn test_score_kicker_ordering() {
    let high = parse_hand("Ac Ah Qs Td Jd");
    let low = parse_hand("Ac Ah Qs Td 9d");
    assert_eq!(high.partial_cmp(&low), Some(Ordering::Greater));

    let king = parse_hand("Kc Kh Qs Td Jd");
    assert_eq!(high.partial_cmp(&king), Some(Ordering::Greater));
}

#[test]
fn test_wild_card_never_weakens() {
    let base = CardVector::parse("Ac Kc Qc Ts Jd");
    let straight = PokerHand::build(&base.0, &Some(WildCardRule::Jokers));
    assert_eq!(straight.rank, HandRank::Straight);

    let more = CardVector::parse("Ac Kc Qc Ts Jd ??");
    let widened = PokerHand::build(&more.0, &Some(WildCardRule::Jokers));
    assert!(widened.rank.value() >= straight.rank.value());

    let flush_base = CardVector::parse("Ac Kc Qc 7c 6c");
    let flush = PokerHand::build(&flush_base.0, &Some(WildCardRule::Jokers));
    assert_eq!(flush.rank, HandRank::Flush);

    let flush_more = CardVector::parse("Ac Kc Qc 7c 6c ??");
    let flush_widened = PokerHand::build(&flush_more.0, &Some(WildCardRule::Jokers));
    assert!(flush_widened.rank.value() >= flush.rank.value());

    let quads_base = CardVector::parse("Ac As Ad Ah Jd");
    let quads = PokerHand::build(&quads_base.0, &Some(WildCardRule::Jokers));
    assert_eq!(quads.rank, HandRank::Quads);

    let quads_more = CardVector::parse("Ac As Ad Ah Jd ??");
    let quads_widened = PokerHand::build(&quads_more.0, &Some(WildCardRule::Jokers));
    assert!(quads_widened.rank.value() >= quads.rank.value());
}

#[test]
fn test_classify_twice_same_score() {
    let cards = CardVector::parse("Ac Kd 7c 5s 2h 9d Js");
    let first = PokerHand::build(&cards.0, &None);
    let second = PokerHand::build(&cards.0, &None);
    assert_eq!(first.score, second.score);
    assert_eq!(first.rank, second.rank);
}

#[test]
fn test_card_identity_across_hands() {
    let joker = Rank::Joker.of(Suit::Joker);
    let hand_a = parse_hand("Ac As Ad ?? Jd");
    let hand_b = parse_hand("Ac Kc Qc ?? Jc");
    let in_a = hand_a.cards().iter().find(|c| **c == joker).unwrap();
    let in_b = hand_b.cards().iter().find(|c| **c == joker).unwrap();
    assert_eq!(in_a, in_b);
    assert_ne!(in_a.scoring_rank, in_b.scoring_rank);
}

#[test]
fn test_seven_card_classification() {
    let hand = _parse_hand("Kc Kd 5s 5c 3h 3c 9d", &None);
    assert_eq!(hand.rank, HandRank::TwoPair);
    assert_eq!(hand.cards().len(), 5);
    assert_eq!(hand.cards()[0].rank, Rank::King);
    assert_eq!(hand.cards()[1].rank, Rank::King);
    assert_eq!(hand.cards()[2].rank, Rank::Five);
    assert_eq!(hand.cards()[3].rank, Rank::Five);
    assert_eq!(hand.cards()[4].rank, Rank::Nine);
}

#[test]
fn test_name_text() {
    assert_eq!(parse_hand("Ac Kc Qc Tc Jc").name(), "Straight Flush");
    assert_eq!(parse_hand("Ac As Ad Ah Jd").name(), "Four of a Kind");
    assert_eq!(parse_hand("Ac Jh 9s 7d 5d").name(), "High Card");
}

#[test]
fn test_wheel_scores_below_six_high() {
    let wheel = parse_hand("Ac 5c 4s 3s 2d");
    let six_high = parse_hand("6c 5h 4s 3s 2d");
    assert_eq!(wheel.rank, HandRank::Straight);
    assert_eq!(six_high.rank, HandRank::Straight);
    assert_eq!(six_high.partial_cmp(&wheel), Some(Ordering::Greater));
}
