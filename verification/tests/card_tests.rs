use poker_rust::Card;
use poker_rust::CardVector;
use poker_rust::Cards;
use poker_rust::Rank;
use poker_rust::Suit;
use poker_rust::WildCardRule;
use poker_rust::card::remove_card;

use std::cmp::Ordering;

#[test]
fn test_rank_is_ordinal() {
    assert!(Rank::Ace.is_ordinal(14));
    assert!(!Rank::Ace.is_ordinal(13));
    assert!(Rank::Ace.is_ordinal(1));
}

#[test]
fn test_card_to_string() {
    assert_eq!(Card::new(Rank::Ace, Suit::Clubs).to_text(), "A♣");
    assert_eq!(Card::new(Rank::King, Suit::Hearts).to_text(), "K♥");
    assert_eq!(Card::new(Rank::Queen, Suit::Diamonds).to_text(), "Q♦");
    assert_eq!(Card::new(Rank::Jack, Suit::Spades).to_text(), "J♠");
    assert_eq!(Card::new(Rank::Ten, Suit::Diamonds).to_text(), "T♦");

    assert_eq!(Rank::Joker.of(Suit::Joker).to_text(), "??");
}

#[test]
fn test_card_cmp() {
    let ace_clubs = Rank::Ace.of(Suit::Clubs);
    let ace_diamonds = Rank::Ace.of(Suit::Diamonds);
    let king_diamonds = Rank::King.of(Suit::Diamonds);

    assert_eq!(ace_clubs.partial_cmp(&ace_diamonds), Some(Ordering::Equal));
    assert_eq!(ace_diamonds.partial_cmp(&ace_clubs), Some(Ordering::Equal));
    assert_eq!(ace_clubs.partial_cmp(&king_diamonds), Some(Ordering::Greater));
    assert_eq!(king_diamonds.partial_cmp(&ace_diamonds), Some(Ordering::Less));
}

#[test]
fn test_suit_parsing() {
    assert_eq!("c".parse::<Suit>(), Ok(Suit::Clubs));
    assert_eq!("d".parse::<Suit>(), Ok(Suit::Diamonds));
    assert_eq!("h".parse::<Suit>(), Ok(Suit::Hearts));
    assert_eq!("s".parse::<Suit>(), Ok(Suit::Spades));
    assert_eq!("♣".parse::<Suit>(), Ok(Suit::Clubs));
    assert_eq!("♦".parse::<Suit>(), Ok(Suit::Diamonds));
    assert_eq!("♥".parse::<Suit>(), Ok(Suit::Hearts));
    assert_eq!("♠".parse::<Suit>(), Ok(Suit::Spades));
}

#[test]
fn test_rank_parsing() {
    assert_eq!("a".parse::<Rank>(), Ok(Rank::Ace));
    assert_eq!("k".parse::<Rank>(), Ok(Rank::King));
    assert_eq!("q".parse::<Rank>(), Ok(Rank::Queen));
    assert_eq!("j".parse::<Rank>(), Ok(Rank::Jack));
    assert_eq!("t".parse::<Rank>(), Ok(Rank::Ten));
    assert_eq!("9".parse::<Rank>(), Ok(Rank::Nine));
    assert_eq!("8".parse::<Rank>(), Ok(Rank::Eight));
    assert_eq!("7".parse::<Rank>(), Ok(Rank::Seven));
    assert_eq!("6".parse::<Rank>(), Ok(Rank::Six));
    assert_eq!("5".parse::<Rank>(), Ok(Rank::Five));
    assert_eq!("4".parse::<Rank>(), Ok(Rank::Four));
    assert_eq!("3".parse::<Rank>(), Ok(Rank::Three));
    assert_eq!("2".parse::<Rank>(), Ok(Rank::Two));
    assert_eq!("?".parse::<Rank>(), Ok(Rank::Joker));
}

#[test]
fn test_card_parsing() {
    assert_eq!("Ac".parse::<Card>(), Ok(Rank::Ace.of(Suit::Clubs)));
    assert_eq!(" Kd".parse::<Card>(), Ok(Rank::King.of(Suit::Diamonds)));
    assert_eq!("Qh ".parse::<Card>(), Ok(Rank::Queen.of(Suit::Hearts)));
    assert_eq!("Js".parse::<Card>(), Ok(Rank::Jack.of(Suit::Spades)));
    assert_eq!("Tc".parse::<Card>(), Ok(Rank::Ten.of(Suit::Clubs)));
    assert_eq!("9s".parse::<Card>(), Ok(Rank::Nine.of(Suit::Spades)));
    assert_eq!("8h".parse::<Card>(), Ok(Rank::Eight.of(Suit::Hearts)));
    assert_eq!("7h".parse::<Card>(), Ok(Rank::Seven.of(Suit::Hearts)));
    assert_eq!("6♥".parse::<Card>(), Ok(Rank::Six.of(Suit::Hearts)));
    assert_eq!("5♣".parse::<Card>(), Ok(Rank::Five.of(Suit::Clubs)));
    assert_eq!("4♦".parse::<Card>(), Ok(Rank::Four.of(Suit::Diamonds)));
    assert_eq!("3♥".parse::<Card>(), Ok(Rank::Three.of(Suit::Hearts)));
    assert_eq!("     2♠        ".parse::<Card>(), Ok(Rank::Two.of(Suit::Spades)));
    assert_eq!("     ??        ".parse::<Card>(), Ok(Rank::Joker.of(Suit::Joker)));
}

#[test]
fn test_cards_parsing() {
    let cards = "AcKd".parse::<CardVector>().unwrap();
    assert_eq!(cards.0[0], Rank::Ace.of(Suit::Clubs));
    assert_eq!(cards.0[1], Rank::King.of(Suit::Diamonds));
}

#[test]
fn test_cards_parsing_with_whitespace() {
    let cards = "    Ac Kd   ".parse::<CardVector>().unwrap();
    assert_eq!(cards.0[0], Rank::Ace.of(Suit::Clubs));
    assert_eq!(cards.0[1], Rank::King.of(Suit::Diamonds));
}

#[test]
fn test_cards_parsing_with_commas() {
    let cards = "Ac,Kd".parse::<CardVector>().unwrap();
    assert_eq!(cards.0[0], Rank::Ace.of(Suit::Clubs));
    assert_eq!(cards.0[1], Rank::King.of(Suit::Diamonds));
}

#[test]
fn test_convert_card_vector_into_cards() {
    let card_vector = "AcKd".parse::<CardVector>().unwrap();
    println!("{}", Cards(&card_vector.0).to_text());
}

#[test]
fn test_is_one_eyed_jack() {
    assert!(Card::is_one_eyed_jack(&Rank::Jack.of(Suit::Hearts)));
    assert!(Card::is_one_eyed_jack(&Rank::Jack.of(Suit::Spades)));
    assert!(!Card::is_one_eyed_jack(&Rank::Jack.of(Suit::Diamonds)));
    assert!(!Card::is_one_eyed_jack(&Rank::Jack.of(Suit::Clubs)));
    assert!(!Card::is_one_eyed_jack(&Rank::King.of(Suit::Spades)));
    assert!(!Card::is_one_eyed_jack(&Rank::King.of(Suit::Hearts)));
}

#[test]
fn test_is_suicide_king() {
    assert!(Card::is_suicide_king(&Rank::King.of(Suit::Hearts)));
    assert!(!Card::is_suicide_king(&Rank::King.of(Suit::Spades)));
    assert!(!Card::is_suicide_king(&Rank::King.of(Suit::Diamonds)));
    assert!(!Card::is_suicide_king(&Rank::King.of(Suit::Clubs)));
    assert!(!Card::is_suicide_king(&Rank::Jack.of(Suit::Spades)));
    assert!(!Card::is_suicide_king(&Rank::Jack.of(Suit::Hearts)));

    assert!(Rank::King.of(Suit::Hearts).is_wild(&Some(WildCardRule::SuicideKings)));
    assert!(!Rank::Jack.of(Suit::Hearts).is_wild(&Some(WildCardRule::SuicideKings)));
    assert!(!Rank::King.of(Suit::Hearts).is_wild(&None));
    assert!(!Rank::Jack.of(Suit::Hearts).is_wild(&None));
}

#[test]
fn test_remove_card() {
    let cards0 = CardVector::parse("Kc ?? ??");
    assert_eq!(cards0.0.len(), 3);

    let cards1 = remove_card(&cards0.0, &Rank::Joker.of(Suit::Joker));
    assert_eq!(cards1.len(), 2);

    let cards2 = remove_card(&cards1, &Rank::Joker.of(Suit::Joker));
    assert_eq!(cards2.len(), 1);
}

#[test]
fn test_suit_parse_error() {
    assert_eq!("x".parse::<Suit>(), Err("Invalid Suit"));
    assert_eq!("hh".parse::<Suit>(), Err("Invalid Suit"));
}

#[test]
fn test_rank_parse_error() {
    assert_eq!("1".parse::<Rank>(), Err("Invalid Rank"));
    assert_eq!("".parse::<Rank>(), Err("Invalid Rank"));
}

#[test]
fn test_card_parse_error() {
    assert_eq!("Zc".parse::<Card>(), Err("Invalid Rank"));
    assert_eq!("Az".parse::<Card>(), Err("Invalid Suit"));
    assert_eq!("A".parse::<Card>(), Err("Invalid Suit"));
    assert_eq!("".parse::<Card>(), Err("Invalid Rank"));
}

#[test]
fn test_scored_as_keeps_identity() {
    let joker = Rank::Joker.of(Suit::Joker);
    let as_ace = joker.scored_as(Rank::Ace);
    let as_king = joker.scored_as(Rank::King);
    assert_eq!(as_ace, as_king);
    assert_eq!(as_ace, joker);
    assert_eq!(as_ace.scoring_rank, Rank::Ace);
    assert_eq!(as_king.scoring_rank, Rank::King);
}
