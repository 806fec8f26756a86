use poker_rust::Rank;
use poker_rust::Suit;
use poker_rust::make_deck;
use poker_rust::make_shuffled_deck;

#[test]
fn test_make_deck() {
    let deck = make_deck();
    assert_eq!(deck.len(), 52);

    assert!(deck.contains(&Rank::Ace.of(Suit::Clubs)));
    assert!(deck.contains(&Rank::Ace.of(Suit::Diamonds)));
    assert!(deck.contains(&Rank::Ace.of(Suit::Hearts)));
    assert!(deck.contains(&Rank::Ace.of(Suit::Spades)));
}

#[test]
fn test_make_shuffled_deck() {
    let deck = make_shuffled_deck();
    assert_eq!(deck.len(), 52);

    assert!(deck.contains(&Rank::Ace.of(Suit::Clubs)));
    assert!(deck.contains(&Rank::Ace.of(Suit::Diamonds)));
    assert!(deck.contains(&Rank::Ace.of(Suit::Hearts)));
    assert!(deck.contains(&Rank::Ace.of(Suit::Spades)));
}

#[test]
fn test_shuffled_deck_same_cards() {
    let deck = make_deck();
    let shuffled = make_shuffled_deck();
    for card in &deck {
        assert!(shuffled.contains(card));
    }
    for card in &shuffled {
        assert!(deck.contains(card));
    }
}
