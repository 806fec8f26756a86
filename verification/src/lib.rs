//! A poker hand classifier and equity calculator.
//!
//! The crate models playing cards, classifies 5- to 7-card sets into the
//! best obtainable 5-card poker hand (optionally substituting wild cards
//! for missing ranks), and computes win/loss/split tallies for several
//! players by enumerating all completions of a partially dealt board.

use vstd::prelude::*;

pub mod card;
pub mod deck;
pub mod equity;
pub mod poker_hand;
pub mod rank_map;
pub mod win_lose_split;

pub use card::Card;
pub use card::CardVector;
pub use card::Cards;
pub use card::Rank;
pub use card::Suit;
pub use card::WildCardRule;
pub use card::add_cards;
pub use card::fmt_cards;
pub use deck::make_deck;
pub use deck::make_shuffled_deck;
pub use deck::shuffle_deck;
pub use equity::Deal;
pub use equity::HandRankCount;
pub use equity::PocketEval;
pub use equity::deal;
pub use equity::find_winners;
pub use equity::hold_em_odds;
pub use poker_hand::HandRank;
pub use poker_hand::PokerHand;
pub use rank_map::RankMap;
pub use win_lose_split::WinLoseSplit;

verus! {

} // verus!
