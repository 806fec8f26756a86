//! Deck construction and shuffling: the standard 52-card deck, in a
//! fixed order, and a uniform in-place shuffle whose randomness comes
//! from the `rand` crate behind one trusted boundary.

use vstd::prelude::*;

use crate::card::Card;
use crate::card::Rank;
use crate::card::Suit;

verus! {

broadcast use vstd::seq_lib::group_seq_properties, vstd::seq_lib::group_to_multiset_ensures;

/// The standard 52-card deck in construction order: ranks from Ace down
/// to Two, and within each rank the suits Clubs, Diamonds, Hearts,
/// Spades. No jokers; every card scores as its own rank.
pub open spec fn full_deck_spec() -> Seq<Card> {
    Seq::new(52, |i: int|
        Card {
            rank: Rank::for_ordinal_spec(14 - i / 4),
            suit: Suit::for_index_spec(i % 4),
            scoring_rank: Rank::for_ordinal_spec(14 - i / 4),
        },
    )
}

/// Builds the standard 52-card deck; see `full_deck_spec`.
pub fn make_deck() -> (r: Vec<Card>)
    ensures
        r@ == full_deck_spec(),
        r@.len() == 52,
{
    let mut deck: Vec<Card> = Vec::new();
    let mut ord: usize = 14;
    while ord >= 2
        invariant
            2 <= ord <= 14 || ord == 1,
            deck@.len() == (14 - ord) * 4,
            deck@ == full_deck_spec().take((14 - ord) * 4),
        decreases ord,
    {
        let rank = Rank::for_ordinal(ord);
        let mut si: usize = 0;
        while si < 4
            invariant
                si <= 4,
                2 <= ord <= 14,
                rank == Rank::for_ordinal_spec(ord as int),
                deck@.len() == (14 - ord) * 4 + si,
                deck@ == full_deck_spec().take((14 - ord) * 4 + si),
            decreases 4 - si,
        {
            let suit = Suit::for_index(si);
            proof {
                let j = (14 - ord) * 4 + si;
                assert(j / 4 == 14 - ord && j % 4 == si) by (nonlinear_arith)
                    requires
                        j == (14 - ord as int) * 4 + si,
                        0 <= si < 4,
                        2 <= ord <= 14,
                ;
                assert(full_deck_spec()[j] == (Card {
                    rank: Rank::for_ordinal_spec(ord as int),
                    suit: Suit::for_index_spec(si as int),
                    scoring_rank: Rank::for_ordinal_spec(ord as int),
                }));
                assert(full_deck_spec().take(j + 1) =~= full_deck_spec().take(j).push(
                    full_deck_spec()[j],
                ));
            }
            deck.push(Card::new(rank, suit));
            si += 1;
        }
        ord -= 1;
    }
    proof {
        assert(full_deck_spec().take(52) =~= full_deck_spec());
    }
    deck
}

/// Relies on `rand::random_range` over a half-open integer range: the
/// result lies in `lo..hi`; it panics only on an empty range, which the
/// precondition rules out. Nothing is assumed about which value comes
/// back.
#[verifier::external_body]
fn random_below(lo: usize, hi: usize) -> (r: usize)
    requires
        lo < hi,
    ensures
        lo <= r < hi,
{
    rand::random_range(lo..hi)
}

/// Shuffles a deck in place by drawing, for each position in turn, a
/// random card from the positions not yet fixed. Whatever the random
/// draws, the deck afterwards holds exactly the same cards.
pub fn shuffle(deck: &mut Vec<Card>)
    requires
        old(deck)@.len() >= 2,
    ensures
        final(deck)@.len() == old(deck)@.len(),
        final(deck)@.to_multiset() == old(deck)@.to_multiset(),
{
    let n = deck.len();
    let mut i: usize = 0;
    while i < n - 2
        invariant
            n == deck@.len() >= 2,
            i <= n - 2,
            deck@.to_multiset() == old(deck)@.to_multiset(),
        decreases n - 2 - i,
    {
        let j = random_below(i, n);
        let a = deck[i];
        let b = deck[j];
        let ghost before = deck@;
        deck.set(i, b);
        deck.set(j, a);
        proof {
            assert(before.update(i as int, b).update(j as int, a).to_multiset()
                =~= before.to_multiset()) by {
                if i == j {
                    assert(before.update(i as int, b).update(j as int, a) =~= before);
                } else {
                    assert(before.update(i as int, b)[j as int] == b);
                    assert(before.to_multiset().contains(a));
                    assert(before.update(i as int, b).to_multiset().contains(b));
                }
            }
        }
        i += 1;
    }
}

/// A shuffled copy of a deck: the same cards in some order.
pub fn shuffle_deck(deck: &Vec<Card>) -> (r: Vec<Card>)
    requires
        deck@.len() >= 2,
    ensures
        r@.len() == deck@.len(),
        r@.to_multiset() == deck@.to_multiset(),
{
    let mut copy: Vec<Card> = vstd::slice::slice_to_vec(deck.as_slice());
    shuffle(&mut copy);
    copy
}

/// A freshly built 52-card deck in a random order: the same cards as
/// `full_deck_spec`, whatever the shuffle drew.
pub fn make_shuffled_deck() -> (r: Vec<Card>)
    ensures
        r@.len() == 52,
        r@.to_multiset() == full_deck_spec().to_multiset(),
{
    let deck = make_deck();
    shuffle_deck(&deck)
}

} // verus!
