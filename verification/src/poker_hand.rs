//! Hand classification: the nine category builders, the classifier that
//! tries them from strongest to weakest, and the scored `PokerHand` they
//! produce.
//!
//! Every builder is specified by a spec-level functional model, so a
//! classification result is pinned down completely by the input cards
//! and the wild-card rule.

use vstd::prelude::*;
use vstd::std_specs::cmp::PartialOrdSpec;
use vstd::string::*;

use crate::card::Card;
use crate::card::Rank;
use crate::card::Suit;
use crate::card::WildCardRule;
use crate::card::is_wild_spec;
use crate::card::lemma_filter_elems_contained;
use crate::card::same_card;
use crate::card::seq_contains_card;

verus! {

broadcast use vstd::seq_lib::group_seq_properties;

/// The cards of `a` whose identity does not occur in `b`, in order.
pub fn remove_cards(a: &[Card], b: &[Card]) -> (r: Vec<Card>)
    ensures
        r@ == a@.filter(|c: Card| !seq_contains_card(b@, c)),
{
    crate::card::remove_cards(a, b)
}

/// The cards of `a` with the first identity match of `b` removed.
pub fn remove_card(a: &[Card], b: &Card) -> (r: Vec<Card>)
    ensures
        r@ == crate::card::remove_first_spec(a@, *b),
{
    crate::card::remove_card(a, b)
}

/// The cards of a sequence whose natural rank has the given ordinal, in
/// order.
pub open spec fn cards_of_rank_ord(s: Seq<Card>, ord: int) -> Seq<Card> {
    s.filter(|c: Card| c.rank.ordinal_spec() == ord)
}

/// A copy of a card credited with the rank of the given ordinal.
pub open spec fn scored_spec(c: Card, ord: int) -> Card {
    Card { rank: c.rank, suit: c.suit, scoring_rank: Rank::for_ordinal_spec(ord) }
}

/// The highest natural rank ordinal at or below `ord` whose cards,
/// together with the available wild cards, can form a set of `n`;
/// `None` when no rank down to Two can.
pub open spec fn set_rank_ord_from(cards: Seq<Card>, wild_count: int, n: int, ord: int) -> Option<
    int,
>
    decreases ord,
{
    if ord < 2 {
        None
    } else if cards_of_rank_ord(cards, ord).len() + wild_count >= n {
        Some(ord)
    } else {
        set_rank_ord_from(cards, wild_count, n, ord - 1)
    }
}

/// What `find_set` returns: for the highest rank that can form a set of
/// `n`, the natural cards of that rank followed by wild cards up to `n`,
/// all credited with that rank.
pub open spec fn find_set_spec(cards: Seq<Card>, wilds: Seq<Card>, n: int) -> Option<Seq<Card>> {
    match set_rank_ord_from(cards, wilds.len() as int, n, 14) {
        None => None,
        Some(ord) => Some(
            (cards_of_rank_ord(cards, ord) + wilds).take(n).map_values(
                |c: Card| scored_spec(c, ord),
            ),
        ),
    }
}

/// The natural cards of the given rank ordinal, in order.
fn cards_of_rank(cards: &[Card], ord: usize) -> (r: Vec<Card>)
    ensures
        r@ == cards_of_rank_ord(cards@, ord as int),
{
    broadcast use vstd::seq_lib::group_filter_ensures, Seq::lemma_filter_push;

    let mut r: Vec<Card> = Vec::new();
    let n = cards.len();
    for i in 0..n
        invariant
            n == cards@.len(),
            r@ == cards@.take(i as int).filter(|c: Card| c.rank.ordinal_spec() == ord as int),
    {
        proof {
            let pred = |c: Card| c.rank.ordinal_spec() == ord as int;
            assert(cards@.take(i + 1) =~= cards@.take(i as int).push(cards@[i as int]));
            cards@.take(i as int).lemma_filter_push(cards@[i as int], pred);
        }
        if cards[i].rank.ordinal() == ord {
            r.push(cards[i]);
        }
    }
    proof {
        assert(cards@.take(n as int) =~= cards@);
    }
    r
}

/// Searches ranks from Ace down to Two for the first whose natural
/// cards plus the available wild cards reach a set of `n`; returns the
/// set with every card credited with that rank, wild cards last.
pub fn find_set(cards: &[Card], wild_cards: &[Card], n: usize) -> (r: Option<Vec<Card>>)
    ensures
        r is Some <==> find_set_spec(cards@, wild_cards@, n as int) is Some,
        r matches Some(v) ==> Some(v@) == find_set_spec(cards@, wild_cards@, n as int),
        r matches Some(v) ==> v@.len() == n,
{
    let mut ord: usize = 14;
    loop
        invariant
            2 <= ord <= 14,
            set_rank_ord_from(cards@, wild_cards@.len() as int, n as int, 14)
                == set_rank_ord_from(cards@, wild_cards@.len() as int, n as int, ord as int),
        decreases ord,
    {
        let ranked = cards_of_rank(cards, ord);
        let count = ranked.len();
        let eligible = if count >= n {
            true
        } else {
            wild_cards.len() >= n - count
        };
        if eligible {
            let mut set: Vec<Card> = Vec::new();
            let rank = Rank::for_ordinal(ord);
            let ghost pool = cards_of_rank_ord(cards@, ord as int) + wild_cards@;
            let mut i: usize = 0;
            while i < n
                invariant
                    n <= pool.len(),
                    i <= n,
                    count == cards_of_rank_ord(cards@, ord as int).len(),
                    ranked@ == cards_of_rank_ord(cards@, ord as int),
                    pool == cards_of_rank_ord(cards@, ord as int) + wild_cards@,
                    rank == Rank::for_ordinal_spec(ord as int),
                    ord <= 14,
                    set@ == pool.take(i as int).map_values(|c: Card| scored_spec(c, ord as int)),
                decreases n - i,
            {
                proof {
                    assert(pool.take(i + 1) =~= pool.take(i as int).push(pool[i as int]));
                    assert(pool.take(i as int).push(pool[i as int]).map_values(
                        |c: Card| scored_spec(c, ord as int),
                    ) =~= pool.take(i as int).map_values(|c: Card| scored_spec(c, ord as int)).push(
                        scored_spec(pool[i as int], ord as int),
                    ));
                }
                let next = if i < count {
                    ranked[i]
                } else {
                    wild_cards[i - count]
                };
                set.push(next.scored_as(rank));
                i += 1;
            }
            proof {
                assert(find_set_spec(cards@, wild_cards@, n as int) == Some(
                    pool.take(n as int).map_values(|c: Card| scored_spec(c, ord as int)),
                ));
            }
            return Some(set);
        }
        if ord == 2 {
            proof {
                assert(set_rank_ord_from(cards@, wild_cards@.len() as int, n as int, 1) is None);
            }
            return None;
        }
        ord -= 1;
    }
}

/// The cards of `a` whose identity does not occur in `b`, as a spec
/// value.
pub open spec fn remove_matching_spec(a: Seq<Card>, b: Seq<Card>) -> Seq<Card> {
    a.filter(|c: Card| !seq_contains_card(b, c))
}

/// The total of a list of set sizes.
pub open spec fn sum_sizes(sizes: Seq<usize>) -> int
    decreases sizes.len(),
{
    if sizes.len() == 0 {
        0
    } else {
        sizes[0] + sum_sizes(sizes.skip(1))
    }
}

/// What `make_sets` returns from the `i`th size onward: each set in
/// turn from what the earlier sets left, with wild cards available only
/// to the first set of the whole sequence.
pub open spec fn make_sets_spec(
    cards: Seq<Card>,
    wilds: Seq<Card>,
    sizes: Seq<usize>,
    i: int,
) -> Option<Seq<Card>>
    decreases sizes.len() - i,
{
    if i < 0 || i >= sizes.len() {
        Some(Seq::empty())
    } else {
        match find_set_spec(cards, wilds, sizes[i] as int) {
            None => None,
            Some(set) => {
                match make_sets_spec(remove_matching_spec(cards, set), Seq::empty(), sizes, i + 1) {
                    None => None,
                    Some(rest) => Some(set + rest),
                }
            },
        }
    }
}

/// Satisfies a list of set sizes in order: each set is found among the
/// cards the earlier sets left, and wild cards may only be consumed by
/// the first (largest) set. Fails when any size cannot be satisfied.
pub fn make_sets(cards: &[Card], wild_cards: &[Card], sizes: &[usize]) -> (r: Option<Vec<Card>>)
    ensures
        r is Some <==> make_sets_spec(cards@, wild_cards@, sizes@, 0) is Some,
        r matches Some(v) ==> Some(v@) == make_sets_spec(cards@, wild_cards@, sizes@, 0),
        r matches Some(v) ==> v@.len() == sum_sizes(sizes@),
{
    let no_wilds: Vec<Card> = Vec::new();
    let mut result: Vec<Card> = Vec::new();
    let mut current: Vec<Card> = vstd::slice::slice_to_vec(cards);
    let k = sizes.len();
    for i in 0..k
        invariant
            k == sizes@.len(),
            no_wilds@ == Seq::<Card>::empty(),
            result@.len() == sum_sizes(sizes@.take(i as int)),
            make_sets_spec(cards@, wild_cards@, sizes@, 0) == (match make_sets_spec(
                current@,
                if i == 0 {
                    wild_cards@
                } else {
                    Seq::<Card>::empty()
                },
                sizes@,
                i as int,
            ) {
                None => None::<Seq<Card>>,
                Some(rest) => Some(result@ + rest),
            }),
    {
        let ghost wilds_now_spec = if i == 0 {
            wild_cards@
        } else {
            Seq::<Card>::empty()
        };
        let wilds_now: &[Card] = if i == 0 {
            wild_cards
        } else {
            no_wilds.as_slice()
        };
        proof {
            assert(wilds_now@ == wilds_now_spec);
        }
        match find_set(current.as_slice(), wilds_now, sizes[i]) {
            None => {
                return None;
            },
            Some(set) => {
                proof {
                    assert(sizes@.take(i + 1).drop_last() =~= sizes@.take(i as int));
                    assert(sum_sizes(sizes@.take(i + 1)) == sum_sizes(sizes@.take(i as int))
                        + sizes@[i as int]) by {
                        lemma_sum_sizes_push(sizes@.take(i as int), sizes@[i as int]);
                        assert(sizes@.take(i + 1) =~= sizes@.take(i as int).push(
                            sizes@[i as int],
                        ));
                    }
                }
                let next = remove_cards(current.as_slice(), set.as_slice());
                let mut tail = set;
                result.append(&mut tail);
                current = next;
            },
        }
    }
    proof {
        assert(sizes@.take(k as int) =~= sizes@);
        assert(result@ + Seq::<Card>::empty() =~= result@);
    }
    Some(result)
}

proof fn lemma_sum_sizes_push(s: Seq<usize>, x: usize)
    ensures
        sum_sizes(s.push(x)) == sum_sizes(s) + x,
    decreases s.len(),
{
    if s.len() == 0 {
        assert(s.push(x).skip(1) =~= Seq::<usize>::empty());
    } else {
        assert(s.push(x).skip(1) =~= s.skip(1).push(x));
        lemma_sum_sizes_push(s.skip(1), x);
    }
}

/// What the quads builder returns: a set of four and a kicker.
pub open spec fn as_quads_spec(cards: Seq<Card>, wilds: Seq<Card>) -> Option<Seq<Card>> {
    make_sets_spec(cards, wilds, seq![4usize, 1usize], 0)
}

/// What the full-house builder returns: a set of three and a pair.
pub open spec fn as_full_house_spec(cards: Seq<Card>, wilds: Seq<Card>) -> Option<Seq<Card>> {
    make_sets_spec(cards, wilds, seq![3usize, 2usize], 0)
}

/// What the triplets builder returns: a set of three and two kickers.
pub open spec fn as_trips_spec(cards: Seq<Card>, wilds: Seq<Card>) -> Option<Seq<Card>> {
    make_sets_spec(cards, wilds, seq![3usize, 1usize, 1usize], 0)
}

/// What the two-pair builder returns: two pairs and a kicker.
pub open spec fn as_two_pair_spec(cards: Seq<Card>, wilds: Seq<Card>) -> Option<Seq<Card>> {
    make_sets_spec(cards, wilds, seq![2usize, 2usize, 1usize], 0)
}

/// What the one-pair builder returns: a pair and three kickers.
pub open spec fn as_pair_spec(cards: Seq<Card>, wilds: Seq<Card>) -> Option<Seq<Card>> {
    make_sets_spec(cards, wilds, seq![2usize, 1usize, 1usize, 1usize], 0)
}

fn as_quads(cards: &[Card], wild_cards: &[Card]) -> (r: Option<Vec<Card>>)
    ensures
        r is Some <==> as_quads_spec(cards@, wild_cards@) is Some,
        r matches Some(v) ==> Some(v@) == as_quads_spec(cards@, wild_cards@),
        r matches Some(v) ==> v@.len() == 5,
{
    let sizes: Vec<usize> = vec![4, 1];
    proof {
        assert(sizes@ =~= seq![4usize, 1usize]);
        assert(sum_sizes(seq![4usize, 1usize]) == 5) by {
                reveal_with_fuel(sum_sizes, 3);
                assert(seq![4usize, 1usize].skip(1) =~= seq![1usize]);
                assert(seq![1usize].skip(1) =~= Seq::<usize>::empty());
            }
    }
    make_sets(cards, wild_cards, sizes.as_slice())
}

fn as_full_house(cards: &[Card], wild_cards: &[Card]) -> (r: Option<Vec<Card>>)
    ensures
        r is Some <==> as_full_house_spec(cards@, wild_cards@) is Some,
        r matches Some(v) ==> Some(v@) == as_full_house_spec(cards@, wild_cards@),
        r matches Some(v) ==> v@.len() == 5,
{
    let sizes: Vec<usize> = vec![3, 2];
    proof {
        assert(sizes@ =~= seq![3usize, 2usize]);
        assert(sum_sizes(seq![3usize, 2usize]) == 5) by {
                reveal_with_fuel(sum_sizes, 3);
                assert(seq![3usize, 2usize].skip(1) =~= seq![2usize]);
                assert(seq![2usize].skip(1) =~= Seq::<usize>::empty());
            }
    }
    make_sets(cards, wild_cards, sizes.as_slice())
}

fn as_trips(cards: &[Card], wild_cards: &[Card]) -> (r: Option<Vec<Card>>)
    ensures
        r is Some <==> as_trips_spec(cards@, wild_cards@) is Some,
        r matches Some(v) ==> Some(v@) == as_trips_spec(cards@, wild_cards@),
        r matches Some(v) ==> v@.len() == 5,
{
    let sizes: Vec<usize> = vec![3, 1, 1];
    proof {
        assert(sizes@ =~= seq![3usize, 1usize, 1usize]);
        assert(sum_sizes(seq![3usize, 1usize, 1usize]) == 5) by {
                reveal_with_fuel(sum_sizes, 4);
                assert(seq![3usize, 1usize, 1usize].skip(1) =~= seq![1usize, 1usize]);
                assert(seq![1usize, 1usize].skip(1) =~= seq![1usize]);
                assert(seq![1usize].skip(1) =~= Seq::<usize>::empty());
            }
    }
    make_sets(cards, wild_cards, sizes.as_slice())
}

fn as_two_pair(cards: &[Card], wild_cards: &[Card]) -> (r: Option<Vec<Card>>)
    ensures
        r is Some <==> as_two_pair_spec(cards@, wild_cards@) is Some,
        r matches Some(v) ==> Some(v@) == as_two_pair_spec(cards@, wild_cards@),
        r matches Some(v) ==> v@.len() == 5,
{
    let sizes: Vec<usize> = vec![2, 2, 1];
    proof {
        assert(sizes@ =~= seq![2usize, 2usize, 1usize]);
        assert(sum_sizes(seq![2usize, 2usize, 1usize]) == 5) by {
                reveal_with_fuel(sum_sizes, 4);
                assert(seq![2usize, 2usize, 1usize].skip(1) =~= seq![2usize, 1usize]);
                assert(seq![2usize, 1usize].skip(1) =~= seq![1usize]);
                assert(seq![1usize].skip(1) =~= Seq::<usize>::empty());
            }
    }
    make_sets(cards, wild_cards, sizes.as_slice())
}

fn as_pair(cards: &[Card], wild_cards: &[Card]) -> (r: Option<Vec<Card>>)
    ensures
        r is Some <==> as_pair_spec(cards@, wild_cards@) is Some,
        r matches Some(v) ==> Some(v@) == as_pair_spec(cards@, wild_cards@),
        r matches Some(v) ==> v@.len() == 5,
{
    let sizes: Vec<usize> = vec![2, 1, 1, 1];
    proof {
        assert(sizes@ =~= seq![2usize, 1usize, 1usize, 1usize]);
        assert(sum_sizes(seq![2usize, 1usize, 1usize, 1usize]) == 5) by {
                reveal_with_fuel(sum_sizes, 5);
                assert(seq![2usize, 1usize, 1usize, 1usize].skip(1) =~= seq![1usize, 1usize, 1usize]);
                assert(seq![1usize, 1usize, 1usize].skip(1) =~= seq![1usize, 1usize]);
                assert(seq![1usize, 1usize].skip(1) =~= seq![1usize]);
                assert(seq![1usize].skip(1) =~= Seq::<usize>::empty());
            }
    }
    make_sets(cards, wild_cards, sizes.as_slice())
}

/// The first card of a sequence whose natural rank matches the ordinal
/// (an ace also matches the low-ace ordinal 1), if any.
pub open spec fn first_ord_match(s: Seq<Card>, ord: int) -> Option<Card>
    decreases s.len(),
{
    if s.len() == 0 {
        None
    } else if s[0].rank.is_ordinal_spec(ord) {
        Some(s[0])
    } else {
        first_ord_match(s.skip(1), ord)
    }
}

proof fn lemma_first_ord_match_at(s: Seq<Card>, ord: int, i: int)
    requires
        0 <= i < s.len(),
        forall|j: int| 0 <= j < i ==> !(#[trigger] s[j]).rank.is_ordinal_spec(ord),
        s[i].rank.is_ordinal_spec(ord),
    ensures
        first_ord_match(s, ord) == Some(s[i]),
    decreases i,
{
    if i > 0 {
        lemma_first_ord_match_at(s.skip(1), ord, i - 1);
    }
}

proof fn lemma_first_ord_match_none(s: Seq<Card>, ord: int)
    requires
        forall|j: int| 0 <= j < s.len() ==> !(#[trigger] s[j]).rank.is_ordinal_spec(ord),
    ensures
        first_ord_match(s, ord) is None,
    decreases s.len(),
{
    if s.len() > 0 {
        lemma_first_ord_match_none(s.skip(1), ord);
    }
}

/// The first card whose natural rank matches the ordinal, if any.
fn find_rank_ord(cards: &[Card], ord: usize) -> (r: Option<Card>)
    ensures
        r == first_ord_match(cards@, ord as int),
{
    let n = cards.len();
    for i in 0..n
        invariant
            n == cards@.len(),
            forall|j: int| 0 <= j < i ==> !(#[trigger] cards@[j]).rank.is_ordinal_spec(ord as int),
    {
        if cards[i].rank.is_ordinal(ord) {
            proof {
                lemma_first_ord_match_at(cards@, ord as int, i as int);
            }
            return Some(cards[i]);
        }
    }
    proof {
        lemma_first_ord_match_none(cards@, ord as int);
    }
    None
}

/// What filling straight slots from ordinal `ord` downward returns, with
/// `k` slots already filled: each slot takes the first natural card of
/// its ordinal, or failing that consumes the next wild card, credited
/// with the slot's rank.
pub open spec fn fill_straight_spec(
    cards: Seq<Card>,
    wilds: Seq<Card>,
    ord: int,
    k: int,
) -> Option<Seq<Card>>
    decreases 5 - k,
{
    if k < 0 || k >= 5 {
        Some(Seq::empty())
    } else if first_ord_match(cards, ord) is Some {
        match fill_straight_spec(cards, wilds, ord - 1, k + 1) {
            None => None,
            Some(rest) => Some(seq![first_ord_match(cards, ord).unwrap()] + rest),
        }
    } else if wilds.len() > 0 {
        match fill_straight_spec(cards, wilds.skip(1), ord - 1, k + 1) {
            None => None,
            Some(rest) => Some(seq![scored_spec(wilds[0], ord)] + rest),
        }
    } else {
        None
    }
}

/// Fills the five straight slots whose top rank has ordinal
/// `rank_ordinal`, preferring a natural card of each slot's rank and
/// consuming a wild card otherwise; the result lists the slots from the
/// top down.
pub fn fill_straight(cards: &[Card], wild_cards: &[Card], rank_ordinal: usize) -> (r: Option<
    Vec<Card>,
>)
    requires
        5 <= rank_ordinal <= 14,
    ensures
        r is Some <==> fill_straight_spec(cards@, wild_cards@, rank_ordinal as int, 0) is Some,
        r matches Some(v) ==> Some(v@) == fill_straight_spec(
            cards@,
            wild_cards@,
            rank_ordinal as int,
            0,
        ),
        r matches Some(v) ==> v@.len() == 5,
{
    let mut result: Vec<Card> = Vec::new();
    let mut wi: usize = 0;
    let mut k: usize = 0;
    while k < 5
        invariant
            k <= 5,
            wi <= wild_cards@.len(),
            5 <= rank_ordinal <= 14,
            result@.len() == k,
            fill_straight_spec(cards@, wild_cards@, rank_ordinal as int, 0) == (
            match fill_straight_spec(
                cards@,
                wild_cards@.skip(wi as int),
                rank_ordinal - k,
                k as int,
            ) {
                None => None::<Seq<Card>>,
                Some(rest) => Some(result@ + rest),
            }),
        decreases 5 - k,
    {
        let ord = rank_ordinal - k;
        let ghost wilds_left = wild_cards@.skip(wi as int);
        match find_rank_ord(cards, ord) {
            Some(c) => {
                proof {
                    assert(result@.push(c) =~= result@ + seq![c]);
                }
                result.push(c);
            },
            None => {
                if wi < wild_cards.len() {
                    let w = wild_cards[wi];
                    proof {
                        assert(wilds_left[0] == wild_cards@[wi as int]);
                        assert(wilds_left.skip(1) =~= wild_cards@.skip(wi + 1));
                        assert(result@.push(scored_spec(w, ord as int)) =~= result@ + seq![
                            scored_spec(w, ord as int),
                        ]);
                    }
                    result.push(w.scored_as(Rank::for_ordinal(ord)));
                    wi += 1;
                } else {
                    proof {
                        assert(wilds_left.len() == 0);
                    }
                    return None;
                }
            },
        }
        k += 1;
        proof {
            assert(forall|a: Seq<Card>, b: Seq<Card>, c: Seq<Card>|
                #[trigger] ((a + b) + c) == a + (b + c)) by {
                assert(forall|a: Seq<Card>, b: Seq<Card>, c: Seq<Card>|
                    #[trigger] ((a + b) + c) =~= a + (b + c));
            }
        }
    }
    Some(result)
}

/// What the straight builder returns: the first of the ten windows from
/// ace-high down to the wheel that can be completely filled.
pub open spec fn straight_search_spec(cards: Seq<Card>, wilds: Seq<Card>, high: int) -> Option<
    Seq<Card>,
>
    decreases high,
{
    if high < 5 {
        None
    } else {
        match fill_straight_spec(cards, wilds, high, 0) {
            Some(v) => Some(v),
            None => straight_search_spec(cards, wilds, high - 1),
        }
    }
}

/// What the straight builder returns; see `straight_search_spec`.
pub open spec fn as_straight_spec(cards: Seq<Card>, wilds: Seq<Card>) -> Option<Seq<Card>> {
    straight_search_spec(cards, wilds, 14)
}

/// Tries each five-rank window from ace-high down to the wheel and
/// returns the first that fills completely, highest slot first.
fn as_straight(cards: &[Card], wild_cards: &[Card]) -> (r: Option<Vec<Card>>)
    ensures
        r is Some <==> as_straight_spec(cards@, wild_cards@) is Some,
        r matches Some(v) ==> Some(v@) == as_straight_spec(cards@, wild_cards@),
        r matches Some(v) ==> v@.len() == 5,
{
    let mut high: usize = 14;
    loop
        invariant
            5 <= high <= 14,
            straight_search_spec(cards@, wild_cards@, 14) == straight_search_spec(
                cards@,
                wild_cards@,
                high as int,
            ),
        decreases high,
    {
        match fill_straight(cards, wild_cards, high) {
            Some(v) => {
                return Some(v);
            },
            None => {},
        }
        if high == 5 {
            proof {
                assert(straight_search_spec(cards@, wild_cards@, 4) is None);
            }
            return None;
        }
        high -= 1;
    }
}

/// A sorted (descending by scoring rank) sequence with one more card
/// placed after any cards of equal scoring rank.
pub open spec fn sorted_insert_spec(s: Seq<Card>, c: Card) -> Seq<Card>
    decreases s.len(),
{
    if s.len() == 0 {
        seq![c]
    } else if s[0].scoring_rank.ordinal_spec() >= c.scoring_rank.ordinal_spec() {
        seq![s[0]] + sorted_insert_spec(s.skip(1), c)
    } else {
        seq![c] + s
    }
}

/// A sequence of cards sorted descending by scoring rank, by repeated
/// insertion; cards of equal scoring rank keep their input order.
pub open spec fn sort_desc_spec(s: Seq<Card>) -> Seq<Card>
    decreases s.len(),
{
    if s.len() == 0 {
        Seq::empty()
    } else {
        sorted_insert_spec(sort_desc_spec(s.drop_last()), s.last())
    }
}

/// The five highest cards by scoring rank, descending; fewer when the
/// input has fewer.
pub open spec fn top_five_spec(s: Seq<Card>) -> Seq<Card> {
    let sorted = sort_desc_spec(s);
    if sorted.len() <= 5 {
        sorted
    } else {
        sorted.take(5)
    }
}

proof fn lemma_sorted_insert_len(s: Seq<Card>, c: Card)
    ensures
        sorted_insert_spec(s, c).len() == s.len() + 1,
    decreases s.len(),
{
    if s.len() > 0 && s[0].scoring_rank.ordinal_spec() >= c.scoring_rank.ordinal_spec() {
        lemma_sorted_insert_len(s.skip(1), c);
    }
}

pub proof fn lemma_sort_desc_len(s: Seq<Card>)
    ensures
        sort_desc_spec(s).len() == s.len(),
    decreases s.len(),
{
    if s.len() > 0 {
        lemma_sort_desc_len(s.drop_last());
        lemma_sorted_insert_len(sort_desc_spec(s.drop_last()), s.last());
    }
}

proof fn lemma_sorted_insert_at(s: Seq<Card>, c: Card, pos: int)
    requires
        0 <= pos <= s.len(),
        forall|j: int|
            0 <= j < pos ==> (#[trigger] s[j]).scoring_rank.ordinal_spec()
                >= c.scoring_rank.ordinal_spec(),
        pos < s.len() ==> s[pos].scoring_rank.ordinal_spec() < c.scoring_rank.ordinal_spec(),
    ensures
        sorted_insert_spec(s, c) == s.take(pos) + seq![c] + s.skip(pos),
    decreases pos,
{
    if s.len() == 0 {
        assert(sorted_insert_spec(s, c) =~= s.take(0) + seq![c] + s.skip(0));
    } else if pos == 0 {
        assert(sorted_insert_spec(s, c) =~= s.take(0) + seq![c] + s.skip(0));
    } else {
        lemma_sorted_insert_at(s.skip(1), c, pos - 1);
        let t = s.skip(1);
        assert(sorted_insert_spec(s, c) == seq![s[0]] + (t.take(pos - 1) + seq![c] + t.skip(pos
            - 1)));
        assert(seq![s[0]] + (t.take(pos - 1) + seq![c] + t.skip(pos - 1)) =~= (seq![s[0]] + t.take(
            pos - 1,
        )) + seq![c] + t.skip(pos - 1));
        assert(seq![s[0]] + t.take(pos - 1) =~= s.take(pos));
        assert(t.skip(pos - 1) =~= s.skip(pos));
    }
}

/// Inserts a card into a sequence sorted descending by scoring rank,
/// after any cards of equal scoring rank.
fn sorted_insert(sorted: &Vec<Card>, c: Card) -> (r: Vec<Card>)
    ensures
        r@ == sorted_insert_spec(sorted@, c),
{
    let n = sorted.len();
    let mut pos: usize = 0;
    while pos < n && sorted[pos].scoring_rank.ordinal() >= c.scoring_rank.ordinal()
        invariant
            pos <= n,
            n == sorted@.len(),
            forall|j: int|
                0 <= j < pos ==> (#[trigger] sorted@[j]).scoring_rank.ordinal_spec()
                    >= c.scoring_rank.ordinal_spec(),
        decreases n - pos,
    {
        pos += 1;
    }
    let mut r: Vec<Card> = Vec::new();
    for i in 0..pos
        invariant
            pos <= n == sorted@.len(),
            r@ == sorted@.take(i as int),
    {
        proof {
            assert(sorted@.take(i + 1) =~= sorted@.take(i as int).push(sorted@[i as int]));
        }
        r.push(sorted[i]);
    }
    r.push(c);
    let mut i = pos;
    while i < n
        invariant
            pos <= i <= n,
            n == sorted@.len(),
            r@ == sorted@.take(pos as int) + seq![c] + sorted@.subrange(pos as int, i as int),
        decreases n - i,
    {
        proof {
            assert((sorted@.take(pos as int) + seq![c] + sorted@.subrange(pos as int, i as int))
                .push(sorted@[i as int]) =~= sorted@.take(pos as int) + seq![c] + sorted@.subrange(
                pos as int,
                i + 1,
            ));
        }
        r.push(sorted[i]);
        i += 1;
    }
    proof {
        assert(sorted@.subrange(pos as int, n as int) =~= sorted@.skip(pos as int));
        lemma_sorted_insert_at(sorted@, c, pos as int);
    }
    r
}

/// Sorts the cards descending by scoring rank and keeps the top five.
pub fn top_five(cards: Vec<Card>) -> (r: Vec<Card>)
    ensures
        r@ == top_five_spec(cards@),
        cards@.len() >= 5 ==> r@.len() == 5,
        cards@.len() < 5 ==> r@.len() == cards@.len(),
{
    let n = cards.len();
    let mut sorted: Vec<Card> = Vec::new();
    for i in 0..n
        invariant
            n == cards@.len(),
            sorted@ == sort_desc_spec(cards@.take(i as int)),
            sorted@.len() == i,
    {
        proof {
            assert(cards@.take(i + 1).drop_last() =~= cards@.take(i as int));
            assert(cards@.take(i + 1).last() == cards@[i as int]);
            lemma_sorted_insert_len(sort_desc_spec(cards@.take(i as int)), cards@[i as int]);
        }
        sorted = sorted_insert(&sorted, cards[i]);
    }
    proof {
        assert(cards@.take(n as int) =~= cards@);
    }
    sorted.truncate(5);
    sorted
}

/// What the high-card builder returns: the five highest natural cards,
/// descending. Wild cards never pad a bare high-card hand.
pub open spec fn as_high_card_spec(cards: Seq<Card>, wilds: Seq<Card>) -> Option<Seq<Card>> {
    Some(top_five_spec(cards))
}

fn as_high_card(cards: &[Card], _wild_cards: &[Card]) -> (r: Option<Vec<Card>>)
    ensures
        r matches Some(v) && Some(v@) == as_high_card_spec(cards@, _wild_cards@),
        r matches Some(v) ==> (cards@.len() >= 5 ==> v@.len() == 5),
{
    Some(top_five(vstd::slice::slice_to_vec(cards)))
}

/// The cards of a sequence with the given suit, in order.
pub open spec fn suited_spec(s: Seq<Card>, suit: Suit) -> Seq<Card> {
    s.filter(|c: Card| c.suit == suit)
}

/// The first suit, in the fixed suit order, whose natural cards plus
/// the available wild cards reach five; `None` when no suit does.
pub open spec fn flush_suit_from(cards: Seq<Card>, wild_count: int, idx: int) -> Option<Suit>
    decreases 5 - idx,
{
    if idx < 0 || idx >= 5 {
        None
    } else if suited_spec(cards, Suit::for_index_spec(idx)).len() + wild_count >= 5 {
        Some(Suit::for_index_spec(idx))
    } else {
        flush_suit_from(cards, wild_count, idx + 1)
    }
}

/// Whether some card of a sequence is credited with the scoring rank of
/// the given ordinal.
pub open spec fn has_scoring_ord(s: Seq<Card>, ord: int) -> bool {
    exists|i: int| 0 <= i < s.len() && (#[trigger] s[i]).scoring_rank.ordinal_spec() == ord
}

/// The highest rank ordinal at or below `ord` that no card of the
/// sequence is credited with; `None` when every ordinal down to 0 is
/// taken.
pub open spec fn missing_ord_from(cards: Seq<Card>, ord: int) -> Option<int>
    decreases ord + 1,
{
    if ord < 0 {
        None
    } else if !has_scoring_ord(cards, ord) {
        Some(ord)
    } else {
        missing_ord_from(cards, ord - 1)
    }
}

/// The highest rank absent from the sequence's scoring ranks, searching
/// from Ace down to the joker rank.
pub open spec fn find_missing_rank_spec(cards: Seq<Card>) -> Option<Rank> {
    match missing_ord_from(cards, 14) {
        None => None,
        Some(ord) => Some(Rank::for_ordinal_spec(ord)),
    }
}

/// Whether some card of the slice is credited with the scoring rank of
/// the given ordinal.
fn has_scoring_rank(cards: &[Card], ord: usize) -> (r: bool)
    ensures
        r == has_scoring_ord(cards@, ord as int),
{
    let n = cards.len();
    for i in 0..n
        invariant
            n == cards@.len(),
            forall|j: int|
                0 <= j < i ==> (#[trigger] cards@[j]).scoring_rank.ordinal_spec() != ord as int,
    {
        if cards[i].scoring_rank.ordinal() == ord {
            return true;
        }
    }
    false
}

/// The highest rank no card of the slice is credited with, searching
/// from Ace down to the joker rank; `None` when all fifteen are taken.
pub fn find_missing_rank(cards: &[Card]) -> (r: Option<Rank>)
    ensures
        r == find_missing_rank_spec(cards@),
{
    let mut ord: usize = 14;
    loop
        invariant
            ord <= 14,
            missing_ord_from(cards@, 14) == missing_ord_from(cards@, ord as int),
        decreases ord,
    {
        if !has_scoring_rank(cards, ord) {
            return Some(Rank::for_ordinal(ord));
        }
        if ord == 0 {
            return None;
        }
        ord -= 1;
    }
}

/// The suited cards padded with wild cards, each wild credited with the
/// highest rank not yet present, until the wilds run out or every rank
/// is present.
pub open spec fn pad_wilds_spec(suited: Seq<Card>, wilds: Seq<Card>) -> Seq<Card>
    decreases wilds.len(),
{
    if wilds.len() == 0 {
        suited
    } else {
        match missing_ord_from(suited, 14) {
            None => suited,
            Some(ord) => pad_wilds_spec(suited.push(scored_spec(wilds[0], ord)), wilds.skip(1)),
        }
    }
}

/// What the flush builder returns: for the first suit that can reach
/// five cards, the suited cards padded with wild cards credited with
/// missing ranks, cut to the top five.
pub open spec fn as_flush_spec(cards: Seq<Card>, wilds: Seq<Card>) -> Option<Seq<Card>> {
    match flush_suit_from(cards, wilds.len() as int, 0) {
        None => None,
        Some(suit) => Some(top_five_spec(pad_wilds_spec(suited_spec(cards, suit), wilds))),
    }
}

/// The natural cards of the given suit, in order.
fn cards_of_suit(cards: &[Card], suit: Suit) -> (r: Vec<Card>)
    ensures
        r@ == suited_spec(cards@, suit),
{
    broadcast use vstd::seq_lib::group_filter_ensures, Seq::lemma_filter_push;

    let mut r: Vec<Card> = Vec::new();
    let n = cards.len();
    for i in 0..n
        invariant
            n == cards@.len(),
            r@ == cards@.take(i as int).filter(|c: Card| c.suit == suit),
    {
        proof {
            let pred = |c: Card| c.suit == suit;
            assert(cards@.take(i + 1) =~= cards@.take(i as int).push(cards@[i as int]));
            cards@.take(i as int).lemma_filter_push(cards@[i as int], pred);
        }
        if cards[i].suit == suit {
            r.push(cards[i]);
        }
    }
    proof {
        assert(cards@.take(n as int) =~= cards@);
    }
    r
}

/// For the first suit whose cards plus wild cards reach five, takes all
/// naturally suited cards, credits each wild card with the highest rank
/// not already present, and keeps the top five by scoring rank.
fn as_flush(cards: &[Card], wild_cards: &[Card]) -> (r: Option<Vec<Card>>)
    ensures
        r is Some <==> as_flush_spec(cards@, wild_cards@) is Some,
        r matches Some(v) ==> Some(v@) == as_flush_spec(cards@, wild_cards@),
        r matches Some(v) ==> v@.len() == 5,
{
    let mut idx: usize = 0;
    loop
        invariant
            idx <= 4,
            flush_suit_from(cards@, wild_cards@.len() as int, 0) == flush_suit_from(
                cards@,
                wild_cards@.len() as int,
                idx as int,
            ),
        decreases 5 - idx,
    {
        let suit = Suit::for_index(idx);
        let suited = cards_of_suit(cards, suit);
        let count = suited.len();
        let eligible = if count >= 5 {
            true
        } else {
            wild_cards.len() >= 5 - count
        };
        if eligible {
            let ghost suited0 = suited_spec(cards@, suit);
            let mut padded = suited;
            let mut wi: usize = 0;
            loop
                invariant
                    wi <= wild_cards@.len(),
                    padded@.len() == suited0.len() + wi,
                    pad_wilds_spec(suited0, wild_cards@) == pad_wilds_spec(
                        padded@,
                        wild_cards@.skip(wi as int),
                    ),
                ensures
                    padded@ == pad_wilds_spec(suited0, wild_cards@),
                    padded@.len() >= suited0.len(),
                decreases wild_cards@.len() - wi,
            {
                if wi >= wild_cards.len() {
                    proof {
                        assert(wild_cards@.skip(wi as int).len() == 0);
                    }
                    break ;
                }
                match find_missing_rank(&padded) {
                    Some(rank) => {
                        proof {
                            let ord = missing_ord_from(padded@, 14).unwrap();
                            assert(rank == Rank::for_ordinal_spec(ord));
                            assert(wild_cards@.skip(wi as int)[0] == wild_cards@[wi as int]);
                            assert(wild_cards@.skip(wi as int).skip(1) =~= wild_cards@.skip(wi
                                + 1));
                        }
                        padded.push(wild_cards[wi].scored_as(rank));
                        wi += 1;
                    },
                    None => {
                        proof {
                            assert(wild_cards@.skip(wi as int).len() > 0);
                        }
                        break ;
                    },
                }
            }
            proof {
                lemma_pad_wilds_five(suited0, wild_cards@);
            }
            return Some(top_five(padded));
        }
        if idx == 4 {
            proof {
                assert(flush_suit_from(cards@, wild_cards@.len() as int, 5) is None);
            }
            return None;
        }
        idx += 1;
    }
}

/// Padding with wild cards reaches five cards whenever the suited cards
/// and the wild cards together number at least five.
proof fn lemma_pad_wilds_five(suited: Seq<Card>, wilds: Seq<Card>)
    requires
        suited.len() + wilds.len() >= 5,
    ensures
        pad_wilds_spec(suited, wilds).len() >= 5,
    decreases wilds.len(),
{
    if wilds.len() > 0 {
        match missing_ord_from(suited, 14) {
            None => {
                lemma_missing_none_all(suited, 14);
                lemma_distinct_ords(suited, 14);
            },
            Some(ord) => {
                lemma_pad_wilds_five(suited.push(scored_spec(wilds[0], ord)), wilds.skip(1));
            },
        }
    }
}

/// When the missing-rank search comes back empty, every ordinal down to
/// 0 is present among the scoring ranks.
proof fn lemma_missing_none_all(cards: Seq<Card>, ord: int)
    requires
        missing_ord_from(cards, ord) is None,
    ensures
        forall|o: int| 0 <= o <= ord ==> has_scoring_ord(cards, o),
    decreases ord + 1,
{
    if ord >= 0 {
        lemma_missing_none_all(cards, ord - 1);
    }
}

/// Counting distinct scoring ordinals 0..=ord that all occur in
/// `cards` forces `cards` to hold at least ord+1 cards.
proof fn lemma_distinct_ords(cards: Seq<Card>, ord: int)
    requires
        forall|o: int| 0 <= o <= ord ==> has_scoring_ord(cards, o),
        ord >= -1,
    ensures
        cards.len() >= ord + 1,
    decreases cards.len(),
{
    if ord >= 0 {
        assert(has_scoring_ord(cards, ord));
        let i = choose|i: int|
            0 <= i < cards.len() && (#[trigger] cards[i]).scoring_rank.ordinal_spec() == ord;
        assert(0 <= i < cards.len() && cards[i].scoring_rank.ordinal_spec() == ord);
        let rest = cards.remove(i);
        assert forall|o: int| 0 <= o <= ord - 1 implies has_scoring_ord(rest, o) by {
            assert(has_scoring_ord(cards, o));
            let j = choose|j: int|
                0 <= j < cards.len() && (#[trigger] cards[j]).scoring_rank.ordinal_spec() == o;
            assert(0 <= j < cards.len() && cards[j].scoring_rank.ordinal_spec() == o);
            if j < i {
                assert(rest[j] == cards[j]);
            } else {
                assert(j != i);
                assert(rest[j - 1] == cards[j]);
            }
        }
        lemma_distinct_ords(rest, ord - 1);
    }
}

/// What the straight-flush builder returns from suit position `idx`
/// onward: for each suit that can reach five cards, the straight builder
/// is re-run on the cards of that suit alone (wild cards still
/// available); the first success wins.
pub open spec fn sf_search_spec(cards: Seq<Card>, wilds: Seq<Card>, idx: int) -> Option<Seq<Card>>
    decreases 5 - idx,
{
    if idx < 0 || idx >= 5 {
        None
    } else {
        let st = suited_spec(cards, Suit::for_index_spec(idx));
        if st.len() + wilds.len() >= 5 {
            match as_straight_spec(st, wilds) {
                Some(v) => Some(v),
                None => sf_search_spec(cards, wilds, idx + 1),
            }
        } else {
            sf_search_spec(cards, wilds, idx + 1)
        }
    }
}

/// What the straight-flush builder returns; see `sf_search_spec`.
pub open spec fn as_straight_flush_spec(cards: Seq<Card>, wilds: Seq<Card>) -> Option<Seq<Card>> {
    sf_search_spec(cards, wilds, 0)
}

/// For each suit that can reach five cards, re-runs the straight search
/// on the cards of that suit alone, the wild cards still available;
/// returns the first straight found.
fn as_straight_flush(cards: &[Card], wild_cards: &[Card]) -> (r: Option<Vec<Card>>)
    ensures
        r is Some <==> as_straight_flush_spec(cards@, wild_cards@) is Some,
        r matches Some(v) ==> Some(v@) == as_straight_flush_spec(cards@, wild_cards@),
        r matches Some(v) ==> v@.len() == 5,
{
    let mut idx: usize = 0;
    loop
        invariant
            idx <= 4,
            sf_search_spec(cards@, wild_cards@, 0) == sf_search_spec(
                cards@,
                wild_cards@,
                idx as int,
            ),
        decreases 5 - idx,
    {
        let suit = Suit::for_index(idx);
        let suited = cards_of_suit(cards, suit);
        let count = suited.len();
        let eligible = if count >= 5 {
            true
        } else {
            wild_cards.len() >= 5 - count
        };
        if eligible {
            match as_straight(suited.as_slice(), wild_cards) {
                Some(v) => {
                    return Some(v);
                },
                None => {},
            }
        }
        if idx == 4 {
            proof {
                assert(sf_search_spec(cards@, wild_cards@, 5) is None);
            }
            return None;
        }
        idx += 1;
    }
}

/// A hand category, strongest first. Its value (StraightFlush 8 down to
/// HighCard 0) is the most significant component of a hand's score.
#[derive(Copy, Clone, Debug, PartialEq, Eq, Structural)]
pub enum HandRank {
    StraightFlush,
    Quads,
    FullHouse,
    Flush,
    Straight,
    Triplets,
    TwoPair,
    OnePair,
    HighCard,
}

impl HandRank {
    /// The numeric value of a category: HighCard is 0, up to
    /// StraightFlush at 8. Categories compare by this value.
    pub open spec fn value_spec(self) -> int {
        match self {
            HandRank::StraightFlush => 8,
            HandRank::Quads => 7,
            HandRank::FullHouse => 6,
            HandRank::Flush => 5,
            HandRank::Straight => 4,
            HandRank::Triplets => 3,
            HandRank::TwoPair => 2,
            HandRank::OnePair => 1,
            HandRank::HighCard => 0,
        }
    }

    /// Executable category value; see `value_spec`.
    pub fn value(self) -> (r: usize)
        ensures
            r == self.value_spec(),
    {
        match self {
            HandRank::StraightFlush => 8,
            HandRank::Quads => 7,
            HandRank::FullHouse => 6,
            HandRank::Flush => 5,
            HandRank::Straight => 4,
            HandRank::Triplets => 3,
            HandRank::TwoPair => 2,
            HandRank::OnePair => 1,
            HandRank::HighCard => 0,
        }
    }

    /// The category tried at position `i` of the classifier's strongest-
    /// first order.
    pub open spec fn at_try_order(i: int) -> HandRank {
        if i == 0 {
            HandRank::StraightFlush
        } else if i == 1 {
            HandRank::Quads
        } else if i == 2 {
            HandRank::FullHouse
        } else if i == 3 {
            HandRank::Flush
        } else if i == 4 {
            HandRank::Straight
        } else if i == 5 {
            HandRank::Triplets
        } else if i == 6 {
            HandRank::TwoPair
        } else if i == 7 {
            HandRank::OnePair
        } else {
            HandRank::HighCard
        }
    }

    /// What the builder of each category returns on a partition of
    /// natural and wild cards.
    pub open spec fn build_spec(self, cards: Seq<Card>, wilds: Seq<Card>) -> Option<Seq<Card>> {
        match self {
            HandRank::StraightFlush => as_straight_flush_spec(cards, wilds),
            HandRank::Quads => as_quads_spec(cards, wilds),
            HandRank::FullHouse => as_full_house_spec(cards, wilds),
            HandRank::Flush => as_flush_spec(cards, wilds),
            HandRank::Straight => as_straight_spec(cards, wilds),
            HandRank::Triplets => as_trips_spec(cards, wilds),
            HandRank::TwoPair => as_two_pair_spec(cards, wilds),
            HandRank::OnePair => as_pair_spec(cards, wilds),
            HandRank::HighCard => as_high_card_spec(cards, wilds),
        }
    }

    /// Runs this category's builder on natural cards and wild cards.
    pub fn build(&self, cards: &[Card], wild_cards: &[Card]) -> (r: Option<Vec<Card>>)
        ensures
            r is Some <==> self.build_spec(cards@, wild_cards@) is Some,
            r matches Some(v) ==> Some(v@) == self.build_spec(cards@, wild_cards@),
            r matches Some(v) ==> v@.len() <= 5,
            *self != HandRank::HighCard ==> (r matches Some(v) ==> v@.len() == 5),
            *self == HandRank::HighCard ==> r is Some,
            cards@.len() >= 5 ==> (r matches Some(v) ==> v@.len() == 5),
    {
        match self {
            HandRank::StraightFlush => as_straight_flush(cards, wild_cards),
            HandRank::Quads => as_quads(cards, wild_cards),
            HandRank::FullHouse => as_full_house(cards, wild_cards),
            HandRank::Flush => as_flush(cards, wild_cards),
            HandRank::Straight => as_straight(cards, wild_cards),
            HandRank::Triplets => as_trips(cards, wild_cards),
            HandRank::TwoPair => as_two_pair(cards, wild_cards),
            HandRank::OnePair => as_pair(cards, wild_cards),
            HandRank::HighCard => as_high_card(cards, wild_cards),
        }
    }

    /// The display name of a category.
    pub open spec fn text_spec(self) -> Seq<char> {
        match self {
            HandRank::StraightFlush => "Straight Flush"@,
            HandRank::Quads => "Four of a Kind"@,
            HandRank::FullHouse => "Full House"@,
            HandRank::Flush => "Flush"@,
            HandRank::Straight => "Straight"@,
            HandRank::Triplets => "Triplets"@,
            HandRank::TwoPair => "Two Pair"@,
            HandRank::OnePair => "Pair"@,
            HandRank::HighCard => "High Card"@,
        }
    }

    /// The display name of a category; see `text_spec`.
    pub fn text(&self) -> (r: String)
        ensures
            r@ == self.text_spec(),
    {
        match self {
            HandRank::StraightFlush => String::from_str("Straight Flush"),
            HandRank::Quads => String::from_str("Four of a Kind"),
            HandRank::FullHouse => String::from_str("Full House"),
            HandRank::Flush => String::from_str("Flush"),
            HandRank::Straight => String::from_str("Straight"),
            HandRank::Triplets => String::from_str("Triplets"),
            HandRank::TwoPair => String::from_str("Two Pair"),
            HandRank::OnePair => String::from_str("Pair"),
            HandRank::HighCard => String::from_str("High Card"),
        }
    }
}

/// The score digits folded over a category value: each card appends its
/// scoring-rank ordinal as one base-16 digit.
pub open spec fn score_seq_spec(acc: int, s: Seq<Card>) -> int
    decreases s.len(),
{
    if s.len() == 0 {
        acc
    } else {
        score_seq_spec(acc * 16 + s[0].scoring_rank.ordinal_spec(), s.skip(1))
    }
}

/// The score of a hand: its category value followed by the five
/// scoring-rank ordinals as base-16 digits, most significant first.
pub open spec fn score_spec(rank: HandRank, cards: Seq<Card>) -> int {
    score_seq_spec(rank.value_spec(), cards)
}

impl HandRank {
    /// Folds the category value and the cards' scoring ranks into the
    /// single comparison score; see `score_spec`.
    pub fn score_cards(&self, cards: &[Card]) -> (r: i32)
        requires
            cards@.len() <= 5,
        ensures
            r == score_spec(*self, cards@),
    {
        let mut acc: i32 = self.value() as i32;
        let n = cards.len();
        let mut i: usize = 0;
        while i < n
            invariant
                i <= n,
                n == cards@.len() <= 5,
                0 <= acc < 9 * pow16(i as nat),
                score_spec(*self, cards@) == score_seq_spec(acc as int, cards@.skip(i as int)),
            decreases n - i,
        {
            proof {
                lemma_pow16_bounds();
                lemma_pow16_mono((i + 1) as nat, 5);
                lemma_pow16_pos(i as nat);
                assert(cards@.skip(i as int)[0] == cards@[i as int]);
                assert(cards@.skip(i as int).skip(1) =~= cards@.skip(i + 1));
                assert(pow16((i + 1) as nat) == 16 * pow16(i as nat));
            }
            let d = cards[i].scoring_rank.ordinal();
            proof {
                assert(d <= 14);
                assert(0 <= acc * 16 + 14 < 9 * pow16((i + 1) as nat)) by (nonlinear_arith)
                    requires
                        0 <= acc < 9 * pow16(i as nat),
                        pow16((i + 1) as nat) == 16 * pow16(i as nat),
                        pow16(i as nat) >= 1,
                ;
                assert(9 * pow16((i + 1) as nat) <= 9 * pow16(5));
            }
            acc = acc * 16 + (d as i32);
            i += 1;
        }
        proof {
            assert(cards@.skip(n as int) =~= Seq::<Card>::empty());
        }
        acc
    }
}

/// Sixteen to the given power.
pub open spec fn pow16(k: nat) -> int
    decreases k,
{
    if k == 0 {
        1
    } else {
        16 * pow16((k - 1) as nat)
    }
}

/// Powers of sixteen are positive.
pub proof fn lemma_pow16_pos(k: nat)
    ensures
        pow16(k) >= 1,
    decreases k,
{
    if k > 0 {
        lemma_pow16_pos((k - 1) as nat);
    }
}

/// Powers of sixteen grow with the exponent.
pub proof fn lemma_pow16_mono(j: nat, k: nat)
    requires
        j <= k,
    ensures
        pow16(j) <= pow16(k),
    decreases k,
{
    if j < k {
        lemma_pow16_mono(j, (k - 1) as nat);
        lemma_pow16_pos((k - 1) as nat);
    }
}

/// The concrete values of the powers of sixteen a five-card score can
/// touch.
pub proof fn lemma_pow16_bounds()
    ensures
        pow16(0) == 1,
        pow16(1) == 16,
        pow16(2) == 256,
        pow16(3) == 4096,
        pow16(4) == 65536,
        pow16(5) == 1048576,
{
    assert(pow16(0) == 1);
    assert(pow16(1) == 16);
    assert(pow16(2) == 256);
    assert(pow16(3) == 4096);
    assert(pow16(4) == 65536);
    assert(pow16(5) == 1048576);
}


/// Pairwise-distinct card identities, as a fresh deck guarantees.
pub open spec fn distinct_cards(s: Seq<Card>) -> bool {
    forall|i: int, j: int| 0 <= i < j < s.len() ==> !same_card(s[i], s[j])
}

/// Whether a card's natural rank can join a set: Two through Ace.
pub open spec fn usable_rank(c: Card) -> bool {
    2 <= c.rank.ordinal_spec() <= 14
}

/// How many cards of a sequence carry a natural rank a set can use.
pub open spec fn usable_count(s: Seq<Card>) -> int {
    s.filter(|c: Card| usable_rank(c)).len() as int
}

/// Two predicates that agree on every element give the same filter.
proof fn lemma_filter_ext(s: Seq<Card>, p1: spec_fn(Card) -> bool, p2: spec_fn(Card) -> bool)
    requires
        forall|i: int| 0 <= i < s.len() ==> p1(#[trigger] s[i]) == p2(s[i]),
    ensures
        s.filter(p1) == s.filter(p2),
    decreases s.len(),
{
    reveal(Seq::filter);
    if s.len() > 0 {
        assert(forall|i: int|
            0 <= i < s.drop_last().len() ==> #[trigger] s.drop_last()[i] == s[i]);
        lemma_filter_ext(s.drop_last(), p1, p2);
    }
}

/// Filtering by a conjunction is filtering twice.
proof fn lemma_filter_compose(s: Seq<Card>, p1: spec_fn(Card) -> bool, p2: spec_fn(Card) -> bool)
    ensures
        s.filter(p1).filter(p2) == s.filter(|c: Card| p1(c) && p2(c)),
    decreases s.len(),
{
    reveal(Seq::filter);
    broadcast use Seq::lemma_filter_push;

    if s.len() > 0 {
        lemma_filter_compose(s.drop_last(), p1, p2);
        let d = s.drop_last();
        if p1(s.last()) {
            assert(s.filter(p1) == d.filter(p1).push(s.last()));
        }
    }
}

/// A sequence every element of which passes the predicate filters to
/// itself.
proof fn lemma_filter_keeps_all(s: Seq<Card>, p: spec_fn(Card) -> bool)
    requires
        forall|i: int| 0 <= i < s.len() ==> p(#[trigger] s[i]),
    ensures
        s.filter(p) == s,
    decreases s.len(),
{
    reveal(Seq::filter);
    if s.len() > 0 {
        assert(forall|i: int|
            0 <= i < s.drop_last().len() ==> #[trigger] s.drop_last()[i] == s[i]);
        lemma_filter_keeps_all(s.drop_last(), p);
        assert(s.drop_last().push(s.last()) =~= s);
    }
}

/// Distinct identities survive filtering.
proof fn lemma_filter_distinct(s: Seq<Card>, p: spec_fn(Card) -> bool)
    requires
        distinct_cards(s),
    ensures
        distinct_cards(s.filter(p)),
    decreases s.len(),
{
    reveal(Seq::filter);
    if s.len() > 0 {
        assert(distinct_cards(s.drop_last()));
        lemma_filter_distinct(s.drop_last(), p);
        lemma_filter_elems_contained(s.drop_last(), p);
        let d = s.drop_last();
        if p(s.last()) {
            let f = d.filter(p).push(s.last());
            assert forall|i: int, j: int| 0 <= i < j < f.len() implies !same_card(
                f[i],
                f[j],
            ) by {
                if j == f.len() - 1 {
                    assert(d.contains(d.filter(p)[i]));
                    let m = choose|m: int| 0 <= m < d.len() && d[m] == d.filter(p)[i];
                    assert(!same_card(s[m], s.last()));
                }
            }
        }
    }
}

/// One more card raises the usable count by one exactly when its rank
/// is usable.
proof fn lemma_usable_push(t: Seq<Card>, c: Card)
    ensures
        usable_count(t.push(c)) == usable_count(t) + if usable_rank(c) {
            1int
        } else {
            0int
        },
{
    broadcast use Seq::lemma_filter_push;

    assert(t.push(c).filter(|c2: Card| usable_rank(c2)) == if usable_rank(c) {
        t.filter(|c2: Card| usable_rank(c2)).push(c)
    } else {
        t.filter(|c2: Card| usable_rank(c2))
    });
}

/// Removing one identity that is present, distinct and usable lowers
/// the usable count by exactly one; everything else stays.
proof fn lemma_remove_one_usable(s: Seq<Card>, x: Card)
    requires
        distinct_cards(s),
        seq_contains_card(s, x),
        usable_rank(x),
    ensures
        usable_count(s.filter(|c: Card| !same_card(c, x))) == usable_count(s) - 1,
        distinct_cards(s.filter(|c: Card| !same_card(c, x))),
        forall|y: Card|
            seq_contains_card(s.filter(|c: Card| !same_card(c, x)), y) <==> seq_contains_card(
                s,
                y,
            ) && !same_card(y, x),
    decreases s.len(),
{
    reveal(Seq::filter);
    lemma_filter_distinct(s, |c: Card| !same_card(c, x));
    lemma_filter_elems_contained(s, |c: Card| !same_card(c, x));
    let d = s.drop_last();
    let keep = |c: Card| !same_card(c, x);
    let last = s.last();
    assert(distinct_cards(d));
    assert(forall|i: int| 0 <= i < d.len() ==> #[trigger] d[i] == s[i]);
    assert(d.push(last) =~= s);
    lemma_usable_push(d, last);
    if same_card(last, x) {
        assert forall|i: int| 0 <= i < d.len() implies keep(#[trigger] d[i]) by {
            assert(d[i] == s[i]);
            assert(!same_card(s[i], s[s.len() - 1]));
        }
        lemma_filter_keeps_all(d, keep);
        assert(s.filter(keep) == d);
        assert(usable_rank(last));
    } else {
        assert(seq_contains_card(d, x)) by {
            let i = choose|i: int| 0 <= i < s.len() && #[trigger] same_card(s[i], x);
            assert(i < d.len());
            assert(same_card(d[i], x));
        }
        lemma_remove_one_usable(d, x);
        assert(s.filter(keep) == d.filter(keep).push(last));
        lemma_usable_push(d.filter(keep), last);
    }
    assert forall|y: Card|
        seq_contains_card(s.filter(keep), y) <==> seq_contains_card(s, y) && !same_card(
            y,
            x,
        ) by {
        if seq_contains_card(s.filter(keep), y) {
            let i = choose|i: int|
                0 <= i < s.filter(keep).len() && #[trigger] same_card(s.filter(keep)[i], y);
            assert(s.contains(s.filter(keep)[i]));
            assert(keep(s.filter(keep)[i])) by {
                broadcast use vstd::seq_lib::group_filter_ensures;

            }
            let m = choose|m: int| 0 <= m < s.len() && s[m] == s.filter(keep)[i];
            assert(same_card(s[m], y));
        }
        if seq_contains_card(s, y) && !same_card(y, x) {
            let i = choose|i: int| 0 <= i < s.len() && #[trigger] same_card(s[i], y);
            assert(keep(s[i]));
            assert(s.filter(keep).contains(s[i])) by {
                broadcast use vstd::seq_lib::group_filter_ensures;

            }
            let m = choose|m: int| 0 <= m < s.filter(keep).len() && s.filter(keep)[m] == s[i];
            assert(same_card(s.filter(keep)[m], y));
        }
    }
}

/// Removing a run of present, usable, pairwise-distinct identities
/// lowers the usable count by exactly the run's length.
proof fn lemma_remove_many_usable(s: Seq<Card>, b: Seq<Card>)
    requires
        distinct_cards(s),
        forall|j: int|
            0 <= j < b.len() ==> seq_contains_card(s, #[trigger] b[j]) && usable_rank(b[j]),
        forall|i: int, j: int| 0 <= i < j < b.len() ==> !same_card(b[i], b[j]),
    ensures
        usable_count(remove_matching_spec(s, b)) == usable_count(s) - b.len(),
        distinct_cards(remove_matching_spec(s, b)),
        forall|y: Card|
            seq_contains_card(remove_matching_spec(s, b), y) <==> seq_contains_card(s, y)
                && !seq_contains_card(b, y),
    decreases b.len(),
{
    if b.len() == 0 {
        lemma_filter_keeps_all(s, |c: Card| !seq_contains_card(b, c));
        assert forall|y: Card| !seq_contains_card(b, y) by {}
    } else {
        let d = b.drop_last();
        let x = b.last();
        assert(forall|i: int| 0 <= i < d.len() ==> #[trigger] d[i] == b[i]);
        lemma_remove_many_usable(s, d);
        let part = remove_matching_spec(s, d);
        assert(seq_contains_card(part, x)) by {
            assert(!seq_contains_card(d, x)) by {
                if seq_contains_card(d, x) {
                    let i = choose|i: int| 0 <= i < d.len() && #[trigger] same_card(d[i], x);
                    assert(same_card(b[i], b[b.len() - 1]));
                }
            }
        }
        lemma_remove_one_usable(part, x);
        let pd = |c: Card| !seq_contains_card(d, c);
        let px = |c: Card| !same_card(c, x);
        assert(remove_matching_spec(s, b) == part.filter(|c: Card| !same_card(c, x))) by {
            lemma_filter_compose(s, pd, px);
            assert forall|i: int| 0 <= i < s.len() implies (!seq_contains_card(
                b,
                #[trigger] s[i],
            )) == (pd(s[i]) && px(s[i])) by {
                if seq_contains_card(b, s[i]) {
                    let j = choose|j: int|
                        0 <= j < b.len() && #[trigger] same_card(b[j], s[i]);
                    if j < d.len() {
                        assert(same_card(d[j], s[i]));
                    }
                }
                if seq_contains_card(d, s[i]) {
                    let j = choose|j: int|
                        0 <= j < d.len() && #[trigger] same_card(d[j], s[i]);
                    assert(same_card(b[j], s[i]));
                }
                if same_card(s[i], x) {
                    assert(same_card(b[b.len() - 1], s[i]));
                }
            }
            lemma_filter_ext(s, |c: Card| !seq_contains_card(b, c), |c: Card| pd(c) && px(c));
            assert(part.filter(px) =~= part.filter(|c: Card| !same_card(c, x)));
        }
        assert forall|y: Card|
            seq_contains_card(remove_matching_spec(s, b), y) <==> seq_contains_card(s, y)
                && !seq_contains_card(b, y) by {
            assert(seq_contains_card(b, y) == (seq_contains_card(d, y) || same_card(y, x))) by {
                if seq_contains_card(b, y) {
                    let j = choose|j: int| 0 <= j < b.len() && #[trigger] same_card(b[j], y);
                    if j < d.len() {
                        assert(same_card(d[j], y));
                    }
                }
                if seq_contains_card(d, y) {
                    let j = choose|j: int| 0 <= j < d.len() && #[trigger] same_card(d[j], y);
                    assert(same_card(b[j], y));
                }
                if same_card(y, x) {
                    assert(same_card(b[b.len() - 1], y));
                }
            }
        }
    }
}

/// The cards of a set that are not wild under the rule, in order.
pub open spec fn naturals_of(all: Seq<Card>, rule: Option<WildCardRule>) -> Seq<Card> {
    all.filter(|c: Card| !is_wild_spec(c, rule))
}

/// The cards of a set that are wild under the rule, in order.
pub open spec fn wilds_of(all: Seq<Card>, rule: Option<WildCardRule>) -> Seq<Card> {
    all.filter(|c: Card| is_wild_spec(c, rule))
}

/// The category and cards the classifier settles on, trying builders
/// from position `i` of the strongest-first order onward. The high-card
/// builder always succeeds, so the search is total.
pub open spec fn classify_from(cards: Seq<Card>, wilds: Seq<Card>, i: int) -> (HandRank, Seq<
    Card,
>)
    decreases 8 - i,
{
    if i < 0 || i >= 8 {
        (HandRank::HighCard, top_five_spec(cards))
    } else {
        let rank = HandRank::at_try_order(i);
        match rank.build_spec(cards, wilds) {
            Some(v) => (rank, v),
            None => classify_from(cards, wilds, i + 1),
        }
    }
}

/// The category and cards of the best hand in a card set under a
/// wild-card rule: the set is partitioned into natural and wild cards,
/// and the first builder to succeed, strongest category first, wins.
pub open spec fn classify_spec(all: Seq<Card>, rule: Option<WildCardRule>) -> (HandRank, Seq<
    Card,
>) {
    classify_from(naturals_of(all, rule), wilds_of(all, rule), 0)
}

/// The category tried at position `i` of the classifier's strongest-
/// first order; see `HandRank::at_try_order`.
fn hand_rank_at(i: usize) -> (r: HandRank)
    ensures
        r == HandRank::at_try_order(i as int),
{
    if i == 0 {
        HandRank::StraightFlush
    } else if i == 1 {
        HandRank::Quads
    } else if i == 2 {
        HandRank::FullHouse
    } else if i == 3 {
        HandRank::Flush
    } else if i == 4 {
        HandRank::Straight
    } else if i == 5 {
        HandRank::Triplets
    } else if i == 6 {
        HandRank::TwoPair
    } else if i == 7 {
        HandRank::OnePair
    } else {
        HandRank::HighCard
    }
}

/// A classified hand: its category, the five cards the builder
/// assembled, and the single integer score whose ordering is exactly
/// poker hand strength.
pub struct PokerHand {
    pub rank: HandRank,
    pub cards: Vec<Card>,
    pub score: i32,
}

impl PokerHand {
    /// A hand of a known category; the score is folded from the
    /// category and the cards' scoring ranks.
    fn new(hand_rank: HandRank, cards: Vec<Card>) -> (r: PokerHand)
        requires
            cards@.len() <= 5,
        ensures
            r.rank == hand_rank,
            r.cards@ == cards@,
            r.score == score_spec(hand_rank, cards@),
    {
        let score = hand_rank.score_cards(cards.as_slice());
        PokerHand { rank: hand_rank, cards, score }
    }

    /// Classifies a card set under an optional wild-card rule. The set
    /// is partitioned into natural and wild cards, and the builders run
    /// from StraightFlush down to HighCard; the first success wins, so
    /// every category the cards can satisfy is at or below the returned
    /// one. With at least five natural cards the hand holds exactly
    /// five.
    pub fn build(all_cards: &[Card], is_wild: &Option<WildCardRule>) -> (r: PokerHand)
        ensures
            (r.rank, r.cards@) == classify_spec(all_cards@, *is_wild),
            r.score == score_spec(r.rank, r.cards@),
            r.cards@.len() <= 5,
            0 <= r.rank.value_spec() <= 8,
            naturals_of(all_cards@, *is_wild).len() >= 5 ==> r.cards@.len() == 5,
            forall|hr: HandRank|
                #[trigger] hr.build_spec(
                    naturals_of(all_cards@, *is_wild),
                    wilds_of(all_cards@, *is_wild),
                ) is Some ==> r.rank.value_spec() >= hr.value_spec(),
    {
        broadcast use vstd::seq_lib::group_filter_ensures, Seq::lemma_filter_push;

        let ghost rule = *is_wild;
        let mut naturals: Vec<Card> = Vec::new();
        let mut wild_cards: Vec<Card> = Vec::new();
        let n = all_cards.len();
        for i in 0..n
            invariant
                n == all_cards@.len(),
                naturals@ == naturals_of(all_cards@.take(i as int), rule),
                wild_cards@ == wilds_of(all_cards@.take(i as int), rule),
                rule == *is_wild,
        {
            proof {
                let nat_pred = |c: Card| !is_wild_spec(c, rule);
                let wild_pred = |c: Card| is_wild_spec(c, rule);
                assert(all_cards@.take(i + 1) =~= all_cards@.take(i as int).push(
                    all_cards@[i as int],
                ));
                all_cards@.take(i as int).lemma_filter_push(all_cards@[i as int], nat_pred);
                all_cards@.take(i as int).lemma_filter_push(all_cards@[i as int], wild_pred);
            }
            if all_cards[i].is_wild(is_wild) {
                wild_cards.push(all_cards[i]);
            } else {
                naturals.push(all_cards[i]);
            }
        }
        proof {
            assert(all_cards@.take(n as int) =~= all_cards@);
        }
        let ghost nats = naturals_of(all_cards@, rule);
        let ghost wilds = wilds_of(all_cards@, rule);
        let mut i: usize = 0;
        loop
            invariant
                i <= 8,
                naturals@ == nats,
                wild_cards@ == wilds,
                nats == naturals_of(all_cards@, *is_wild),
                wilds == wilds_of(all_cards@, *is_wild),
                forall|j: int|
                    0 <= j < i ==> HandRank::at_try_order(j).build_spec(nats, wilds) is None,
                classify_from(nats, wilds, 0) == classify_from(nats, wilds, i as int),
            decreases 8 - i,
        {
            let rank = hand_rank_at(i);
            match rank.build(naturals.as_slice(), wild_cards.as_slice()) {
                Some(cards) => {
                    proof {
                        if i < 8 {
                            assert(classify_from(nats, wilds, i as int) == (rank, cards@));
                        } else {
                            assert(Some(cards@) == as_high_card_spec(nats, wilds));
                            assert(classify_from(nats, wilds, i as int) == (rank, cards@));
                        }
                        assert forall|hr: HandRank|
                            #[trigger] hr.build_spec(nats, wilds) is Some implies rank.value_spec()
                            >= hr.value_spec() by {
                            let j = 8 - hr.value_spec();
                            assert(HandRank::at_try_order(j) == hr);
                            assert(j >= i);
                        }
                    }
                    return PokerHand::new(rank, cards);
                },
                None => {
                    proof {
                        assert(i < 8);
                    }
                },
            }
            i += 1;
        }
    }

    /// The display name of the hand's category.
    pub fn name(&self) -> (r: String)
        ensures
            r@ == self.rank.text_spec(),
    {
        self.rank.text()
    }

    /// The five cards the builder assembled, in assembly order.
    pub fn cards(&self) -> (r: &Vec<Card>)
        ensures
            r@ == self.cards@,
    {
        &self.cards
    }
}

impl PartialEq for PokerHand {
    /// Hands compare by score alone: equal score means equal strength,
    /// whatever the suits or the wild substitutions behind it.
    fn eq(&self, other: &PokerHand) -> (r: bool) {
        self.score == other.score
    }
}

impl vstd::std_specs::cmp::PartialEqSpecImpl for PokerHand {
    open spec fn obeys_eq_spec() -> bool {
        true
    }

    open spec fn eq_spec(&self, other: &PokerHand) -> bool {
        self.score == other.score
    }
}

impl PartialOrd for PokerHand {
    /// Hands order by score alone.
    fn partial_cmp(&self, other: &PokerHand) -> (r: Option<core::cmp::Ordering>) {
        if self.score < other.score {
            Some(core::cmp::Ordering::Less)
        } else if self.score == other.score {
            Some(core::cmp::Ordering::Equal)
        } else {
            Some(core::cmp::Ordering::Greater)
        }
    }
}

impl vstd::std_specs::cmp::PartialOrdSpecImpl for PokerHand {
    open spec fn obeys_partial_cmp_spec() -> bool {
        true
    }

    open spec fn partial_cmp_spec(&self, other: &PokerHand) -> Option<core::cmp::Ordering> {
        if self.score < other.score {
            Some(core::cmp::Ordering::Less)
        } else if self.score == other.score {
            Some(core::cmp::Ordering::Equal)
        } else {
            Some(core::cmp::Ordering::Greater)
        }
    }
}

/// The positional value of the scoring-rank digits of a card sequence,
/// most significant first.
pub open spec fn digits_value(s: Seq<Card>) -> int
    decreases s.len(),
{
    if s.len() == 0 {
        0
    } else {
        s[0].scoring_rank.ordinal_spec() * pow16((s.len() - 1) as nat) + digits_value(s.skip(1))
    }
}

/// A score splits into the category value shifted past all digits, plus
/// the digits' positional value.
proof fn lemma_score_decompose(acc: int, s: Seq<Card>)
    ensures
        score_seq_spec(acc, s) == acc * pow16(s.len()) + digits_value(s),
    decreases s.len(),
{
    if s.len() == 0 {
        assert(pow16(s.len()) == 1);
        assert(acc * 1 == acc) by (nonlinear_arith);
    } else {
        let d = s[0].scoring_rank.ordinal_spec();
        let l = (s.len() - 1) as nat;
        lemma_score_decompose(acc * 16 + d, s.skip(1));
        assert(s.skip(1).len() == l);
        assert(score_seq_spec(acc, s) == score_seq_spec(acc * 16 + d, s.skip(1)));
        assert(digits_value(s) == d * pow16(l) + digits_value(s.skip(1)));
        assert((acc * 16 + d) * pow16(l) == acc * (16 * pow16(l)) + d * pow16(l))
            by (nonlinear_arith);
        assert(pow16(s.len()) == 16 * pow16(l));
    }
}

/// The digits' positional value is bounded by one more shift.
proof fn lemma_digits_bounds(s: Seq<Card>)
    ensures
        0 <= digits_value(s) < pow16(s.len()),
    decreases s.len(),
{
    if s.len() == 0 {
    } else {
        let d = s[0].scoring_rank.ordinal_spec();
        let l = (s.len() - 1) as nat;
        lemma_digits_bounds(s.skip(1));
        lemma_pow16_pos(l);
        assert(0 <= d <= 14);
        assert(d * pow16(l) <= 14 * pow16(l)) by (nonlinear_arith)
            requires
                0 <= d <= 14,
                pow16(l) >= 1,
        ;
        assert(0 <= d * pow16(l)) by (nonlinear_arith)
            requires
                0 <= d,
                pow16(l) >= 1,
        ;
        assert(pow16(s.len()) == 16 * pow16(l));
    }
}

/// Score ordering respects category strength: a hand of a stronger
/// category always scores above any hand of a weaker one, whatever the
/// kickers.
pub proof fn lemma_score_category_dominance(
    r1: HandRank,
    c1: Seq<Card>,
    r2: HandRank,
    c2: Seq<Card>,
)
    requires
        c1.len() == 5,
        c2.len() == 5,
        r1.value_spec() > r2.value_spec(),
    ensures
        score_spec(r1, c1) > score_spec(r2, c2),
{
    lemma_score_decompose(r1.value_spec(), c1);
    lemma_score_decompose(r2.value_spec(), c2);
    lemma_digits_bounds(c1);
    lemma_digits_bounds(c2);
    lemma_pow16_bounds();
}

/// The digit comparison behind kicker tie-breaks: with a common prefix
/// of equal scoring ranks, the first higher scoring rank decides.
proof fn lemma_digits_lex(c1: Seq<Card>, c2: Seq<Card>, j: int)
    requires
        c1.len() == c2.len(),
        0 <= j < c1.len(),
        forall|m: int|
            0 <= m < j ==> (#[trigger] c1[m]).scoring_rank.ordinal_spec()
                == c2[m].scoring_rank.ordinal_spec(),
        c1[j].scoring_rank.ordinal_spec() > c2[j].scoring_rank.ordinal_spec(),
    ensures
        digits_value(c1) > digits_value(c2),
    decreases j,
{
    let l = (c1.len() - 1) as nat;
    if j == 0 {
        let d1 = c1[0].scoring_rank.ordinal_spec();
        let d2 = c2[0].scoring_rank.ordinal_spec();
        lemma_digits_bounds(c1.skip(1));
        lemma_digits_bounds(c2.skip(1));
        lemma_pow16_pos(l);
        assert(d1 * pow16(l) >= (d2 + 1) * pow16(l)) by (nonlinear_arith)
            requires
                d1 >= d2 + 1,
                pow16(l) >= 1,
        ;
        assert((d2 + 1) * pow16(l) == d2 * pow16(l) + pow16(l)) by (nonlinear_arith);
    } else {
        assert(forall|m: int|
            0 <= m < j - 1 ==> (#[trigger] c1.skip(1)[m]).scoring_rank.ordinal_spec()
                == c2.skip(1)[m].scoring_rank.ordinal_spec());
        assert(c1.skip(1)[j - 1] == c1[j]);
        assert(c2.skip(1)[j - 1] == c2[j]);
        lemma_digits_lex(c1.skip(1), c2.skip(1), j - 1);
    }
}

/// Within one category, the hand whose first differing card carries the
/// higher scoring rank scores above the other: kicker tie-breaks need no
/// secondary comparator.
pub proof fn lemma_score_kicker_order(r: HandRank, c1: Seq<Card>, c2: Seq<Card>, j: int)
    requires
        c1.len() == c2.len() <= 5,
        0 <= j < c1.len(),
        forall|m: int|
            0 <= m < j ==> (#[trigger] c1[m]).scoring_rank.ordinal_spec()
                == c2[m].scoring_rank.ordinal_spec(),
        c1[j].scoring_rank.ordinal_spec() > c2[j].scoring_rank.ordinal_spec(),
    ensures
        score_spec(r, c1) > score_spec(r, c2),
{
    lemma_score_decompose(r.value_spec(), c1);
    lemma_score_decompose(r.value_spec(), c2);
    lemma_digits_lex(c1, c2, j);
}

/// A hand's score depends only on its category and the scoring ranks of
/// its cards in order: a wild substitute credited with a rank scores
/// exactly as the natural card would.
pub proof fn lemma_score_ignores_identity(r: HandRank, c1: Seq<Card>, c2: Seq<Card>)
    requires
        c1.len() == c2.len(),
        forall|i: int| 0 <= i < c1.len() ==> (#[trigger] c1[i]).scoring_rank == c2[i].scoring_rank,
    ensures
        score_spec(r, c1) == score_spec(r, c2),
{
    lemma_score_seq_ignores_identity(r.value_spec(), c1, c2);
}

proof fn lemma_score_seq_ignores_identity(acc: int, c1: Seq<Card>, c2: Seq<Card>)
    requires
        c1.len() == c2.len(),
        forall|i: int| 0 <= i < c1.len() ==> (#[trigger] c1[i]).scoring_rank == c2[i].scoring_rank,
    ensures
        score_seq_spec(acc, c1) == score_seq_spec(acc, c2),
    decreases c1.len(),
{
    if c1.len() > 0 {
        assert(forall|i: int|
            0 <= i < c1.skip(1).len() ==> (#[trigger] c1.skip(1)[i]).scoring_rank == c2.skip(
                1,
            )[i].scoring_rank);
        lemma_score_seq_ignores_identity(
            acc * 16 + c1[0].scoring_rank.ordinal_spec(),
            c1.skip(1),
            c2.skip(1),
        );
    }
}

/// Hand comparison is total: any two hands compare, and the comparison
/// is exactly the order of their scores.
pub proof fn lemma_hand_order_total(a: PokerHand, b: PokerHand)
    ensures
        a.partial_cmp_spec(&b) is Some,
        a.partial_cmp_spec(&b) == Some(core::cmp::Ordering::Equal) <==> a.score == b.score,
        a.partial_cmp_spec(&b) == Some(core::cmp::Ordering::Greater) <==> a.score > b.score,
        a.partial_cmp_spec(&b) == Some(core::cmp::Ordering::Less) <==> a.score < b.score,
{
}

/// Classification is a function of the card set and the wild-card rule:
/// two hands built from the same input carry the same category, cards
/// and score.
pub proof fn lemma_classify_deterministic(
    all: Seq<Card>,
    rule: Option<WildCardRule>,
    h1: PokerHand,
    h2: PokerHand,
)
    requires
        (h1.rank, h1.cards@) == classify_spec(all, rule),
        h1.score == score_spec(h1.rank, h1.cards@),
        (h2.rank, h2.cards@) == classify_spec(all, rule),
        h2.score == score_spec(h2.rank, h2.cards@),
    ensures
        h1.rank == h2.rank,
        h1.cards@ == h2.cards@,
        h1.score == h2.score,
{
}

/// The classifier never settles below a category whose builder succeeds
/// on the same partition.
pub proof fn lemma_classify_dominates(cards: Seq<Card>, wilds: Seq<Card>, hr: HandRank)
    requires
        hr.build_spec(cards, wilds) is Some,
    ensures
        classify_from(cards, wilds, 0).0.value_spec() >= hr.value_spec(),
{
    lemma_classify_dominates_from(cards, wilds, hr, 0);
}

proof fn lemma_classify_dominates_from(cards: Seq<Card>, wilds: Seq<Card>, hr: HandRank, i: int)
    requires
        hr.build_spec(cards, wilds) is Some,
        0 <= i <= 8 - hr.value_spec(),
    ensures
        classify_from(cards, wilds, i).0.value_spec() >= hr.value_spec(),
    decreases 8 - i,
{
    if i >= 8 {
    } else {
        let rank = HandRank::at_try_order(i);
        match rank.build_spec(cards, wilds) {
            Some(v) => {
                assert(rank.value_spec() == 8 - i >= hr.value_spec());
            },
            None => {
                assert(HandRank::at_try_order(8 - hr.value_spec()) == hr);
                assert(i != 8 - hr.value_spec());
                lemma_classify_dominates_from(cards, wilds, hr, i + 1);
            },
        }
    }
}

/// Whatever the classifier settles on, that category's builder does
/// succeed on the partition.
pub proof fn lemma_classify_result_satisfiable(cards: Seq<Card>, wilds: Seq<Card>)
    ensures
        classify_from(cards, wilds, 0).0.build_spec(cards, wilds) == Some(
            classify_from(cards, wilds, 0).1,
        ),
{
    lemma_classify_result_satisfiable_from(cards, wilds, 0);
}

proof fn lemma_classify_result_satisfiable_from(cards: Seq<Card>, wilds: Seq<Card>, i: int)
    ensures
        classify_from(cards, wilds, i).0.build_spec(cards, wilds) == Some(
            classify_from(cards, wilds, i).1,
        ),
    decreases 8 - i,
{
    if i < 0 || i >= 8 {
    } else {
        let rank = HandRank::at_try_order(i);
        if rank.build_spec(cards, wilds) is None {
            lemma_classify_result_satisfiable_from(cards, wilds, i + 1);
        }
    }
}

/// Straight filling succeeds with any longer supply of wild cards: only
/// the count of wilds matters to success.
proof fn lemma_fill_straight_monotone(
    cards: Seq<Card>,
    w1: Seq<Card>,
    w2: Seq<Card>,
    ord: int,
    k: int,
)
    requires
        w1.len() <= w2.len(),
        fill_straight_spec(cards, w1, ord, k) is Some,
    ensures
        fill_straight_spec(cards, w2, ord, k) is Some,
    decreases 5 - k,
{
    if k < 0 || k >= 5 {
    } else if first_ord_match(cards, ord) is Some {
        lemma_fill_straight_monotone(cards, w1, w2, ord - 1, k + 1);
    } else {
        lemma_fill_straight_monotone(cards, w1.skip(1), w2.skip(1), ord - 1, k + 1);
    }
}

proof fn lemma_straight_search_monotone(cards: Seq<Card>, w1: Seq<Card>, w2: Seq<Card>, high: int)
    requires
        w1.len() <= w2.len(),
        straight_search_spec(cards, w1, high) is Some,
    ensures
        straight_search_spec(cards, w2, high) is Some,
    decreases high,
{
    if high >= 5 {
        if fill_straight_spec(cards, w1, high, 0) is Some {
            lemma_fill_straight_monotone(cards, w1, w2, high, 0);
        } else {
            lemma_straight_search_monotone(cards, w1, w2, high - 1);
        }
    }
}

/// A straight stays buildable when one more wild card joins the pool.
pub proof fn lemma_straight_monotone_in_wilds(cards: Seq<Card>, w1: Seq<Card>, w2: Seq<Card>)
    requires
        w1.len() <= w2.len(),
        as_straight_spec(cards, w1) is Some,
    ensures
        as_straight_spec(cards, w2) is Some,
{
    lemma_straight_search_monotone(cards, w1, w2, 14);
}

proof fn lemma_flush_suit_monotone(cards: Seq<Card>, w1: int, w2: int, idx: int)
    requires
        w1 <= w2,
        flush_suit_from(cards, w1, idx) is Some,
    ensures
        flush_suit_from(cards, w2, idx) is Some,
    decreases 5 - idx,
{
    if 0 <= idx < 5 {
        if suited_spec(cards, Suit::for_index_spec(idx)).len() + w1 < 5 {
            lemma_flush_suit_monotone(cards, w1, w2, idx + 1);
        }
    }
}

/// A flush stays buildable when one more wild card joins the pool.
pub proof fn lemma_flush_monotone_in_wilds(cards: Seq<Card>, w1: Seq<Card>, w2: Seq<Card>)
    requires
        w1.len() <= w2.len(),
        as_flush_spec(cards, w1) is Some,
    ensures
        as_flush_spec(cards, w2) is Some,
{
    lemma_flush_suit_monotone(cards, w1.len() as int, w2.len() as int, 0);
}

proof fn lemma_sf_search_monotone(cards: Seq<Card>, w1: Seq<Card>, w2: Seq<Card>, idx: int)
    requires
        w1.len() <= w2.len(),
        sf_search_spec(cards, w1, idx) is Some,
    ensures
        sf_search_spec(cards, w2, idx) is Some,
    decreases 5 - idx,
{
    if 0 <= idx < 5 {
        let st = suited_spec(cards, Suit::for_index_spec(idx));
        if st.len() + w1.len() >= 5 {
            if as_straight_spec(st, w1) is Some {
                lemma_straight_search_monotone(st, w1, w2, 14);
            } else {
                lemma_sf_search_monotone(cards, w1, w2, idx + 1);
            }
        } else {
            if st.len() + w2.len() >= 5 && as_straight_spec(st, w2) is Some {
            } else {
                lemma_sf_search_monotone(cards, w1, w2, idx + 1);
            }
        }
    }
}

/// A straight flush stays buildable when one more wild card joins the
/// pool.
pub proof fn lemma_straight_flush_monotone_in_wilds(cards: Seq<Card>, w1: Seq<Card>, w2: Seq<Card>)
    requires
        w1.len() <= w2.len(),
        as_straight_flush_spec(cards, w1) is Some,
    ensures
        as_straight_flush_spec(cards, w2) is Some,
{
    lemma_sf_search_monotone(cards, w1, w2, 0);
}



/// One more card raises a rank's count by one exactly when it carries
/// that rank.
proof fn lemma_rank_count_push(t: Seq<Card>, c: Card, o: int)
    ensures
        cards_of_rank_ord(t.push(c), o).len() == cards_of_rank_ord(t, o).len() + if c.rank.ordinal_spec() == o {
            1int
        } else {
            0int
        },
{
    broadcast use Seq::lemma_filter_push;

    assert(t.push(c).filter(|c2: Card| c2.rank.ordinal_spec() == o) == if c.rank.ordinal_spec()
        == o {
        t.filter(|c2: Card| c2.rank.ordinal_spec() == o).push(c)
    } else {
        t.filter(|c2: Card| c2.rank.ordinal_spec() == o)
    });
}

/// Removing one present, distinct identity lowers its own rank's count
/// by one and leaves every other rank's count alone.
proof fn lemma_remove_one_rank(s: Seq<Card>, x: Card, o: int)
    requires
        distinct_cards(s),
        seq_contains_card(s, x),
    ensures
        cards_of_rank_ord(s.filter(|c: Card| !same_card(c, x)), o).len() == cards_of_rank_ord(
            s,
            o,
        ).len() - if x.rank.ordinal_spec() == o {
            1int
        } else {
            0int
        },
    decreases s.len(),
{
    reveal(Seq::filter);
    let d = s.drop_last();
    let keep = |c: Card| !same_card(c, x);
    let last = s.last();
    assert(distinct_cards(d));
    assert(forall|i: int| 0 <= i < d.len() ==> #[trigger] d[i] == s[i]);
    assert(d.push(last) =~= s);
    lemma_rank_count_push(d, last, o);
    if same_card(last, x) {
        assert forall|i: int| 0 <= i < d.len() implies keep(#[trigger] d[i]) by {
            assert(d[i] == s[i]);
            assert(!same_card(s[i], s[s.len() - 1]));
        }
        lemma_filter_keeps_all(d, keep);
        assert(s.filter(keep) == d);
        assert(last.rank == x.rank);
    } else {
        assert(seq_contains_card(d, x)) by {
            let i = choose|i: int| 0 <= i < s.len() && #[trigger] same_card(s[i], x);
            assert(i < d.len());
            assert(same_card(d[i], x));
        }
        lemma_remove_one_rank(d, x, o);
        assert(s.filter(keep) == d.filter(keep).push(last));
        lemma_rank_count_push(d.filter(keep), last, o);
    }
}

/// Removing a run of present, pairwise-distinct identities that all
/// carry one rank `r` lowers that rank's count by the run's length and
/// leaves every other rank's count alone.
proof fn lemma_remove_many_rank(s: Seq<Card>, b: Seq<Card>, r: int, o: int)
    requires
        distinct_cards(s),
        forall|j: int| 0 <= j < b.len() ==> seq_contains_card(s, #[trigger] b[j]),
        forall|i: int, j: int| 0 <= i < j < b.len() ==> !same_card(b[i], b[j]),
        forall|j: int| 0 <= j < b.len() ==> (#[trigger] b[j]).rank.ordinal_spec() == r,
    ensures
        cards_of_rank_ord(remove_matching_spec(s, b), o).len() == cards_of_rank_ord(s, o).len()
            - if o == r {
            b.len() as int
        } else {
            0int
        },
    decreases b.len(),
{
    if b.len() == 0 {
        lemma_filter_keeps_all(s, |c: Card| !seq_contains_card(b, c));
        assert forall|y: Card| !seq_contains_card(b, y) by {}
    } else {
        let d = b.drop_last();
        let x = b.last();
        assert(forall|i: int| 0 <= i < d.len() ==> #[trigger] d[i] == b[i]);
        lemma_remove_many_rank(s, d, r, o);
        let part = remove_matching_spec(s, d);
        assert(!seq_contains_card(d, x)) by {
            if seq_contains_card(d, x) {
                let i = choose|i: int| 0 <= i < d.len() && #[trigger] same_card(d[i], x);
                assert(same_card(b[i], b[b.len() - 1]));
            }
        }
        lemma_remove_many_usable_membership(s, d);
        assert(seq_contains_card(part, x));
        assert(distinct_cards(part));
        lemma_remove_one_rank(part, x, o);
        let pd = |c: Card| !seq_contains_card(d, c);
        let px = |c: Card| !same_card(c, x);
        assert(remove_matching_spec(s, b) == part.filter(|c: Card| !same_card(c, x))) by {
            lemma_filter_compose(s, pd, px);
            assert forall|i: int| 0 <= i < s.len() implies (!seq_contains_card(
                b,
                #[trigger] s[i],
            )) == (pd(s[i]) && px(s[i])) by {
                if seq_contains_card(b, s[i]) {
                    let j = choose|j: int|
                        0 <= j < b.len() && #[trigger] same_card(b[j], s[i]);
                    if j < d.len() {
                        assert(same_card(d[j], s[i]));
                    }
                }
                if seq_contains_card(d, s[i]) {
                    let j = choose|j: int|
                        0 <= j < d.len() && #[trigger] same_card(d[j], s[i]);
                    assert(same_card(b[j], s[i]));
                }
                if same_card(s[i], x) {
                    assert(same_card(b[b.len() - 1], s[i]));
                }
            }
            lemma_filter_ext(s, |c: Card| !seq_contains_card(b, c), |c: Card| pd(c) && px(c));
            assert(part.filter(px) =~= part.filter(|c: Card| !same_card(c, x)));
        }
    }
}

/// The membership and distinctness facts of removal alone: what remains
/// is what was there and is not named, still pairwise distinct.
proof fn lemma_remove_many_usable_membership(s: Seq<Card>, b: Seq<Card>)
    requires
        distinct_cards(s),
        forall|j: int| 0 <= j < b.len() ==> seq_contains_card(s, #[trigger] b[j]),
        forall|i: int, j: int| 0 <= i < j < b.len() ==> !same_card(b[i], b[j]),
    ensures
        distinct_cards(remove_matching_spec(s, b)),
        forall|y: Card|
            seq_contains_card(remove_matching_spec(s, b), y) <==> seq_contains_card(s, y)
                && !seq_contains_card(b, y),
{
    broadcast use vstd::seq_lib::group_filter_ensures;

    let keep = |c: Card| !seq_contains_card(b, c);
    lemma_filter_distinct(s, keep);
    lemma_filter_elems_contained(s, keep);
    assert forall|y: Card|
        seq_contains_card(remove_matching_spec(s, b), y) <==> seq_contains_card(s, y)
            && !seq_contains_card(b, y) by {
        let f = s.filter(keep);
        if seq_contains_card(f, y) {
            let i = choose|i: int| 0 <= i < f.len() && #[trigger] same_card(f[i], y);
            assert(s.contains(f[i]));
            assert(keep(f[i]));
            let m = choose|m: int| 0 <= m < s.len() && s[m] == f[i];
            assert(same_card(s[m], y));
            assert(!seq_contains_card(b, y)) by {
                if seq_contains_card(b, y) {
                    let j = choose|j: int| 0 <= j < b.len() && #[trigger] same_card(b[j], y);
                    assert(same_card(b[j], f[i]));
                }
            }
        }
        if seq_contains_card(s, y) && !seq_contains_card(b, y) {
            let i = choose|i: int| 0 <= i < s.len() && #[trigger] same_card(s[i], y);
            assert(keep(s[i])) by {
                if seq_contains_card(b, s[i]) {
                    let j = choose|j: int|
                        0 <= j < b.len() && #[trigger] same_card(b[j], s[i]);
                    assert(same_card(b[j], y));
                }
            }
            assert(f.contains(s[i]));
            let m = choose|m: int| 0 <= m < f.len() && f[m] == s[i];
            assert(same_card(f[m], y));
        }
    }
}

/// What the first-eligible-rank search finds is in range and eligible,
/// and no rank above it is.
proof fn lemma_set_rank_props(cards: Seq<Card>, w: int, n: int, ord: int)
    requires
        set_rank_ord_from(cards, w, n, ord) is Some,
    ensures
        ({
            let r = set_rank_ord_from(cards, w, n, ord).unwrap();
            2 <= r <= ord && cards_of_rank_ord(cards, r).len() + w >= n && forall|o: int|
                r < o <= ord ==> cards_of_rank_ord(cards, o).len() + w < n
        }),
    decreases ord,
{
    if ord >= 2 && cards_of_rank_ord(cards, ord).len() + w >= n {
    } else {
        lemma_set_rank_props(cards, w, n, ord - 1);
    }
}

/// An eligible rank at or below the search start makes the search
/// succeed.
proof fn lemma_set_rank_exists(cards: Seq<Card>, w: int, n: int, ord: int, o: int)
    requires
        2 <= o <= ord,
        cards_of_rank_ord(cards, o).len() + w >= n,
    ensures
        set_rank_ord_from(cards, w, n, ord) is Some,
    decreases ord,
{
    if cards_of_rank_ord(cards, ord).len() + w >= n {
    } else {
        lemma_set_rank_exists(cards, w, n, ord - 1, o);
    }
}

/// More wild cards keep the first-eligible-rank search succeeding, and
/// never push the found rank down.
proof fn lemma_set_rank_monotone(cards: Seq<Card>, w1: int, w2: int, n: int, ord: int)
    requires
        w1 <= w2,
        set_rank_ord_from(cards, w1, n, ord) is Some,
    ensures
        set_rank_ord_from(cards, w2, n, ord) is Some,
        set_rank_ord_from(cards, w2, n, ord).unwrap() >= set_rank_ord_from(
            cards,
            w1,
            n,
            ord,
        ).unwrap(),
    decreases ord,
{
    if ord >= 2 {
        if cards_of_rank_ord(cards, ord).len() + w1 >= n {
        } else if cards_of_rank_ord(cards, ord).len() + w2 >= n {
            lemma_set_rank_props(cards, w1, n, ord);
        } else {
            lemma_set_rank_monotone(cards, w1, w2, n, ord - 1);
        }
    }
}

/// A single-card set can be found exactly when some card carries a
/// usable rank.
proof fn lemma_single_set(cards: Seq<Card>)
    ensures
        (set_rank_ord_from(cards, 0, 1, 14) is Some) <==> usable_count(cards) >= 1,
{
    broadcast use vstd::seq_lib::group_filter_ensures;

    let usable = |c: Card| usable_rank(c);
    if set_rank_ord_from(cards, 0, 1, 14) is Some {
        lemma_set_rank_props(cards, 0, 1, 14);
        let r = set_rank_ord_from(cards, 0, 1, 14).unwrap();
        let ranked = cards_of_rank_ord(cards, r);
        lemma_filter_elems_contained(cards, |c: Card| c.rank.ordinal_spec() == r);
        assert(cards.contains(ranked[0]));
        let i = choose|i: int| 0 <= i < cards.len() && cards[i] == ranked[0];
        assert(usable(cards[i]));
        assert(cards.filter(usable).contains(cards[i]));
    }
    if usable_count(cards) >= 1 {
        let e = cards.filter(usable)[0];
        assert(usable(e));
        lemma_filter_elems_contained(cards, usable);
        assert(cards.contains(e));
        let i = choose|i: int| 0 <= i < cards.len() && cards[i] == e;
        let o = e.rank.ordinal_spec();
        assert(cards.filter(|c: Card| c.rank.ordinal_spec() == o).contains(cards[i]));
        lemma_set_rank_exists(cards, 0, 1, 14, o);
    }
}

/// With no wild cards and every remaining size one, the set sequence
/// can be finished exactly when enough usable cards remain: each kicker
/// takes one.
proof fn lemma_ones_tail(cards: Seq<Card>, sizes: Seq<usize>, i: int)
    requires
        distinct_cards(cards),
        0 <= i <= sizes.len(),
        forall|j: int| i <= j < sizes.len() ==> sizes[j] == 1,
    ensures
        (make_sets_spec(cards, Seq::empty(), sizes, i) is Some) <==> usable_count(cards)
            >= sizes.len() - i,
    decreases sizes.len() - i,
{
    broadcast use vstd::seq_lib::group_filter_ensures;

    if i >= sizes.len() {
    } else {
        assert(sizes[i] == 1);
        lemma_single_set(cards);
        if usable_count(cards) >= 1 {
            let r = set_rank_ord_from(cards, 0, 1, 14).unwrap();
            lemma_set_rank_props(cards, 0, 1, 14);
            let ranked = cards_of_rank_ord(cards, r);
            let pool = ranked + Seq::<Card>::empty();
            let set = find_set_spec(cards, Seq::empty(), 1).unwrap();
            assert(pool =~= ranked);
            assert(pool.take(1) =~= seq![ranked[0]]);
            assert(set == pool.take(1).map_values(|c: Card| scored_spec(c, r)));
            assert(set.len() == 1);
            assert(set[0] == scored_spec(ranked[0], r));
            lemma_filter_elems_contained(cards, |c: Card| c.rank.ordinal_spec() == r);
            assert(cards.contains(ranked[0]));
            assert forall|j: int|
                0 <= j < set.len() implies seq_contains_card(cards, #[trigger] set[j])
                && usable_rank(set[j]) by {
                let m = choose|m: int| 0 <= m < cards.len() && cards[m] == ranked[0];
                assert(same_card(cards[m], set[0]));
                assert(ranked[0].rank.ordinal_spec() == r);
            }
            lemma_remove_many_usable(cards, set);
            let remaining = remove_matching_spec(cards, set);
            lemma_ones_tail(remaining, sizes, i + 1);
        }
    }
}

/// The usable-count accounting of one `find_set` step: removing the set
/// consumes exactly the natural cards it took, and the wild cards it
/// took consume nothing.
proof fn lemma_find_set_removal(cards: Seq<Card>, wilds: Seq<Card>, n: int)
    requires
        distinct_cards(cards),
        forall|j: int| 0 <= j < wilds.len() ==> !seq_contains_card(cards, #[trigger] wilds[j]),
        find_set_spec(cards, wilds, n) is Some,
        n >= 1,
    ensures
        ({
            let set = find_set_spec(cards, wilds, n).unwrap();
            let r = set_rank_ord_from(cards, wilds.len() as int, n, 14).unwrap();
            let count = cards_of_rank_ord(cards, r).len() as int;
            let m = if count <= n {
                count
            } else {
                n
            };
            usable_count(remove_matching_spec(cards, set)) == usable_count(cards) - m
                && distinct_cards(remove_matching_spec(cards, set)) && (forall|o: int|
                cards_of_rank_ord(#[trigger] remove_matching_spec(cards, set), o).len()
                    == cards_of_rank_ord(cards, o).len() - (if o == r {
                    m
                } else {
                    0int
                }))
        }),
{
    broadcast use vstd::seq_lib::group_filter_ensures;

    let wl = wilds.len() as int;
    let set = find_set_spec(cards, wilds, n).unwrap();
    let r = set_rank_ord_from(cards, wl, n, 14).unwrap();
    lemma_set_rank_props(cards, wl, n, 14);
    let ranked = cards_of_rank_ord(cards, r);
    let count = ranked.len() as int;
    let m = if count <= n {
        count
    } else {
        n
    };
    let pool = ranked + wilds;
    assert(set == pool.take(n).map_values(|c: Card| scored_spec(c, r)));
    assert(set.len() == n);
    assert forall|j: int| 0 <= j < n implies #[trigger] set[j] == scored_spec(
        if j < count {
            ranked[j]
        } else {
            wilds[j - count]
        },
        r,
    ) by {
        assert(pool.take(n)[j] == pool[j]);
    }
    let bn = ranked.take(m).map_values(|c: Card| scored_spec(c, r));
    assert(bn.len() == m);
    lemma_filter_elems_contained(cards, |c: Card| c.rank.ordinal_spec() == r);
    lemma_filter_distinct(cards, |c: Card| c.rank.ordinal_spec() == r);
    assert forall|j: int| 0 <= j < m implies seq_contains_card(cards, #[trigger] bn[j])
        && usable_rank(bn[j]) by {
        assert(bn[j] == scored_spec(ranked.take(m)[j], r));
        assert(ranked.take(m)[j] == ranked[j]);
        assert(cards.contains(ranked[j]));
        let q = choose|q: int| 0 <= q < cards.len() && cards[q] == ranked[j];
        assert(same_card(cards[q], bn[j]));
        assert(ranked[j].rank.ordinal_spec() == r);
    }
    assert forall|a: int, b: int| 0 <= a < b < m implies !same_card(bn[a], bn[b]) by {
        assert(bn[a] == scored_spec(ranked[a], r));
        assert(bn[b] == scored_spec(ranked[b], r));
        assert(!same_card(ranked[a], ranked[b]));
    }
    assert(remove_matching_spec(cards, set) == remove_matching_spec(cards, bn)) by {
        assert forall|i: int| 0 <= i < cards.len() implies (!seq_contains_card(
            set,
            #[trigger] cards[i],
        )) == (!seq_contains_card(bn, cards[i])) by {
            if seq_contains_card(set, cards[i]) {
                let j = choose|j: int|
                    0 <= j < set.len() && #[trigger] same_card(set[j], cards[i]);
                if j < m {
                    assert(bn[j] == scored_spec(ranked[j], r));
                    assert(set[j] == scored_spec(ranked[j], r));
                    assert(same_card(bn[j], cards[i]));
                } else {
                    assert(j >= count);
                    assert(same_card(wilds[j - count], cards[i]));
                    assert(seq_contains_card(cards, wilds[j - count]));
                }
            }
            if seq_contains_card(bn, cards[i]) {
                let j = choose|j: int|
                    0 <= j < bn.len() && #[trigger] same_card(bn[j], cards[i]);
                assert(set[j] == scored_spec(ranked[j], r));
                assert(bn[j] == scored_spec(ranked.take(m)[j], r));
                assert(ranked.take(m)[j] == ranked[j]);
                assert(same_card(set[j], cards[i]));
            }
        }
        lemma_filter_ext(
            cards,
            |c: Card| !seq_contains_card(set, c),
            |c: Card| !seq_contains_card(bn, c),
        );
    }
    lemma_remove_many_usable(cards, bn);
    assert forall|o: int|
        cards_of_rank_ord(remove_matching_spec(cards, bn), o).len() == cards_of_rank_ord(
            cards,
            o,
        ).len() - (if o == r {
            m
        } else {
            0int
        }) by {
        assert forall|j: int| 0 <= j < bn.len() implies (#[trigger] bn[j]).rank.ordinal_spec()
            == r by {
            assert(bn[j] == scored_spec(ranked.take(m)[j], r));
            assert(ranked.take(m)[j] == ranked[j]);
            assert(ranked[j].rank.ordinal_spec() == r);
        }
        lemma_remove_many_rank(cards, bn, r, o);
    }
}

/// When wild cards may join only the first set and every later set is a
/// single kicker, one more wild card keeps the whole pattern
/// satisfiable: it never makes the first set consume more natural
/// cards.
proof fn lemma_first_set_pattern_monotone(
    cards: Seq<Card>,
    wilds: Seq<Card>,
    w: Card,
    sizes: Seq<usize>,
)
    requires
        distinct_cards(cards),
        forall|j: int| 0 <= j < wilds.len() ==> !seq_contains_card(cards, #[trigger] wilds[j]),
        !seq_contains_card(cards, w),
        sizes.len() >= 1,
        sizes[0] >= 1,
        forall|j: int| 1 <= j < sizes.len() ==> sizes[j] == 1,
        make_sets_spec(cards, wilds, sizes, 0) is Some,
    ensures
        make_sets_spec(cards, wilds.push(w), sizes, 0) is Some,
{
    let n1 = sizes[0] as int;
    let wl = wilds.len() as int;
    let k = sizes.len() - 1;
    let r1 = set_rank_ord_from(cards, wl, n1, 14).unwrap();
    lemma_set_rank_props(cards, wl, n1, 14);
    let count1 = cards_of_rank_ord(cards, r1).len() as int;
    let m1 = if count1 <= n1 {
        count1
    } else {
        n1
    };
    let set1 = find_set_spec(cards, wilds, n1).unwrap();
    lemma_find_set_removal(cards, wilds, n1);
    let rem1 = remove_matching_spec(cards, set1);
    lemma_ones_tail(rem1, sizes, 1);
    assert(usable_count(rem1) >= k);
    assert(usable_count(cards) >= m1 + k);

    let wilds2 = wilds.push(w);
    assert(wilds2.len() == wl + 1);
    lemma_set_rank_monotone(cards, wl, wl + 1, n1, 14);
    let r2 = set_rank_ord_from(cards, wl + 1, n1, 14).unwrap();
    lemma_set_rank_props(cards, wl + 1, n1, 14);
    let count2 = cards_of_rank_ord(cards, r2).len() as int;
    let m2 = if count2 <= n1 {
        count2
    } else {
        n1
    };
    if r2 > r1 {
        assert(count2 + wl < n1);
        assert(count2 + wl + 1 >= n1);
        assert(count1 + wl >= n1);
        assert(m2 <= m1);
    } else {
        assert(r2 == r1);
        assert(m2 == m1);
    }
    assert(find_set_spec(cards, wilds2, n1) is Some);
    let set2 = find_set_spec(cards, wilds2, n1).unwrap();
    assert(forall|j: int|
        0 <= j < wilds2.len() ==> !seq_contains_card(cards, #[trigger] wilds2[j]));
    lemma_find_set_removal(cards, wilds2, n1);
    let rem2 = remove_matching_spec(cards, set2);
    assert(usable_count(rem2) == usable_count(cards) - m2 >= k);
    lemma_ones_tail(rem2, sizes, 1);
}


/// Whether some usable rank is held at least twice.
spec fn has_pair(cards: Seq<Card>) -> bool {
    exists|o: int| 2 <= o <= 14 && (#[trigger] cards_of_rank_ord(cards, o)).len() >= 2
}

/// With no wild cards, a pair followed by single kickers can be
/// finished exactly when a pair exists and enough usable cards remain:
/// the pair takes two of them, each kicker one.
proof fn lemma_pair_tail(cards: Seq<Card>, sizes: Seq<usize>, i: int)
    requires
        distinct_cards(cards),
        0 <= i < sizes.len(),
        sizes[i] == 2,
        forall|j: int| i < j < sizes.len() ==> sizes[j] == 1,
    ensures
        (make_sets_spec(cards, Seq::empty(), sizes, i) is Some) <==> (has_pair(cards)
            && usable_count(cards) >= sizes.len() - i + 1),
{
    if set_rank_ord_from(cards, 0, 2, 14) is Some {
        let r = set_rank_ord_from(cards, 0, 2, 14).unwrap();
        lemma_set_rank_props(cards, 0, 2, 14);
        assert(find_set_spec(cards, Seq::empty(), 2) is Some);
        lemma_find_set_removal(cards, Seq::empty(), 2);
        let set = find_set_spec(cards, Seq::empty(), 2).unwrap();
        let rem = remove_matching_spec(cards, set);
        assert(usable_count(rem) == usable_count(cards) - 2);
        lemma_ones_tail(rem, sizes, i + 1);
        assert(has_pair(cards));
    } else {
        assert(!has_pair(cards)) by {
            if has_pair(cards) {
                let o = choose|o: int|
                    2 <= o <= 14 && (#[trigger] cards_of_rank_ord(cards, o)).len() >= 2;
                lemma_set_rank_exists(cards, 0, 2, 14, o);
            }
        }
        assert(find_set_spec(cards, Seq::empty(), 2) is None);
    }
}

/// When wild cards may join only the first set, the second set is a
/// pair and the rest are single kickers, one more wild card keeps the
/// whole pattern satisfiable: the first set consumes no more natural
/// cards than before, and if it now swallows the old pair's rank, the
/// old first-set rank still holds a pair.
proof fn lemma_pair_second_pattern_monotone(
    cards: Seq<Card>,
    wilds: Seq<Card>,
    w: Card,
    sizes: Seq<usize>,
)
    requires
        distinct_cards(cards),
        forall|j: int| 0 <= j < wilds.len() ==> !seq_contains_card(cards, #[trigger] wilds[j]),
        !seq_contains_card(cards, w),
        sizes.len() >= 2,
        sizes[0] >= 1,
        sizes[1] == 2,
        forall|j: int| 2 <= j < sizes.len() ==> sizes[j] == 1,
        make_sets_spec(cards, wilds, sizes, 0) is Some,
    ensures
        make_sets_spec(cards, wilds.push(w), sizes, 0) is Some,
{
    let n1 = sizes[0] as int;
    let wl = wilds.len() as int;
    let r1 = set_rank_ord_from(cards, wl, n1, 14).unwrap();
    lemma_set_rank_props(cards, wl, n1, 14);
    let count1 = cards_of_rank_ord(cards, r1).len() as int;
    let m1 = if count1 <= n1 {
        count1
    } else {
        n1
    };
    let set1 = find_set_spec(cards, wilds, n1).unwrap();
    lemma_find_set_removal(cards, wilds, n1);
    let rem1 = remove_matching_spec(cards, set1);
    lemma_pair_tail(rem1, sizes, 1);
    assert(has_pair(rem1));
    assert(usable_count(rem1) >= sizes.len() + 1 - 2);
    let q = choose|o: int| 2 <= o <= 14 && (#[trigger] cards_of_rank_ord(rem1, o)).len() >= 2;
    assert(cards_of_rank_ord(rem1, q).len() == cards_of_rank_ord(cards, q).len() - (if q == r1 {
        m1
    } else {
        0int
    }));
    assert(cards_of_rank_ord(cards, q).len() >= 2);

    let wilds2 = wilds.push(w);
    assert(wilds2.len() == wl + 1);
    lemma_set_rank_monotone(cards, wl, wl + 1, n1, 14);
    let r2 = set_rank_ord_from(cards, wl + 1, n1, 14).unwrap();
    lemma_set_rank_props(cards, wl + 1, n1, 14);
    let count2 = cards_of_rank_ord(cards, r2).len() as int;
    let m2 = if count2 <= n1 {
        count2
    } else {
        n1
    };
    if r2 > r1 {
        assert(count2 + wl < n1);
        assert(count2 + wl + 1 >= n1);
        assert(count1 + wl >= n1);
        assert(m2 <= m1);
    } else {
        assert(r2 == r1);
        assert(m2 == m1);
    }
    assert(find_set_spec(cards, wilds2, n1) is Some);
    let set2 = find_set_spec(cards, wilds2, n1).unwrap();
    assert(forall|j: int|
        0 <= j < wilds2.len() ==> !seq_contains_card(cards, #[trigger] wilds2[j]));
    lemma_find_set_removal(cards, wilds2, n1);
    let rem2 = remove_matching_spec(cards, set2);
    assert(usable_count(rem2) == usable_count(cards) - m2 >= sizes.len() + 1 - 2);
    assert(has_pair(rem2)) by {
        if q != r2 {
            assert(cards_of_rank_ord(rem2, q).len() == cards_of_rank_ord(cards, q).len());
        } else if r2 == r1 {
            assert(cards_of_rank_ord(rem2, q).len() == cards_of_rank_ord(rem1, q).len());
        } else {
            assert(cards_of_rank_ord(rem1, q).len() == cards_of_rank_ord(cards, q).len());
            assert(count2 >= 2);
            assert(count1 >= count2 + 1);
            assert(2 <= r1 <= 14);
            assert(cards_of_rank_ord(rem2, r1).len() == count1);
        }
    }
    lemma_pair_tail(rem2, sizes, 1);
}

/// Identity determines wildness: two cards of the same rank and suit
/// are wild under exactly the same rules.
proof fn lemma_same_card_same_wildness(a: Card, b: Card, rule: Option<WildCardRule>)
    requires
        same_card(a, b),
    ensures
        is_wild_spec(a, rule) == is_wild_spec(b, rule),
{
}

/// Adding a wild card to a card set of pairwise-distinct identities
/// that classifies in any of the five set categories never weakens the
/// classification below that category: the enlarged wild pool still
/// builds it, because the first set never consumes more natural cards
/// than before, the later sets draw on what is left, and kickers only
/// need a card each.
pub proof fn lemma_added_wild_keeps_set_categories(
    all: Seq<Card>,
    rule: Option<WildCardRule>,
    w: Card,
)
    requires
        is_wild_spec(w, rule),
        distinct_cards(all),
        classify_spec(all, rule).0 == HandRank::Quads || classify_spec(all, rule).0
            == HandRank::FullHouse || classify_spec(all, rule).0 == HandRank::Triplets
            || classify_spec(all, rule).0 == HandRank::TwoPair || classify_spec(all, rule).0
            == HandRank::OnePair,
    ensures
        classify_spec(all.push(w), rule).0.value_spec() >= classify_spec(all, rule).0.value_spec(),
{
    broadcast use vstd::seq_lib::group_filter_ensures;

    let nats = naturals_of(all, rule);
    let wilds = wilds_of(all, rule);
    let got = classify_spec(all, rule).0;
    lemma_partition_push_wild(all, rule, w);
    lemma_classify_result_satisfiable(nats, wilds);
    lemma_filter_distinct(all, |c: Card| !is_wild_spec(c, rule));
    lemma_filter_elems_contained(all, |c: Card| !is_wild_spec(c, rule));
    assert forall|j: int|
        0 <= j < wilds.len() implies !seq_contains_card(nats, #[trigger] wilds[j]) by {
        if seq_contains_card(nats, wilds[j]) {
            let i = choose|i: int| 0 <= i < nats.len() && #[trigger] same_card(nats[i], wilds[j]);
            lemma_same_card_same_wildness(nats[i], wilds[j], rule);
            assert(!is_wild_spec(nats[i], rule));
            assert(is_wild_spec(wilds[j], rule));
        }
    }
    assert(!seq_contains_card(nats, w)) by {
        if seq_contains_card(nats, w) {
            let i = choose|i: int| 0 <= i < nats.len() && #[trigger] same_card(nats[i], w);
            lemma_same_card_same_wildness(nats[i], w, rule);
            assert(!is_wild_spec(nats[i], rule));
        }
    }
    if got == HandRank::Quads {
        let sizes = seq![4usize, 1usize];
        lemma_first_set_pattern_monotone(nats, wilds, w, sizes);
        lemma_classify_dominates(nats, wilds.push(w), HandRank::Quads);
    } else if got == HandRank::FullHouse {
        let sizes = seq![3usize, 2usize];
        lemma_pair_second_pattern_monotone(nats, wilds, w, sizes);
        lemma_classify_dominates(nats, wilds.push(w), HandRank::FullHouse);
    } else if got == HandRank::Triplets {
        let sizes = seq![3usize, 1usize, 1usize];
        lemma_first_set_pattern_monotone(nats, wilds, w, sizes);
        lemma_classify_dominates(nats, wilds.push(w), HandRank::Triplets);
    } else if got == HandRank::TwoPair {
        let sizes = seq![2usize, 2usize, 1usize];
        lemma_pair_second_pattern_monotone(nats, wilds, w, sizes);
        lemma_classify_dominates(nats, wilds.push(w), HandRank::TwoPair);
    } else {
        let sizes = seq![2usize, 1usize, 1usize, 1usize];
        lemma_first_set_pattern_monotone(nats, wilds, w, sizes);
        lemma_classify_dominates(nats, wilds.push(w), HandRank::OnePair);
    }
}

/// Adding a wild card to a set leaves the natural cards unchanged and
/// appends the new card to the wild pool.
pub proof fn lemma_partition_push_wild(all: Seq<Card>, rule: Option<WildCardRule>, w: Card)
    requires
        is_wild_spec(w, rule),
    ensures
        naturals_of(all.push(w), rule) == naturals_of(all, rule),
        wilds_of(all.push(w), rule) == wilds_of(all, rule).push(w),
{
    broadcast use Seq::lemma_filter_push;

}

/// Adding a wild card to a card set that classifies as a straight,
/// flush or straight flush never weakens the classification below that
/// category: the enlarged wild pool still builds it, and the classifier
/// tries categories strongest first.
pub proof fn lemma_added_wild_never_weakens(all: Seq<Card>, rule: Option<WildCardRule>, w: Card)
    requires
        is_wild_spec(w, rule),
        classify_spec(all, rule).0 == HandRank::StraightFlush || classify_spec(all, rule).0
            == HandRank::Flush || classify_spec(all, rule).0 == HandRank::Straight
            || classify_spec(all, rule).0 == HandRank::HighCard,
    ensures
        classify_spec(all.push(w), rule).0.value_spec() >= classify_spec(all, rule).0.value_spec(),
{
    let nats = naturals_of(all, rule);
    let wilds = wilds_of(all, rule);
    let got = classify_spec(all, rule).0;
    lemma_partition_push_wild(all, rule, w);
    lemma_classify_result_satisfiable(nats, wilds);
    if got == HandRank::StraightFlush {
        lemma_straight_flush_monotone_in_wilds(nats, wilds, wilds.push(w));
        lemma_classify_dominates(nats, wilds.push(w), HandRank::StraightFlush);
    } else if got == HandRank::Flush {
        lemma_flush_monotone_in_wilds(nats, wilds, wilds.push(w));
        lemma_classify_dominates(nats, wilds.push(w), HandRank::Flush);
    } else if got == HandRank::Straight {
        lemma_straight_monotone_in_wilds(nats, wilds, wilds.push(w));
        lemma_classify_dominates(nats, wilds.push(w), HandRank::Straight);
    }
}

/// Adding a wild card never weakens a classification: whatever category
/// a set of pairwise-distinct cards satisfies, the set with one more
/// wild card still satisfies it, so the classifier, trying categories
/// strongest first, settles at least as high.
pub proof fn lemma_added_wild_monotone(all: Seq<Card>, rule: Option<WildCardRule>, w: Card)
    requires
        is_wild_spec(w, rule),
        distinct_cards(all),
    ensures
        classify_spec(all.push(w), rule).0.value_spec() >= classify_spec(all, rule).0.value_spec(),
{
    let got = classify_spec(all, rule).0;
    if got == HandRank::StraightFlush || got == HandRank::Flush || got == HandRank::Straight
        || got == HandRank::HighCard {
        lemma_added_wild_never_weakens(all, rule, w);
    } else {
        lemma_added_wild_keeps_set_categories(all, rule, w);
    }
}

} // verus!
