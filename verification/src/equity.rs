//! The equity engine: enumerates every completion of a partially dealt
//! board, classifies each player's cards for each completion, and
//! tallies wins, losses and splits per player.

use vstd::prelude::*;

use itertools::Itertools;

use crate::card::Card;
use crate::card::add_cards;
use crate::card::seq_contains_card;
use crate::poker_hand::HandRank;
use crate::poker_hand::PokerHand;
use crate::poker_hand::classify_spec;
use crate::poker_hand::naturals_of;
use crate::poker_hand::score_spec;
use crate::poker_hand::sum_sizes;
use crate::poker_hand::wilds_of;
use crate::win_lose_split::WinLoseSplit;

verus! {

broadcast use vstd::seq_lib::group_seq_properties;

/// With no wild-card rule, every card is natural and the wild pool is
/// empty.
pub proof fn lemma_no_wilds(s: Seq<Card>)
    ensures
        naturals_of(s, None) == s,
        wilds_of(s, None) == Seq::<Card>::empty(),
    decreases s.len(),
{
    reveal(Seq::filter);
    if s.len() > 0 {
        lemma_no_wilds(s.drop_last());
        assert(s.drop_last().push(s.last()) =~= s);
    }
}

/// The score of the best hand a player makes from the board and their
/// pocket, in a game without wild cards.
pub open spec fn player_score(board: Seq<Card>, pocket: Seq<Card>) -> int {
    let h = classify_spec(board + pocket, None);
    score_spec(h.0, h.1)
}

/// The scores all players make on one board.
pub open spec fn board_scores(pockets: Seq<Vec<Card>>, board: Seq<Card>) -> Seq<int> {
    Seq::new(pockets.len(), |i: int| player_score(board, pockets[i]@))
}

/// The largest of a nonempty sequence of scores.
pub open spec fn max_score_of(scores: Seq<int>) -> int
    decreases scores.len(),
{
    if scores.len() <= 1 {
        scores[0]
    } else {
        let m = max_score_of(scores.drop_last());
        if scores.last() > m {
            scores.last()
        } else {
            m
        }
    }
}

/// How many scores attain the maximum.
pub open spec fn count_max(scores: Seq<int>) -> int {
    scores.filter(|v: int| v == max_score_of(scores)).len() as int
}

/// Every score is bounded by the maximum.
proof fn lemma_max_is_bound(scores: Seq<int>)
    requires
        scores.len() >= 1,
    ensures
        forall|i: int| 0 <= i < scores.len() ==> scores[i] <= max_score_of(scores),
    decreases scores.len(),
{
    if scores.len() > 1 {
        lemma_max_is_bound(scores.drop_last());
        assert forall|i: int| 0 <= i < scores.len() implies scores[i] <= max_score_of(scores) by {
            if i < scores.len() - 1 {
                assert(scores.drop_last()[i] == scores[i]);
            }
        }
    }
}

/// A sequence with no element satisfying the predicate filters to
/// nothing.
proof fn lemma_filter_none(s: Seq<int>, pred: spec_fn(int) -> bool)
    requires
        forall|i: int| 0 <= i < s.len() ==> !pred(#[trigger] s[i]),
    ensures
        s.filter(pred).len() == 0,
    decreases s.len(),
{
    reveal(Seq::filter);
    if s.len() > 0 {
        assert(forall|i: int|
            0 <= i < s.drop_last().len() ==> #[trigger] s.drop_last()[i] == s[i]);
        lemma_filter_none(s.drop_last(), pred);
    }
}

/// How the maximum and the count of maxima change when one more score
/// arrives.
proof fn lemma_max_count_push(s: Seq<int>, x: int)
    requires
        s.len() >= 1,
    ensures
        max_score_of(s.push(x)) == if x > max_score_of(s) {
            x
        } else {
            max_score_of(s)
        },
        x > max_score_of(s) ==> count_max(s.push(x)) == 1,
        x == max_score_of(s) ==> count_max(s.push(x)) == count_max(s) + 1,
        x < max_score_of(s) ==> count_max(s.push(x)) == count_max(s),
{
    broadcast use Seq::lemma_filter_push;

    assert(s.push(x).drop_last() =~= s);
    assert(s.push(x).last() == x);
    let m = max_score_of(s);
    let mp = max_score_of(s.push(x));
    lemma_max_is_bound(s);
    if x > m {
        let pred = |v: int| v == mp;
        assert(forall|i: int| 0 <= i < s.len() ==> !pred(#[trigger] s[i]));
        lemma_filter_none(s, pred);
        assert(s.push(x).filter(pred) == s.filter(pred).push(x));
        assert(count_max(s.push(x)) == 1);
    } else {
        assert(mp == m);
        let pred = |v: int| v == m;
        assert((|v: int| v == max_score_of(s.push(x))) =~= pred);
        assert((|v: int| v == max_score_of(s)) =~= pred);
        assert(s.push(x).filter(pred) == if pred(x) {
            s.filter(pred).push(x)
        } else {
            s.filter(pred)
        });
        assert(count_max(s.push(x)) == s.push(x).filter(pred).len());
        assert(count_max(s) == s.filter(pred).len());
    }
}

/// A per-player histogram of hand categories, indexed by category
/// value.
pub struct HandRankCount(pub Vec<usize>);

impl HandRankCount {
    /// The histogram shape: one bucket per category.
    pub open spec fn wf(self) -> bool {
        self.0@.len() == 9
    }

    /// A zeroed histogram.
    pub fn new() -> (r: HandRankCount)
        ensures
            r.wf(),
            forall|j: int| 0 <= j < 9 ==> r.0@[j] == 0,
            sum_sizes(r.0@) == 0,
    {
        let mut v: Vec<usize> = Vec::new();
        let mut i: usize = 0;
        while i < 9
            invariant
                i <= 9,
                v@.len() == i,
                forall|j: int| 0 <= j < i ==> v@[j] == 0,
            decreases 9 - i,
        {
            v.push(0);
            i += 1;
        }
        proof {
            lemma_sum_zero(v@);
        }
        HandRankCount(v)
    }

    /// Counts one more hand of the given category.
    pub fn inc(&mut self, rank: HandRank)
        requires
            old(self).wf(),
            old(self).0@[rank.value_spec()] < usize::MAX,
        ensures
            final(self).wf(),
            final(self).0@ == old(self).0@.update(
                rank.value_spec(),
                (old(self).0@[rank.value_spec()] + 1) as usize,
            ),
    {
        let v = rank.value();
        let c = self.0[v];
        self.0.set(v, c + 1);
    }
}

proof fn lemma_sum_zero(s: Seq<usize>)
    requires
        forall|j: int| 0 <= j < s.len() ==> s[j] == 0,
    ensures
        sum_sizes(s) == 0,
    decreases s.len(),
{
    if s.len() > 0 {
        assert(forall|j: int| 0 <= j < s.skip(1).len() ==> #[trigger] s.skip(1)[j] == s[j + 1]);
        lemma_sum_zero(s.skip(1));
    }
}

/// Determines the round winners: classifies each player's pocket with
/// the board, and returns, in ascending order, the indexes of all
/// players whose hand score equals the round's maximum. Each player's
/// category histogram gains one count.
#[verifier::rlimit(100)]
pub fn find_winners(
    pockets: &Vec<Vec<Card>>,
    board: &Vec<Card>,
    hand_rank_counts: &mut Vec<HandRankCount>,
) -> (r: Vec<usize>)
    requires
        old(hand_rank_counts)@.len() == pockets@.len(),
        forall|i: int| 0 <= i < pockets@.len() ==> (#[trigger] old(hand_rank_counts)@[i]).wf(),
        forall|i: int, j: int|
            0 <= i < pockets@.len() && 0 <= j < 9 ==> (#[trigger] old(
                hand_rank_counts,
            )@[i].0@[j]) < usize::MAX,
        forall|i: int|
            0 <= i < pockets@.len() ==> board@.len() + (#[trigger] pockets@[i])@.len() >= 5,
    ensures
        final(hand_rank_counts)@.len() == pockets@.len(),
        forall|i: int|
            0 <= i < pockets@.len() ==> (#[trigger] final(hand_rank_counts)@[i]).0@ == old(
                hand_rank_counts,
            )@[i].0@.update(
                classify_spec(board@ + pockets@[i]@, None).0.value_spec(),
                (old(hand_rank_counts)@[i].0@[classify_spec(
                    board@ + pockets@[i]@,
                    None,
                ).0.value_spec()] + 1) as usize,
            ),
        forall|a: int, b: int| 0 <= a < b < r@.len() ==> r@[a] < r@[b],
        forall|j: usize|
            r@.contains(j) <==> 0 <= j < pockets@.len() && player_score(board@, pockets@[j as int]@)
                == max_score_of(board_scores(pockets@, board@)),
        pockets@.len() > 0 ==> r@.len() == count_max(board_scores(pockets@, board@)),
        pockets@.len() == 0 ==> r@.len() == 0,
{
    let ghost scores = board_scores(pockets@, board@);
    let mut winners: Vec<usize> = Vec::new();
    let mut best: i32 = 0;
    let n = pockets.len();
    for index in 0..n
        invariant
            n == pockets@.len(),
            scores == board_scores(pockets@, board@),
            hand_rank_counts@.len() == n,
            forall|i: int|
                0 <= i < n ==> board@.len() + (#[trigger] pockets@[i])@.len() >= 5,
            forall|i: int, j: int|
                0 <= i < n && 0 <= j < 9 ==> (#[trigger] old(hand_rank_counts)@[i].0@[j])
                    < usize::MAX,
            forall|i: int| 0 <= i < n ==> (#[trigger] old(hand_rank_counts)@[i]).wf(),
            forall|i: int|
                index <= i < n ==> #[trigger] hand_rank_counts@[i] == old(hand_rank_counts)@[i],
            forall|i: int|
                0 <= i < index ==> (#[trigger] hand_rank_counts@[i]).0@ == old(
                    hand_rank_counts,
                )@[i].0@.update(
                    classify_spec(board@ + pockets@[i]@, None).0.value_spec(),
                    (old(hand_rank_counts)@[i].0@[classify_spec(
                        board@ + pockets@[i]@,
                        None,
                    ).0.value_spec()] + 1) as usize,
                ),
            forall|a: int, b: int| 0 <= a < b < winners@.len() ==> winners@[a] < winners@[b],
            forall|a: int| 0 <= a < winners@.len() ==> (#[trigger] winners@[a]) < index,
            index > 0 ==> best == max_score_of(scores.take(index as int)),
            index > 0 ==> winners@.len() == count_max(scores.take(index as int)),
            index == 0 ==> winners@.len() == 0,
            forall|j: usize|
                winners@.contains(j) <==> 0 <= j < index && scores[j as int] == max_score_of(
                    scores.take(index as int),
                ),
    {
        let current = add_cards(board.as_slice(), pockets[index].as_slice());
        proof {
            lemma_no_wilds(current@);
            assert(scores[index as int] == player_score(board@, pockets@[index as int]@));
        }
        let hand = PokerHand::build(current.as_slice(), &None);
        proof {
            assert(hand.score == scores[index as int]);
        }
        let ghost counts_before = hand_rank_counts@;
        let mut counter = hand_rank_counts.remove(index);
        counter.inc(hand.rank);
        hand_rank_counts.insert(index, counter);
        proof {
            assert(hand_rank_counts@ =~= counts_before.update(
                index as int,
                hand_rank_counts@[index as int],
            ));
            assert(scores.take(index + 1).drop_last() =~= scores.take(index as int));
            assert(scores.take(index + 1).last() == scores[index as int]);
            if index > 0 {
                lemma_max_count_push(scores.take(index as int), scores[index as int]);
                assert(scores.take(index as int).push(scores[index as int]) =~= scores.take(
                    index + 1,
                ));
            } else {
                assert(scores.take(1) =~= seq![scores[0]]);
                assert(max_score_of(scores.take(1)) == scores[0]);
                assert((|v: int| v == max_score_of(scores.take(1))) =~= (|v: int| v
                    == scores[0]));
                assert(scores.take(1).filter(|v: int| v == scores[0]) =~= scores.take(1)) by {
                    broadcast use Seq::lemma_filter_push;

                    assert(scores.take(1) =~= Seq::<int>::empty().push(scores[0]));
                    assert(Seq::<int>::empty().filter(|v: int| v == scores[0])
                        == Seq::<int>::empty());
                }
                assert(count_max(scores.take(1)) == 1);
            }
        }
        if index == 0 {
            winners.push(index);
            best = hand.score;
        } else if hand.score > best {
            winners = Vec::new();
            winners.push(index);
            best = hand.score;
        } else if hand.score == best {
            winners.push(index);
        }
        proof {
            if index > 0 {
                lemma_max_is_bound(scores.take(index as int));
            }
            assert forall|j: usize| winners@.contains(j) implies 0 <= j < index + 1
                && scores[j as int] == max_score_of(scores.take(index + 1)) by {}
            assert forall|j: usize|
                0 <= j < index + 1 && scores[j as int] == max_score_of(
                    scores.take(index + 1),
                ) implies winners@.contains(j) by {
                if j < index {
                    assert(scores.take(index as int)[j as int] == scores[j as int]);
                }
            }
        }
    }
    proof {
        assert(scores.take(n as int) =~= scores);
        assert forall|j: usize| winners@.contains(j) implies 0 <= j < pockets@.len()
            && player_score(board@, pockets@[j as int]@) == max_score_of(
            board_scores(pockets@, board@),
        ) by {
            assert(scores[j as int] == player_score(board@, pockets@[j as int]@));
        }
        assert forall|j: usize|
            0 <= j < pockets@.len() && player_score(board@, pockets@[j as int]@) == max_score_of(
                board_scores(pockets@, board@),
            ) implies winners@.contains(j) by {
            assert(scores[j as int] == player_score(board@, pockets@[j as int]@));
        }
    }
    winners
}

/// All `k`-element combinations of a sequence, in lexicographic order
/// of element positions: first every combination using the head, then
/// every combination without it.
pub open spec fn combos_spec(s: Seq<Card>, k: nat) -> Seq<Seq<Card>>
    decreases s.len(),
{
    if k == 0 {
        seq![Seq::<Card>::empty()]
    } else if s.len() == 0 {
        Seq::empty()
    } else {
        combos_spec(s.skip(1), (k - 1) as nat).map_values(|c: Seq<Card>| seq![s[0]] + c)
            + combos_spec(s.skip(1), k)
    }
}

/// Every combination has exactly `k` cards.
proof fn lemma_combos_elem_len(s: Seq<Card>, k: nat)
    ensures
        forall|j: int|
            0 <= j < combos_spec(s, k).len() ==> (#[trigger] combos_spec(s, k)[j]).len() == k,
    decreases s.len(),
{
    if k == 0 || s.len() == 0 {
    } else {
        lemma_combos_elem_len(s.skip(1), (k - 1) as nat);
        lemma_combos_elem_len(s.skip(1), k);
        let a = combos_spec(s.skip(1), (k - 1) as nat).map_values(|c: Seq<Card>| seq![s[0]] + c);
        let b = combos_spec(s.skip(1), k);
        assert forall|j: int| 0 <= j < combos_spec(s, k).len() implies (#[trigger] combos_spec(
            s,
            k,
        )[j]).len() == k by {
            if j < a.len() {
                assert(combos_spec(s, k)[j] == a[j]);
                assert(a[j] == seq![s[0]] + combos_spec(s.skip(1), (k - 1) as nat)[j]);
            } else {
                assert(combos_spec(s, k)[j] == b[j - a.len()]);
            }
        }
    }
}

/// An integer power, used only to bound combination counts.
pub open spec fn pow_int(b: int, e: nat) -> int
    decreases e,
{
    if e == 0 {
        1
    } else {
        b * pow_int(b, (e - 1) as nat)
    }
}

proof fn lemma_pow_int_pos(b: int, e: nat)
    requires
        b >= 1,
    ensures
        pow_int(b, e) >= 1,
    decreases e,
{
    if e > 0 {
        lemma_pow_int_pos(b, (e - 1) as nat);
        assert(b * pow_int(b, (e - 1) as nat) >= 1) by (nonlinear_arith)
            requires
                b >= 1,
                pow_int(b, (e - 1) as nat) >= 1,
        ;
    }
}

proof fn lemma_pow_int_base_mono(a: int, b: int, e: nat)
    requires
        1 <= a <= b,
    ensures
        pow_int(a, e) <= pow_int(b, e),
    decreases e,
{
    if e > 0 {
        lemma_pow_int_base_mono(a, b, (e - 1) as nat);
        lemma_pow_int_pos(a, (e - 1) as nat);
        assert(a * pow_int(a, (e - 1) as nat) <= b * pow_int(b, (e - 1) as nat))
            by (nonlinear_arith)
            requires
                1 <= a <= b,
                1 <= pow_int(a, (e - 1) as nat) <= pow_int(b, (e - 1) as nat),
        ;
    }
}

/// The number of combinations is bounded by a power of the pool size
/// plus one.
proof fn lemma_combos_len_bound(s: Seq<Card>, k: nat)
    ensures
        combos_spec(s, k).len() <= pow_int(s.len() as int + 1, k),
    decreases s.len(),
{
    let n = s.len() as int;
    if k == 0 {
        lemma_pow_int_pos(n + 1, 0);
    } else if s.len() == 0 {
        lemma_pow_int_pos(n + 1, k);
    } else {
        lemma_combos_len_bound(s.skip(1), (k - 1) as nat);
        lemma_combos_len_bound(s.skip(1), k);
        lemma_pow_int_base_mono(n, n + 1, (k - 1) as nat);
        lemma_pow_int_pos(n, (k - 1) as nat);
        assert(pow_int(n, (k - 1) as nat) + n * pow_int(n, (k - 1) as nat) == (n + 1) * pow_int(
            n,
            (k - 1) as nat,
        )) by (nonlinear_arith);
        assert((n + 1) * pow_int(n, (k - 1) as nat) <= (n + 1) * pow_int(n + 1, (k - 1) as nat))
            by (nonlinear_arith)
            requires
                n >= 1,
                1 <= pow_int(n, (k - 1) as nat) <= pow_int(n + 1, (k - 1) as nat),
        ;
    }
}

/// For a pool of at most 52 cards and at most 5 draws, the number of
/// combinations stays comfortably inside an `i32`.
proof fn lemma_combos_card_bound(s: Seq<Card>, k: nat)
    requires
        s.len() <= 52,
        k <= 5,
    ensures
        combos_spec(s, k).len() <= 418195493,
    decreases 5 - k,
{
    lemma_combos_len_bound(s, k);
    lemma_pow_int_base_mono(s.len() as int + 1, 53, k);
    assert(pow_int(53, 0) == 1);
    assert(pow_int(53, 1) == 53);
    assert(pow_int(53, 2) == 2809);
    assert(pow_int(53, 3) == 148877);
    assert(pow_int(53, 4) == 7890481);
    assert(pow_int(53, 5) == 418195493);
    if k < 5 {
        assert(pow_int(53, k) <= 418195493) by {
            lemma_pow_int_pos(53, k);
            if k == 0 {
            } else if k == 1 {
            } else if k == 2 {
            } else if k == 3 {
            } else {
            }
        }
    }
}

/// Relies on itertools' `combinations`: it yields every `k`-element
/// combination of the iterated elements, cloning each, in lexicographic
/// order of element positions.
#[verifier::external_body]
fn combinations_of(deck: &Vec<Card>, k: usize) -> (r: Vec<Vec<Card>>)
    ensures
        r@.map_values(|v: Vec<Card>| v@) == combos_spec(deck@, k as nat),
{
    deck.iter().combinations(k).map(|refs| refs.into_iter().cloned().collect()).collect()
}

/// The cards of all pockets, one pocket after another.
pub open spec fn flatten_cards(s: Seq<Vec<Card>>) -> Seq<Card>
    decreases s.len(),
{
    if s.len() == 0 {
        Seq::empty()
    } else {
        flatten_cards(s.drop_last()) + s.last()@
    }
}

/// What is left of a fresh 52-card deck once every pocket and board
/// card is removed by identity.
pub open spec fn remaining_deck_spec(pockets: Seq<Vec<Card>>, board: Seq<Card>) -> Seq<Card> {
    crate::deck::full_deck_spec().filter(
        |c: Card| !seq_contains_card(flatten_cards(pockets) + board, c),
    )
}

/// Every complete board an equity run enumerates: the known board cards
/// followed by each possible completion from the remaining deck.
pub open spec fn complete_boards(pockets: Seq<Vec<Card>>, board: Seq<Card>) -> Seq<Seq<Card>> {
    combos_spec(remaining_deck_spec(pockets, board), (5 - board.len()) as nat).map_values(
        |c: Seq<Card>| board + c,
    )
}

/// Player `i` wins a board alone: their score is the round maximum and
/// nobody ties it.
pub open spec fn is_win(pockets: Seq<Vec<Card>>, board: Seq<Card>, i: int) -> bool {
    let sc = board_scores(pockets, board);
    sc[i] == max_score_of(sc) && count_max(sc) == 1
}

/// Player `i` splits a board: their score is the round maximum but at
/// least one other player ties it.
pub open spec fn is_split(pockets: Seq<Vec<Card>>, board: Seq<Card>, i: int) -> bool {
    let sc = board_scores(pockets, board);
    sc[i] == max_score_of(sc) && count_max(sc) > 1
}

/// Player `i` loses a board: some other player scores higher.
pub open spec fn is_loss(pockets: Seq<Vec<Card>>, board: Seq<Card>, i: int) -> bool {
    let sc = board_scores(pockets, board);
    sc[i] != max_score_of(sc)
}

/// How many of the boards player `i` wins alone.
pub open spec fn win_count(pockets: Seq<Vec<Card>>, boards: Seq<Seq<Card>>, i: int) -> int
    decreases boards.len(),
{
    if boards.len() == 0 {
        0
    } else {
        win_count(pockets, boards.drop_last(), i) + (if is_win(pockets, boards.last(), i) {
            1int
        } else {
            0int
        })
    }
}

/// How many of the boards player `i` splits.
pub open spec fn split_count(pockets: Seq<Vec<Card>>, boards: Seq<Seq<Card>>, i: int) -> int
    decreases boards.len(),
{
    if boards.len() == 0 {
        0
    } else {
        split_count(pockets, boards.drop_last(), i) + (if is_split(pockets, boards.last(), i) {
            1int
        } else {
            0int
        })
    }
}

/// How many of the boards player `i` loses.
pub open spec fn loss_count(pockets: Seq<Vec<Card>>, boards: Seq<Seq<Card>>, i: int) -> int
    decreases boards.len(),
{
    if boards.len() == 0 {
        0
    } else {
        loss_count(pockets, boards.drop_last(), i) + (if is_loss(pockets, boards.last(), i) {
            1int
        } else {
            0int
        })
    }
}

/// Whether a vector of indexes holds the given one.
fn contains_index(v: &Vec<usize>, x: usize) -> (r: bool)
    ensures
        r == v@.contains(x),
{
    let n = v.len();
    for i in 0..n
        invariant
            n == v@.len(),
            forall|j: int| 0 <= j < i ==> v@[j] != x,
    {
        if v[i] == x {
            return true;
        }
    }
    false
}

/// Applies one round's outcome to every player's tally: the round's
/// sole winner gains a win, tied winners gain splits, everyone else a
/// loss.
fn tally_round(
    results: &mut Vec<WinLoseSplit>,
    winners: &Vec<usize>,
    Ghost(pockets): Ghost<Seq<Vec<Card>>>,
    Ghost(b): Ghost<Seq<Card>>,
)
    requires
        old(results)@.len() == pockets.len(),
        pockets.len() > 0 ==> winners@.len() == count_max(board_scores(pockets, b)),
        forall|j: usize|
            winners@.contains(j) <==> 0 <= j < pockets.len() && player_score(b, pockets[j as int]@)
                == max_score_of(board_scores(pockets, b)),
        forall|i: int|
            0 <= i < pockets.len() ==> {
                let w = #[trigger] old(results)@[i];
                0 <= w.wins < i32::MAX && 0 <= w.losses < i32::MAX && 0 <= w.splits < i32::MAX
            },
    ensures
        final(results)@.len() == pockets.len(),
        forall|i: int|
            0 <= i < pockets.len() ==> #[trigger] final(results)@[i] == (WinLoseSplit {
                wins: (old(results)@[i].wins + if is_win(pockets, b, i) {
                    1int
                } else {
                    0int
                }) as i32,
                losses: (old(results)@[i].losses + if is_loss(pockets, b, i) {
                    1int
                } else {
                    0int
                }) as i32,
                splits: (old(results)@[i].splits + if is_split(pockets, b, i) {
                    1int
                } else {
                    0int
                }) as i32,
            }),
{
    let n = results.len();
    for index in 0..n
        invariant
            n == pockets.len(),
            results@.len() == n,
            pockets.len() > 0 ==> winners@.len() == count_max(board_scores(pockets, b)),
            forall|j: usize|
                winners@.contains(j) <==> 0 <= j < pockets.len() && player_score(
                    b,
                    pockets[j as int]@,
                ) == max_score_of(board_scores(pockets, b)),
            forall|i: int|
                0 <= i < pockets.len() ==> {
                    let w = #[trigger] old(results)@[i];
                    0 <= w.wins < i32::MAX && 0 <= w.losses < i32::MAX && 0 <= w.splits < i32::MAX
                },
            forall|i: int| index <= i < n ==> #[trigger] results@[i] == old(results)@[i],
            forall|i: int|
                0 <= i < index ==> #[trigger] results@[i] == (WinLoseSplit {
                    wins: (old(results)@[i].wins + if is_win(pockets, b, i) {
                        1int
                    } else {
                        0int
                    }) as i32,
                    losses: (old(results)@[i].losses + if is_loss(pockets, b, i) {
                        1int
                    } else {
                        0int
                    }) as i32,
                    splits: (old(results)@[i].splits + if is_split(pockets, b, i) {
                        1int
                    } else {
                        0int
                    }) as i32,
                }),
    {
        let mut w = results[index];
        let in_winners = contains_index(winners, index);
        proof {
            let sc = board_scores(pockets, b);
            assert(in_winners == (sc[index as int] == max_score_of(sc)));
            assert(winners@.len() == count_max(sc));
        }
        if in_winners {
            if winners.len() == 1 {
                w.wins = w.wins + 1;
            } else {
                w.splits = w.splits + 1;
            }
        } else {
            w.losses = w.losses + 1;
        }
        results.set(index, w);
    }
}

proof fn lemma_max_index(s: Seq<int>)
    requires
        s.len() >= 1,
    ensures
        exists|i: int| 0 <= i < s.len() && s[i] == max_score_of(s),
    decreases s.len(),
{
    if s.len() == 1 {
        assert(s[0] == max_score_of(s));
    } else {
        if s.last() > max_score_of(s.drop_last()) {
            assert(s[s.len() - 1] == max_score_of(s));
        } else {
            lemma_max_index(s.drop_last());
            let i = choose|i: int|
                0 <= i < s.drop_last().len() && s.drop_last()[i] == max_score_of(s.drop_last());
            assert(s[i] == max_score_of(s));
        }
    }
}

/// The maximum is attained, so at least one score counts as a winner.
proof fn lemma_max_attained(s: Seq<int>)
    requires
        s.len() >= 1,
    ensures
        count_max(s) >= 1,
{
    broadcast use vstd::seq_lib::group_filter_ensures;

    let pred = |v: int| v == max_score_of(s);
    lemma_max_index(s);
    let i = choose|i: int| 0 <= i < s.len() && s[i] == max_score_of(s);
    s.lemma_filter_contains(pred, i);
    assert(s.filter(pred).contains(s[i]));
}

proof fn lemma_sum_update(s: Seq<usize>, j: int, v: usize)
    requires
        0 <= j < s.len(),
    ensures
        sum_sizes(s.update(j, v)) == sum_sizes(s) - s[j] + v,
    decreases s.len(),
{
    if j == 0 {
        assert(s.update(0, v).skip(1) =~= s.skip(1));
    } else {
        assert(s.update(j, v).skip(1) =~= s.skip(1).update(j - 1, v));
        lemma_sum_update(s.skip(1), j - 1, v);
    }
}

proof fn lemma_sum_element(s: Seq<usize>, j: int)
    requires
        0 <= j < s.len(),
    ensures
        s[j] <= sum_sizes(s),
        sum_sizes(s) >= 0,
    decreases s.len(),
{
    lemma_sum_nonneg(s.skip(1));
    if j > 0 {
        lemma_sum_element(s.skip(1), j - 1);
    }
}

proof fn lemma_sum_nonneg(s: Seq<usize>)
    ensures
        sum_sizes(s) >= 0,
    decreases s.len(),
{
    if s.len() > 0 {
        lemma_sum_nonneg(s.skip(1));
    }
}

/// Computes each player's equity against every completion of the board:
/// removes the known cards from a fresh deck, enumerates all
/// completions, classifies every player's cards on each, and tallies a
/// win, split or loss per player per completion. Afterwards every
/// player's tally sums to the number of completions, and each category
/// histogram has grown by the same number of counts.
#[verifier::rlimit(100)]
pub fn hold_em_odds(
    pockets: &Vec<Vec<Card>>,
    board: &Vec<Card>,
    hand_rank_counts: &mut Vec<HandRankCount>,
) -> (r: Vec<WinLoseSplit>)
    requires
        board@.len() <= 5,
        old(hand_rank_counts)@.len() == pockets@.len(),
        forall|i: int| 0 <= i < pockets@.len() ==> (#[trigger] old(hand_rank_counts)@[i]).wf(),
        forall|i: int, j: int|
            0 <= i < pockets@.len() && 0 <= j < 9 ==> (#[trigger] old(
                hand_rank_counts,
            )@[i].0@[j]) == 0,
    ensures
        r@.len() == pockets@.len(),
        forall|i: int|
            0 <= i < pockets@.len() ==> #[trigger] r@[i].wins == win_count(
                pockets@,
                complete_boards(pockets@, board@),
                i,
            ),
        forall|i: int|
            0 <= i < pockets@.len() ==> #[trigger] r@[i].losses == loss_count(
                pockets@,
                complete_boards(pockets@, board@),
                i,
            ),
        forall|i: int|
            0 <= i < pockets@.len() ==> #[trigger] r@[i].splits == split_count(
                pockets@,
                complete_boards(pockets@, board@),
                i,
            ),
        forall|i: int|
            0 <= i < pockets@.len() ==> #[trigger] r@[i].wins + r@[i].losses + r@[i].splits
                == complete_boards(pockets@, board@).len(),
        forall|i: int|
            0 <= i < pockets@.len() ==> 0 <= #[trigger] r@[i].wins && 0 <= r@[i].losses && 0
                <= r@[i].splits,
        final(hand_rank_counts)@.len() == pockets@.len(),
        forall|i: int| 0 <= i < pockets@.len() ==> (#[trigger] final(hand_rank_counts)@[i]).wf(),
        forall|i: int|
            0 <= i < pockets@.len() ==> sum_sizes(#[trigger] final(hand_rank_counts)@[i].0@)
                == complete_boards(pockets@, board@).len(),
{
    broadcast use vstd::seq_lib::group_filter_ensures;

    let n = pockets.len();
    let deck = crate::deck::make_deck();
    let mut used: Vec<Card> = Vec::new();
    for p in 0..n
        invariant
            n == pockets@.len(),
            used@ == flatten_cards(pockets@.take(p as int)),
    {
        proof {
            assert(pockets@.take(p + 1).drop_last() =~= pockets@.take(p as int));
            assert(pockets@.take(p + 1).last() == pockets@[p as int]);
        }
        let mut more = vstd::slice::slice_to_vec(pockets[p].as_slice());
        used.append(&mut more);
    }
    proof {
        assert(pockets@.take(n as int) =~= pockets@);
    }
    let mut board_copy = vstd::slice::slice_to_vec(board.as_slice());
    used.append(&mut board_copy);
    proof {
        assert(used@ == flatten_cards(pockets@) + board@);
    }
    let remaining = crate::card::remove_cards(deck.as_slice(), used.as_slice());
    proof {
        assert(remaining@ == remaining_deck_spec(pockets@, board@));
        assert(remaining@.len() <= 52) by {
            crate::deck::full_deck_spec().lemma_filter_len(
                |c: Card| !seq_contains_card(flatten_cards(pockets@) + board@, c),
            );
        }
    }
    let k = 5 - board.len();
    let combos = combinations_of(&remaining, k);
    let ghost cviews = combos@.map_values(|v: Vec<Card>| v@);
    let ghost boards = complete_boards(pockets@, board@);
    proof {
        lemma_combos_card_bound(remaining@, k as nat);
        lemma_combos_elem_len(remaining@, k as nat);
        assert(boards == cviews.map_values(|c: Seq<Card>| board@ + c));
    }
    let mut results: Vec<WinLoseSplit> = Vec::new();
    let mut i: usize = 0;
    while i < n
        invariant
            i <= n,
            results@.len() == i,
            forall|j: int|
                0 <= j < i ==> #[trigger] results@[j] == (WinLoseSplit {
                    wins: 0i32,
                    losses: 0i32,
                    splits: 0i32,
                }),
        decreases n - i,
    {
        results.push(WinLoseSplit::new());
        i += 1;
    }
    let m = combos.len();
    let ghost counts0 = old(hand_rank_counts)@;
    proof {
        assert forall|i2: int| 0 <= i2 < n implies sum_sizes(
            #[trigger] hand_rank_counts@[i2].0@,
        ) == 0 by {
            lemma_sum_zero(hand_rank_counts@[i2].0@);
        }
    }
    for t in 0..m
        invariant
            n == pockets@.len(),
            m == combos@.len() <= 418195493,
            cviews == combos@.map_values(|v: Vec<Card>| v@),
            boards == complete_boards(pockets@, board@),
            boards == cviews.map_values(|c: Seq<Card>| board@ + c),
            forall|j: int| 0 <= j < m ==> (#[trigger] cviews[j]).len() == k,
            k == 5 - board@.len(),
            counts0 == old(hand_rank_counts)@,
            counts0.len() == n,
            forall|i2: int| 0 <= i2 < n ==> (#[trigger] counts0[i2]).wf(),
            forall|i2: int, j: int| 0 <= i2 < n && 0 <= j < 9 ==> (#[trigger] counts0[i2].0@[j]) == 0,
            hand_rank_counts@.len() == n,
            forall|i2: int| 0 <= i2 < n ==> (#[trigger] hand_rank_counts@[i2]).wf(),
            forall|i2: int|
                0 <= i2 < n ==> sum_sizes(#[trigger] hand_rank_counts@[i2].0@) == t,
            results@.len() == n,
            forall|i2: int|
                0 <= i2 < n ==> #[trigger] results@[i2].wins == win_count(
                    pockets@,
                    boards.take(t as int),
                    i2,
                ),
            forall|i2: int|
                0 <= i2 < n ==> #[trigger] results@[i2].losses == loss_count(
                    pockets@,
                    boards.take(t as int),
                    i2,
                ),
            forall|i2: int|
                0 <= i2 < n ==> #[trigger] results@[i2].splits == split_count(
                    pockets@,
                    boards.take(t as int),
                    i2,
                ),
            forall|i2: int|
                0 <= i2 < n ==> #[trigger] results@[i2].wins + results@[i2].losses
                    + results@[i2].splits == t,
            forall|i2: int|
                0 <= i2 < n ==> 0 <= #[trigger] results@[i2].wins && 0 <= results@[i2].losses && 0
                    <= results@[i2].splits,
    {
        let complete = add_cards(board.as_slice(), combos[t].as_slice());
        proof {
            assert(cviews[t as int] == combos@[t as int]@);
            assert(complete@ == boards[t as int]);
            assert(complete@.len() == 5);
            assert forall|i2: int, j: int|
                0 <= i2 < n && 0 <= j < 9 implies (#[trigger] hand_rank_counts@[i2].0@[j])
                < usize::MAX by {
                lemma_sum_element(hand_rank_counts@[i2].0@, j);
            }
        }
        let ghost counts_pre = hand_rank_counts@;
        let winners = find_winners(pockets, &complete, hand_rank_counts);
        proof {
            assert forall|i2: int| 0 <= i2 < n implies sum_sizes(
                #[trigger] hand_rank_counts@[i2].0@,
            ) == t + 1 by {
                let cat = classify_spec(complete@ + pockets@[i2]@, None).0.value_spec();
                lemma_sum_update(
                    counts_pre[i2].0@,
                    cat,
                    (counts_pre[i2].0@[cat] + 1) as usize,
                );
            }
        }
        tally_round(&mut results, &winners, Ghost(pockets@), Ghost(complete@));
        proof {
            assert(boards.take(t + 1).drop_last() =~= boards.take(t as int));
            assert(boards.take(t + 1).last() == boards[t as int]);
            assert forall|i2: int| 0 <= i2 < n implies #[trigger] results@[i2].wins == win_count(
                pockets@,
                boards.take(t + 1),
                i2,
            ) && results@[i2].losses == loss_count(pockets@, boards.take(t + 1), i2)
                && results@[i2].splits == split_count(pockets@, boards.take(t + 1), i2)
                && results@[i2].wins + results@[i2].losses + results@[i2].splits == t + 1 by {
                lemma_max_attained(board_scores(pockets@, complete@));
            }
        }
    }
    proof {
        assert(boards.take(m as int) =~= boards);
    }
    results
}

/// One player's dealt pocket together with the hand it makes on the
/// board.
pub struct PocketEval {
    pub pocket: Vec<Card>,
    pub hand: PokerHand,
}

/// The score a pocket makes with the board, the pocket's cards first,
/// in a game without wild cards.
pub open spec fn pocket_board_score(pocket: Seq<Card>, board: Seq<Card>) -> int {
    let h = classify_spec(pocket + board, None);
    score_spec(h.0, h.1)
}

/// The evaluations reduced to what ordering sees: each pocket's cards
/// and its score.
pub open spec fn eval_keys(evals: Seq<PocketEval>) -> Seq<(Seq<Card>, int)> {
    evals.map_values(|e: PocketEval| (e.pocket@, e.hand.score as int))
}

/// The pockets paired with their scores, in dealing order.
pub open spec fn dealt_keys(pockets: Seq<Vec<Card>>, board: Seq<Card>) -> Seq<(Seq<Card>, int)> {
    Seq::new(pockets.len(), |j: int| (pockets[j]@, pocket_board_score(pockets[j]@, board)))
}

/// A descending-by-score sequence of keys with one more key placed
/// after any keys of equal score.
pub open spec fn key_insert_spec(s: Seq<(Seq<Card>, int)>, x: (Seq<Card>, int)) -> Seq<
    (Seq<Card>, int),
>
    decreases s.len(),
{
    if s.len() == 0 {
        seq![x]
    } else if s[0].1 >= x.1 {
        seq![s[0]] + key_insert_spec(s.skip(1), x)
    } else {
        seq![x] + s
    }
}

/// Keys sorted descending by score, by repeated insertion; keys of
/// equal score keep their order.
pub open spec fn key_sort_spec(s: Seq<(Seq<Card>, int)>) -> Seq<(Seq<Card>, int)>
    decreases s.len(),
{
    if s.len() == 0 {
        Seq::empty()
    } else {
        key_insert_spec(key_sort_spec(s.drop_last()), s.last())
    }
}

#[verifier::rlimit(100)]
proof fn lemma_key_insert_at(s: Seq<(Seq<Card>, int)>, x: (Seq<Card>, int), pos: int)
    requires
        0 <= pos <= s.len(),
        forall|j: int| 0 <= j < pos ==> (#[trigger] s[j]).1 >= x.1,
        pos < s.len() ==> s[pos].1 < x.1,
    ensures
        key_insert_spec(s, x) == s.take(pos) + seq![x] + s.skip(pos),
    decreases pos,
{
    if s.len() == 0 || pos == 0 {
        assert(key_insert_spec(s, x) =~~= s.take(0) + seq![x] + s.skip(0));
    } else {
        lemma_key_insert_at(s.skip(1), x, pos - 1);
        let t = s.skip(1);
        assert(key_insert_spec(s, x) == seq![s[0]] + (t.take(pos - 1) + seq![x] + t.skip(pos
            - 1)));
        assert(seq![s[0]] + (t.take(pos - 1) + seq![x] + t.skip(pos - 1)) =~~= (seq![s[0]] + t.take(
            pos - 1,
        )) + seq![x] + t.skip(pos - 1));
        assert(seq![s[0]] + t.take(pos - 1) =~~= s.take(pos));
        assert(t.skip(pos - 1) =~~= s.skip(pos));
    }
}

proof fn lemma_key_insert_len(s: Seq<(Seq<Card>, int)>, x: (Seq<Card>, int))
    ensures
        key_insert_spec(s, x).len() == s.len() + 1,
    decreases s.len(),
{
    if s.len() > 0 && s[0].1 >= x.1 {
        lemma_key_insert_len(s.skip(1), x);
    }
}

/// Inserts an evaluation into a score-descending run, after any entries
/// of equal score.
fn eval_insert(sorted: Vec<PocketEval>, e: PocketEval) -> (r: Vec<PocketEval>)
    ensures
        eval_keys(r@) == key_insert_spec(eval_keys(sorted@), (e.pocket@, e.hand.score as int)),
        r@.len() == sorted@.len() + 1,
        forall|j: int|
            0 <= j < r@.len() ==> ((#[trigger] r@[j]) == e || exists|m: int|
                0 <= m < sorted@.len() && r@[j] == sorted@[m]),
{
    let ghost keys = eval_keys(sorted@);
    let n = sorted.len();
    let mut pos: usize = 0;
    while pos < n && sorted[pos].hand.score >= e.hand.score
        invariant
            pos <= n,
            n == sorted@.len(),
            keys == eval_keys(sorted@),
            forall|j: int| 0 <= j < pos ==> (#[trigger] keys[j]).1 >= e.hand.score,
        decreases n - pos,
    {
        proof {
            assert(keys[pos as int] == (sorted@[pos as int].pocket@, sorted@[pos as int].hand.score
                as int));
        }
        pos += 1;
    }
    proof {
        if pos < n {
            assert(keys[pos as int] == (sorted@[pos as int].pocket@, sorted@[pos as int].hand.score
                as int));
        }
        lemma_key_insert_at(keys, (e.pocket@, e.hand.score as int), pos as int);
        lemma_key_insert_len(keys, (e.pocket@, e.hand.score as int));
    }
    let mut r: Vec<PocketEval> = Vec::new();
    let mut i: usize = 0;
    let mut rest = sorted;
    let ghost sorted0 = rest@;
    while i < pos
        invariant
            pos <= n,
            i <= pos,
            n == sorted0.len(),
            rest@ == sorted0.skip(i as int),
            r@ == sorted0.take(i as int),
        decreases pos - i,
    {
        proof {
            assert(sorted0.skip(i as int)[0] == sorted0[i as int]);
            assert(sorted0.skip(i as int).remove(0) =~= sorted0.skip(i + 1));
            assert(sorted0.take(i as int).push(sorted0[i as int]) =~= sorted0.take(i + 1));
        }
        let entry = rest.remove(0);
        r.push(entry);
        i += 1;
    }
    r.push(e);
    let mut i2 = pos;
    while i2 < n
        invariant
            pos <= i2 <= n,
            n == sorted0.len(),
            rest@ == sorted0.skip(i2 as int),
            r@ == sorted0.take(pos as int) + seq![e] + sorted0.subrange(pos as int, i2 as int),
        decreases n - i2,
    {
        proof {
            assert(sorted0.skip(i2 as int)[0] == sorted0[i2 as int]);
            assert(sorted0.skip(i2 as int).remove(0) =~= sorted0.skip(i2 + 1));
            assert((sorted0.take(pos as int) + seq![e] + sorted0.subrange(pos as int, i2 as int))
                .push(sorted0[i2 as int]) =~= sorted0.take(pos as int) + seq![e]
                + sorted0.subrange(pos as int, i2 + 1));
        }
        let entry = rest.remove(0);
        r.push(entry);
        i2 += 1;
    }
    proof {
        assert(sorted0.subrange(pos as int, n as int) =~= sorted0.skip(pos as int));
        assert(eval_keys(r@) =~= keys.take(pos as int) + seq![(e.pocket@, e.hand.score as int)]
            + keys.skip(pos as int));
        assert forall|j: int| 0 <= j < r@.len() implies ((#[trigger] r@[j]) == e || exists|m: int|
            0 <= m < sorted0.len() && r@[j] == sorted0[m]) by {
            if j < pos {
                assert(r@[j] == sorted0[j]);
            } else if j > pos {
                assert(r@[j] == sorted0[j - 1]);
            }
        }
    }
    r
}

/// What one deal hands out from the top of the deck. Pocket `p`
/// receives cards round-robin: the deck's top `n` cards one each, then
/// the next `n` again.
pub open spec fn dealt_pocket_spec(deck: Seq<Card>, n: int, p: int) -> Seq<Card> {
    seq![deck[deck.len() - 1 - p], deck[deck.len() - 1 - n - p]]
}

/// The card the dealer turns at step `t` after the pockets are out: a
/// burn before the flop, one before the turn and one before the river,
/// the board cards between them.
pub open spec fn dealt_card_spec(deck: Seq<Card>, n: int, t: int) -> Card {
    deck[deck.len() - 1 - 2 * n - t]
}

/// The board a deal turns up, in order: flop, turn, river.
pub open spec fn dealt_board_spec(deck: Seq<Card>, n: int) -> Seq<Card> {
    seq![
        dealt_card_spec(deck, n, 1),
        dealt_card_spec(deck, n, 2),
        dealt_card_spec(deck, n, 3),
        dealt_card_spec(deck, n, 5),
        dealt_card_spec(deck, n, 7),
    ]
}

/// The three cards a deal burns.
pub open spec fn dealt_burns_spec(deck: Seq<Card>, n: int) -> Seq<Card> {
    seq![dealt_card_spec(deck, n, 0), dealt_card_spec(deck, n, 4), dealt_card_spec(deck, n, 6)]
}

/// One complete deal: every pocket, the burns and the board, and each
/// pocket's best hand on the board, listed strongest first.
pub struct Deal {
    pub pockets: Vec<Vec<Card>>,
    pub burns: Vec<Card>,
    pub board: Vec<Card>,
    pub evals: Vec<PocketEval>,
}

/// Deals `n` pockets of two cards round-robin from the top of the deck,
/// burns and turns the board as a dealer would, classifies every
/// pocket with the board, and lists the evaluations strongest hand
/// first. The dealt cards leave the deck.
pub fn deal(cards: &mut Vec<Card>, n: usize) -> (r: Deal)
    requires
        n >= 1,
        old(cards)@.len() >= 2 * n + 8,
    ensures
        final(cards)@ == old(cards)@.take(old(cards)@.len() - 2 * n - 8),
        r.pockets@.len() == n,
        forall|p: int|
            0 <= p < n ==> (#[trigger] r.pockets@[p])@ == dealt_pocket_spec(
                old(cards)@,
                n as int,
                p,
            ),
        r.board@ == dealt_board_spec(old(cards)@, n as int),
        r.burns@ == dealt_burns_spec(old(cards)@, n as int),
        r.evals@.len() == n,
        forall|idx: int|
            0 <= idx < n ==> ((#[trigger] r.evals@[idx]).hand.rank, r.evals@[idx].hand.cards@)
                == classify_spec(r.evals@[idx].pocket@ + r.board@, None),
        forall|idx: int|
            0 <= idx < n ==> (#[trigger] r.evals@[idx]).hand.score == score_spec(
                r.evals@[idx].hand.rank,
                r.evals@[idx].hand.cards@,
            ),
        eval_keys(r.evals@) == key_sort_spec(dealt_keys(r.pockets@, r.board@)),
{
    let ghost deck0 = cards@;
    let ghost len0 = cards@.len() as int;
    let mut pockets: Vec<Vec<Card>> = Vec::new();
    let mut p: usize = 0;
    while p < n
        invariant
            p <= n,
            pockets@.len() == p,
            forall|q: int| 0 <= q < p ==> (#[trigger] pockets@[q])@ == Seq::<Card>::empty(),
        decreases n - p,
    {
        pockets.push(Vec::new());
        p += 1;
    }
    let mut card_index: usize = 0;
    while card_index < 2
        invariant
            card_index <= 2,
            n >= 1,
            deck0.len() >= 2 * n + 8,
            cards@ == deck0.take(len0 - card_index * n),
            len0 == deck0.len(),
            pockets@.len() == n,
            forall|q: int|
                0 <= q < n ==> (#[trigger] pockets@[q])@ == dealt_pocket_spec(
                    deck0,
                    n as int,
                    q,
                ).take(card_index as int),
        decreases 2 - card_index,
    {
        let mut pocket_index: usize = 0;
        while pocket_index < n
            invariant
                pocket_index <= n,
                card_index < 2,
                n >= 1,
                deck0.len() >= 2 * n + 8,
                len0 == deck0.len(),
                cards@ == deck0.take(len0 - card_index * n - pocket_index),
                pockets@.len() == n,
                forall|q: int|
                    0 <= q < pocket_index ==> (#[trigger] pockets@[q])@ == dealt_pocket_spec(
                        deck0,
                        n as int,
                        q,
                    ).take(card_index + 1),
                forall|q: int|
                    pocket_index <= q < n ==> (#[trigger] pockets@[q])@ == dealt_pocket_spec(
                        deck0,
                        n as int,
                        q,
                    ).take(card_index as int),
            decreases n - pocket_index,
        {
            let top = match cards.pop() {
                Some(top) => top,
                None => {
                    proof {
                        assert(false);
                    }
                    Card::new(crate::card::Rank::Joker, crate::card::Suit::Joker)
                },
            };
            proof {
                assert(top == deck0[len0 - 1 - card_index * n - pocket_index]);
                assert(cards@ =~= deck0.take(len0 - card_index * n - pocket_index - 1));
            }
            let ghost before = pockets@;
            let mut pocket = pockets.remove(pocket_index);
            pocket.push(top);
            pockets.insert(pocket_index, pocket);
            proof {
                assert(pockets@ =~= before.update(
                    pocket_index as int,
                    pockets@[pocket_index as int],
                ));
                assert(dealt_pocket_spec(deck0, n as int, pocket_index as int).take(card_index + 1)
                    =~= dealt_pocket_spec(deck0, n as int, pocket_index as int).take(
                    card_index as int,
                ).push(top));
            }
            pocket_index += 1;
        }
        proof {
            assert((card_index + 1) * n == card_index * n + n) by (nonlinear_arith);
        }
        card_index += 1;
    }
    let ghost after_pockets = deck0.take(len0 - 2 * n);
    proof {
        assert(cards@ == after_pockets);
    }
    let mut burns: Vec<Card> = Vec::new();
    let mut board: Vec<Card> = Vec::new();
    let mut t: usize = 0;
    while t < 8
        invariant
            t <= 8,
            n >= 1,
            deck0.len() >= 2 * n + 8,
            len0 == deck0.len(),
            cards@ == deck0.take(len0 - 2 * n - t),
            burns@ == dealt_burns_spec(deck0, n as int).take(
                if t <= 4 {
                    if t >= 1 {
                        1int
                    } else {
                        0int
                    }
                } else if t <= 6 {
                    2int
                } else {
                    3int
                },
            ),
            board@ == dealt_board_spec(deck0, n as int).take(
                if t <= 1 {
                    0int
                } else if t <= 4 {
                    (t - 1) as int
                } else if t <= 5 {
                    3int
                } else if t <= 7 {
                    4int
                } else {
                    5int
                },
            ),
        decreases 8 - t,
    {
        let top = match cards.pop() {
            Some(top) => top,
            None => {
                proof {
                    assert(false);
                }
                Card::new(crate::card::Rank::Joker, crate::card::Suit::Joker)
            },
        };
        proof {
            assert(top == dealt_card_spec(deck0, n as int, t as int));
            assert(cards@ =~= deck0.take(len0 - 2 * n - t - 1));
        }
        if t == 0 || t == 4 || t == 6 {
            burns.push(top);
        } else {
            board.push(top);
        }
        proof {
            assert(burns@ =~= dealt_burns_spec(deck0, n as int).take(
                if t + 1 <= 4 {
                    if t + 1 >= 1 {
                        1int
                    } else {
                        0int
                    }
                } else if t + 1 <= 6 {
                    2int
                } else {
                    3int
                },
            ));
            assert(board@ =~= dealt_board_spec(deck0, n as int).take(
                if t + 1 <= 1 {
                    0int
                } else if t + 1 <= 4 {
                    (t as int)
                } else if t + 1 <= 5 {
                    3int
                } else if t + 1 <= 7 {
                    4int
                } else {
                    5int
                },
            ));
        }
        t += 1;
    }
    proof {
        assert(burns@ =~= dealt_burns_spec(deck0, n as int));
        assert(board@ =~= dealt_board_spec(deck0, n as int));
    }
    let mut evals: Vec<PocketEval> = Vec::new();
    let mut idx: usize = 0;
    while idx < n
        invariant
            idx <= n,
            pockets@.len() == n,
            board@.len() == 5,
            forall|q: int| 0 <= q < n ==> (#[trigger] pockets@[q])@.len() == 2,
            eval_keys(evals@) == key_sort_spec(dealt_keys(pockets@.take(idx as int), board@)),
            forall|j: int|
                0 <= j < evals@.len() ==> ((#[trigger] evals@[j]).hand.rank, evals@[j].hand.cards@)
                    == classify_spec(evals@[j].pocket@ + board@, None),
            forall|j: int|
                0 <= j < evals@.len() ==> (#[trigger] evals@[j]).hand.score == score_spec(
                    evals@[j].hand.rank,
                    evals@[j].hand.cards@,
                ),
            evals@.len() == idx,
        decreases n - idx,
    {
        let pocket = vstd::slice::slice_to_vec(pockets[idx].as_slice());
        let combined = add_cards(pocket.as_slice(), board.as_slice());
        proof {
            lemma_no_wilds(combined@);
        }
        let hand = PokerHand::build(combined.as_slice(), &None);
        let e = PocketEval { pocket, hand };
        let ghost old_evals = evals@;
        let evals2 = eval_insert(evals, e);
        evals = evals2;
        proof {
            assert(dealt_keys(pockets@.take(idx + 1), board@).drop_last() =~= dealt_keys(
                pockets@.take(idx as int),
                board@,
            ));
            assert(dealt_keys(pockets@.take(idx + 1), board@).last() == (
                pockets@[idx as int]@,
                pocket_board_score(pockets@[idx as int]@, board@),
            ));
            assert(e.pocket@ == pockets@[idx as int]@);
            assert(e.hand.score as int == pocket_board_score(pockets@[idx as int]@, board@));
            assert forall|j: int| 0 <= j < evals@.len() implies ((#[trigger] evals@[j]).hand.rank,
            evals@[j].hand.cards@) == classify_spec(evals@[j].pocket@ + board@, None)
                && evals@[j].hand.score == score_spec(
                evals@[j].hand.rank,
                evals@[j].hand.cards@,
            ) by {
                if evals@[j] != e {
                    let m = choose|m: int| 0 <= m < old_evals.len() && evals@[j] == old_evals[m];
                }
            }
        }
        idx += 1;
    }
    proof {
        assert(pockets@.take(n as int) =~= pockets@);
    }
    Deal { pockets, burns, board, evals }
}

} // verus!
