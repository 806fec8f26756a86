//! Cards grouped by natural rank: fifteen buckets indexed by rank
//! ordinal, each keeping its cards in insertion order.

use vstd::prelude::*;

use crate::card::Card;
use crate::card::Rank;
use crate::card::WildCardRule;
use crate::card::lemma_filter_elems_contained;
use crate::card::seq_contains_card;

verus! {

broadcast use vstd::seq_lib::group_seq_properties;

/// Cards grouped by their natural rank. Bucket `o` holds, in input
/// order, exactly the cards whose rank has ordinal `o`.
pub struct RankMap {
    buckets: Vec<Vec<Card>>,
}

impl RankMap {
    /// The grouping invariant: fifteen buckets, and every card sits in
    /// the bucket of its own rank ordinal.
    pub closed spec fn wf(self) -> bool {
        &&& self.buckets@.len() == 15
        &&& forall|o: int, k: int|
            0 <= o < 15 && 0 <= k < self.buckets@[o]@.len() ==> (#[trigger] self.buckets@[o]@[k])
                .rank.ordinal_spec() == o
    }

    /// The cards of the bucket for rank ordinal `o`, in input order.
    pub closed spec fn bucket_spec(self, o: int) -> Seq<Card> {
        self.buckets@[o]@
    }

    fn _new() -> (r: RankMap)
        ensures
            r.wf(),
            forall|o: int| 0 <= o < 15 ==> #[trigger] r.bucket_spec(o) == Seq::<Card>::empty(),
    {
        let mut buckets: Vec<Vec<Card>> = Vec::new();
        let mut i: usize = 0;
        while i < 15
            invariant
                i <= 15,
                buckets@.len() == i,
                forall|o: int| 0 <= o < i ==> (#[trigger] buckets@[o])@ == Seq::<Card>::empty(),
            decreases 15 - i,
        {
            buckets.push(Vec::new());
            i += 1;
        }
        RankMap { buckets }
    }

    /// Groups cards by natural rank. The wild-card rule rides along for
    /// interface parity but plays no part in the grouping.
    pub fn with_wild_cards(cards: &[Card], _is_wild: &Option<WildCardRule>) -> (r: RankMap)
        ensures
            r.wf(),
            forall|o: int|
                0 <= o < 15 ==> #[trigger] r.bucket_spec(o) == cards@.filter(
                    |c: Card| c.rank.ordinal_spec() == o,
                ),
    {
        broadcast use vstd::seq_lib::group_filter_ensures, Seq::lemma_filter_push;

        let mut rank_map = Self::_new();
        let n = cards.len();
        for i in 0..n
            invariant
                n == cards@.len(),
                rank_map.wf(),
                forall|o: int|
                    0 <= o < 15 ==> #[trigger] rank_map.bucket_spec(o) == cards@.take(
                        i as int,
                    ).filter(|c: Card| c.rank.ordinal_spec() == o),
        {
            let ord = cards[i].rank.ordinal();
            let ghost before = rank_map.buckets@;
            proof {
                assert forall|o: int| 0 <= o < 15 implies (#[trigger] before[o])@ == cards@.take(
                    i as int,
                ).filter(|c: Card| c.rank.ordinal_spec() == o) by {
                    assert(rank_map.bucket_spec(o) == cards@.take(i as int).filter(
                        |c: Card| c.rank.ordinal_spec() == o,
                    ));
                }
            }
            let mut bucket = rank_map.buckets.remove(ord);
            bucket.push(cards[i]);
            rank_map.buckets.insert(ord, bucket);
            proof {
                let after = rank_map.buckets@;
                assert(after =~= before.update(ord as int, after[ord as int]));
                assert(after[ord as int]@ == before[ord as int]@.push(cards@[i as int]));
                assert(cards@.take(i + 1) =~= cards@.take(i as int).push(cards@[i as int]));
                assert forall|o: int| 0 <= o < 15 implies #[trigger] rank_map.bucket_spec(o)
                    == cards@.take(i + 1).filter(|c: Card| c.rank.ordinal_spec() == o) by {
                    cards@.take(i as int).lemma_filter_push(
                        cards@[i as int],
                        |c: Card| c.rank.ordinal_spec() == o,
                    );
                }
            }
        }
        proof {
            assert(cards@.take(n as int) =~= cards@);
        }
        rank_map
    }

    /// Groups cards by natural rank; see `with_wild_cards`.
    pub fn new(cards: &[Card]) -> (r: RankMap)
        ensures
            r.wf(),
            forall|o: int|
                0 <= o < 15 ==> #[trigger] r.bucket_spec(o) == cards@.filter(
                    |c: Card| c.rank.ordinal_spec() == o,
                ),
    {
        Self::with_wild_cards(cards, &None)
    }

    /// The cards of the given rank, when any are held; `None` for a rank
    /// with no cards.
    pub fn get(&self, rank: Rank) -> (r: Option<&Vec<Card>>)
        requires
            self.wf(),
        ensures
            self.bucket_spec(rank.ordinal_spec()).len() == 0 <==> r is None,
            r matches Some(v) ==> v@ == self.bucket_spec(rank.ordinal_spec()),
    {
        let bucket = &self.buckets[rank.ordinal()];
        if bucket.len() == 0 {
            None
        } else {
            Some(bucket)
        }
    }

    /// The highest ordinal at or below `ord` whose bucket holds at least
    /// `size` cards.
    pub open spec fn take_set_ord_from(self, size: int, ord: int) -> Option<int>
        decreases ord + 1,
    {
        if ord < 0 {
            None
        } else if self.bucket_spec(ord).len() >= size {
            Some(ord)
        } else {
            self.take_set_ord_from(size, ord - 1)
        }
    }

    /// The first `size` cards of the highest rank that holds at least
    /// `size` cards, searching ranks from Ace down; `None` when no rank
    /// has enough.
    pub fn take_set(&self, size: usize) -> (r: Option<Vec<Card>>)
        requires
            self.wf(),
            size >= 1,
        ensures
            r is Some <==> self.take_set_ord_from(size as int, 14) is Some,
            r matches Some(v) ==> Some(v@) == (match self.take_set_ord_from(size as int, 14) {
                None => None::<Seq<Card>>,
                Some(o) => Some(self.bucket_spec(o).take(size as int)),
            }),
    {
        let mut ord: usize = 14;
        loop
            invariant
                ord <= 14,
                self.wf(),
                size >= 1,
                self.take_set_ord_from(size as int, 14) == self.take_set_ord_from(
                    size as int,
                    ord as int,
                ),
            decreases ord,
        {
            let bucket = &self.buckets[ord];
            if bucket.len() >= size {
                let mut set: Vec<Card> = Vec::new();
                let mut k: usize = 0;
                while k < size
                    invariant
                        k <= size <= bucket@.len(),
                        set@ == bucket@.take(k as int),
                    decreases size - k,
                {
                    proof {
                        assert(bucket@.take(k + 1) =~= bucket@.take(k as int).push(
                            bucket@[k as int],
                        ));
                    }
                    set.push(bucket[k]);
                    k += 1;
                }
                return Some(set);
            }
            if ord == 0 {
                proof {
                    assert(self.take_set_ord_from(size as int, -1) is None);
                }
                return None;
            }
            ord -= 1;
        }
    }

    /// A new grouping with every card whose identity occurs in `cards`
    /// removed: each bucket keeps, in order, its cards not named there.
    pub fn remove(&self, cards: &[Card]) -> (r: RankMap)
        requires
            self.wf(),
        ensures
            r.wf(),
            forall|o: int|
                0 <= o < 15 ==> #[trigger] r.bucket_spec(o) == self.bucket_spec(o).filter(
                    |c: Card| !seq_contains_card(cards@, c),
                ),
    {
        let mut buckets: Vec<Vec<Card>> = Vec::new();
        let mut o: usize = 0;
        while o < 15
            invariant
                o <= 15,
                self.wf(),
                buckets@.len() == o,
                forall|j: int|
                    0 <= j < o ==> (#[trigger] buckets@[j])@ == self.bucket_spec(j).filter(
                        |c: Card| !seq_contains_card(cards@, c),
                    ),
                forall|j: int, k: int|
                    0 <= j < o && 0 <= k < buckets@[j]@.len() ==> (#[trigger] buckets@[j]@[k])
                        .rank.ordinal_spec() == j,
            decreases 15 - o,
        {
            let kept = crate::card::remove_cards(self.buckets[o].as_slice(), cards);
            proof {
                let bucket = self.bucket_spec(o as int);
                let pred = |c: Card| !seq_contains_card(cards@, c);
                lemma_filter_elems_contained(bucket, pred);
                assert forall|k: int| 0 <= k < bucket.filter(pred).len() implies (
                #[trigger] bucket.filter(pred)[k]).rank.ordinal_spec() == o as int by {
                    assert(bucket.contains(bucket.filter(pred)[k]));
                    let j = choose|j: int| 0 <= j < bucket.len() && bucket[j] == bucket.filter(
                        pred,
                    )[k];
                    assert(bucket[j].rank.ordinal_spec() == o as int);
                }
            }
            buckets.push(kept);
            o += 1;
        }
        RankMap { buckets }
    }
}

} // verus!
