//! The card model: ranks, suits, and cards that can be re-scored when a
//! wild card stands in for another rank.
//!
//! A card's identity is its rank and suit alone.  Its `scoring_rank`
//! starts out equal to its rank and is overwritten when the card is used
//! as a wild substitute inside one candidate hand; identity comparison
//! and removal never look at it.

use vstd::prelude::*;
use vstd::string::*;

verus! {

broadcast use vstd::seq_lib::group_seq_properties;

/// A card's suit. `Joker` is the placeholder suit of a joker card; the
/// four real suits carry no ranking among themselves.
#[derive(Copy, Clone, Debug, PartialEq, Eq, Structural)]
pub enum Suit {
    Clubs,
    Diamonds,
    Hearts,
    Spades,
    Joker,
}

impl Suit {
    /// The position of a suit in the fixed iteration order used for
    /// grouping: Clubs, Diamonds, Hearts, Spades, Joker.
    pub open spec fn index_spec(self) -> int {
        match self {
            Suit::Clubs => 0,
            Suit::Diamonds => 1,
            Suit::Hearts => 2,
            Suit::Spades => 3,
            Suit::Joker => 4,
        }
    }

    /// The suit at a position of the fixed iteration order.
    pub open spec fn for_index_spec(index: int) -> Suit {
        if index == 0 {
            Suit::Clubs
        } else if index == 1 {
            Suit::Diamonds
        } else if index == 2 {
            Suit::Hearts
        } else if index == 3 {
            Suit::Spades
        } else {
            Suit::Joker
        }
    }

    /// Executable counterpart of `for_index_spec`.
    pub fn for_index(index: usize) -> (r: Suit)
        requires
            index <= 4,
        ensures
            r == Suit::for_index_spec(index as int),
            r.index_spec() == index,
    {
        if index == 0 {
            Suit::Clubs
        } else if index == 1 {
            Suit::Diamonds
        } else if index == 2 {
            Suit::Hearts
        } else if index == 3 {
            Suit::Spades
        } else {
            Suit::Joker
        }
    }
}

/// A card's rank. `LowAce` is an ace acting as the bottom of a
/// 5-4-3-2-A straight; `Joker` is the placeholder rank of a joker card.
/// Neither is a natural rank that set or straight search may match.
#[derive(Copy, Clone, Debug, PartialEq, Eq, Structural)]
pub enum Rank {
    Ace,
    King,
    Queen,
    Jack,
    Ten,
    Nine,
    Eight,
    Seven,
    Six,
    Five,
    Four,
    Three,
    Two,
    LowAce,
    Joker,
}

impl Rank {
    /// The ordinal value of a rank: Ace is 14, King 13, down to Two at 2,
    /// with LowAce at 1 and Joker at 0.
    pub open spec fn ordinal_spec(self) -> int {
        match self {
            Rank::Ace => 14,
            Rank::King => 13,
            Rank::Queen => 12,
            Rank::Jack => 11,
            Rank::Ten => 10,
            Rank::Nine => 9,
            Rank::Eight => 8,
            Rank::Seven => 7,
            Rank::Six => 6,
            Rank::Five => 5,
            Rank::Four => 4,
            Rank::Three => 3,
            Rank::Two => 2,
            Rank::LowAce => 1,
            Rank::Joker => 0,
        }
    }

    /// Executable ordinal value; see `ordinal_spec`.
    pub fn ordinal(self) -> (r: usize)
        ensures
            r == self.ordinal_spec(),
    {
        match self {
            Rank::Ace => 14,
            Rank::King => 13,
            Rank::Queen => 12,
            Rank::Jack => 11,
            Rank::Ten => 10,
            Rank::Nine => 9,
            Rank::Eight => 8,
            Rank::Seven => 7,
            Rank::Six => 6,
            Rank::Five => 5,
            Rank::Four => 4,
            Rank::Three => 3,
            Rank::Two => 2,
            Rank::LowAce => 1,
            Rank::Joker => 0,
        }
    }

    /// The rank whose ordinal value is `ordinal`; see `for_ordinal`.
    pub open spec fn for_ordinal_spec(ordinal: int) -> Rank {
        if ordinal == 14 {
            Rank::Ace
        } else if ordinal == 13 {
            Rank::King
        } else if ordinal == 12 {
            Rank::Queen
        } else if ordinal == 11 {
            Rank::Jack
        } else if ordinal == 10 {
            Rank::Ten
        } else if ordinal == 9 {
            Rank::Nine
        } else if ordinal == 8 {
            Rank::Eight
        } else if ordinal == 7 {
            Rank::Seven
        } else if ordinal == 6 {
            Rank::Six
        } else if ordinal == 5 {
            Rank::Five
        } else if ordinal == 4 {
            Rank::Four
        } else if ordinal == 3 {
            Rank::Three
        } else if ordinal == 2 {
            Rank::Two
        } else if ordinal == 1 {
            Rank::LowAce
        } else {
            Rank::Joker
        }
    }

    /// Whether this rank matches an ordinal value, with an ace also
    /// matching the low-ace ordinal 1 (the bottom of a wheel straight).
    pub open spec fn is_ordinal_spec(self, ordinal: int) -> bool {
        self.ordinal_spec() == ordinal || (self == Rank::Ace && ordinal == 1)
    }

    /// Whether this rank matches an ordinal value; an ace also matches
    /// the low-ace ordinal 1 so that it can close a wheel straight.
    pub fn is_ordinal(&self, ordinal: usize) -> (r: bool)
        ensures
            r == self.is_ordinal_spec(ordinal as int),
    {
        self.ordinal() == ordinal || (*self == Rank::Ace && ordinal == 1)
    }

    /// The rank for an ordinal value between 0 and 14.
    pub fn for_ordinal(ordinal: usize) -> (r: Rank)
        requires
            ordinal <= 14,
        ensures
            r == Rank::for_ordinal_spec(ordinal as int),
            r.ordinal_spec() == ordinal,
    {
        if ordinal == 14 {
            Rank::Ace
        } else if ordinal == 13 {
            Rank::King
        } else if ordinal == 12 {
            Rank::Queen
        } else if ordinal == 11 {
            Rank::Jack
        } else if ordinal == 10 {
            Rank::Ten
        } else if ordinal == 9 {
            Rank::Nine
        } else if ordinal == 8 {
            Rank::Eight
        } else if ordinal == 7 {
            Rank::Seven
        } else if ordinal == 6 {
            Rank::Six
        } else if ordinal == 5 {
            Rank::Five
        } else if ordinal == 4 {
            Rank::Four
        } else if ordinal == 3 {
            Rank::Three
        } else if ordinal == 2 {
            Rank::Two
        } else if ordinal == 1 {
            Rank::LowAce
        } else {
            Rank::Joker
        }
    }

    /// A new card of this rank and the given suit.
    pub fn of(&self, suit: Suit) -> (r: Card)
        ensures
            r == (Card { rank: *self, suit, scoring_rank: *self }),
    {
        Card::new(*self, suit)
    }
}

/// A playing card. `rank` and `suit` are the card's identity;
/// `scoring_rank` is the rank the card is credited with inside one
/// candidate hand, and differs from `rank` only when the card stands in
/// as a wild substitute.
#[derive(Copy, Clone, Debug)]
pub struct Card {
    pub rank: Rank,
    pub suit: Suit,
    pub scoring_rank: Rank,
}

/// Which cards of a game count as wild. `None` in the places that take
/// an `Option<WildCardRule>` means a standard game with no wild cards.
#[derive(Copy, Clone, Debug, PartialEq, Eq, Structural)]
pub enum WildCardRule {
    /// Joker cards are wild.
    Jokers,
    /// The jacks drawn in profile (spades and hearts) are wild.
    OneEyedJacks,
    /// The king of hearts is wild.
    SuicideKings,
}

/// Identity equality of two cards: rank and suit alone, never the
/// scoring rank.
pub open spec fn same_card(a: Card, b: Card) -> bool {
    a.rank == b.rank && a.suit == b.suit
}

/// Whether a sequence holds a card with the given identity.
pub open spec fn seq_contains_card(s: Seq<Card>, c: Card) -> bool {
    exists|i: int| 0 <= i < s.len() && same_card(s[i], c)
}

/// Whether a card is wild under an optional wild-card rule.
pub open spec fn is_wild_spec(c: Card, rule: Option<WildCardRule>) -> bool {
    match rule {
        None => false,
        Some(WildCardRule::Jokers) => c.rank == Rank::Joker,
        Some(WildCardRule::OneEyedJacks) => c.rank == Rank::Jack && (c.suit == Suit::Spades
            || c.suit == Suit::Hearts),
        Some(WildCardRule::SuicideKings) => c.rank == Rank::King && c.suit == Suit::Hearts,
    }
}

impl Card {
    /// A new card whose scoring rank is its natural rank.
    pub fn new(rank: Rank, suit: Suit) -> (r: Card)
        ensures
            r == (Card { rank, suit, scoring_rank: rank }),
    {
        Card { rank, suit, scoring_rank: rank }
    }

    /// The same card credited with another rank inside one candidate
    /// hand. The card's identity is unchanged.
    pub fn scored_as(&self, rank: Rank) -> (r: Card)
        ensures
            r == (Card { rank: self.rank, suit: self.suit, scoring_rank: rank }),
            same_card(r, *self),
    {
        Card { rank: self.rank, suit: self.suit, scoring_rank: rank }
    }

    /// Whether the card is a jack drawn in profile (spades or hearts).
    pub fn is_one_eyed_jack(card: &Card) -> (r: bool)
        ensures
            r == is_wild_spec(*card, Some(WildCardRule::OneEyedJacks)),
    {
        card.rank == Rank::Jack && (card.suit == Suit::Spades || card.suit == Suit::Hearts)
    }

    /// Whether the card is the king of hearts.
    pub fn is_suicide_king(card: &Card) -> (r: bool)
        ensures
            r == is_wild_spec(*card, Some(WildCardRule::SuicideKings)),
    {
        card.rank == Rank::King && card.suit == Suit::Hearts
    }

    /// Whether the card is a joker.
    pub fn is_joker(card: &Card) -> (r: bool)
        ensures
            r == is_wild_spec(*card, Some(WildCardRule::Jokers)),
    {
        card.rank == Rank::Joker
    }

    /// Whether the card is wild under an optional wild-card rule;
    /// `None` means no wild cards.
    pub fn is_wild(&self, rule: &Option<WildCardRule>) -> (r: bool)
        ensures
            r == is_wild_spec(*self, *rule),
    {
        match rule {
            Some(WildCardRule::Jokers) => Card::is_joker(self),
            Some(WildCardRule::OneEyedJacks) => Card::is_one_eyed_jack(self),
            Some(WildCardRule::SuicideKings) => Card::is_suicide_king(self),
            None => false,
        }
    }
}

impl PartialEq for Card {
    /// Identity equality: rank and suit, never the scoring rank.
    fn eq(&self, other: &Card) -> (r: bool) {
        self.rank == other.rank && self.suit == other.suit
    }
}

impl vstd::std_specs::cmp::PartialEqSpecImpl for Card {
    open spec fn obeys_eq_spec() -> bool {
        true
    }

    open spec fn eq_spec(&self, other: &Card) -> bool {
        same_card(*self, *other)
    }
}

impl PartialOrd for Card {
    /// Cards order by their scoring rank alone, so that sorting a
    /// candidate hand puts its highest-credited cards first.
    fn partial_cmp(&self, other: &Card) -> (r: Option<core::cmp::Ordering>) {
        let a = self.scoring_rank.ordinal();
        let b = other.scoring_rank.ordinal();
        if a < b {
            Some(core::cmp::Ordering::Less)
        } else if a == b {
            Some(core::cmp::Ordering::Equal)
        } else {
            Some(core::cmp::Ordering::Greater)
        }
    }
}

impl vstd::std_specs::cmp::PartialOrdSpecImpl for Card {
    open spec fn obeys_partial_cmp_spec() -> bool {
        true
    }

    open spec fn partial_cmp_spec(&self, other: &Card) -> Option<core::cmp::Ordering> {
        if self.scoring_rank.ordinal_spec() < other.scoring_rank.ordinal_spec() {
            Some(core::cmp::Ordering::Less)
        } else if self.scoring_rank.ordinal_spec() == other.scoring_rank.ordinal_spec() {
            Some(core::cmp::Ordering::Equal)
        } else {
            Some(core::cmp::Ordering::Greater)
        }
    }
}

/// Whether a slice of cards holds one with the given identity.
pub fn contains_card(cards: &[Card], c: &Card) -> (r: bool)
    ensures
        r == seq_contains_card(cards@, *c),
{
    let n = cards.len();
    for i in 0..n
        invariant
            n == cards@.len(),
            forall|j: int| 0 <= j < i ==> !same_card(cards@[j], *c),
    {
        if cards[i].rank == c.rank && cards[i].suit == c.suit {
            return true;
        }
    }
    false
}

/// The cards of `a` whose identity does not occur in `b`, in order.
pub fn remove_cards(a: &[Card], b: &[Card]) -> (r: Vec<Card>)
    ensures
        r@ == a@.filter(|c: Card| !seq_contains_card(b@, c)),
{
    broadcast use vstd::seq_lib::group_filter_ensures, Seq::lemma_filter_push;

    let mut r: Vec<Card> = Vec::new();
    let n = a.len();
    for i in 0..n
        invariant
            n == a@.len(),
            r@ == a@.take(i as int).filter(|c: Card| !seq_contains_card(b@, c)),
    {
        proof {
            let pred = |c: Card| !seq_contains_card(b@, c);
            assert(a@.take(i + 1) =~= a@.take(i as int).push(a@[i as int]));
            a@.take(i as int).lemma_filter_push(a@[i as int], pred);
        }
        if !contains_card(b, &a[i]) {
            r.push(a[i]);
        }
    }
    proof {
        assert(a@.take(n as int) =~= a@);
    }
    r
}

/// What is left of `s` after removing the first card whose identity
/// matches `c`; `s` unchanged when no card matches.
pub open spec fn remove_first_spec(s: Seq<Card>, c: Card) -> Seq<Card>
    decreases s.len(),
{
    if s.len() == 0 {
        s
    } else if same_card(s[0], c) {
        s.skip(1)
    } else {
        seq![s[0]] + remove_first_spec(s.skip(1), c)
    }
}

proof fn lemma_remove_first_push(s: Seq<Card>, c: Card, x: Card)
    ensures
        remove_first_spec(s.push(x), c) == if seq_contains_card(s, c) {
            remove_first_spec(s, c).push(x)
        } else if same_card(x, c) {
            s
        } else {
            s.push(x)
        },
    decreases s.len(),
{
    let sp = s.push(x);
    if s.len() == 0 {
        assert(sp.skip(1) =~= s);
        if !same_card(sp[0], c) {
            assert(seq![sp[0]] + remove_first_spec(sp.skip(1), c) =~= s.push(x));
        }
    } else {
        assert(sp[0] == s[0]);
        assert(sp.skip(1) =~= s.skip(1).push(x));
        if same_card(s[0], c) {
            assert(seq_contains_card(s, c));
            assert(sp.skip(1) =~= remove_first_spec(s, c).push(x));
        } else {
            lemma_remove_first_push(s.skip(1), c, x);
            if seq_contains_card(s.skip(1), c) {
                assert(seq_contains_card(s, c)) by {
                    let i = choose|i: int|
                        0 <= i < s.skip(1).len() && same_card(s.skip(1)[i], c);
                    assert(same_card(s[i + 1], c));
                }
                assert(seq![sp[0]] + remove_first_spec(sp.skip(1), c) =~= remove_first_spec(
                    s,
                    c,
                ).push(x));
            } else if same_card(x, c) {
                assert(!seq_contains_card(s, c)) by {
                    if seq_contains_card(s, c) {
                        let i = choose|i: int| 0 <= i < s.len() && same_card(s[i], c);
                        assert(i > 0);
                        assert(same_card(s.skip(1)[i - 1], c));
                    }
                }
                assert(seq![sp[0]] + remove_first_spec(sp.skip(1), c) =~= s);
            } else {
                assert(!seq_contains_card(s, c)) by {
                    if seq_contains_card(s, c) {
                        let i = choose|i: int| 0 <= i < s.len() && same_card(s[i], c);
                        assert(i > 0);
                        assert(same_card(s.skip(1)[i - 1], c));
                    }
                }
                assert(seq![sp[0]] + remove_first_spec(sp.skip(1), c) =~= s.push(x));
            }
        }
    }
}

proof fn lemma_remove_first_absent(s: Seq<Card>, c: Card)
    requires
        !seq_contains_card(s, c),
    ensures
        remove_first_spec(s, c) == s,
    decreases s.len(),
{
    if s.len() > 0 {
        assert(!same_card(s[0], c));
        assert(!seq_contains_card(s.skip(1), c)) by {
            if seq_contains_card(s.skip(1), c) {
                let i = choose|i: int|
                    0 <= i < s.skip(1).len() && #[trigger] same_card(s.skip(1)[i], c);
                assert(same_card(s[i + 1], c));
            }
        }
        lemma_remove_first_absent(s.skip(1), c);
        assert(seq![s[0]] + s.skip(1) =~= s);
    }
}

/// The cards of `a` with the first identity match of `b` removed.
pub fn remove_card(a: &[Card], b: &Card) -> (r: Vec<Card>)
    ensures
        r@ == remove_first_spec(a@, *b),
{
    let mut r: Vec<Card> = Vec::new();
    let mut found = false;
    let n = a.len();
    for i in 0..n
        invariant
            n == a@.len(),
            found == seq_contains_card(a@.take(i as int), *b),
            r@ == remove_first_spec(a@.take(i as int), *b),
    {
        proof {
            assert(a@.take(i + 1) =~= a@.take(i as int).push(a@[i as int]));
            lemma_remove_first_push(a@.take(i as int), *b, a@[i as int]);
            if !found {
                lemma_remove_first_absent(a@.take(i as int), *b);
            }
        }
        let is_match = a[i].rank == b.rank && a[i].suit == b.suit;
        if found || !is_match {
            r.push(a[i]);
        } else {
            found = true;
        }
        proof {
            if is_match {
                assert(same_card(a@.take(i as int).push(a@[i as int]).last(), *b));
                assert(seq_contains_card(a@.take(i + 1), *b));
            } else {
                assert(seq_contains_card(a@.take(i + 1), *b) == seq_contains_card(
                    a@.take(i as int),
                    *b,
                )) by {
                    if seq_contains_card(a@.take(i + 1), *b) {
                        let j = choose|j: int|
                            0 <= j < a@.take(i + 1).len() && #[trigger] same_card(
                                a@.take(i + 1)[j],
                                *b,
                            );
                        assert(j < i);
                        assert(same_card(a@.take(i as int)[j], *b));
                    }
                }
            }
        }
    }
    proof {
        assert(a@.take(n as int) =~= a@);
    }
    r
}

impl Rank {
    /// The one-character notation of a rank. An ace prints as `A`
    /// whether it plays high or low; a joker rank prints as `?`.
    pub open spec fn text_spec(self) -> Seq<char> {
        match self {
            Rank::Ace => seq!['A'],
            Rank::King => seq!['K'],
            Rank::Queen => seq!['Q'],
            Rank::Jack => seq!['J'],
            Rank::Ten => seq!['T'],
            Rank::Nine => seq!['9'],
            Rank::Eight => seq!['8'],
            Rank::Seven => seq!['7'],
            Rank::Six => seq!['6'],
            Rank::Five => seq!['5'],
            Rank::Four => seq!['4'],
            Rank::Three => seq!['3'],
            Rank::Two => seq!['2'],
            Rank::LowAce => seq!['A'],
            Rank::Joker => seq!['?'],
        }
    }

    /// The one-character notation of a rank; see `text_spec`.
    pub fn text(&self) -> (r: &'static str)
        ensures
            r@ == self.text_spec(),
    {
        proof {
            reveal_strlit("A");
            reveal_strlit("K");
            reveal_strlit("Q");
            reveal_strlit("J");
            reveal_strlit("T");
            reveal_strlit("9");
            reveal_strlit("8");
            reveal_strlit("7");
            reveal_strlit("6");
            reveal_strlit("5");
            reveal_strlit("4");
            reveal_strlit("3");
            reveal_strlit("2");
            reveal_strlit("?");
        }
        match self {
            Rank::Ace => "A",
            Rank::King => "K",
            Rank::Queen => "Q",
            Rank::Jack => "J",
            Rank::Ten => "T",
            Rank::Nine => "9",
            Rank::Eight => "8",
            Rank::Seven => "7",
            Rank::Six => "6",
            Rank::Five => "5",
            Rank::Four => "4",
            Rank::Three => "3",
            Rank::Two => "2",
            Rank::LowAce => "A",
            Rank::Joker => "?",
        }
    }
}

impl Suit {
    /// The one-character notation of a suit: its pip, or `?` for the
    /// joker suit.
    pub open spec fn text_spec(self) -> Seq<char> {
        match self {
            Suit::Clubs => seq!['\u{2663}'],
            Suit::Diamonds => seq!['\u{2666}'],
            Suit::Hearts => seq!['\u{2665}'],
            Suit::Spades => seq!['\u{2660}'],
            Suit::Joker => seq!['?'],
        }
    }

    /// The one-character notation of a suit; see `text_spec`.
    pub fn text(&self) -> (r: &'static str)
        ensures
            r@ == self.text_spec(),
    {
        proof {
            reveal_strlit("\u{2663}");
            reveal_strlit("\u{2666}");
            reveal_strlit("\u{2665}");
            reveal_strlit("\u{2660}");
            reveal_strlit("?");
        }
        match self {
            Suit::Clubs => "\u{2663}",
            Suit::Diamonds => "\u{2666}",
            Suit::Hearts => "\u{2665}",
            Suit::Spades => "\u{2660}",
            Suit::Joker => "?",
        }
    }
}

/// The two-character notation of a card: rank then suit.
pub open spec fn card_text_spec(c: Card) -> Seq<char> {
    c.rank.text_spec() + c.suit.text_spec()
}

/// The notation of a sequence of cards, separated by single spaces.
pub open spec fn cards_text_spec(s: Seq<Card>) -> Seq<char>
    decreases s.len(),
{
    if s.len() == 0 {
        Seq::empty()
    } else if s.len() == 1 {
        card_text_spec(s[0])
    } else {
        cards_text_spec(s.drop_last()) + seq![' '] + card_text_spec(s.last())
    }
}

impl Card {
    /// The two-character notation of the card, e.g. `A` followed by the
    /// club pip; a joker prints as `??`.
    pub fn to_text(&self) -> (r: String)
        ensures
            r@ == card_text_spec(*self),
    {
        let s = String::from_str(self.rank.text());
        s.concat(self.suit.text())
    }
}

/// The notation of the given cards, separated by single spaces.
pub fn fmt_cards(cards: &[Card]) -> (r: String)
    ensures
        r@ == cards_text_spec(cards@),
{
    proof {
        reveal_strlit(" ");
        assert(" "@ =~= seq![' ']);
    }
    let mut r = String::new();
    let n = cards.len();
    for i in 0..n
        invariant
            n == cards@.len(),
            r@ == cards_text_spec(cards@.take(i as int)),
    {
        proof {
            reveal_strlit(" ");
            assert(" "@ =~= seq![' ']);
            assert(cards@.take(i + 1).drop_last() =~= cards@.take(i as int));
            assert(cards@.take(i + 1).last() == cards@[i as int]);
        }
        if i > 0 {
            r.append(" ");
        }
        let t = cards[i].to_text();
        r.append(t.as_str());
        proof {
            if i == 0 {
                assert(cards@.take(1) =~= seq![cards@[0]]);
                assert(r@ =~= cards_text_spec(cards@.take(1)));
            } else {
                assert(r@ =~= cards_text_spec(cards@.take(i + 1)));
            }
        }
    }
    proof {
        assert(cards@.take(n as int) =~= cards@);
    }
    r
}

/// A borrowed slice of cards, mainly for turning a hand or board into
/// its text notation in one call.
pub struct Cards<'a>(pub &'a [Card]);

impl<'a> Cards<'a> {
    /// The notation of the borrowed cards, separated by single spaces.
    pub fn to_text(&self) -> (r: String)
        ensures
            r@ == cards_text_spec(self.0@),
    {
        fmt_cards(self.0)
    }
}

/// The rank a notation character stands for, if any. Both letter cases
/// are accepted; `?` is the joker rank.
pub open spec fn rank_of_char(c: char) -> Option<Rank> {
    if c == 'a' || c == 'A' {
        Some(Rank::Ace)
    } else if c == 'k' || c == 'K' {
        Some(Rank::King)
    } else if c == 'q' || c == 'Q' {
        Some(Rank::Queen)
    } else if c == 'j' || c == 'J' {
        Some(Rank::Jack)
    } else if c == 't' || c == 'T' {
        Some(Rank::Ten)
    } else if c == '9' {
        Some(Rank::Nine)
    } else if c == '8' {
        Some(Rank::Eight)
    } else if c == '7' {
        Some(Rank::Seven)
    } else if c == '6' {
        Some(Rank::Six)
    } else if c == '5' {
        Some(Rank::Five)
    } else if c == '4' {
        Some(Rank::Four)
    } else if c == '3' {
        Some(Rank::Three)
    } else if c == '2' {
        Some(Rank::Two)
    } else if c == '?' {
        Some(Rank::Joker)
    } else {
        None
    }
}

/// The suit a notation character stands for, if any: a pip or its
/// letter, or `?` for the joker suit.
pub open spec fn suit_of_char(c: char) -> Option<Suit> {
    if c == 'c' || c == '\u{2663}' {
        Some(Suit::Clubs)
    } else if c == 'd' || c == '\u{2666}' {
        Some(Suit::Diamonds)
    } else if c == 'h' || c == '\u{2665}' {
        Some(Suit::Hearts)
    } else if c == 's' || c == '\u{2660}' {
        Some(Suit::Spades)
    } else if c == '?' {
        Some(Suit::Joker)
    } else {
        None
    }
}

/// Parses a rank notation character; see `rank_of_char`.
pub fn parse_rank_char(c: char) -> (r: Option<Rank>)
    ensures
        r == rank_of_char(c),
{
    if c == 'a' || c == 'A' {
        Some(Rank::Ace)
    } else if c == 'k' || c == 'K' {
        Some(Rank::King)
    } else if c == 'q' || c == 'Q' {
        Some(Rank::Queen)
    } else if c == 'j' || c == 'J' {
        Some(Rank::Jack)
    } else if c == 't' || c == 'T' {
        Some(Rank::Ten)
    } else if c == '9' {
        Some(Rank::Nine)
    } else if c == '8' {
        Some(Rank::Eight)
    } else if c == '7' {
        Some(Rank::Seven)
    } else if c == '6' {
        Some(Rank::Six)
    } else if c == '5' {
        Some(Rank::Five)
    } else if c == '4' {
        Some(Rank::Four)
    } else if c == '3' {
        Some(Rank::Three)
    } else if c == '2' {
        Some(Rank::Two)
    } else if c == '?' {
        Some(Rank::Joker)
    } else {
        None
    }
}

/// Parses a suit notation character; see `suit_of_char`.
pub fn parse_suit_char(c: char) -> (r: Option<Suit>)
    ensures
        r == suit_of_char(c),
{
    if c == 'c' || c == '\u{2663}' {
        Some(Suit::Clubs)
    } else if c == 'd' || c == '\u{2666}' {
        Some(Suit::Diamonds)
    } else if c == 'h' || c == '\u{2665}' {
        Some(Suit::Hearts)
    } else if c == 's' || c == '\u{2660}' {
        Some(Suit::Spades)
    } else if c == '?' {
        Some(Suit::Joker)
    } else {
        None
    }
}

impl core::str::FromStr for Suit {
    type Err = &'static str;

    /// A suit parses from a single pip or letter character.
    fn from_str(s: &str) -> Result<Suit, Self::Err> {
        if s.unicode_len() != 1 {
            return Err("Invalid Suit");
        }
        match parse_suit_char(s.get_char(0)) {
            Some(suit) => Ok(suit),
            None => Err("Invalid Suit"),
        }
    }
}

impl core::str::FromStr for Rank {
    type Err = &'static str;

    /// A rank parses from a single notation character, either case.
    fn from_str(s: &str) -> Result<Rank, Self::Err> {
        if s.unicode_len() != 1 {
            return Err("Invalid Rank");
        }
        match parse_rank_char(s.get_char(0)) {
            Some(rank) => Ok(rank),
            None => Err("Invalid Rank"),
        }
    }
}

impl core::str::FromStr for Card {
    type Err = &'static str;

    /// A card parses from a rank character followed by a suit character,
    /// with surrounding spaces ignored.
    fn from_str(s: &str) -> Result<Card, Self::Err> {
        let n = s.unicode_len();
        let mut i: usize = 0;
        while i < n && s.get_char(i) == ' '
            invariant
                n == s@.len(),
                i <= n,
            decreases n - i,
        {
            i += 1;
        }
        if i >= n {
            return Err("Invalid Rank");
        }
        let rank = match parse_rank_char(s.get_char(i)) {
            Some(rank) => rank,
            None => {
                return Err("Invalid Rank");
            },
        };
        if i + 1 >= n {
            return Err("Invalid Suit");
        }
        let suit = match parse_suit_char(s.get_char(i + 1)) {
            Some(suit) => suit,
            None => {
                return Err("Invalid Suit");
            },
        };
        Ok(Card::new(rank, suit))
    }
}

/// Whether a character is skipped by card-sequence parsing.
pub open spec fn is_separator_char(c: char) -> bool {
    c == ' ' || c == ','
}

/// The notation characters of a card sequence with spaces and commas
/// removed.
pub open spec fn stripped_chars(s: Seq<char>) -> Seq<char> {
    s.filter(|c: char| !is_separator_char(c))
}

/// Whether a separator-free character sequence is a well-formed run of
/// two-character card notations.
pub open spec fn card_chars_ok(s: Seq<char>) -> bool {
    s.len() % 2 == 0 && forall|k: int|
        0 <= k < s.len() / 2 ==> rank_of_char(#[trigger] s[2 * k]) is Some && suit_of_char(
            s[2 * k + 1],
        ) is Some
}

/// The cards a well-formed separator-free character sequence stands for.
pub open spec fn cards_of_chars(s: Seq<char>) -> Seq<Card> {
    Seq::new((s.len() / 2) as nat, |k: int|
        Card {
            rank: rank_of_char(s[2 * k]).unwrap(),
            suit: suit_of_char(s[2 * k + 1]).unwrap(),
            scoring_rank: rank_of_char(s[2 * k]).unwrap(),
        },
    )
}

/// Parses a run of two-character card notations, ignoring spaces and
/// commas anywhere in the input. Fails exactly when what remains after
/// stripping separators is not a run of valid rank/suit pairs.
pub fn parse_cards(s: &str) -> (r: Result<Vec<Card>, &'static str>)
    ensures
        r is Ok <==> card_chars_ok(stripped_chars(s@)),
        r matches Ok(v) ==> v@ == cards_of_chars(stripped_chars(s@)),
{
    broadcast use vstd::seq_lib::group_filter_ensures, Seq::lemma_filter_push;

    let n = s.unicode_len();
    let mut chars: Vec<char> = Vec::new();
    for i in 0..n
        invariant
            n == s@.len(),
            chars@ == s@.take(i as int).filter(|c: char| !is_separator_char(c)),
    {
        proof {
            let pred = |c: char| !is_separator_char(c);
            assert(s@.take(i + 1) =~= s@.take(i as int).push(s@[i as int]));
            s@.take(i as int).lemma_filter_push(s@[i as int], pred);
        }
        let c = s.get_char(i);
        if c != ' ' && c != ',' {
            chars.push(c);
        }
    }
    proof {
        assert(s@.take(n as int) =~= s@);
    }
    let stripped = Ghost(stripped_chars(s@));
    let m = chars.len();
    if m % 2 != 0 {
        return Err("Invalid Cards");
    }
    let count = m / 2;
    let mut cards: Vec<Card> = Vec::new();
    for k in 0..count
        invariant
            stripped@ == stripped_chars(s@),
            chars@ == stripped@,
            m == chars@.len(),
            m % 2 == 0,
            count == m / 2,
            cards@.len() == k,
            forall|j: int|
                0 <= j < k ==> rank_of_char(#[trigger] chars@[2 * j]) is Some && suit_of_char(
                    chars@[2 * j + 1],
                ) is Some,
            forall|j: int| 0 <= j < k ==> cards@[j] == cards_of_chars(stripped@)[j],
    {
        let rank = match parse_rank_char(chars[2 * k]) {
            Some(rank) => rank,
            None => {
                proof {
                    assert(!card_chars_ok(stripped@)) by {
                        if card_chars_ok(stripped@) {
                            assert(rank_of_char(stripped@[2 * (k as int)]) is Some);
                        }
                    }
                }
                return Err("Invalid Rank");
            },
        };
        let suit = match parse_suit_char(chars[2 * k + 1]) {
            Some(suit) => suit,
            None => {
                proof {
                    assert(!card_chars_ok(stripped@)) by {
                        if card_chars_ok(stripped@) {
                            assert(rank_of_char(stripped@[2 * (k as int)]) is Some);
                            assert(suit_of_char(stripped@[2 * (k as int) + 1]) is Some);
                        }
                    }
                }
                return Err("Invalid Suit");
            },
        };
        proof {
            assert(rank_of_char(chars@[2 * (k as int)]) == Some(rank));
            assert(suit_of_char(chars@[2 * (k as int) + 1]) == Some(suit));
            assert(cards_of_chars(stripped@)[k as int] == (Card {
                rank,
                suit,
                scoring_rank: rank,
            }));
        }
        cards.push(Card::new(rank, suit));
    }
    proof {
        assert(card_chars_ok(stripped@));
    }
    proof {
        assert(cards@ =~= cards_of_chars(stripped@));
    }
    Ok(cards)
}

/// An owned sequence of parsed cards.
pub struct CardVector(pub Vec<Card>);

impl CardVector {
    /// Parses a card-sequence string that is known to be well formed;
    /// see `parse_cards` for the grammar.
    pub fn parse(cards_string: &str) -> (r: CardVector)
        requires
            card_chars_ok(stripped_chars(cards_string@)),
        ensures
            r.0@ == cards_of_chars(stripped_chars(cards_string@)),
    {
        match parse_cards(cards_string) {
            Ok(cards) => CardVector(cards),
            Err(_) => {
                proof {
                    assert(false);
                }
                CardVector(Vec::new())
            },
        }
    }
}

impl core::str::FromStr for CardVector {
    type Err = &'static str;

    /// Parses a card-sequence string; see `parse_cards` for the grammar.
    fn from_str(s: &str) -> Result<CardVector, Self::Err> {
        match parse_cards(s) {
            Ok(cards) => Ok(CardVector(cards)),
            Err(e) => Err(e),
        }
    }
}

/// Every element of a filtered sequence occurs in the original.
pub proof fn lemma_filter_elems_contained(s: Seq<Card>, pred: spec_fn(Card) -> bool)
    ensures
        forall|k: int| 0 <= k < s.filter(pred).len() ==> s.contains(#[trigger] s.filter(pred)[k]),
    decreases s.len(),
{
    reveal(Seq::filter);
    if s.len() > 0 {
        lemma_filter_elems_contained(s.drop_last(), pred);
        assert forall|k: int| 0 <= k < s.filter(pred).len() implies s.contains(
            #[trigger] s.filter(pred)[k],
        ) by {
            let f = s.filter(pred);
            let fd = s.drop_last().filter(pred);
            if k < fd.len() {
                assert(fd[k] == f[k]);
                let j = choose|j: int| 0 <= j < s.drop_last().len() && s.drop_last()[j] == fd[k];
                assert(s[j] == f[k]);
            } else {
                assert(f[k] == s.last());
            }
        }
    }
}

/// Card identity ignores the scoring rank: however two cards are
/// credited inside different candidate hands, they are the same card
/// exactly when their rank and suit match.
pub proof fn lemma_identity_ignores_scoring_rank(a: Card, b: Card, ra: Rank, rb: Rank)
    ensures
        same_card(
            Card { rank: a.rank, suit: a.suit, scoring_rank: ra },
            Card { rank: b.rank, suit: b.suit, scoring_rank: rb },
        ) == same_card(a, b),
        same_card(Card { rank: a.rank, suit: a.suit, scoring_rank: ra }, a),
{
}

/// The cards of `a` followed by the cards of `b`.
pub fn add_cards(a: &[Card], b: &[Card]) -> (r: Vec<Card>)
    ensures
        r@ == a@ + b@,
{
    let mut r: Vec<Card> = Vec::new();
    let n = a.len();
    for i in 0..n
        invariant
            n == a@.len(),
            r@ == a@.take(i as int),
    {
        proof {
            assert(a@.take(i + 1) =~= a@.take(i as int).push(a@[i as int]));
        }
        r.push(a[i]);
    }
    let m = b.len();
    for i in 0..m
        invariant
            m == b@.len(),
            n == a@.len(),
            r@ == a@.take(n as int) + b@.take(i as int),
    {
        proof {
            assert(b@.take(i + 1) =~= b@.take(i as int).push(b@[i as int]));
            assert((a@.take(n as int) + b@.take(i as int)).push(b@[i as int]) =~= a@.take(n as int)
                + b@.take(i + 1));
        }
        r.push(b[i]);
    }
    proof {
        assert(a@.take(n as int) + b@.take(m as int) =~= a@ + b@);
    }
    r
}

} // verus!
