//! Playing cards: ranks, suits, cards and decks.
use vstd::prelude::*;
use crate::io::{next_token, utf8_text, Scanner};

verus! {

/// The rank of a card, from two up to ace.
#[derive(Debug, PartialEq, Eq, Structural, PartialOrd, Ord, Clone, Copy)]
pub enum CardRank {
    Two,
    Three,
    Four,
    Five,
    Six,
    Seven,
    Eight,
    Nine,
    Ten,
    Jack,
    Queen,
    King,
    Ace,
}

/// The position of a rank, from 0 for two up to 12 for ace.
pub open spec fn rank_index(r: CardRank) -> nat {
    match r {
        CardRank::Two => 0,
        CardRank::Three => 1,
        CardRank::Four => 2,
        CardRank::Five => 3,
        CardRank::Six => 4,
        CardRank::Seven => 5,
        CardRank::Eight => 6,
        CardRank::Nine => 7,
        CardRank::Ten => 8,
        CardRank::Jack => 9,
        CardRank::Queen => 10,
        CardRank::King => 11,
        CardRank::Ace => 12,
    }
}

/// The rank written as `c` (`2`..`9`, `T`, `J`, `Q`, `K`, `A`).
pub open spec fn rank_of_char(c: char) -> Option<CardRank> {
    if c == '2' {
        Some(CardRank::Two)
    } else if c == '3' {
        Some(CardRank::Three)
    } else if c == '4' {
        Some(CardRank::Four)
    } else if c == '5' {
        Some(CardRank::Five)
    } else if c == '6' {
        Some(CardRank::Six)
    } else if c == '7' {
        Some(CardRank::Seven)
    } else if c == '8' {
        Some(CardRank::Eight)
    } else if c == '9' {
        Some(CardRank::Nine)
    } else if c == 'T' {
        Some(CardRank::Ten)
    } else if c == 'J' {
        Some(CardRank::Jack)
    } else if c == 'Q' {
        Some(CardRank::Queen)
    } else if c == 'K' {
        Some(CardRank::King)
    } else if c == 'A' {
        Some(CardRank::Ace)
    } else {
        None
    }
}

impl CardRank {
    /// The rank written as `c`, if `c` writes one.
    pub fn from_char(c: char) -> (r: Option<CardRank>)
        ensures
            r == rank_of_char(c),
    {
        match c {
            '2' => Some(CardRank::Two),
            '3' => Some(CardRank::Three),
            '4' => Some(CardRank::Four),
            '5' => Some(CardRank::Five),
            '6' => Some(CardRank::Six),
            '7' => Some(CardRank::Seven),
            '8' => Some(CardRank::Eight),
            '9' => Some(CardRank::Nine),
            'T' => Some(CardRank::Ten),
            'J' => Some(CardRank::Jack),
            'Q' => Some(CardRank::Queen),
            'K' => Some(CardRank::King),
            'A' => Some(CardRank::Ace),
            _ => None,
        }
    }

    /// The character that writes the rank.
    pub fn to_char(self) -> (c: char)
        ensures
            rank_of_char(c) == Some(self),
    {
        match self {
            CardRank::Two => '2',
            CardRank::Three => '3',
            CardRank::Four => '4',
            CardRank::Five => '5',
            CardRank::Six => '6',
            CardRank::Seven => '7',
            CardRank::Eight => '8',
            CardRank::Nine => '9',
            CardRank::Ten => 'T',
            CardRank::Jack => 'J',
            CardRank::Queen => 'Q',
            CardRank::King => 'K',
            CardRank::Ace => 'A',
        }
    }

    /// The position of the rank, from 0 for two up to 12 for ace.
    pub fn index(self) -> (r: u8)
        ensures
            r == rank_index(self),
    {
        match self {
            CardRank::Two => 0,
            CardRank::Three => 1,
            CardRank::Four => 2,
            CardRank::Five => 3,
            CardRank::Six => 4,
            CardRank::Seven => 5,
            CardRank::Eight => 6,
            CardRank::Nine => 7,
            CardRank::Ten => 8,
            CardRank::Jack => 9,
            CardRank::Queen => 10,
            CardRank::King => 11,
            CardRank::Ace => 12,
        }
    }
}

/// The suit of a card.
#[derive(Debug, PartialEq, Eq, Structural, Clone, Copy)]
pub enum CardSuit {
    Clubs,
    Diamonds,
    Hearts,
    Spades,
}

/// The suit written as `c` (`C`, `D`, `H`, `S`).
pub open spec fn suit_of_char(c: char) -> Option<CardSuit> {
    if c == 'C' {
        Some(CardSuit::Clubs)
    } else if c == 'D' {
        Some(CardSuit::Diamonds)
    } else if c == 'H' {
        Some(CardSuit::Hearts)
    } else if c == 'S' {
        Some(CardSuit::Spades)
    } else {
        None
    }
}

/// The position of a suit: clubs, diamonds, hearts, spades.
pub open spec fn suit_index(s: CardSuit) -> nat {
    match s {
        CardSuit::Clubs => 0,
        CardSuit::Diamonds => 1,
        CardSuit::Hearts => 2,
        CardSuit::Spades => 3,
    }
}

/// The four suits in their order.
pub open spec fn all_suits() -> Seq<CardSuit> {
    seq![CardSuit::Clubs, CardSuit::Diamonds, CardSuit::Hearts, CardSuit::Spades]
}

/// The thirteen ranks in their order.
pub open spec fn rank_at(i: int) -> CardRank {
    if i == 0 {
        CardRank::Two
    } else if i == 1 {
        CardRank::Three
    } else if i == 2 {
        CardRank::Four
    } else if i == 3 {
        CardRank::Five
    } else if i == 4 {
        CardRank::Six
    } else if i == 5 {
        CardRank::Seven
    } else if i == 6 {
        CardRank::Eight
    } else if i == 7 {
        CardRank::Nine
    } else if i == 8 {
        CardRank::Ten
    } else if i == 9 {
        CardRank::Jack
    } else if i == 10 {
        CardRank::Queen
    } else if i == 11 {
        CardRank::King
    } else {
        CardRank::Ace
    }
}

impl CardSuit {
    /// The four suits: clubs, diamonds, hearts, spades.
    pub fn all() -> (r: Vec<CardSuit>)
        ensures
            r@ == all_suits(),
    {
        let r = vec![CardSuit::Clubs, CardSuit::Diamonds, CardSuit::Hearts, CardSuit::Spades];
        proof {
            assert(r@ =~= all_suits());
        }
        r
    }

    /// The suits that `f` accepts, in their order.
    pub fn filter<F: Fn(CardSuit) -> bool>(f: F) -> (r: Vec<CardSuit>)
        requires
            forall|s: CardSuit| f.requires((s,)),
        ensures
            forall|j: int, k: int|
                0 <= j < k < r@.len() ==> suit_index(#[trigger] r@[j]) < suit_index(#[trigger] r@[k]),
            forall|s: CardSuit| #[trigger] r@.contains(s) ==> f.ensures((s,), true),
            forall|s: CardSuit| !(#[trigger] r@.contains(s)) ==> f.ensures((s,), false),
    {
        let all = CardSuit::all();
        let mut r: Vec<CardSuit> = Vec::new();
        let mut i: usize = 0;
        while i < all.len()
            invariant
                i <= all@.len(),
                all@ == all_suits(),
                forall|s: CardSuit| f.requires((s,)),
                forall|j: int, k: int|
                    0 <= j < k < r@.len() ==> suit_index(#[trigger] r@[j]) < suit_index(#[trigger] r@[k]),
                forall|j: int| 0 <= j < r@.len() ==> suit_index(#[trigger] r@[j]) < i,
                forall|s: CardSuit| #[trigger] r@.contains(s) ==> f.ensures((s,), true),
                forall|s: CardSuit|
                    suit_index(s) < i && !(#[trigger] r@.contains(s)) ==> f.ensures((s,), false),
            decreases all.len() - i,
        {
            let s = all[i];
            proof {
                assert(suit_index(s) == i);
            }
            let keep = f(s);
            let ghost before = r@;
            if keep {
                r.push(s);
                proof {
                    assert forall|t: CardSuit| #[trigger] r@.contains(t) implies f.ensures((t,), true) by {
                        if t == s {
                            assert(f.ensures((s,), keep));
                        } else {
                            let k = choose|k: int| 0 <= k < r@.len() && r@[k] == t;
                            if k < before.len() {
                                assert(before[k] == t);
                                assert(before.contains(t));
                            } else {
                                assert(r@[k] == s);
                            }
                        }
                    }
                    assert forall|t: CardSuit| suit_index(t) < i + 1 && !(#[trigger] r@.contains(t))
                        implies f.ensures((t,), false) by {
                        assert(r@[r@.len() - 1] == s);
                        if before.contains(t) {
                            let k = choose|k: int| 0 <= k < before.len() && before[k] == t;
                            assert(r@[k] == t);
                        }
                    }
                }
            } else {
                proof {
                    assert forall|t: CardSuit| suit_index(t) < i + 1 && !(#[trigger] r@.contains(t))
                        implies f.ensures((t,), false) by {
                        if suit_index(t) == i {
                            assert(t == s);
                        }
                    }
                }
            }
            i += 1;
        }
        r
    }

    /// The suit written as `c`, if `c` writes one.
    pub fn from_char(c: char) -> (r: Option<CardSuit>)
        ensures
            r == suit_of_char(c),
    {
        match c {
            'C' => Some(CardSuit::Clubs),
            'D' => Some(CardSuit::Diamonds),
            'H' => Some(CardSuit::Hearts),
            'S' => Some(CardSuit::Spades),
            _ => None,
        }
    }

    /// The character that writes the suit.
    pub fn to_char(self) -> (c: char)
        ensures
            suit_of_char(c) == Some(self),
    {
        match self {
            CardSuit::Clubs => 'C',
            CardSuit::Diamonds => 'D',
            CardSuit::Hearts => 'H',
            CardSuit::Spades => 'S',
        }
    }
}

/// The card that `s` writes: two characters, rank then suit.
pub open spec fn card_of(s: Seq<char>) -> Option<Card> {
    if s.len() == 2 && rank_of_char(s[0]) is Some && suit_of_char(s[1]) is Some {
        Some(Card(rank_of_char(s[0])->Some_0, suit_of_char(s[1])->Some_0))
    } else {
        None
    }
}

/// Reading `n` cards, one token each: all of them if every token writes a card, and the
/// position after the last token read.
pub open spec fn read_cards(buf: Seq<u8>, pos: int, n: nat) -> (Option<Seq<Card>>, int)
    decreases n,
{
    if n == 0 {
        (Some(Seq::empty()), pos)
    } else {
        let (head, p) = read_cards(buf, pos, (n - 1) as nat);
        match next_token(buf, p) {
            None => (None, buf.len() as int),
            Some((t, e)) => (
                match (head, utf8_text(t)) {
                    (Some(h), Some(text)) => match card_of(text) {
                        Some(c) => Some(h.push(c)),
                        None => None,
                    },
                    _ => None,
                },
                e,
            ),
        }
    }
}

/// A card: a rank and a suit.  Cards are ordered by rank alone.
#[derive(Debug, PartialEq, Eq, Structural, Clone, Copy)]
pub struct Card(pub CardRank, pub CardSuit);

impl Card {
    pub open spec fn rank_spec(&self) -> CardRank {
        self.0
    }

    pub open spec fn suit_spec(&self) -> CardSuit {
        self.1
    }

    pub fn new(rank: CardRank, suit: CardSuit) -> (r: Card)
        ensures
            r.rank_spec() == rank,
            r.suit_spec() == suit,
    {
        Card(rank, suit)
    }

    /// The card written as two characters, rank then suit (`"QH"`, `"TS"`).
    pub fn parse(s: &str) -> (r: Option<Card>)
        ensures
            r == card_of(s@),
    {
        if s.unicode_len() != 2 {
            return None;
        }
        match (CardRank::from_char(s.get_char(0)), CardSuit::from_char(s.get_char(1))) {
            (Some(rank), Some(suit)) => Some(Card(rank, suit)),
            _ => None,
        }
    }

    pub fn rank(&self) -> (r: CardRank)
        ensures
            r == self.0,
    {
        self.0
    }

    pub fn suit(&self) -> (r: CardSuit)
        ensures
            r == self.1,
    {
        self.1
    }

    /// Whether the card is of the trump suit.
    pub fn is_trump(&self, trump: CardSuit) -> (r: bool)
        ensures
            r == (self.1 == trump),
    {
        self.1 == trump
    }

    pub fn is_same_suit(&self, other: &Card) -> (r: bool)
        ensures
            r == (self.1 == other.1),
    {
        self.1 == other.1
    }

    pub fn is_same_rank(&self, other: &Card) -> (r: bool)
        ensures
            r == (self.0 == other.0),
    {
        self.0 == other.0
    }
}

/// The cards of `s` whose rank has index `k`, in their order.
pub open spec fn with_rank(s: Seq<Card>, k: nat) -> Seq<Card>
    decreases s.len(),
{
    if s.len() == 0 {
        s
    } else if rank_index(s.last().0) == k {
        with_rank(s.drop_last(), k).push(s.last())
    } else {
        with_rank(s.drop_last(), k)
    }
}

/// The cards of `s` of suit `suit`, in their order.
pub open spec fn with_suit(s: Seq<Card>, suit: CardSuit) -> Seq<Card>
    decreases s.len(),
{
    if s.len() == 0 {
        s
    } else if s.last().1 == suit {
        with_suit(s.drop_last(), suit).push(s.last())
    } else {
        with_suit(s.drop_last(), suit)
    }
}

/// The cards of `s` whose rank index is below `k`, by rank and, within a rank, in
/// their order in `s`.
pub open spec fn ranked_below(s: Seq<Card>, k: nat) -> Seq<Card>
    decreases k,
{
    if k == 0 {
        Seq::empty()
    } else {
        ranked_below(s, (k - 1) as nat) + with_rank(s, (k - 1) as nat)
    }
}

/// The cards of `s` sorted by rank; cards of equal rank keep their order.
pub open spec fn sorted_by_rank(s: Seq<Card>) -> Seq<Card> {
    ranked_below(s, 13)
}

/// Sorts cards by rank, keeping the order of cards of equal rank.
pub fn sort_by_rank(cards: &mut Vec<Card>)
    ensures
        final(cards)@ == sorted_by_rank(old(cards)@),
{
    let src = cards.clone();
    proof {
        assert(src@ =~= cards@);
    }
    let mut out: Vec<Card> = Vec::new();
    let mut k: u8 = 0;
    while k < 13
        invariant
            k <= 13,
            src@ == old(cards)@,
            out@ == ranked_below(src@, k as nat),
        decreases 13 - k,
    {
        let mut i: usize = 0;
        let ghost start = out@;
        proof {
            assert(src@.subrange(0, 0) =~= Seq::<Card>::empty());
            assert(start + with_rank(src@.subrange(0, 0), k as nat) =~= start);
        }
        while i < src.len()
            invariant
                i <= src@.len(),
                start == ranked_below(src@, k as nat),
                out@ == start + with_rank(src@.subrange(0, i as int), k as nat),
            decreases src.len() - i,
        {
            let c = src[i];
            proof {
                assert(src@.subrange(0, i + 1).drop_last() == src@.subrange(0, i as int));
            }
            if c.0.index() == k {
                out.push(c);
            }
            proof {
                assert(out@ =~= start + with_rank(src@.subrange(0, i + 1), k as nat));
            }
            i += 1;
        }
        proof {
            assert(src@.subrange(0, src@.len() as int) == src@);
        }
        k += 1;
    }
    *cards = out;
}

/// Every card once: clubs, diamonds, hearts, spades, each from two up to ace.
pub open spec fn full_deck() -> Seq<Card> {
    Seq::new(52, |i: int| Card(rank_at(i % 13), all_suits()[i / 13]))
}

/// A hand or deck of cards, with an optional trump suit.
#[derive(Debug)]
pub struct CardDeck {
    cards: Vec<Card>,
    trump: Option<CardSuit>,
}

impl CardDeck {
    pub closed spec fn cards_spec(&self) -> Seq<Card> {
        self.cards@
    }

    pub closed spec fn trump_spec(&self) -> Option<CardSuit> {
        self.trump
    }

    /// The full deck of 52 cards, with no trump.
    pub fn new() -> (r: CardDeck)
        ensures
            r.cards_spec() == full_deck(),
            r.trump_spec() is None,
    {
        let suits = CardSuit::all();
        let ranks = vec![
            CardRank::Two,
            CardRank::Three,
            CardRank::Four,
            CardRank::Five,
            CardRank::Six,
            CardRank::Seven,
            CardRank::Eight,
            CardRank::Nine,
            CardRank::Ten,
            CardRank::Jack,
            CardRank::Queen,
            CardRank::King,
            CardRank::Ace,
        ];
        proof {
            assert forall|j: int| 0 <= j < 13 implies ranks@[j] == rank_at(j) by {}
        }
        let mut cards: Vec<Card> = Vec::new();
        let mut s: usize = 0;
        while s < 4
            invariant
                s <= 4,
                suits@ == all_suits(),
                ranks@.len() == 13,
                forall|j: int| 0 <= j < 13 ==> ranks@[j] == rank_at(j),
                cards@ == full_deck().subrange(0, 13 * s as int),
            decreases 4 - s,
        {
            let mut r: usize = 0;
            while r < 13
                invariant
                    s < 4,
                    r <= 13,
                    suits@ == all_suits(),
                    ranks@.len() == 13,
                    forall|j: int| 0 <= j < 13 ==> ranks@[j] == rank_at(j),
                    cards@ == full_deck().subrange(0, 13 * s + r),
                decreases 13 - r,
            {
                cards.push(Card(ranks[r], suits[s]));
                proof {
                    let i = 13 * s + r;
                    assert(i % 13 == r as int && i / 13 == s as int) by (nonlinear_arith)
                        requires i == 13 * s + r, 0 <= r < 13, 0 <= s;
                    assert(cards@ =~= full_deck().subrange(0, 13 * s + r + 1));
                }
                r += 1;
            }
            s += 1;
        }
        proof {
            assert(full_deck().subrange(0, 52) =~= full_deck());
        }
        CardDeck { cards, trump: None }
    }

    /// A deck of the next `n` cards of the input, with the given trump; `None` if a token
    /// is not a card.
    pub fn from_scan(scan: &mut Scanner, n: usize, trump: Option<CardSuit>) -> (r: Option<CardDeck>)
        requires
            old(scan).wf(),
        ensures
            final(scan).wf(),
            final(scan).input() == old(scan).input(),
            ({
                let (cards, p) = read_cards(old(scan).input(), old(scan).position(), n as nat);
                &&& final(scan).position() == p
                &&& match cards {
                    Some(c) => r matches Some(d) && d.cards_spec() == c && d.trump_spec() == trump,
                    None => r is None,
                }
            }),
    {
        let ghost buf = scan.input();
        let ghost p0 = scan.position();
        let mut cards: Vec<Card> = Vec::new();
        let mut ok = true;
        let mut k: usize = 0;
        while k < n
            invariant
                scan.wf(),
                scan.input() == buf,
                k <= n,
                ({
                    let (v, p) = read_cards(buf, p0, k as nat);
                    &&& scan.position() == p
                    &&& ok == v is Some
                    &&& ok ==> cards@ == v->Some_0
                }),
            decreases n - k,
        {
            let card = match scan.string() {
                Some(s) => Card::parse(s.as_str()),
                None => None,
            };
            match card {
                Some(c) => {
                    if ok {
                        cards.push(c);
                    }
                },
                None => {
                    ok = false;
                },
            }
            k += 1;
        }
        if ok {
            Some(CardDeck { cards, trump })
        } else {
            None
        }
    }

    /// A deck holding `cards`, with the given trump.
    pub fn from_vec(cards: Vec<Card>, trump: Option<CardSuit>) -> (r: CardDeck)
        ensures
            r.cards_spec() == cards@,
            r.trump_spec() == trump,
    {
        CardDeck { cards, trump }
    }

    /// The deck with its cards sorted by rank (cards of equal rank keep their order).
    pub fn sorted(self) -> (r: CardDeck)
        ensures
            r.cards_spec() == sorted_by_rank(self.cards_spec()),
            r.trump_spec() == self.trump_spec(),
    {
        let mut cards = self.cards;
        sort_by_rank(&mut cards);
        CardDeck { cards, trump: self.trump }
    }

    pub fn set_trump(&mut self, trump: CardSuit)
        ensures
            final(self).trump_spec() == Some(trump),
            final(self).cards_spec() == old(self).cards_spec(),
    {
        self.trump = Some(trump);
    }

    pub fn cards(&self) -> (r: &[Card])
        ensures
            r@ == self.cards_spec(),
    {
        self.cards.as_slice()
    }

    /// The cards of suit `suit`, in their order in the deck.
    pub fn cards_by_suit(&self, suit: CardSuit) -> (r: Vec<Card>)
        ensures
            r@ == with_suit(self.cards_spec(), suit),
    {
        let mut r: Vec<Card> = Vec::new();
        let mut i: usize = 0;
        proof {
            assert(self.cards@.subrange(0, 0) =~= Seq::<Card>::empty());
        }
        while i < self.cards.len()
            invariant
                i <= self.cards@.len(),
                r@ == with_suit(self.cards@.subrange(0, i as int), suit),
            decreases self.cards.len() - i,
        {
            let c = self.cards[i];
            proof {
                assert(self.cards@.subrange(0, i + 1).drop_last() == self.cards@.subrange(0, i as int));
            }
            if c.1 == suit {
                r.push(c);
            }
            i += 1;
        }
        proof {
            assert(self.cards@.subrange(0, self.cards@.len() as int) == self.cards@);
        }
        r
    }

    pub fn trump(&self) -> (r: Option<CardSuit>)
        ensures
            r == self.trump_spec(),
    {
        self.trump
    }

    /// Whether `suit` is the trump suit.
    pub fn is_trump(&self, suit: CardSuit) -> (r: bool)
        ensures
            r == (self.trump_spec() == Some(suit)),
    {
        match self.trump {
            Some(t) => t == suit,
            None => false,
        }
    }
}

} // verus!
