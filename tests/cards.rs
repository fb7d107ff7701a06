use algorist::misc::cards::{sort_by_rank, Card, CardDeck, CardRank, CardSuit};

fn card(s: &str) -> Card {
    Card::parse(s).unwrap()
}

#[test]
fn card_conversion() {
    let s = "2H";
    let card = Card::parse(s).unwrap();
    assert_eq!(card.rank(), CardRank::Two);
    assert_eq!(card.suit(), CardSuit::Hearts);

    let s = "AS";
    let card = Card::parse(s).unwrap();
    assert_eq!(card.rank(), CardRank::Ace);
    assert_eq!(card.suit(), CardSuit::Spades);
}

#[test]
fn all_variants() {
    for rank in 0..13 {
        for suit in 0..4 {
            let (rank, suit) = (
                "23456789TJQKA".chars().nth(rank).unwrap(),
                "CDHS".chars().nth(suit).unwrap(),
            );
            let s = format!("{}{}", rank, suit);
            let card = Card::parse(&s).unwrap();
            assert_eq!(card.rank(), CardRank::from_char(rank).unwrap());
            assert_eq!(card.suit(), CardSuit::from_char(suit).unwrap());
            assert_eq!(card.rank().to_char(), rank);
            assert_eq!(card.suit().to_char(), suit);
        }
    }
}

#[test]
fn sort_card_ranks() {
    let mut ranks = vec![
        CardRank::Ace,
        CardRank::Eight,
        CardRank::Two,
        CardRank::Four,
        CardRank::Five,
        CardRank::Six,
        CardRank::Seven,
        CardRank::Three,
        CardRank::Nine,
        CardRank::Ten,
        CardRank::Jack,
        CardRank::Queen,
        CardRank::King,
    ];
    ranks.sort();
    assert_eq!(
        ranks,
        vec![
            CardRank::Two,
            CardRank::Three,
            CardRank::Four,
            CardRank::Five,
            CardRank::Six,
            CardRank::Seven,
            CardRank::Eight,
            CardRank::Nine,
            CardRank::Ten,
            CardRank::Jack,
            CardRank::Queen,
            CardRank::King,
            CardRank::Ace
        ]
    );
}

#[test]
fn sort_cards() {
    let mut cards = vec![
        card("QH"),
        card("9H"),
        card("7H"),
        card("2H"),
        card("3H"),
        card("4H"),
        card("AH"),
        card("5H"),
        card("6H"),
        card("8H"),
        card("TH"),
        card("JH"),
        card("KH"),
    ];
    sort_by_rank(&mut cards);
    assert_eq!(
        cards,
        vec![
            card("2H"),
            card("3H"),
            card("4H"),
            card("5H"),
            card("6H"),
            card("7H"),
            card("8H"),
            card("9H"),
            card("TH"),
            card("JH"),
            card("QH"),
            card("KH"),
            card("AH"),
        ]
    );
}

#[test]
fn sord_cards_mixed_suits() {
    let mut cards = vec![
        card("QS"),
        card("QH"),
        card("QD"),
        card("9S"),
        card("7H"),
        card("2D"),
        card("3C"),
        card("4H"),
        card("AS"),
        card("5H"),
        card("6H"),
        card("8H"),
        card("TS"),
        card("JC"),
        card("KD"),
    ];
    sort_by_rank(&mut cards);
    assert_eq!(
        cards,
        vec![
            card("2D"),
            card("3C"),
            card("4H"),
            card("5H"),
            card("6H"),
            card("7H"),
            card("8H"),
            card("9S"),
            card("TS"),
            card("JC"),
            card("QS"),
            card("QH"),
            card("QD"),
            card("KD"),
            card("AS"),
        ]
    );
}

#[test]
fn compare_cards() {
    let c1 = card("QH");
    let c2 = card("QS");
    assert!(c1 != c2);

    let c1 = card("QH");
    let c2 = card("QH");
    assert!(c1 == c2);

    let c1 = card("QH");
    assert!(c1.is_trump(CardSuit::Hearts));

    let c1 = card("2H");
    let c2 = card("2S");
    assert!(c1.is_same_rank(&c2));

    let c1 = card("QS");
    let c2 = card("KS");
    assert!(c1.is_same_suit(&c2));
}

#[test]
fn deck_creation() {
    let deck = CardDeck::new();
    assert_eq!(deck.cards().len(), 52);
    assert_eq!(deck.cards_by_suit(CardSuit::Clubs).len(), 13);
    assert_eq!(deck.cards_by_suit(CardSuit::Diamonds).len(), 13);
    assert_eq!(deck.cards_by_suit(CardSuit::Hearts).len(), 13);
    assert_eq!(deck.cards_by_suit(CardSuit::Spades).len(), 13);
}

#[test]
fn from_vec() {
    let cards = vec![
        card("AC"),
        card("3H"),
        card("4H"),
        card("5H"),
        card("TS"),
        card("6H"),
        card("2H"),
        card("KS"),
        card("AD"),
    ];
    let deck = CardDeck::from_vec(cards, None);

    assert_eq!(deck.cards_by_suit(CardSuit::Hearts).len(), 5);
    assert_eq!(deck.cards_by_suit(CardSuit::Clubs).len(), 1);
    assert_eq!(deck.cards_by_suit(CardSuit::Spades).len(), 2);
    assert_eq!(deck.cards_by_suit(CardSuit::Diamonds).len(), 1);
}

#[test]
fn deck_sorted() {
    let cards = vec![
        card("AC"),
        card("3H"),
        card("4H"),
        card("5H"),
        card("TS"),
        card("6H"),
        card("2H"),
        card("KS"),
        card("AD"),
    ];
    let deck = CardDeck::from_vec(cards, None).sorted();
    let mut cards = deck.cards_by_suit(CardSuit::Hearts).to_vec();
    sort_by_rank(&mut cards);
    assert_eq!(cards, vec![card("2H"), card("3H"), card("4H"), card("5H"), card("6H"),]);

    let deck_sorted = deck.sorted();
    assert_eq!(cards, deck_sorted.cards_by_suit(CardSuit::Hearts));
}

#[test]
fn card_suits() {
    assert_eq!(
        CardSuit::all(),
        vec![CardSuit::Clubs, CardSuit::Diamonds, CardSuit::Hearts, CardSuit::Spades,]
    );

    assert_eq!(
        CardSuit::filter(|suit| suit != CardSuit::Clubs),
        vec![CardSuit::Diamonds, CardSuit::Hearts, CardSuit::Spades]
    );
}

#[test]
fn deck_trump() {
    let mut deck = CardDeck::from_vec(vec![card("2H")], None);
    assert_eq!(deck.trump(), None);
    assert!(!deck.is_trump(CardSuit::Hearts));
    deck.set_trump(CardSuit::Hearts);
    assert_eq!(deck.trump(), Some(CardSuit::Hearts));
    assert!(deck.is_trump(CardSuit::Hearts));
    assert!(!deck.is_trump(CardSuit::Spades));
}

#[test]
fn card_parse_rejects() {
    assert_eq!(Card::parse("1H"), None);
    assert_eq!(Card::parse("2X"), None);
    assert_eq!(Card::parse("2HH"), None);
    assert_eq!(Card::parse(""), None);
    assert_eq!(Card::new(CardRank::Ten, CardSuit::Clubs), card("TC"));
    assert_eq!(CardRank::Ace.index(), 12);
}

use algorist::io::Scanner;

#[test]
fn deck_from_scan() {
    let input = b"2H 3H 4H 5H 6H\n";
    let mut scan = Scanner::new(input.to_vec());
    let mut deck = CardDeck::from_scan(&mut scan, 5, None).unwrap();
    assert_eq!(deck.cards().len(), 5);
    assert_eq!(deck.cards_by_suit(CardSuit::Hearts).len(), 5);
    deck.set_trump(CardSuit::Hearts);
    assert_eq!(deck.trump(), Some(CardSuit::Hearts));
}

#[test]
fn deck_from_scan_split_by_suit() {
    let input = b"AC 3H 4H 5H TS 6H 2H KS AD\n";
    let mut scan = Scanner::new(input.to_vec());
    let deck = CardDeck::from_scan(&mut scan, 9, None).unwrap();
    assert_eq!(deck.cards_by_suit(CardSuit::Hearts).len(), 5);
    assert_eq!(deck.cards_by_suit(CardSuit::Clubs).len(), 1);
    assert_eq!(deck.cards_by_suit(CardSuit::Spades).len(), 2);
    assert_eq!(deck.cards_by_suit(CardSuit::Diamonds).len(), 1);

    let mut cards = deck.cards_by_suit(CardSuit::Hearts).to_vec();
    sort_by_rank(&mut cards);
    assert_eq!(cards, vec![card("2H"), card("3H"), card("4H"), card("5H"), card("6H"),]);

    let mut cards = deck.cards_by_suit(CardSuit::Clubs).to_vec();
    sort_by_rank(&mut cards);
    assert_eq!(cards, vec![card("AC")]);

    let mut cards = deck.cards_by_suit(CardSuit::Spades).to_vec();
    sort_by_rank(&mut cards);
    assert_eq!(cards, vec![card("TS"), card("KS"),]);

    let mut cards = deck.cards_by_suit(CardSuit::Diamonds).to_vec();
    sort_by_rank(&mut cards);
    assert_eq!(cards, vec![card("AD")]);
}

#[test]
fn deck_from_scan_rejects_bad_cards() {
    let mut scan = Scanner::new(b"2H 1X 3H".to_vec());
    assert!(CardDeck::from_scan(&mut scan, 3, None).is_none());
    let mut scan = Scanner::new(b"2H".to_vec());
    assert!(CardDeck::from_scan(&mut scan, 2, Some(CardSuit::Clubs)).is_none());
}
