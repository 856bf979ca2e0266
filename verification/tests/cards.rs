use holdem::cards::{Card, CardParseError, Deck, Rank, RankParseError, Suit, SuitParseError};

#[test]
fn parse_and_display() {
    let card = "10d".parse::<Card>().expect("should not fail");
    assert_eq!(card.to_string(), "10♦");
    let card = "AC\n".parse::<Card>().expect("should not fail");
    assert_eq!(card.to_string(), "A♣");
    let card = "ac".parse::<Card>().expect("should not fail");
    assert_eq!(card.to_string(), "A♣");
}

#[test]
fn ten_of_diamonds_has_rank_ten() {
    let card = "10d".parse::<Card>().expect("should not fail");
    assert_eq!(card, Card { rank: Rank::Ten, suit: Suit::Diamonds });
}

#[test]
fn letters_are_read_in_either_case() {
    let lower = "ac".parse::<Card>().expect("should not fail");
    let upper = "AC".parse::<Card>().expect("should not fail");
    assert_eq!(lower, upper);
    assert_eq!(lower, Card { rank: Rank::Ace, suit: Suit::Clubs });
}

#[test]
fn one_is_no_rank() {
    let parsed = "1d".parse::<Card>();
    assert_eq!(
        parsed,
        Err(CardParseError::RankParseError(RankParseError::InvalidRank("1".to_string())))
    );
}

#[test]
fn unknown_suit_is_reported_with_its_token() {
    assert_eq!(
        "ax".parse::<Card>(),
        Err(CardParseError::SuitParseError(SuitParseError::InvalidSuit("x".to_string())))
    );
    assert_eq!(
        "10".parse::<Card>(),
        Err(CardParseError::SuitParseError(SuitParseError::InvalidSuit("".to_string())))
    );
    assert_eq!(
        "2hh".parse::<Card>(),
        Err(CardParseError::SuitParseError(SuitParseError::InvalidSuit("hh".to_string())))
    );
}

#[test]
fn short_token_is_incomplete() {
    assert_eq!("a".parse::<Card>(), Err(CardParseError::IncompleteError));
    assert_eq!("".parse::<Card>(), Err(CardParseError::IncompleteError));
    assert_eq!("  \n".parse::<Card>(), Err(CardParseError::IncompleteError));
}

#[test]
fn white_space_around_a_card_is_ignored() {
    let card = Card::parse("  \tKs \n").expect("should not fail");
    assert_eq!(card, Card { rank: Rank::King, suit: Suit::Spades });
    assert!(Card::parse_token(" Ks").is_err());
}

#[test]
fn suit_glyphs_are_read() {
    assert_eq!("♥".parse::<Suit>(), Ok(Suit::Hearts));
    assert_eq!("♣".parse::<Suit>(), Ok(Suit::Clubs));
    assert_eq!("♠".parse::<Suit>(), Ok(Suit::Spades));
    assert_eq!("♦".parse::<Suit>(), Ok(Suit::Diamonds));
    assert_eq!("Q♥".parse::<Card>(), Ok(Card { rank: Rank::Queen, suit: Suit::Hearts }));
    assert_eq!("x".parse::<Suit>(), Err(SuitParseError::InvalidSuit("x".to_string())));
}

#[test]
fn every_rank_is_written_as_it_is_read() {
    let ranks = Rank::all();
    assert_eq!(ranks.len(), 13);
    for rank in ranks {
        assert_eq!(rank.to_string().parse::<Rank>(), Ok(rank));
    }
    assert_eq!(Rank::Ten.to_string(), "10");
    assert_eq!(Rank::Jack.to_string(), "J");
    assert_eq!("q".parse::<Rank>(), Ok(Rank::Queen));
    assert_eq!("11".parse::<Rank>(), Err(RankParseError::InvalidRank("11".to_string())));
}

#[test]
fn successor_wraps_after_ace() {
    assert_eq!(Rank::Two.successor(), Rank::Three);
    assert_eq!(Rank::Nine.successor(), Rank::Ten);
    assert_eq!(Rank::King.successor(), Rank::Ace);
    assert_eq!(Rank::Ace.successor(), Rank::Two);
    assert!(Rank::Ace > Rank::Two);
}

#[test]
fn ordinals_follow_the_order() {
    assert_eq!(Rank::Two.ordinal(), 0);
    assert_eq!(Rank::Ace.ordinal(), 12);
    assert_eq!(Suit::Hearts.ordinal(), 0);
    assert_eq!(Suit::Diamonds.ordinal(), 3);
    assert_eq!(Card { rank: Rank::Ace, suit: Suit::Diamonds }.ordinal(), 51);
    assert_eq!(Card { rank: Rank::Three, suit: Suit::Spades }.ordinal(), 6);
}

#[test]
fn all_cards_come_rank_by_rank() {
    let cards = Card::iter();
    assert_eq!(cards.len(), 52);
    assert_eq!(cards[0], Card { rank: Rank::Two, suit: Suit::Hearts });
    assert_eq!(cards[1], Card { rank: Rank::Two, suit: Suit::Clubs });
    assert_eq!(cards[3], Card { rank: Rank::Two, suit: Suit::Diamonds });
    assert_eq!(cards[4], Card { rank: Rank::Three, suit: Suit::Hearts });
    assert_eq!(cards[51], Card { rank: Rank::Ace, suit: Suit::Diamonds });
    for (i, card) in cards.iter().enumerate() {
        assert_eq!(card.ordinal() as usize, i);
    }
    let mut sorted = cards.clone();
    sorted.sort();
    assert_eq!(sorted, cards);
}

#[test]
fn new_deck_holds_every_card_once() {
    let deck = Deck::new();
    assert_eq!(deck.0.len(), 52);
    let mut sorted = deck.0.clone();
    sorted.sort();
    assert_eq!(sorted, Card::iter());
}

#[test]
fn new_deck_is_shuffled() {
    let first = Deck::new();
    let second = Deck::new();
    assert!(first.0 != Card::iter() || second.0 != Card::iter());
}

#[test]
fn dealing_takes_cards_from_the_end() {
    let mut deck = Deck(Card::iter());
    let three = deck.deal_n::<3>().expect("deck too small");
    assert_eq!(three[0], Card { rank: Rank::Ace, suit: Suit::Clubs });
    assert_eq!(three[1], Card { rank: Rank::Ace, suit: Suit::Spades });
    assert_eq!(three[2], Card { rank: Rank::Ace, suit: Suit::Diamonds });
    assert_eq!(deck.0.len(), 49);
    assert_eq!(deck.0, Card::iter()[..49].to_vec());
    let none = deck.deal_n::<0>().expect("nothing can always be dealt");
    assert_eq!(none.len(), 0);
    assert_eq!(deck.0.len(), 49);
}

#[test]
fn dealing_too_many_leaves_the_deck() {
    let mut deck = Deck(Card::iter()[..4].to_vec());
    assert!(deck.deal_n::<5>().is_none());
    assert_eq!(deck.0, Card::iter()[..4].to_vec());
    assert!(deck.deal_n::<4>().is_some());
    assert!(deck.0.is_empty());
    assert!(deck.deal_n::<1>().is_none());
}

#[test]
fn two_deals_hand_out_the_whole_deck() {
    let mut deck = Deck::new();
    let before = deck.0.clone();
    let first = deck.deal_n::<17>().expect("deck too small");
    let second = deck.deal_n::<35>().expect("deck too small");
    assert!(deck.0.is_empty());
    assert!(deck.deal_n::<1>().is_none());
    let mut all: Vec<Card> = first.to_vec();
    all.extend_from_slice(&second);
    assert_eq!(all.len(), 52);
    let mut rejoined: Vec<Card> = second.to_vec();
    rejoined.extend_from_slice(&first);
    assert_eq!(rejoined, before);
    all.sort();
    assert_eq!(all, Card::iter());
}
