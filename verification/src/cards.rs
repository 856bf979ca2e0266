//! The card model: ranks, suits, cards and the deck, and the written form
//! of ranks, suits and cards.

use itertools::Itertools;
use rand::seq::SliceRandom;
use rand::thread_rng;
use vstd::prelude::*;

verus! {

/// The thirteen ranks, lowest first.
#[derive(Clone, Copy, PartialEq, Eq, Structural, PartialOrd, Ord, Debug, Hash)]
pub enum Rank {
    Two,
    Three,
    Four,
    Five,
    Six,
    Seven,
    Eight,
    Nine,
    Ten,
    Jack,
    Queen,
    King,
    Ace,
}

impl Rank {
    /// Position of the rank in the natural order: `Two` is 0, `Ace` is 12.
    pub open spec fn index(self) -> int {
        match self {
            Rank::Two => 0,
            Rank::Three => 1,
            Rank::Four => 2,
            Rank::Five => 3,
            Rank::Six => 4,
            Rank::Seven => 5,
            Rank::Eight => 6,
            Rank::Nine => 7,
            Rank::Ten => 8,
            Rank::Jack => 9,
            Rank::Queen => 10,
            Rank::King => 11,
            Rank::Ace => 12,
        }
    }

    /// The rank at a position of the natural order; positions wrap around
    /// after `Ace`.
    pub open spec fn at(i: int) -> Rank {
        let k = i % 13;
        if k == 0 {
            Rank::Two
        } else if k == 1 {
            Rank::Three
        } else if k == 2 {
            Rank::Four
        } else if k == 3 {
            Rank::Five
        } else if k == 4 {
            Rank::Six
        } else if k == 5 {
            Rank::Seven
        } else if k == 6 {
            Rank::Eight
        } else if k == 7 {
            Rank::Nine
        } else if k == 8 {
            Rank::Ten
        } else if k == 9 {
            Rank::Jack
        } else if k == 10 {
            Rank::Queen
        } else if k == 11 {
            Rank::King
        } else {
            Rank::Ace
        }
    }

    /// The position of the rank as a machine integer.
    pub fn ordinal(&self) -> (n: u8)
        ensures
            n == self.index(),
            n < 13,
    {
        match self {
            Rank::Two => 0,
            Rank::Three => 1,
            Rank::Four => 2,
            Rank::Five => 3,
            Rank::Six => 4,
            Rank::Seven => 5,
            Rank::Eight => 6,
            Rank::Nine => 7,
            Rank::Ten => 8,
            Rank::Jack => 9,
            Rank::Queen => 10,
            Rank::King => 11,
            Rank::Ace => 12,
        }
    }

    /// The rank that follows in the cycle Two, Three, ..., Ace, Two.
    pub open spec fn successor_spec(self) -> Rank {
        Rank::at(self.index() + 1)
    }

    /// The next rank upwards. `Ace` wraps around to `Two`; the wrap exists
    /// for straight detection only and is no part of the order on ranks.
    pub fn successor(&self) -> (next: Rank)
        ensures
            next == self.successor_spec(),
            next.index() == (self.index() + 1) % 13,
    {
        match self {
            Rank::Two => Rank::Three,
            Rank::Three => Rank::Four,
            Rank::Four => Rank::Five,
            Rank::Five => Rank::Six,
            Rank::Six => Rank::Seven,
            Rank::Seven => Rank::Eight,
            Rank::Eight => Rank::Nine,
            Rank::Nine => Rank::Ten,
            Rank::Ten => Rank::Jack,
            Rank::Jack => Rank::Queen,
            Rank::Queen => Rank::King,
            Rank::King => Rank::Ace,
            Rank::Ace => Rank::Two,
        }
    }

    /// All ranks, lowest first.
    pub fn all() -> (ranks: Vec<Rank>)
        ensures
            ranks.len() == 13,
            forall|i: int| 0 <= i < 13 ==> (#[trigger] ranks[i]).index() == i,
    {
        vec![
            Rank::Two,
            Rank::Three,
            Rank::Four,
            Rank::Five,
            Rank::Six,
            Rank::Seven,
            Rank::Eight,
            Rank::Nine,
            Rank::Ten,
            Rank::Jack,
            Rank::Queen,
            Rank::King,
            Rank::Ace,
        ]
    }
}

/// The four suits. Their order is incidental and never decides the strength
/// of a hand.
#[derive(Clone, Copy, PartialEq, Eq, Structural, PartialOrd, Ord, Debug, Hash)]
pub enum Suit {
    Hearts,
    Clubs,
    Spades,
    Diamonds,
}

impl Suit {
    /// Position of the suit in declaration order.
    pub open spec fn index(self) -> int {
        match self {
            Suit::Hearts => 0,
            Suit::Clubs => 1,
            Suit::Spades => 2,
            Suit::Diamonds => 3,
        }
    }

    /// The suit at a position of the declaration order; positions wrap
    /// around after `Diamonds`.
    pub open spec fn at(i: int) -> Suit {
        let k = i % 4;
        if k == 0 {
            Suit::Hearts
        } else if k == 1 {
            Suit::Clubs
        } else if k == 2 {
            Suit::Spades
        } else {
            Suit::Diamonds
        }
    }

    /// The position of the suit as a machine integer.
    pub fn ordinal(&self) -> (n: u8)
        ensures
            n == self.index(),
            n < 4,
    {
        match self {
            Suit::Hearts => 0,
            Suit::Clubs => 1,
            Suit::Spades => 2,
            Suit::Diamonds => 3,
        }
    }

    /// All suits, in declaration order.
    pub fn all() -> (suits: Vec<Suit>)
        ensures
            suits.len() == 4,
            forall|i: int| 0 <= i < 4 ==> (#[trigger] suits[i]).index() == i,
    {
        vec![Suit::Hearts, Suit::Clubs, Suit::Spades, Suit::Diamonds]
    }
}

/// A playing card. Cards are ordered by rank first and suit second.
#[derive(Clone, Copy, PartialEq, Eq, Structural, PartialOrd, Ord, Debug, Hash)]
pub struct Card {
    pub rank: Rank,
    pub suit: Suit,
}

impl Card {
    /// Position of the card among the 52 cards in ascending order: the
    /// order of cards is the order of their keys.
    pub open spec fn key(self) -> int {
        self.rank.index() * 4 + self.suit.index()
    }

    /// The card with a given key.
    pub open spec fn at(k: int) -> Card {
        Card { rank: Rank::at(k / 4), suit: Suit::at(k % 4) }
    }

    /// All 52 cards in ascending order: rank by rank, and within a rank
    /// suit by suit.
    pub fn iter() -> (cards: Vec<Card>)
        ensures
            cards@ == full_deck(),
    {
        let pairs = rank_suit_product(Rank::all(), Suit::all());
        let mut cards: Vec<Card> = Vec::new();
        let mut k: usize = 0;
        while k < pairs.len()
            invariant
                pairs@.len() == 52,
                0 <= k <= 52,
                cards@.len() == k,
                forall|i: int|
                    0 <= i < 52 ==> (#[trigger] pairs@[i]).0.index() == i / 4 && pairs@[i].1.index()
                        == i % 4,
                forall|i: int| 0 <= i < k ==> (#[trigger] cards@[i]).key() == i,
            decreases 52 - k,
        {
            let pair = pairs[k];
            cards.push(Card { rank: pair.0, suit: pair.1 });
            k = k + 1;
        }
        proof {
            assert forall|i: int| 0 <= i < 52 implies cards@[i] == full_deck()[i] by {
                lemma_key_identifies_card(cards@[i], full_deck()[i]);
            }
            assert(cards@ =~= full_deck());
        }
        cards
    }

    /// The key of the card as a machine integer.
    pub fn ordinal(&self) -> (k: u8)
        ensures
            k == self.key(),
            k < 52,
    {
        self.rank.ordinal() * 4 + self.suit.ordinal()
    }
}

/// A rank token that names no rank; it carries the token.
#[derive(Clone, Debug, PartialEq, Eq)]
pub enum RankParseError {
    InvalidRank(String),
}

/// A suit token that names no suit; it carries the token.
#[derive(Clone, Debug, PartialEq, Eq)]
pub enum SuitParseError {
    InvalidSuit(String),
}

/// Why a text is no card.
#[derive(Clone, Debug, PartialEq, Eq)]
pub enum CardParseError {
    RankParseError(RankParseError),
    SuitParseError(SuitParseError),
    IncompleteError,
}

/// Why a token is no card, over plain characters.
pub enum TokenFault {
    TooShort,
    BadRank(Seq<char>),
    BadSuit(Seq<char>),
}

impl CardParseError {
    /// The fault that the error reports.
    pub open spec fn fault(self) -> TokenFault {
        match self {
            CardParseError::RankParseError(RankParseError::InvalidRank(token)) => TokenFault::BadRank(
                token@,
            ),
            CardParseError::SuitParseError(SuitParseError::InvalidSuit(token)) => TokenFault::BadSuit(
                token@,
            ),
            CardParseError::IncompleteError => TokenFault::TooShort,
        }
    }
}

/// The rank that a single character names.
pub open spec fn rank_of_char(c: char) -> Option<Rank> {
    if c == '2' {
        Some(Rank::Two)
    } else if c == '3' {
        Some(Rank::Three)
    } else if c == '4' {
        Some(Rank::Four)
    } else if c == '5' {
        Some(Rank::Five)
    } else if c == '6' {
        Some(Rank::Six)
    } else if c == '7' {
        Some(Rank::Seven)
    } else if c == '8' {
        Some(Rank::Eight)
    } else if c == '9' {
        Some(Rank::Nine)
    } else if c == 'J' || c == 'j' {
        Some(Rank::Jack)
    } else if c == 'Q' || c == 'q' {
        Some(Rank::Queen)
    } else if c == 'K' || c == 'k' {
        Some(Rank::King)
    } else if c == 'A' || c == 'a' {
        Some(Rank::Ace)
    } else {
        None
    }
}

/// The rank that a token names: `10` is Ten, every other rank has one
/// character.
pub open spec fn rank_of_token(token: Seq<char>) -> Option<Rank> {
    if token.len() == 1 {
        rank_of_char(token[0])
    } else if token.len() == 2 && token[0] == '1' && token[1] == '0' {
        Some(Rank::Ten)
    } else {
        None
    }
}

/// The suit that a single character names: its glyph, or its letter in
/// either case.
pub open spec fn suit_of_char(c: char) -> Option<Suit> {
    if c == '♥' || c == 'h' || c == 'H' {
        Some(Suit::Hearts)
    } else if c == '♣' || c == 'c' || c == 'C' {
        Some(Suit::Clubs)
    } else if c == '♠' || c == 's' || c == 'S' {
        Some(Suit::Spades)
    } else if c == '♦' || c == 'd' || c == 'D' {
        Some(Suit::Diamonds)
    } else {
        None
    }
}

/// The suit that a token names.
pub open spec fn suit_of_token(token: Seq<char>) -> Option<Suit> {
    if token.len() == 1 {
        suit_of_char(token[0])
    } else {
        None
    }
}

/// The token begins with the two characters of the rank Ten.
pub open spec fn starts_with_ten(token: Seq<char>) -> bool {
    token.len() >= 2 && token[0] == '1' && token[1] == '0'
}

/// How many characters of a card token belong to the rank.
pub open spec fn rank_width(token: Seq<char>) -> int {
    if starts_with_ten(token) {
        2
    } else {
        1
    }
}

/// The card that a token names, or what is wrong with the token. A token
/// is a rank token followed by a suit token; the rank is checked first.
pub open spec fn card_of_token(token: Seq<char>) -> Result<Card, TokenFault> {
    if token.len() < 2 {
        Err(TokenFault::TooShort)
    } else {
        let rank_part = token.take(rank_width(token));
        let suit_part = token.skip(rank_width(token));
        match rank_of_token(rank_part) {
            None => Err(TokenFault::BadRank(rank_part)),
            Some(rank) => match suit_of_token(suit_part) {
                None => Err(TokenFault::BadSuit(suit_part)),
                Some(suit) => Ok(Card { rank, suit }),
            },
        }
    }
}

/// `parsed` is what reading the rank token gives: the rank that it names,
/// or the token itself in the error.
pub open spec fn is_rank_reading(token: Seq<char>, parsed: Result<Rank, RankParseError>) -> bool {
    match parsed {
        Ok(rank) => rank_of_token(token) == Some(rank),
        Err(RankParseError::InvalidRank(bad)) => rank_of_token(token) is None && bad@ == token,
    }
}

/// `parsed` is what reading the suit token gives: the suit that it names,
/// or the token itself in the error.
pub open spec fn is_suit_reading(token: Seq<char>, parsed: Result<Suit, SuitParseError>) -> bool {
    match parsed {
        Ok(suit) => suit_of_token(token) == Some(suit),
        Err(SuitParseError::InvalidSuit(bad)) => suit_of_token(token) is None && bad@ == token,
    }
}

/// `parsed` is what reading the card token gives: the card that it names,
/// or the error that reports its fault.
pub open spec fn is_card_reading(token: Seq<char>, parsed: Result<Card, CardParseError>) -> bool {
    match parsed {
        Ok(card) => card_of_token(token) == Ok::<Card, TokenFault>(card),
        Err(e) => card_of_token(token) == Err::<Card, TokenFault>(e.fault()),
    }
}

/// The text without the white space at its two ends.
pub uninterp spec fn trimmed(text: Seq<char>) -> Seq<char>;

/// `str::trim` of the standard library: the slice of the text that is left
/// when leading and trailing white space, as Unicode defines it, is taken
/// away.
#[verifier::external_body]
pub(crate) fn trim(text: &str) -> (core: &str)
    ensures
        core@ == trimmed(text@),
{
    text.trim()
}

/// The written form of a rank.
pub open spec fn rank_text(rank: Rank) -> Seq<char> {
    match rank {
        Rank::Two => seq!['2'],
        Rank::Three => seq!['3'],
        Rank::Four => seq!['4'],
        Rank::Five => seq!['5'],
        Rank::Six => seq!['6'],
        Rank::Seven => seq!['7'],
        Rank::Eight => seq!['8'],
        Rank::Nine => seq!['9'],
        Rank::Ten => seq!['1', '0'],
        Rank::Jack => seq!['J'],
        Rank::Queen => seq!['Q'],
        Rank::King => seq!['K'],
        Rank::Ace => seq!['A'],
    }
}

/// The written form of a suit: its glyph.
pub open spec fn suit_text(suit: Suit) -> Seq<char> {
    match suit {
        Suit::Hearts => seq!['♥'],
        Suit::Clubs => seq!['♣'],
        Suit::Spades => seq!['♠'],
        Suit::Diamonds => seq!['♦'],
    }
}

/// The written form of a card: rank, then suit.
pub open spec fn card_text(card: Card) -> Seq<char> {
    rank_text(card.rank) + suit_text(card.suit)
}

impl Rank {
    /// The rank that a character names.
    pub fn from_char(c: char) -> (rank: Option<Rank>)
        ensures
            rank == rank_of_char(c),
    {
        if c == '2' {
            Some(Rank::Two)
        } else if c == '3' {
            Some(Rank::Three)
        } else if c == '4' {
            Some(Rank::Four)
        } else if c == '5' {
            Some(Rank::Five)
        } else if c == '6' {
            Some(Rank::Six)
        } else if c == '7' {
            Some(Rank::Seven)
        } else if c == '8' {
            Some(Rank::Eight)
        } else if c == '9' {
            Some(Rank::Nine)
        } else if c == 'J' || c == 'j' {
            Some(Rank::Jack)
        } else if c == 'Q' || c == 'q' {
            Some(Rank::Queen)
        } else if c == 'K' || c == 'k' {
            Some(Rank::King)
        } else if c == 'A' || c == 'a' {
            Some(Rank::Ace)
        } else {
            None
        }
    }

    /// Reads a rank token. A token that names no rank comes back in the
    /// error.
    pub fn parse(token: &str) -> (parsed: Result<Rank, RankParseError>)
        ensures
            is_rank_reading(token@, parsed),
    {
        let n: usize = token.unicode_len();
        if n == 1 {
            if let Some(rank) = Rank::from_char(token.get_char(0)) {
                return Ok(rank);
            }
        } else if n == 2 {
            if token.get_char(0) == '1' && token.get_char(1) == '0' {
                return Ok(Rank::Ten);
            }
        }
        Err(RankParseError::InvalidRank(token.to_owned()))
    }

    /// Writes the rank.
    pub fn to_string(&self) -> (text: String)
        ensures
            text@ == rank_text(*self),
    {
        let name: &str = match self {
            Rank::Two => "2",
            Rank::Three => "3",
            Rank::Four => "4",
            Rank::Five => "5",
            Rank::Six => "6",
            Rank::Seven => "7",
            Rank::Eight => "8",
            Rank::Nine => "9",
            Rank::Ten => "10",
            Rank::Jack => "J",
            Rank::Queen => "Q",
            Rank::King => "K",
            Rank::Ace => "A",
        };
        proof {
            reveal_strlit("2");
            reveal_strlit("3");
            reveal_strlit("4");
            reveal_strlit("5");
            reveal_strlit("6");
            reveal_strlit("7");
            reveal_strlit("8");
            reveal_strlit("9");
            reveal_strlit("10");
            reveal_strlit("J");
            reveal_strlit("Q");
            reveal_strlit("K");
            reveal_strlit("A");
            assert(name@ =~= rank_text(*self));
        }
        name.to_owned()
    }
}

impl Suit {
    /// The suit that a character names.
    pub fn from_char(c: char) -> (suit: Option<Suit>)
        ensures
            suit == suit_of_char(c),
    {
        if c == '♥' || c == 'h' || c == 'H' {
            Some(Suit::Hearts)
        } else if c == '♣' || c == 'c' || c == 'C' {
            Some(Suit::Clubs)
        } else if c == '♠' || c == 's' || c == 'S' {
            Some(Suit::Spades)
        } else if c == '♦' || c == 'd' || c == 'D' {
            Some(Suit::Diamonds)
        } else {
            None
        }
    }

    /// Reads a suit token. A token that names no suit comes back in the
    /// error.
    pub fn parse(token: &str) -> (parsed: Result<Suit, SuitParseError>)
        ensures
            is_suit_reading(token@, parsed),
    {
        let n: usize = token.unicode_len();
        if n == 1 {
            if let Some(suit) = Suit::from_char(token.get_char(0)) {
                return Ok(suit);
            }
        }
        Err(SuitParseError::InvalidSuit(token.to_owned()))
    }

    /// Writes the suit.
    pub fn to_string(&self) -> (text: String)
        ensures
            text@ == suit_text(*self),
    {
        let name: &str = match self {
            Suit::Hearts => "♥",
            Suit::Clubs => "♣",
            Suit::Spades => "♠",
            Suit::Diamonds => "♦",
        };
        proof {
            reveal_strlit("♥");
            reveal_strlit("♣");
            reveal_strlit("♠");
            reveal_strlit("♦");
            assert(name@ =~= suit_text(*self));
        }
        name.to_owned()
    }
}

impl Card {
    /// Reads a card from a token without white space around it.
    pub fn parse_token(token: &str) -> (parsed: Result<Card, CardParseError>)
        ensures
            is_card_reading(token@, parsed),
    {
        let n: usize = token.unicode_len();
        if n < 2 {
            return Err(CardParseError::IncompleteError);
        }
        let width: usize = if token.get_char(0) == '1' && token.get_char(1) == '0' {
            2
        } else {
            1
        };
        let rank_part = token.substring_char(0, width);
        let suit_part = token.substring_char(width, n);
        assert(rank_part@ == token@.take(rank_width(token@)));
        assert(suit_part@ == token@.skip(rank_width(token@)));
        match Rank::parse(rank_part) {
            Err(e) => Err(CardParseError::RankParseError(e)),
            Ok(rank) => match Suit::parse(suit_part) {
                Err(e) => Err(CardParseError::SuitParseError(e)),
                Ok(suit) => Ok(Card { rank, suit }),
            },
        }
    }

    /// Reads a card from a text; white space around the token is ignored.
    pub fn parse(text: &str) -> (parsed: Result<Card, CardParseError>)
        ensures
            is_card_reading(trimmed(text@), parsed),
    {
        Card::parse_token(trim(text))
    }

    /// Writes the card: its rank, then the glyph of its suit.
    pub fn to_string(&self) -> (text: String)
        ensures
            text@ == card_text(*self),
    {
        let suit = self.suit.to_string();
        self.rank.to_string().concat(suit.as_str())
    }
}

impl std::str::FromStr for Rank {
    type Err = RankParseError;

    fn from_str(s: &str) -> (parsed: Result<Self, Self::Err>)
        ensures
            is_rank_reading(s@, parsed),
    {
        Rank::parse(s)
    }
}

impl std::str::FromStr for Suit {
    type Err = SuitParseError;

    fn from_str(s: &str) -> (parsed: Result<Self, Self::Err>)
        ensures
            is_suit_reading(s@, parsed),
    {
        Suit::parse(s)
    }
}

impl std::str::FromStr for Card {
    type Err = CardParseError;

    fn from_str(s: &str) -> (parsed: Result<Self, Self::Err>)
        ensures
            is_card_reading(trimmed(s@), parsed),
    {
        Card::parse(s)
    }
}

/// The 52 cards in ascending order.
pub open spec fn full_deck() -> Seq<Card> {
    Seq::new(52, |k: int| Card::at(k))
}

/// Pairs every rank with every suit through
/// `itertools::Itertools::cartesian_product`: the pairs of the first rank
/// come first, each group in the order of the suits.
#[verifier::external_body]
fn rank_suit_product(ranks: Vec<Rank>, suits: Vec<Suit>) -> (pairs: Vec<(Rank, Suit)>)
    ensures
        pairs@.len() == ranks@.len() * suits@.len(),
        forall|k: int|
            0 <= k < pairs@.len() ==> #[trigger] pairs@[k] == (
                ranks@[k / (suits@.len() as int)],
                suits@[k % (suits@.len() as int)],
            ),
{
    ranks.into_iter().cartesian_product(suits).collect()
}

/// Rearranges the cards in place through `rand::seq::SliceRandom::shuffle`,
/// with `rand::thread_rng` as the source of randomness. The shuffle only
/// swaps elements, so the same cards are there afterwards; nothing is
/// claimed of their order.
#[verifier::external_body]
fn shuffle(cards: &mut Vec<Card>)
    ensures
        final(cards)@.to_multiset() == old(cards)@.to_multiset(),
{
    cards.as_mut_slice().shuffle(&mut thread_rng());
}

/// A deck of cards; cards are dealt from its end.
#[derive(Clone, Debug)]
pub struct Deck(pub Vec<Card>);

impl View for Deck {
    type V = Seq<Card>;

    open spec fn view(&self) -> Seq<Card> {
        self.0@
    }
}

impl Deck {
    /// The deck holds each of the 52 cards once, in some order.
    pub open spec fn is_complete(self) -> bool {
        self@.to_multiset() == full_deck().to_multiset()
    }

    /// A complete deck in random order.
    pub fn new() -> (deck: Deck)
        ensures
            deck.is_complete(),
            deck@.len() == 52,
    {
        let mut cards = Card::iter();
        shuffle(&mut cards);
        proof {
            cards@.to_multiset_ensures();
            full_deck().to_multiset_ensures();
        }
        Deck(cards)
    }

    /// Deals the last `N` cards of the deck, in the order in which they lay
    /// there. A deck with fewer than `N` cards deals nothing and stays as
    /// it is.
    pub fn deal_n<const N: usize>(&mut self) -> (dealt: Option<[Card; N]>)
        ensures
            N > old(self)@.len() ==> dealt is None && final(self)@ == old(self)@,
            N <= old(self)@.len() ==> dealt is Some && dealt->0@ == dealt_cards(old(self)@, N as nat)
                && final(self)@ == remaining_cards(old(self)@, N as nat),
    {
        if N > self.0.len() {
            return None;
        }
        let tail = self.0.split_off(self.0.len() - N);
        let mut hand: [Card; N] = [Card { rank: Rank::Two, suit: Suit::Hearts };N];
        let mut i: usize = 0;
        while i < N
            invariant
                0 <= i <= N,
                tail@.len() == N,
                hand@.len() == N,
                forall|k: int| 0 <= k < i ==> hand@[k] == tail@[k],
            decreases N - i,
        {
            hand[i] = tail[i];
            i = i + 1;
        }
        assert(hand@ =~= tail@);
        Some(hand)
    }
}

/// The last `n` cards of a deck: those that dealing `n` hands out.
pub open spec fn dealt_cards(deck: Seq<Card>, n: nat) -> Seq<Card> {
    deck.subrange(deck.len() - n, deck.len() as int)
}

/// The cards that stay in a deck after dealing `n`.
pub open spec fn remaining_cards(deck: Seq<Card>, n: nat) -> Seq<Card> {
    deck.subrange(0, deck.len() - n)
}

/// The full deck holds no card twice.
pub proof fn lemma_full_deck_distinct()
    ensures
        full_deck().no_duplicates(),
        full_deck().len() == 52,
{
    assert forall|i: int, j: int| 0 <= i < 52 && 0 <= j < 52 && i != j implies full_deck()[i]
        != full_deck()[j] by {
        assert(full_deck()[i].key() == i);
        assert(full_deck()[j].key() == j);
    }
}

/// A complete deck has 52 cards and holds none twice.
pub proof fn lemma_complete_deck_distinct(deck: Deck)
    requires
        deck.is_complete(),
    ensures
        deck@.len() == 52,
        deck@.no_duplicates(),
{
    lemma_full_deck_distinct();
    full_deck().lemma_multiset_has_no_duplicates();
    deck@.lemma_multiset_has_no_duplicates_conv();
    deck@.to_multiset_ensures();
    full_deck().to_multiset_ensures();
}

/// Dealing splits a deck in two: the cards dealt, put behind those that
/// remain, are the deck as it was.
pub proof fn lemma_deal_splits(deck: Seq<Card>, n: nat)
    requires
        n <= deck.len(),
    ensures
        remaining_cards(deck, n) + dealt_cards(deck, n) == deck,
        dealt_cards(deck, n).len() == n,
        remaining_cards(deck, n).len() == deck.len() - n,
{
    assert(remaining_cards(deck, n) + dealt_cards(deck, n) =~= deck);
}

/// Dealing `n` cards from a complete deck and then the other `52 - n`
/// hands out every card of the full deck exactly once, and leaves the deck
/// empty.
pub proof fn lemma_deal_partitions_deck(deck: Deck, n: nat)
    requires
        deck.is_complete(),
        n <= 52,
    ensures
        ({
            let first = dealt_cards(deck@, n);
            let rest = remaining_cards(deck@, n);
            let second = dealt_cards(rest, (52 - n) as nat);
            &&& (first + second).to_multiset() == full_deck().to_multiset()
            &&& (first + second).no_duplicates()
            &&& (first + second).len() == 52
            &&& remaining_cards(rest, (52 - n) as nat).len() == 0
        }),
{
    lemma_complete_deck_distinct(deck);
    let first = dealt_cards(deck@, n);
    let rest = remaining_cards(deck@, n);
    let second = dealt_cards(rest, (52 - n) as nat);
    lemma_deal_splits(deck@, n);
    assert(second =~= rest);
    vstd::seq_lib::lemma_seq_union_to_multiset_commutative(first, second);
    assert((first + second).to_multiset() == deck@.to_multiset());
    lemma_full_deck_distinct();
    full_deck().lemma_multiset_has_no_duplicates();
    (first + second).lemma_multiset_has_no_duplicates_conv();
}

/// Two ranks at the same position are the same rank.
pub proof fn lemma_index_identifies_rank(a: Rank, b: Rank)
    requires
        a.index() == b.index(),
    ensures
        a == b,
{
}

/// Two cards with the same key are the same card.
pub proof fn lemma_key_identifies_card(a: Card, b: Card)
    requires
        a.key() == b.key(),
    ensures
        a == b,
{
}

} // verus!
