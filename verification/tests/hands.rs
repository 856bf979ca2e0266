use holdem::cards::{Card, Rank, Suit};
use holdem::hands::{Hand, HandType};

#[test]
fn groups() {
    let hand = "2d,4d,4c,5d,6d".parse::<Hand>().expect("bad parse");
    assert_eq!(hand.hand_type(), HandType::Pair(Rank::Four));

    let hand = "2d,4d,4c,5d,5s".parse::<Hand>().expect("bad parse");
    assert_eq!(hand.hand_type(), HandType::TwoPair(Rank::Five, Rank::Four));

    let hand = Hand::from(&[
        Card {
            rank: Rank::Four,
            suit: Suit::Hearts,
        },
        Card {
            rank: Rank::Four,
            suit: Suit::Diamonds,
        },
        Card {
            rank: Rank::Four,
            suit: Suit::Clubs,
        },
        Card {
            rank: Rank::Five,
            suit: Suit::Diamonds,
        },
        Card {
            rank: Rank::Five,
            suit: Suit::Spades,
        },
    ]);
    assert_eq!(
        hand.hand_type(),
        HandType::FullHouse(Rank::Four, Rank::Five)
    );

    let hand = Hand::from(&[
        Card {
            rank: Rank::Four,
            suit: Suit::Hearts,
        },
        Card {
            rank: Rank::Four,
            suit: Suit::Diamonds,
        },
        Card {
            rank: Rank::Four,
            suit: Suit::Clubs,
        },
        Card {
            rank: Rank::Five,
            suit: Suit::Diamonds,
        },
        Card {
            rank: Rank::Ace,
            suit: Suit::Spades,
        },
    ]);
    assert_eq!(hand.hand_type(), HandType::ThreeOfAKind(Rank::Four));
}

#[test]
fn straight() {
    let hand = Hand::from(&[
        Card {
            rank: Rank::Two,
            suit: Suit::Diamonds,
        },
        Card {
            rank: Rank::Four,
            suit: Suit::Diamonds,
        },
        Card {
            rank: Rank::Three,
            suit: Suit::Diamonds,
        },
        Card {
            rank: Rank::Five,
            suit: Suit::Diamonds,
        },
        Card {
            rank: Rank::Six,
            suit: Suit::Diamonds,
        },
    ]);
    assert_eq!(hand.hand_type(), HandType::StraightFlush(Rank::Six));

    let hand = Hand::from(&[
        Card {
            rank: Rank::Two,
            suit: Suit::Diamonds,
        },
        Card {
            rank: Rank::Four,
            suit: Suit::Diamonds,
        },
        Card {
            rank: Rank::Three,
            suit: Suit::Diamonds,
        },
        Card {
            rank: Rank::Five,
            suit: Suit::Diamonds,
        },
        Card {
            rank: Rank::Ace,
            suit: Suit::Diamonds,
        },
    ]);
    assert_eq!(hand.hand_type(), HandType::StraightFlush(Rank::Five));

    let hand = Hand::from(&[
        Card {
            rank: Rank::Two,
            suit: Suit::Diamonds,
        },
        Card {
            rank: Rank::Four,
            suit: Suit::Diamonds,
        },
        Card {
            rank: Rank::Three,
            suit: Suit::Diamonds,
        },
        Card {
            rank: Rank::King,
            suit: Suit::Diamonds,
        },
        Card {
            rank: Rank::Ace,
            suit: Suit::Diamonds,
        },
    ]);
    assert_eq!(hand.hand_type(), HandType::Flush);

    let hand = Hand::from(&[
        Card {
            rank: Rank::Two,
            suit: Suit::Diamonds,
        },
        Card {
            rank: Rank::Eight,
            suit: Suit::Diamonds,
        },
        Card {
            rank: Rank::Three,
            suit: Suit::Diamonds,
        },
        Card {
            rank: Rank::King,
            suit: Suit::Diamonds,
        },
        Card {
            rank: Rank::Ace,
            suit: Suit::Diamonds,
        },
    ]);
    assert_eq!(hand.hand_type(), HandType::Flush);

    let hand = Hand::from(&[
        Card {
            rank: Rank::Two,
            suit: Suit::Diamonds,
        },
        Card {
            rank: Rank::Four,
            suit: Suit::Diamonds,
        },
        Card {
            rank: Rank::Three,
            suit: Suit::Diamonds,
        },
        Card {
            rank: Rank::Ace,
            suit: Suit::Diamonds,
        },
        Card {
            rank: Rank::Ace,
            suit: Suit::Clubs,
        },
    ]);
    assert_eq!(hand.hand_type(), HandType::Pair(Rank::Ace));

    let hand = "ad,qd,jd,kd,10d".parse::<Hand>().expect("bad parse");
    assert_eq!(hand.hand_type(), HandType::StraightFlush(Rank::Ace))
}

#[test]
fn flush() {
    let hand = "2d,4d,3d,5d,6d".parse::<Hand>().expect("bad parse");
    assert_eq!(hand.hand_type(), HandType::StraightFlush(Rank::Six));

    let hand = "2d,4d,3d,5d,6c".parse::<Hand>().expect("bad parse");
    assert_eq!(hand.hand_type(), HandType::Straight(Rank::Six));
}
