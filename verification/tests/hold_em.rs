use holdem::cards::{Card, Rank, Suit};
use holdem::hands::{Hand, HandParseError, HandType};
use holdem::hold_em::find_nuts;
use holdem::cards::{CardParseError, RankParseError};
use itertools::Itertools;

fn card(text: &str) -> Card {
    text.parse::<Card>().expect("should not fail")
}

fn cards(text: &str) -> Vec<Card> {
    text.split(',').map(card).collect()
}

fn hand(text: &str) -> Hand {
    text.parse::<Hand>().expect("bad parse")
}

#[test]
fn classification_ignores_the_order_of_the_cards() {
    let given = cards("4h,4d,4c,5d,5s");
    for order in given.iter().cloned().permutations(5) {
        let five: [Card; 5] = [order[0], order[1], order[2], order[3], order[4]];
        let hand = Hand::from(&five);
        assert_eq!(hand.hand_type(), HandType::FullHouse(Rank::Four, Rank::Five));
        assert_eq!(hand.cards(), Hand::from(&[given[0], given[1], given[2], given[3], given[4]]).cards());
    }
    let given = cards("3s,ad,2d,5c,4h");
    for order in given.iter().cloned().permutations(5) {
        let five: [Card; 5] = [order[0], order[1], order[2], order[3], order[4]];
        assert_eq!(Hand::from(&five).hand_type(), HandType::Straight(Rank::Five));
    }
}

#[test]
fn hand_keeps_its_cards_highest_first() {
    let hand = hand("2d,ad,7c,ah,9s");
    assert_eq!(hand.cards().to_vec(), cards("ad,ah,9s,7c,2d"));
    assert_eq!(hand.ranks(), [Rank::Ace, Rank::Ace, Rank::Nine, Rank::Seven, Rank::Two]);
    assert_eq!(hand.to_string(), "A♦, A♥, 9♠, 7♣, 2♦");
}

#[test]
fn wheel_of_one_suit_is_a_five_high_straight_flush() {
    let hand = hand("as,5s,4s,3s,2s");
    assert_eq!(hand.hand_type(), HandType::StraightFlush(Rank::Five));
    assert_eq!(hand.extract_straight(), Some(Rank::Five));
    assert!(hand.is_flush());
}

#[test]
fn broadway_of_one_suit_is_an_ace_high_straight_flush() {
    let hand = hand("ah,kh,qh,jh,10h");
    assert_eq!(hand.hand_type(), HandType::StraightFlush(Rank::Ace));
}

#[test]
fn straight_does_not_wrap_through_the_ace() {
    assert_eq!(hand("kd,as,2d,3c,4h").hand_type(), HandType::HighCard);
    assert_eq!(hand("kd,as,2d,3c,4h").extract_straight(), None);
    assert_eq!(hand("qd,ks,ad,2c,3h").hand_type(), HandType::HighCard);
    assert_eq!(hand("6d,5s,4d,3c,2h").hand_type(), HandType::Straight(Rank::Six));
}

#[test]
fn every_category_is_recognised() {
    assert_eq!(hand("2d,7s,9d,jc,kh").hand_type(), HandType::HighCard);
    assert_eq!(hand("2d,2s,9d,jc,kh").hand_type(), HandType::Pair(Rank::Two));
    assert_eq!(hand("2d,2s,9d,9c,kh").hand_type(), HandType::TwoPair(Rank::Nine, Rank::Two));
    assert_eq!(hand("2d,2s,2c,9c,kh").hand_type(), HandType::ThreeOfAKind(Rank::Two));
    assert_eq!(hand("8d,9s,10c,jc,qh").hand_type(), HandType::Straight(Rank::Queen));
    assert_eq!(hand("2d,7d,9d,jd,kd").hand_type(), HandType::Flush);
    assert_eq!(hand("kd,ks,kc,2c,2h").hand_type(), HandType::FullHouse(Rank::King, Rank::Two));
    assert_eq!(hand("kd,ks,kc,kh,2h").hand_type(), HandType::FourOfAKind(Rank::King));
    assert_eq!(hand("2d,2s,2c,2h,ah").hand_type(), HandType::FourOfAKind(Rank::Two));
    assert_eq!(hand("8c,9c,10c,jc,qc").hand_type(), HandType::StraightFlush(Rank::Queen));
}

#[test]
fn category_decides_before_ranks() {
    let weakest_first = [
        HandType::HighCard,
        HandType::Pair(Rank::Ace),
        HandType::TwoPair(Rank::Three, Rank::Two),
        HandType::TwoPair(Rank::Ace, Rank::King),
        HandType::ThreeOfAKind(Rank::Two),
        HandType::ThreeOfAKind(Rank::Ace),
        HandType::Straight(Rank::Five),
        HandType::Straight(Rank::Ace),
        HandType::Flush,
        HandType::FullHouse(Rank::Two, Rank::Three),
        HandType::FullHouse(Rank::Ace, Rank::King),
        HandType::FourOfAKind(Rank::Two),
        HandType::FourOfAKind(Rank::Ace),
        HandType::StraightFlush(Rank::Five),
    ];
    for i in 0..weakest_first.len() {
        for j in 0..weakest_first.len() {
            assert_eq!(weakest_first[i] < weakest_first[j], i < j);
            assert_eq!(weakest_first[i].cmp(&weakest_first[j]), i.cmp(&j));
            assert_eq!(weakest_first[i].partial_cmp(&weakest_first[j]), Some(i.cmp(&j)));
        }
    }
}

#[test]
fn ranks_decide_within_a_category() {
    assert!(HandType::Pair(Rank::King) > HandType::Pair(Rank::Two));
    assert!(HandType::TwoPair(Rank::King, Rank::Queen) > HandType::TwoPair(Rank::King, Rank::Jack));
    assert!(HandType::TwoPair(Rank::King, Rank::Two) > HandType::TwoPair(Rank::Queen, Rank::Jack));
    assert!(HandType::FullHouse(Rank::Two, Rank::Ace) < HandType::FullHouse(Rank::Three, Rank::Two));
}

#[test]
fn scores_are_base_thirteen() {
    assert_eq!(HandType::HighCard.score_value(), 0);
    assert_eq!(HandType::Pair(Rank::Two).score_value(), 169);
    assert_eq!(HandType::TwoPair(Rank::King, Rank::Queen).score_value(), 2 * 169 + 11 * 13 + 10);
    assert_eq!(HandType::StraightFlush(Rank::Ace).score_value(), 8 * 169 + 12 * 13);
    let hand = hand("2d,7s,9d,jc,kh");
    assert_eq!(hand.strength_value(), 11 * 28561 + 9 * 2197 + 7 * 169 + 5 * 13);
}

#[test]
fn hands_compare_by_strength() {
    assert!(hand("2d,2s,9d,jc,kh") > hand("3d,7s,9d,jc,ah"));
    assert!(hand("2d,7d,9d,jd,kd") > hand("8d,9s,10c,jc,qh"));
    assert!(hand("2d,7d,9d,jd,ad") > hand("2s,7s,9s,js,ks"));
    assert!(hand("2d,2s,9d,jc,ah") > hand("2c,2h,9s,jd,kh"));
    assert!(hand("2d,2s,9d,jc,ah") == hand("2c,2h,9s,jd,as"));
    assert!(hand("2d,2s,9d,jc,ah") != hand("2c,2h,9s,jd,ks"));
    assert!(hand("6d,5s,4d,3c,2h") > hand("as,5s,4d,3c,2h"));
}

#[test]
fn best_hand_beats_every_five_of_seven() {
    let pool = cards("2d,ad,7c,ah,9s,7d,2c");
    let best = Hand::best_hand(&pool);
    assert_eq!(best.hand_type(), HandType::TwoPair(Rank::Ace, Rank::Seven));
    assert_eq!(best.ranks(), [Rank::Ace, Rank::Ace, Rank::Nine, Rank::Seven, Rank::Seven]);
    let mut count = 0;
    let mut reached = false;
    for five in pool.iter().cloned().combinations(5) {
        let other = Hand::from(&[five[0], five[1], five[2], five[3], five[4]]);
        assert!(best >= other);
        reached = reached || other.cards() == best.cards();
        count += 1;
    }
    assert_eq!(count, 21);
    assert!(reached);
}

#[test]
fn best_hand_of_five_cards_is_those_cards() {
    let pool = cards("2d,4d,3d,5d,6d");
    let best = Hand::best_hand(&pool);
    assert_eq!(best.cards().to_vec(), cards("6d,5d,4d,3d,2d"));
}

#[test]
fn best_hand_takes_the_last_among_equals() {
    let pool = cards("ah,kh,qh,jh,10h,10s");
    let best = Hand::best_hand(&pool);
    assert_eq!(best.hand_type(), HandType::StraightFlush(Rank::Ace));
    assert_eq!(best.cards().to_vec(), cards("ah,kh,qh,jh,10h"));
    let pool = cards("as,kh,qh,jh,10h,10s");
    let best = Hand::best_hand(&pool);
    assert_eq!(best.hand_type(), HandType::Straight(Rank::Ace));
    assert_eq!(best.cards().to_vec(), cards("as,kh,qh,jh,10s"));
}

#[test]
fn nuts_on_a_flop() {
    let community = cards("kh,kd,2c");
    let (hand, pair) = find_nuts(&community).expect("can always find nuts with flop of 3");
    assert_eq!(hand.hand_type(), HandType::FourOfAKind(Rank::King));
    assert_eq!(pair, [card("kc"), card("ks")]);
    assert_eq!(hand.cards().to_vec(), cards("kd,ks,kc,kh,2c"));
}

#[test]
fn nuts_pair_is_the_highest_among_equally_strong() {
    let community = cards("ah,kh,qh,jh");
    let (hand, pair) = find_nuts(&community).expect("four cards are enough");
    assert_eq!(hand.hand_type(), HandType::StraightFlush(Rank::Ace));
    assert_eq!(pair, [card("10h"), card("ad")]);
}

#[test]
fn nuts_on_a_board_of_five_diamonds() {
    let community = cards("2d,4d,3d,5d,6d");
    let board = Hand::best_hand(&community);
    assert_eq!(board.hand_type(), HandType::StraightFlush(Rank::Six));
    let (hand, pair) = find_nuts(&community).expect("the board has more than three cards");
    assert!(hand >= board);
    assert_eq!(hand.hand_type(), HandType::StraightFlush(Rank::Eight));
    assert_eq!(pair, [card("7d"), card("8d")]);
}

#[test]
fn no_nuts_for_two_community_cards() {
    let community = cards("kh,kd");
    assert!(find_nuts(&community).is_none());
    assert!(find_nuts(&[]).is_none());
}

#[test]
fn no_nuts_when_fewer_than_two_cards_are_left() {
    let all = Card::iter();
    assert!(find_nuts(&all[..51]).is_none());
    assert!(find_nuts(&all).is_none());
}

#[test]
fn hand_text_needs_five_cards() {
    assert_eq!(
        "2d,4d,4c,5d".parse::<Hand>().err(),
        Some(HandParseError::WrongNumberOfElements(4))
    );
    assert_eq!(
        "2d,4d,4c,5d,6d,7d".parse::<Hand>().err(),
        Some(HandParseError::WrongNumberOfElements(6))
    );
    assert_eq!(
        "".parse::<Hand>().err(),
        Some(HandParseError::CardParseError(CardParseError::IncompleteError))
    );
}

#[test]
fn first_bad_card_of_a_hand_is_reported() {
    assert_eq!(
        "2d,1d,4x".parse::<Hand>().err(),
        Some(HandParseError::CardParseError(CardParseError::RankParseError(
            RankParseError::InvalidRank("1".to_string())
        )))
    );
    assert_eq!(
        "2d, 4d ,4c,5d,\t6d".parse::<Hand>().map(|hand| hand.hand_type()),
        Ok(HandType::Pair(Rank::Four))
    );
    assert_eq!(Suit::all().len(), 4);
}
