//! Five-card hands: their classification, their order by strength, the
//! strongest hand of a pool of cards, and the written form of a hand.

use crate::cards::{
    card_of_token, card_text, trimmed, Card, CardParseError, Rank, TokenFault,
};
use crate::groups::{
    classify_groups, foremost_run, lemma_foremost_run_leads, rank_runs, ranks_descend,
};
use crate::combos::{
    index_combinations, is_choice, lemma_lex_before_asymmetric, lex_before, lists_all_choices,
    next_choice, pending,
};
use std::cmp::Ordering;
use vstd::std_specs::cmp::{PartialEqSpec, PartialOrdSpec};
use vstd::prelude::*;

verus! {

/// The category of a hand together with the ranks that break ties inside
/// the category. Variants are listed from weakest to strongest.
#[derive(Clone, Copy, PartialEq, Eq, Structural, Ord, Debug)]
pub enum HandType {
    HighCard,
    Pair(Rank),
    TwoPair(Rank, Rank),
    ThreeOfAKind(Rank),
    Straight(Rank),
    Flush,
    FullHouse(Rank, Rank),
    FourOfAKind(Rank),
    StraightFlush(Rank),
}

impl HandType {
    /// Position of the category among the nine, weakest first.
    pub open spec fn category(self) -> int {
        match self {
            HandType::HighCard => 0,
            HandType::Pair(_) => 1,
            HandType::TwoPair(_, _) => 2,
            HandType::ThreeOfAKind(_) => 3,
            HandType::Straight(_) => 4,
            HandType::Flush => 5,
            HandType::FullHouse(_, _) => 6,
            HandType::FourOfAKind(_) => 7,
            HandType::StraightFlush(_) => 8,
        }
    }

    /// Position of the first embedded rank, 0 where there is none.
    pub open spec fn primary(self) -> int {
        match self {
            HandType::HighCard => 0,
            HandType::Pair(r) => r.index(),
            HandType::TwoPair(r, _) => r.index(),
            HandType::ThreeOfAKind(r) => r.index(),
            HandType::Straight(r) => r.index(),
            HandType::Flush => 0,
            HandType::FullHouse(r, _) => r.index(),
            HandType::FourOfAKind(r) => r.index(),
            HandType::StraightFlush(r) => r.index(),
        }
    }

    /// Position of the second embedded rank, 0 where there is none.
    pub open spec fn secondary(self) -> int {
        match self {
            HandType::TwoPair(_, r) => r.index(),
            HandType::FullHouse(_, r) => r.index(),
            _ => 0,
        }
    }

    /// The place of the hand type in the total order: a three-digit number
    /// in base 13 whose digits are the category, the first rank and the
    /// second rank. Comparing scores compares category first, then the
    /// embedded ranks from left to right.
    pub open spec fn score(self) -> int {
        self.category() * 169 + self.primary() * 13 + self.secondary()
    }

    /// The score as a machine integer.
    pub fn score_value(&self) -> (s: u64)
        ensures
            s == self.score(),
            s < 1521,
    {
        match self {
            HandType::HighCard => 0,
            HandType::Pair(r) => 169 + 13 * r.ordinal() as u64,
            HandType::TwoPair(a, b) => 338 + 13 * a.ordinal() as u64 + b.ordinal() as u64,
            HandType::ThreeOfAKind(r) => 507 + 13 * r.ordinal() as u64,
            HandType::Straight(r) => 676 + 13 * r.ordinal() as u64,
            HandType::Flush => 845,
            HandType::FullHouse(a, b) => 1014 + 13 * a.ordinal() as u64 + b.ordinal() as u64,
            HandType::FourOfAKind(r) => 1183 + 13 * r.ordinal() as u64,
            HandType::StraightFlush(r) => 1352 + 13 * r.ordinal() as u64,
        }
    }
}

impl PartialOrd for HandType {
    fn partial_cmp(&self, other: &Self) -> (o: Option<Ordering>) {
        let a: u64 = self.score_value();
        let b: u64 = other.score_value();
        if a < b {
            Some(Ordering::Less)
        } else if a == b {
            Some(Ordering::Equal)
        } else {
            Some(Ordering::Greater)
        }
    }
}

impl vstd::std_specs::cmp::PartialOrdSpecImpl for HandType {
    open spec fn obeys_partial_cmp_spec() -> bool {
        true
    }

    open spec fn partial_cmp_spec(&self, other: &Self) -> Option<Ordering> {
        if self.score() < other.score() {
            Some(Ordering::Less)
        } else if self.score() == other.score() {
            Some(Ordering::Equal)
        } else {
            Some(Ordering::Greater)
        }
    }
}

/// The ranks of a sequence of cards, position by position.
pub open spec fn ranks_of(cards: Seq<Card>) -> Seq<Rank> {
    Seq::new(cards.len(), |i: int| cards[i].rank)
}

/// The order in which a hand keeps its cards: higher rank first, and among
/// equal ranks the later suit first.
pub open spec fn by_key_descending() -> spec_fn(Card, Card) -> bool {
    |a: Card, b: Card| a.key() >= b.key()
}

/// No card is followed by a card with a higher key.
pub open spec fn is_descending(cards: Seq<Card>) -> bool {
    forall|i: int, j: int| 0 <= i < j < cards.len() ==> cards[i].key() >= cards[j].key()
}

/// The cards rearranged in descending order.
pub open spec fn descending(cards: Seq<Card>) -> Seq<Card> {
    cards.sort_by(by_key_descending())
}

/// Every card has the suit of the first.
pub open spec fn all_one_suit(cards: Seq<Card>) -> bool {
    forall|i: int| 0 <= i < cards.len() ==> (#[trigger] cards[i]).suit == cards[0].suit
}

/// The ranks are Ace, Five, Four, Three, Two: the straight in which the
/// ace counts low.
pub open spec fn is_wheel(ranks: Seq<Rank>) -> bool {
    &&& ranks.len() == 5
    &&& ranks[0] == Rank::Ace
    &&& ranks[1] == Rank::Five
    &&& ranks[2] == Rank::Four
    &&& ranks[3] == Rank::Three
    &&& ranks[4] == Rank::Two
}

/// Each rank is exactly one above the rank that follows it.
pub open spec fn steps_down(ranks: Seq<Rank>) -> bool {
    forall|i: int| 0 <= i < ranks.len() - 1 ==> (#[trigger] ranks[i]).index() == ranks[i + 1].index() + 1
}

/// The high rank of the straight that descending ranks form, if they form
/// one. The wheel has high rank Five.
pub open spec fn straight_high(ranks: Seq<Rank>) -> Option<Rank> {
    if is_wheel(ranks) {
        Some(Rank::Five)
    } else if steps_down(ranks) {
        Some(ranks[0])
    } else {
        None
    }
}

/// The classification of five cards in descending order.
pub open spec fn classify(cards: Seq<Card>) -> HandType {
    let ranks = ranks_of(cards);
    match straight_high(ranks) {
        Some(high) => if all_one_suit(cards) {
            HandType::StraightFlush(high)
        } else {
            HandType::Straight(high)
        },
        None => if all_one_suit(cards) {
            HandType::Flush
        } else {
            classify_groups(ranks)
        },
    }
}

/// The place of five cards in the order of hands by strength: the score
/// of their classification followed by the five ranks as base-13 digits,
/// so that hands of one classification are ordered by their ranks from
/// left to right.
pub open spec fn strength_of(cards: Seq<Card>) -> int {
    classify(cards).score() * 371293 + kickers(cards)
}

/// The ranks of five cards read as one number in base 13, the first card
/// as the leading digit.
pub open spec fn kickers(cards: Seq<Card>) -> int {
    cards[0].rank.index() * 28561 + cards[1].rank.index() * 2197 + cards[2].rank.index() * 169
        + cards[3].rank.index() * 13 + cards[4].rank.index()
}

/// Five cards, kept in descending order.
#[derive(Clone, Copy, Debug)]
pub struct Hand([Card; 5]);

impl View for Hand {
    type V = Seq<Card>;

    closed spec fn view(&self) -> Seq<Card> {
        self.0@
    }
}

impl Hand {
    /// The hand holds five cards in descending order.
    pub open spec fn wf(self) -> bool {
        self@.len() == 5 && is_descending(self@)
    }

    #[verifier::type_invariant]
    spec fn inv(self) -> bool {
        self.wf()
    }

    /// The hand is the arrangement of `cards` in descending order.
    pub open spec fn is_hand_of(self, cards: Seq<Card>) -> bool {
        self@ == descending(cards)
    }

    /// The classification of the hand.
    pub open spec fn classification(self) -> HandType {
        classify(self@)
    }

    /// The place of the hand in the order by strength.
    pub open spec fn strength(self) -> int {
        strength_of(self@)
    }

    /// Makes a hand of five cards given in any order.
    #[verifier::rlimit(50)]
    pub fn from(cards: &[Card; 5]) -> (hand: Hand)
        ensures
            hand.wf(),
            hand@.to_multiset() == cards@.to_multiset(),
            hand.is_hand_of(cards@),
            cards@.no_duplicates() ==> hand@.no_duplicates(),
    {
        let mut a: [Card; 5] = *cards;
        let mut i: usize = 1;
        while i < 5
            invariant
                1 <= i <= 5,
                a@.len() == 5,
                a@.to_multiset() == cards@.to_multiset(),
                forall|p: int, q: int| 0 <= p < q < i ==> a@[p].key() >= a@[q].key(),
            decreases 5 - i,
        {
            let mut j: usize = i;
            let mut moving: bool = true;
            while j > 0 && moving
                invariant
                    0 <= j <= i < 5,
                    a@.len() == 5,
                    a@.to_multiset() == cards@.to_multiset(),
                    forall|p: int, q: int|
                        0 <= p < q <= i && p != j && q != j ==> a@[p].key() >= a@[q].key(),
                    forall|q: int| j < q <= i ==> a@[j as int].key() >= a@[q].key(),
                    !moving ==> j == 0 || a@[j - 1].key() >= a@[j as int].key(),
                decreases j + if moving { 1int } else { 0int },
            {
                let above: Card = a[j - 1];
                let here: Card = a[j];
                if above.ordinal() < here.ordinal() {
                    proof {
                        broadcast use vstd::multiset::group_multiset_axioms;
                        broadcast use vstd::seq_lib::group_to_multiset_ensures;

                        assert(a@.contains(above));
                        assert(a@.to_multiset().count(above) > 0);
                        vstd::seq_lib::to_multiset_update(a@, j - 1, here);
                        vstd::seq_lib::to_multiset_update(a@.update(j - 1, here), j as int, above);
                        assert(a@.update(j - 1, here).update(j as int, above).to_multiset()
                            =~= a@.to_multiset());
                    }
                    a[j - 1] = here;
                    a[j] = above;
                    j = j - 1;
                } else {
                    moving = false;
                }
            }
            i = i + 1;
        }
        proof {
            lemma_descending_unique(a@, cards@);
            if cards@.no_duplicates() {
                lemma_rearranged_distinct(cards@, a@);
            }
        }
        Hand(a)
    }

    /// The cards of the hand, highest first.
    pub fn cards(&self) -> (cards: &[Card])
        ensures
            cards@ == self@,
    {
        self.0.as_slice()
    }
}

impl Hand {
    /// The ranks of the five cards, highest first.
    pub fn ranks(&self) -> (ranks: [Rank; 5])
        ensures
            ranks@ == ranks_of(self@),
    {
        let ranks: [Rank; 5] = [
            self.0[0].rank,
            self.0[1].rank,
            self.0[2].rank,
            self.0[3].rank,
            self.0[4].rank,
        ];
        assert(ranks@ =~= ranks_of(self@));
        ranks
    }

    /// Whether the five cards share one suit.
    pub fn is_flush(&self) -> (flush: bool)
        ensures
            flush == all_one_suit(self@),
    {
        let suit = self.0[0].suit;
        let mut i: usize = 1;
        while i < 5
            invariant
                1 <= i <= 5,
                self@.len() == 5,
                suit == self@[0].suit,
                forall|k: int| 0 <= k < i ==> (#[trigger] self@[k]).suit == suit,
            decreases 5 - i,
        {
            if self.0[i].suit != suit {
                return false;
            }
            i = i + 1;
        }
        true
    }

    /// The high rank of the straight that the hand forms, if it forms one.
    pub fn extract_straight(&self) -> (high: Option<Rank>)
        ensures
            high == straight_high(ranks_of(self@)),
    {
        let ranks = self.ranks();
        if ranks[0] == Rank::Ace && ranks[1] == Rank::Five && ranks[2] == Rank::Four && ranks[3]
            == Rank::Three && ranks[4] == Rank::Two {
            return Some(Rank::Five);
        }
        let mut i: usize = 0;
        while i < 4
            invariant
                0 <= i <= 4,
                ranks@.len() == 5,
                ranks@ == ranks_of(self@),
                !is_wheel(ranks@),
                forall|k: int| 0 <= k < i ==> (#[trigger] ranks@[k]).index() == ranks@[k + 1].index() + 1,
            decreases 4 - i,
        {
            let this = ranks[i];
            let next = ranks[i + 1];
            if next == Rank::Ace || next.successor() != this {
                proof {
                    let all = ranks_of(self@);
                    assert(next.index() == all[i + 1].index());
                    assert(this.index() == all[i as int].index());
                    if next != Rank::Ace {
                        assert(next.successor_spec().index() == next.index() + 1);
                        assert(this.index() != next.index() + 1);
                    }
                    assert(all[i as int].index() != all[i + 1].index() + 1);
                    assert(!steps_down(all));
                }
                return None;
            }
            i = i + 1;
        }
        Some(ranks[0])
    }

    /// Classifies the hand.
    #[verifier::rlimit(50)]
    pub fn hand_type(&self) -> (t: HandType)
        ensures
            t == self.classification(),
    {
        match self.extract_straight() {
            Some(high) => {
                if self.is_flush() {
                    HandType::StraightFlush(high)
                } else {
                    HandType::Straight(high)
                }
            },
            None => {
                if self.is_flush() {
                    HandType::Flush
                } else {
                    let ranks = self.ranks();
                    let runs = rank_runs(ranks);
                    let first = foremost_run(&runs, None);
                    let second = foremost_run(&runs, Some(first.1));
                    proof {
                        use_type_invariant(self);
                        assert(ranks_descend(ranks@)) by {
                            assert forall|i: int, j: int| 0 <= i < j < 5 implies ranks@[i].index()
                                >= ranks@[j].index() by {
                                assert(self@[i].key() >= self@[j].key());
                            }
                        }
                        lemma_foremost_run_leads(runs@, ranks@, None, first);
                        lemma_foremost_run_leads(runs@, ranks@, Some(first.1), second);
                    }
                    if first.0 == 4 {
                        HandType::FourOfAKind(first.1)
                    } else if first.0 == 3 {
                        if second.0 == 2 {
                            HandType::FullHouse(first.1, second.1)
                        } else {
                            HandType::ThreeOfAKind(first.1)
                        }
                    } else if first.0 == 2 {
                        if second.0 == 2 {
                            HandType::TwoPair(first.1, second.1)
                        } else {
                            HandType::Pair(first.1)
                        }
                    } else {
                        HandType::HighCard
                    }
                }
            },
        }
    }

    /// The strength of the hand as a machine integer.
    #[verifier::rlimit(50)]
    pub fn strength_value(&self) -> (s: u64)
        ensures
            s == self.strength(),
            s < 564736653,
    {
        let t: u64 = self.hand_type().score_value();
        let r = self.ranks();
        let r0: u64 = r[0].ordinal() as u64;
        let r1: u64 = r[1].ordinal() as u64;
        let r2: u64 = r[2].ordinal() as u64;
        let r3: u64 = r[3].ordinal() as u64;
        let r4: u64 = r[4].ordinal() as u64;
        t * 371293 + r0 * 28561 + r1 * 2197 + r2 * 169 + r3 * 13 + r4
    }
}

impl PartialEq for Hand {
    fn eq(&self, other: &Self) -> (same: bool) {
        self.strength_value() == other.strength_value()
    }
}

impl vstd::std_specs::cmp::PartialEqSpecImpl for Hand {
    open spec fn obeys_eq_spec() -> bool {
        true
    }

    open spec fn eq_spec(&self, other: &Self) -> bool {
        self.strength() == other.strength()
    }
}

impl Eq for Hand {

}

impl PartialOrd for Hand {
    fn partial_cmp(&self, other: &Self) -> (o: Option<Ordering>) {
        let a: u64 = self.strength_value();
        let b: u64 = other.strength_value();
        if a < b {
            Some(Ordering::Less)
        } else if a == b {
            Some(Ordering::Equal)
        } else {
            Some(Ordering::Greater)
        }
    }
}

impl vstd::std_specs::cmp::PartialOrdSpecImpl for Hand {
    open spec fn obeys_partial_cmp_spec() -> bool {
        true
    }

    open spec fn partial_cmp_spec(&self, other: &Self) -> Option<Ordering> {
        if self.strength() < other.strength() {
            Some(Ordering::Less)
        } else if self.strength() == other.strength() {
            Some(Ordering::Equal)
        } else {
            Some(Ordering::Greater)
        }
    }
}

/// The cards of `pool` at the positions that `s` chooses.
pub open spec fn pick(pool: Seq<Card>, s: Seq<usize>) -> Seq<Card> {
    Seq::new(s.len(), |i: int| pool[s[i] as int])
}

/// The strength of the hand made of the cards that `s` chooses from `pool`.
pub open spec fn strength_at(pool: Seq<Card>, s: Seq<usize>) -> int {
    strength_of(descending(pick(pool, s)))
}

/// `best` is the hand of the choice `s` of five cards of `pool`; no choice
/// of five gives a stronger hand, and every choice that comes after `s` in
/// dictionary order gives a weaker one.
pub open spec fn wins_by_choice(pool: Seq<Card>, s: Seq<usize>, best: Hand) -> bool {
    &&& is_choice(s, pool.len(), 5)
    &&& best.is_hand_of(pick(pool, s))
    &&& forall|t: Seq<usize>| #[trigger]
        is_choice(t, pool.len(), 5) ==> strength_at(pool, t) <= best.strength()
    &&& forall|t: Seq<usize>|
        is_choice(t, pool.len(), 5) && #[trigger] lex_before(s, t) ==> strength_at(pool, t)
            < best.strength()
}

/// `best` is the strongest hand of five cards of `pool`; among equally
/// strong ones, that of the last choice in dictionary order of positions.
pub open spec fn is_best_hand(pool: Seq<Card>, best: Hand) -> bool {
    exists|s: Seq<usize>| wins_by_choice(pool, s, best)
}

impl Hand {
    /// The hand of the five cards that `choice` selects from `cards`.
    fn chosen(cards: &[Card], choice: &Vec<usize>) -> (hand: Hand)
        requires
            is_choice(choice@, cards@.len(), 5),
        ensures
            hand.wf(),
            hand.is_hand_of(pick(cards@, choice@)),
            hand.strength() == strength_at(cards@, choice@),
            cards@.no_duplicates() ==> hand@.no_duplicates(),
    {
        let five: [Card; 5] = [
            cards[choice[0]],
            cards[choice[1]],
            cards[choice[2]],
            cards[choice[3]],
            cards[choice[4]],
        ];
        assert(five@ =~= pick(cards@, choice@));
        proof {
            if cards@.no_duplicates() {
                lemma_pick_distinct(cards@, choice@);
            }
        }
        Hand::from(&five)
    }

    /// The strongest hand of five cards among `cards`.
    #[verifier::loop_isolation(false)]
    #[verifier::rlimit(50)]
    pub fn best_hand(cards: &[Card]) -> (best: Hand)
        requires
            cards@.len() >= 5,
        ensures
            best.wf(),
            is_best_hand(cards@, best),
            cards@.no_duplicates() ==> best@.no_duplicates(),
    {
        let mut choices = index_combinations(cards.len(), 5);
        let ghost all = pending(choices);
        proof {
            let lowest: Seq<usize> = seq![0usize, 1usize, 2usize, 3usize, 4usize];
            assert(is_choice(lowest, cards@.len(), 5));
        }
        let first = next_choice(&mut choices).unwrap();
        let mut best = Self::chosen(cards, &first);
        let mut top: u64 = best.strength_value();
        let ghost mut at: int = 0;
        let ghost mut i: int = 1;
        let mut next = next_choice(&mut choices);
        proof {
            assert(all.skip(1) =~= all.drop_first());
            if all.len() > 1 {
                assert(all.skip(1).drop_first() =~= all.skip(2));
            }
        }
        while next.is_some()
            invariant
                lists_all_choices(all, cards@.len(), 5),
                1 <= i <= all.len(),
                match next {
                    Some(c) => i < all.len() && c@ == all[i] && pending(choices) == all.skip(i + 1),
                    None => i == all.len(),
                },
                0 <= at < i,
                best.wf(),
                best.is_hand_of(pick(cards@, all[at])),
                cards@.no_duplicates() ==> best@.no_duplicates(),
                top == best.strength(),
                forall|j: int| 0 <= j < i ==> strength_at(cards@, #[trigger] all[j]) <= top,
                forall|j: int| at < j < i ==> strength_at(cards@, #[trigger] all[j]) < top,
            decreases all.len() - i,
        {
            let choice = next.unwrap();
            let hand = Self::chosen(cards, &choice);
            let strength: u64 = hand.strength_value();
            if strength >= top {
                best = hand;
                top = strength;
                proof {
                    at = i;
                }
            }
            proof {
                i = i + 1;
            }
            next = next_choice(&mut choices);
            proof {
                if i < all.len() {
                    assert(all.skip(i).drop_first() =~= all.skip(i + 1));
                }
            }
        }
        proof {
            let s = all[at];
            assert forall|t: Seq<usize>| #[trigger] is_choice(t, cards@.len(), 5) implies strength_at(
                cards@,
                t,
            ) <= best.strength() by {
                let j = choose|j: int| 0 <= j < all.len() && #[trigger] all[j] == t;
            }
            assert forall|t: Seq<usize>|
                is_choice(t, cards@.len(), 5) && #[trigger] lex_before(s, t) implies strength_at(
                cards@,
                t,
            ) < best.strength() by {
                let j = choose|j: int| 0 <= j < all.len() && #[trigger] all[j] == t;
                lemma_lex_before_asymmetric(s, t);
                if j < at {
                    assert(lex_before(all[j], all[at]));
                }
            }
            assert(wins_by_choice(cards@, s, best));
        }
        best
    }
}

/// All strongest hands of one pool are equally strong.
pub proof fn lemma_best_hands_tie(pool: Seq<Card>, a: Hand, b: Hand)
    requires
        is_best_hand(pool, a),
        is_best_hand(pool, b),
    ensures
        a.strength() == b.strength(),
{
    let sa = choose|s: Seq<usize>| wins_by_choice(pool, s, a);
    let sb = choose|s: Seq<usize>| wins_by_choice(pool, s, b);
    assert(a.strength() == strength_at(pool, sa));
    assert(b.strength() == strength_at(pool, sb));
}

/// The hand made of given cards, hence its classification and its
/// strength, does not depend on the order in which the cards are given.
pub proof fn lemma_order_of_cards_irrelevant(first: Seq<Card>, second: Seq<Card>)
    requires
        first.to_multiset() == second.to_multiset(),
    ensures
        descending(first) == descending(second),
        classify(descending(first)) == classify(descending(second)),
        strength_of(descending(first)) == strength_of(descending(second)),
{
    let leq = by_key_descending();
    lemma_card_order_total();
    first.lemma_sort_by_ensures(leq);
    second.lemma_sort_by_ensures(leq);
    vstd::seq_lib::lemma_sorted_unique(descending(first), descending(second), leq);
}

/// Two hands made of the same cards are the same hand.
pub proof fn lemma_same_cards_same_hand(a: Hand, b: Hand)
    requires
        a.wf(),
        b.wf(),
        a@.to_multiset() == b@.to_multiset(),
    ensures
        a@ == b@,
        a.classification() == b.classification(),
        a.strength() == b.strength(),
{
    lemma_descending_unique(a@, b@);
    lemma_descending_unique(b@, b@);
}

/// The category decides between hand types of different categories,
/// whatever ranks they carry.
pub proof fn lemma_category_dominates(a: HandType, b: HandType)
    requires
        a.category() > b.category(),
    ensures
        a.score() > b.score(),
        a.partial_cmp_spec(&b) == Some(Ordering::Greater),
{
}

/// Within one category the first rank decides, and the second where the
/// first ranks agree.
pub proof fn lemma_ranks_break_ties(a: HandType, b: HandType)
    requires
        a.category() == b.category(),
    ensures
        a.primary() > b.primary() ==> a.score() > b.score(),
        a.primary() == b.primary() && a.secondary() > b.secondary() ==> a.score() > b.score(),
        a.score() == b.score() <==> a == b,
        a.score() > b.score() <==> a.partial_cmp_spec(&b) == Some(Ordering::Greater),
{
}

/// Of two numbers with digits in base 371293, the one with the higher
/// leading digit is the higher.
proof fn lemma_leading_digit_decides(high_a: int, low_a: int, high_b: int, low_b: int)
    requires
        0 <= low_a < 371293,
        0 <= low_b < 371293,
        high_a > high_b,
    ensures
        high_a * 371293 + low_a > high_b * 371293 + low_b,
{
}

/// The five ranks of a hand, read as base-13 digits, stay below 13 to the
/// fifth power.
proof fn lemma_kickers_bounded(cards: Seq<Card>)
    ensures
        0 <= kickers(cards) < 371293,
{
}

/// A hand with a higher hand type is the stronger hand, whatever its
/// cards; so is a hand of a higher category.
#[verifier::rlimit(50)]
pub proof fn lemma_hand_type_dominates(a: Hand, b: Hand)
    ensures
        a.classification().score() > b.classification().score() ==> a.strength() > b.strength(),
        a.classification().category() > b.classification().category() ==> a.strength()
            > b.strength(),
{
    let type_a = a.classification();
    let type_b = b.classification();
    lemma_kickers_bounded(a@);
    lemma_kickers_bounded(b@);
    if type_a.category() > type_b.category() {
        lemma_category_dominates(type_a, type_b);
    }
    if type_a.score() > type_b.score() {
        lemma_leading_digit_decides(type_a.score(), kickers(a@), type_b.score(), kickers(b@));
    }
}

/// The operators `<`, `>` and `==` on hands compare their strengths.
pub proof fn lemma_hand_order_is_strength_order(a: Hand, b: Hand)
    ensures
        a.strength() < b.strength() <==> a.partial_cmp_spec(&b) == Some(Ordering::Less),
        a.strength() > b.strength() <==> a.partial_cmp_spec(&b) == Some(Ordering::Greater),
        a.strength() == b.strength() <==> a.eq_spec(&b),
{
}

/// The strongest hand of a pool is at least as strong as the hand of any
/// five of its cards.
pub proof fn lemma_best_hand_dominates(pool: Seq<Card>, best: Hand, s: Seq<usize>, other: Hand)
    requires
        is_best_hand(pool, best),
        is_choice(s, pool.len(), 5),
        other.is_hand_of(pick(pool, s)),
    ensures
        other.strength() <= best.strength(),
{
    let sb = choose|sb: Seq<usize>| wins_by_choice(pool, sb, best);
    assert(other.strength() == strength_at(pool, s));
}

/// Why a text is no hand.
#[derive(Clone, Debug, PartialEq, Eq)]
pub enum HandParseError {
    CardParseError(CardParseError),
    WrongNumberOfElements(usize),
}

/// The fields of the first `n` characters of a text, which commas
/// separate. A text without a comma is one field; the last field is the
/// one that the next character would continue.
pub open spec fn fields(text: Seq<char>, n: int) -> Seq<Seq<char>>
    decreases n,
{
    if n <= 0 {
        seq![Seq::<char>::empty()]
    } else {
        let before = fields(text, n - 1);
        if text[n - 1] == ',' {
            before.push(Seq::<char>::empty())
        } else {
            before.drop_last().push(before.last().push(text[n - 1]))
        }
    }
}

/// The first fault among the first `n` fields, each read as a card with
/// the white space around it ignored.
pub open spec fn first_fault(all: Seq<Seq<char>>, n: int) -> Option<TokenFault>
    decreases n,
{
    if n <= 0 {
        None
    } else {
        match first_fault(all, n - 1) {
            Some(fault) => Some(fault),
            None => match card_of_token(trimmed(all[n - 1])) {
                Err(fault) => Some(fault),
                Ok(_) => None,
            },
        }
    }
}

/// The card that the field at position `i` names; an arbitrary card where
/// it names none.
pub open spec fn card_in_field(all: Seq<Seq<char>>, i: int) -> Card {
    match card_of_token(trimmed(all[i])) {
        Ok(card) => card,
        Err(_) => Card::at(0),
    }
}

/// The cards that the fields name, in the order of the fields.
pub open spec fn cards_in_fields(all: Seq<Seq<char>>) -> Seq<Card> {
    Seq::new(all.len(), |i: int| card_in_field(all, i))
}

/// The first `n` cards written one after the other, with a comma and a
/// space between neighbours.
pub open spec fn joined_text(cards: Seq<Card>, n: int) -> Seq<char>
    decreases n,
{
    if n <= 0 {
        Seq::<char>::empty()
    } else if n == 1 {
        card_text(cards[0])
    } else {
        joined_text(cards, n - 1) + seq![',', ' '] + card_text(cards[n - 1])
    }
}

/// `parsed` is what reading the text as a hand gives: the error of the
/// first field that names no card; else, unless there are five fields, the
/// number of fields; else the hand of the five cards.
pub open spec fn is_hand_reading(text: Seq<char>, parsed: Result<Hand, HandParseError>) -> bool {
    let all = fields(text, text.len() as int);
    match parsed {
        Ok(hand) => {
            &&& first_fault(all, all.len() as int) is None
            &&& all.len() == 5
            &&& hand.wf()
            &&& hand.is_hand_of(cards_in_fields(all))
        },
        Err(HandParseError::CardParseError(e)) => first_fault(all, all.len() as int) == Some(
            e.fault(),
        ),
        Err(HandParseError::WrongNumberOfElements(count)) => {
            &&& first_fault(all, all.len() as int) is None
            &&& all.len() == count
            &&& count != 5
        },
    }
}

/// A fault among the first fields is the first fault of all the fields.
pub proof fn lemma_first_fault_stays(all: Seq<Seq<char>>, n: int, m: int)
    requires
        0 <= n <= m,
        first_fault(all, n) is Some,
    ensures
        first_fault(all, m) == first_fault(all, n),
    decreases m - n,
{
    if n < m {
        lemma_first_fault_stays(all, n, m - 1);
    }
}

/// Cuts a text at its commas.
fn split_fields<'a>(text: &'a str) -> (pieces: Vec<&'a str>)
    ensures
        pieces@.len() == fields(text@, text@.len() as int).len(),
        forall|j: int|
            0 <= j < pieces@.len() ==> (#[trigger] pieces@[j])@ == fields(
                text@,
                text@.len() as int,
            )[j],
{
    let n: usize = text.unicode_len();
    let mut pieces: Vec<&'a str> = Vec::new();
    let mut start: usize = 0;
    let mut i: usize = 0;
    assert(fields(text@, 0).last() =~= text@.subrange(0, 0));
    while i < n
        invariant
            n == text@.len(),
            0 <= start <= i <= n,
            fields(text@, i as int).len() == pieces@.len() + 1,
            forall|j: int|
                0 <= j < pieces@.len() ==> (#[trigger] pieces@[j])@ == fields(text@, i as int)[j],
            fields(text@, i as int).last() == text@.subrange(start as int, i as int),
        decreases n - i,
    {
        let c = text.get_char(i);
        if c == ',' {
            let piece = text.substring_char(start, i);
            pieces.push(piece);
            start = i + 1;
            assert(fields(text@, i + 1).last() =~= text@.subrange(start as int, i + 1));
        } else {
            assert(fields(text@, i + 1).last() =~= text@.subrange(start as int, i + 1));
        }
        i = i + 1;
    }
    let piece = text.substring_char(start, n);
    pieces.push(piece);
    pieces
}

impl Hand {
    /// Reads a hand: five cards with commas between them, white space
    /// around a card ignored. The first card that cannot be read gives the
    /// error; a text with another number of cards than five gives that
    /// number.
    #[verifier::rlimit(50)]
    pub fn parse(text: &str) -> (parsed: Result<Hand, HandParseError>)
        ensures
            is_hand_reading(text@, parsed),
    {
        let pieces = split_fields(text);
        let ghost all = fields(text@, text@.len() as int);
        let mut cards: Vec<Card> = Vec::new();
        let mut i: usize = 0;
        while i < pieces.len()
            invariant
                0 <= i <= pieces@.len(),
                all == fields(text@, text@.len() as int),
                pieces@.len() == all.len(),
                forall|j: int| 0 <= j < pieces@.len() ==> (#[trigger] pieces@[j])@ == all[j],
                first_fault(all, i as int) is None,
                cards@.len() == i,
                forall|j: int| 0 <= j < i ==> cards@[j] == card_in_field(all, j),
            decreases pieces@.len() - i,
        {
            match Card::parse(pieces[i]) {
                Ok(card) => {
                    cards.push(card);
                },
                Err(e) => {
                    proof {
                        assert(first_fault(all, i + 1) == Some(e.fault()));
                        lemma_first_fault_stays(all, i + 1, all.len() as int);
                    }
                    return Err(HandParseError::CardParseError(e));
                },
            }
            i = i + 1;
        }
        if cards.len() != 5 {
            return Err(HandParseError::WrongNumberOfElements(cards.len()));
        }
        let five: [Card; 5] = [cards[0], cards[1], cards[2], cards[3], cards[4]];
        assert(five@ =~= cards_in_fields(all));
        Ok(Hand::from(&five))
    }

    /// Writes the hand: its cards, highest first, with a comma and a space
    /// between neighbours.
    pub fn to_string(&self) -> (text: String)
        ensures
            text@ == joined_text(self@, 5),
    {
        let mut text = self.0[0].to_string();
        let mut i: usize = 1;
        while i < 5
            invariant
                1 <= i <= 5,
                self@.len() == 5,
                text@ == joined_text(self@, i as int),
            decreases 5 - i,
        {
            let card = self.0[i].to_string();
            proof {
                reveal_strlit(", ");
                assert(", "@ =~= seq![',', ' ']);
            }
            text.append(", ");
            text.append(card.as_str());
            i = i + 1;
        }
        text
    }
}

impl std::str::FromStr for Hand {
    type Err = HandParseError;

    fn from_str(s: &str) -> (parsed: Result<Self, Self::Err>)
        ensures
            is_hand_reading(s@, parsed),
    {
        Hand::parse(s)
    }
}

/// Cards that hold no card twice still hold none twice when rearranged.
pub proof fn lemma_rearranged_distinct(cards: Seq<Card>, rearranged: Seq<Card>)
    requires
        cards.to_multiset() == rearranged.to_multiset(),
        cards.no_duplicates(),
    ensures
        rearranged.no_duplicates(),
{
    cards.lemma_multiset_has_no_duplicates();
    rearranged.lemma_multiset_has_no_duplicates_conv();
}

/// A choice of cards from a pool that holds no card twice holds none
/// twice.
pub proof fn lemma_pick_distinct(pool: Seq<Card>, s: Seq<usize>)
    requires
        pool.no_duplicates(),
        is_choice(s, pool.len(), s.len()),
    ensures
        pick(pool, s).no_duplicates(),
{
    assert forall|i: int, j: int| 0 <= i < s.len() && 0 <= j < s.len() && i != j implies pick(pool, s)[i]
        != pick(pool, s)[j] by {
        if i < j {
            assert(s[i] < s[j]);
        } else {
            assert(s[j] < s[i]);
        }
    }
}

/// The order of cards by key is a total order.
pub proof fn lemma_card_order_total()
    ensures
        vstd::relations::total_ordering(by_key_descending()),
{
    let leq = by_key_descending();
    assert forall|x: Card, y: Card| #[trigger] leq(x, y) && #[trigger] leq(y, x) implies x == y by {
        crate::cards::lemma_key_identifies_card(x, y);
    }
}

/// A descending arrangement of cards is the only one: it is what
/// `descending` gives.
pub proof fn lemma_descending_unique(sorted: Seq<Card>, cards: Seq<Card>)
    requires
        is_descending(sorted),
        sorted.to_multiset() == cards.to_multiset(),
    ensures
        sorted == descending(cards),
{
    let leq = by_key_descending();
    lemma_card_order_total();
    cards.lemma_sort_by_ensures(leq);
    vstd::seq_lib::lemma_sorted_unique(sorted, descending(cards), leq);
}

} // verus!
