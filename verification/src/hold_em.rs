//! The nuts: the two concealed cards that make the strongest hand with a
//! given board.

use crate::cards::{full_deck, Card};
use crate::combos::{index_combinations, is_choice, lists_all_choices, next_choice, pending};
use crate::hands::{is_best_hand, lemma_best_hands_tie, pick, Hand};
use vstd::prelude::*;

verus! {

/// Whether a card is none of the community cards.
pub open spec fn off_board(community: Seq<Card>) -> spec_fn(Card) -> bool {
    |card: Card| !community.contains(card)
}

/// The cards of the full deck that are not among the community cards, in
/// ascending order.
pub open spec fn undealt(community: Seq<Card>) -> Seq<Card> {
    full_deck().filter(off_board(community))
}

/// The place of a candidate in the search: candidates are ordered by the
/// strength of the hand, then by the first card of the pair, then by the
/// second.
pub open spec fn candidate_place(hand: Hand, pair: Seq<Card>) -> int {
    (hand.strength() * 52 + pair[0].key()) * 52 + pair[1].key()
}

/// The candidate that the choice `t` of two undealt cards gives is placed
/// no higher than `place`, whichever hand is taken as its best hand.
pub open spec fn placed_within(community: Seq<Card>, t: Seq<usize>, place: int) -> bool {
    forall|h: Hand| #[trigger]
        is_best_hand(community + pick(undealt(community), t), h) ==> candidate_place(
            h,
            pick(undealt(community), t),
        ) <= place
}

/// `pair` is a choice of two undealt cards, `hand` is the best hand of the
/// community cards together with the pair, and no other choice of two
/// undealt cards is placed higher.
pub open spec fn is_nuts(community: Seq<Card>, hand: Hand, pair: Seq<Card>) -> bool {
    &&& exists|s: Seq<usize>| #[trigger]
        is_choice(s, undealt(community).len(), 2) && pair == pick(undealt(community), s)
    &&& is_best_hand(community + pair, hand)
    &&& forall|t: Seq<usize>| #[trigger]
        is_choice(t, undealt(community).len(), 2) ==> placed_within(
            community,
            t,
            candidate_place(hand, pair),
        )
}

/// Among the first `n` cards of the full deck, those off the board stand
/// in ascending order, and each of them is off the board.
pub proof fn lemma_undealt_prefix(community: Seq<Card>, n: int)
    requires
        0 <= n <= 52,
    ensures
        ({
            let rest = full_deck().take(n).filter(off_board(community));
            &&& forall|i: int, j: int| 0 <= i < j < rest.len() ==> rest[i].key() < rest[j].key()
            &&& forall|i: int|
                0 <= i < rest.len() ==> 0 <= (#[trigger] rest[i]).key() < n && !community.contains(
                    rest[i],
                )
        }),
    decreases n,
{
    if n <= 0 {
        reveal(Seq::filter);
        assert(full_deck().take(0).filter(off_board(community)) =~= Seq::<Card>::empty());
    } else {
        lemma_undealt_prefix(community, n - 1);
        let card = full_deck()[n - 1];
        assert(card.key() == n - 1);
        full_deck().take(n - 1).lemma_filter_push(card, off_board(community));
        assert(full_deck().take(n - 1).push(card) =~= full_deck().take(n));
    }
}

/// The undealt cards stand in ascending order, so none occurs twice, and
/// none of them is a community card.
pub proof fn lemma_undealt_ascending(community: Seq<Card>)
    ensures
        forall|i: int, j: int|
            0 <= i < j < undealt(community).len() ==> undealt(community)[i].key() < undealt(
                community,
            )[j].key(),
        forall|i: int|
            0 <= i < undealt(community).len() ==> !community.contains(
                #[trigger] undealt(community)[i],
            ),
        undealt(community).no_duplicates(),
{
    lemma_undealt_prefix(community, 52);
    assert(full_deck().take(52) =~= full_deck());
}

/// The two cards of the nuts are undealt cards in ascending order: none
/// is a community card, and they differ.
pub proof fn lemma_nuts_pair_is_undealt(community: Seq<Card>, hand: Hand, pair: Seq<Card>)
    requires
        is_nuts(community, hand, pair),
    ensures
        pair.len() == 2,
        !community.contains(pair[0]),
        !community.contains(pair[1]),
        pair[0].key() < pair[1].key(),
        community.no_duplicates() ==> (community + pair).no_duplicates(),
{
    lemma_undealt_ascending(community);
    let s = choose|s: Seq<usize>| #[trigger]
        is_choice(s, undealt(community).len(), 2) && pair == pick(undealt(community), s);
    assert(s[0] < s[1]);
    assert(pair[0] == undealt(community)[s[0] as int]);
    assert(pair[1] == undealt(community)[s[1] as int]);
    lemma_pair_keeps_distinct(community, s);
}

/// Community cards that hold no card twice hold none twice with a choice
/// of two undealt cards added.
pub proof fn lemma_pair_keeps_distinct(community: Seq<Card>, s: Seq<usize>)
    requires
        is_choice(s, undealt(community).len(), 2),
    ensures
        community.no_duplicates() ==> (community + pick(undealt(community), s)).no_duplicates(),
{
    lemma_undealt_ascending(community);
    let pair = pick(undealt(community), s);
    assert(s[0] < s[1]);
    assert(pair[0] == undealt(community)[s[0] as int]);
    assert(pair[1] == undealt(community)[s[1] as int]);
    if community.no_duplicates() {
        let all = community + pair;
        assert forall|i: int, j: int| 0 <= i < all.len() && 0 <= j < all.len() && i != j implies all[i]
            != all[j] by {
            if i < community.len() && j >= community.len() {
                assert(community.contains(all[i]));
            }
            if j < community.len() && i >= community.len() {
                assert(community.contains(all[j]));
            }
        }
    }
}

/// Whether `card` is among `cards`.
fn holds(cards: &[Card], card: Card) -> (found: bool)
    ensures
        found == cards@.contains(card),
{
    let mut i: usize = 0;
    while i < cards.len()
        invariant
            0 <= i <= cards@.len(),
            forall|k: int| 0 <= k < i ==> cards@[k] != card,
        decreases cards@.len() - i,
    {
        if cards[i] == card {
            return true;
        }
        i = i + 1;
    }
    false
}

/// The cards of the full deck that are not on the board.
fn undealt_cards(community: &[Card]) -> (rest: Vec<Card>)
    ensures
        rest@ == undealt(community@),
{
    let deck = Card::iter();
    let mut rest: Vec<Card> = Vec::new();
    let mut k: usize = 0;
    proof {
        reveal(Seq::filter);
        assert(full_deck().take(0).filter(off_board(community@)) =~= Seq::<Card>::empty());
    }
    while k < deck.len()
        invariant
            deck@ == full_deck(),
            0 <= k <= deck@.len(),
            rest@ == deck@.take(k as int).filter(off_board(community@)),
        decreases deck@.len() - k,
    {
        let card = deck[k];
        proof {
            deck@.take(k as int).lemma_filter_push(card, off_board(community@));
            assert(deck@.take(k as int).push(card) =~= deck@.take(k + 1));
        }
        if !holds(community, card) {
            rest.push(card);
        }
        k = k + 1;
    }
    assert(deck@.take(deck@.len() as int) =~= deck@);
    rest
}

/// The community cards followed by the two cards of `pair`.
fn with_pair(community: &[Card], pair: &[Card; 2]) -> (pool: Vec<Card>)
    ensures
        pool@ == community@ + pair@,
{
    let mut pool: Vec<Card> = Vec::new();
    let mut i: usize = 0;
    while i < community.len()
        invariant
            0 <= i <= community@.len(),
            pool@ == community@.take(i as int),
        decreases community@.len() - i,
    {
        pool.push(community[i]);
        assert(community@.take(i as int).push(community@[i as int]) =~= community@.take(i + 1));
        i = i + 1;
    }
    pool.push(pair[0]);
    pool.push(pair[1]);
    assert(pool@ =~= community@ + pair@);
    pool
}

/// Finds the two undealt cards that, added to the community cards, give
/// the strongest hand, and that hand. There is no answer for fewer than
/// three community cards, nor when fewer than two cards are left undealt.
#[verifier::loop_isolation(false)]
#[verifier::rlimit(50)]
pub fn find_nuts(community: &[Card]) -> (nuts: Option<(Hand, [Card; 2])>)
    ensures
        nuts is None <==> community@.len() < 3 || undealt(community@).len() < 2,
        nuts matches Some(found) ==> found.0.wf() && is_nuts(community@, found.0, found.1@),
        nuts matches Some(found) ==> (community@.no_duplicates() ==> found.0@.no_duplicates()),
{
    if community.len() < 3 {
        return None;
    }
    let rest = undealt_cards(community);
    if rest.len() < 2 {
        return None;
    }
    let mut choices = index_combinations(rest.len(), 2);
    let ghost all = pending(choices);
    proof {
        let lowest: Seq<usize> = seq![0usize, 1usize];
        assert(is_choice(lowest, rest@.len(), 2));
    }
    let first = next_choice(&mut choices).unwrap();
    let mut best_pair: [Card; 2] = [rest[first[0]], rest[first[1]]];
    assert(best_pair@ =~= pick(rest@, all[0]));
    proof {
        lemma_pair_keeps_distinct(community@, all[0]);
    }
    let first_pool = with_pair(community, &best_pair);
    let mut best_hand = Hand::best_hand(first_pool.as_slice());
    let mut top: u64 = place_value(&best_hand, &best_pair);
    proof {
        assert forall|h: Hand| #[trigger]
            is_best_hand(community@ + pick(rest@, all[0]), h) implies candidate_place(
            h,
            pick(rest@, all[0]),
        ) <= top by {
            lemma_best_hands_tie(community@ + best_pair@, h, best_hand);
        }
    }
    let ghost mut at: int = 0;
    let ghost mut i: int = 1;
    let mut next = next_choice(&mut choices);
    proof {
        assert(all.skip(1) =~= all.drop_first());
        if all.len() > 1 {
            assert(all.skip(1).drop_first() =~= all.skip(2));
        }
    }
    while next.is_some()
        invariant
            lists_all_choices(all, rest@.len(), 2),
            1 <= i <= all.len(),
            match next {
                Some(c) => i < all.len() && c@ == all[i] && pending(choices) == all.skip(i + 1),
                None => i == all.len(),
            },
            0 <= at < i,
            best_hand.wf(),
            best_pair@ == pick(rest@, all[at]),
            is_best_hand(community@ + best_pair@, best_hand),
            community@.no_duplicates() ==> best_hand@.no_duplicates(),
            top == candidate_place(best_hand, best_pair@),
            forall|j: int| 0 <= j < i ==> placed_within(community@, #[trigger] all[j], top as int),
        decreases all.len() - i,
    {
        let choice = next.unwrap();
        let pair: [Card; 2] = [rest[choice[0]], rest[choice[1]]];
        assert(pair@ =~= pick(rest@, all[i]));
        proof {
            lemma_pair_keeps_distinct(community@, all[i]);
        }
        let pool = with_pair(community, &pair);
        let hand = Hand::best_hand(pool.as_slice());
        let place: u64 = place_value(&hand, &pair);
        proof {
            assert forall|h: Hand| #[trigger]
                is_best_hand(community@ + pick(rest@, all[i]), h) implies candidate_place(
                h,
                pick(rest@, all[i]),
            ) <= place by {
                lemma_best_hands_tie(community@ + pair@, h, hand);
            }
            assert(placed_within(community@, all[i], place as int));
        }
        if place >= top {
            best_hand = hand;
            best_pair = pair;
            top = place;
            proof {
                at = i;
            }
        }
        proof {
            i = i + 1;
        }
        next = next_choice(&mut choices);
        proof {
            if i < all.len() {
                assert(all.skip(i).drop_first() =~= all.skip(i + 1));
            }
        }
    }
    proof {
        assert(is_choice(all[at], rest@.len(), 2));
        assert forall|t: Seq<usize>| #[trigger] is_choice(t, rest@.len(), 2) implies placed_within(
            community@,
            t,
            candidate_place(best_hand, best_pair@),
        ) by {
            let j = choose|j: int| 0 <= j < all.len() && #[trigger] all[j] == t;
            assert(placed_within(community@, all[j], top as int));
        }
    }
    Some((best_hand, best_pair))
}

/// The place of a candidate as a machine integer.
fn place_value(hand: &Hand, pair: &[Card; 2]) -> (place: u64)
    ensures
        place == candidate_place(*hand, pair@),
{
    let strength: u64 = hand.strength_value();
    let first: u64 = pair[0].ordinal() as u64;
    let second: u64 = pair[1].ordinal() as u64;
    (strength * 52 + first) * 52 + second
}

} // verus!
