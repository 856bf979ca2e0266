//! Choices of `k` positions out of `n`, in the order in which they are
//! enumerated.

use itertools::Itertools;
use vstd::prelude::*;

verus! {

/// `s` chooses `k` of the positions below `n`, in ascending order.
pub open spec fn is_choice(s: Seq<usize>, n: nat, k: nat) -> bool {
    &&& s.len() == k
    &&& forall|i: int| 0 <= i < s.len() ==> #[trigger] s[i] < n
    &&& forall|i: int, j: int| 0 <= i < j < s.len() ==> s[i] < s[j]
}

/// `a` comes before `b` in dictionary order: at the first position where
/// they differ, `a` holds the smaller number.
pub open spec fn lex_before(a: Seq<usize>, b: Seq<usize>) -> bool {
    exists|p: int|
        0 <= p < a.len() && p < b.len() && #[trigger] a[p] < b[p] && forall|i: int|
            0 <= i < p ==> a[i] == b[i]
}

/// Dictionary order never holds in both directions, nor between a choice
/// and itself.
pub proof fn lemma_lex_before_asymmetric(a: Seq<usize>, b: Seq<usize>)
    requires
        lex_before(a, b),
    ensures
        !lex_before(b, a),
        a != b,
{
    let p = choose|p: int|
        0 <= p < a.len() && p < b.len() && #[trigger] a[p] < b[p] && forall|i: int|
            0 <= i < p ==> a[i] == b[i];
    if lex_before(b, a) {
        let q = choose|q: int|
            0 <= q < b.len() && q < a.len() && #[trigger] b[q] < a[q] && forall|i: int|
                0 <= i < q ==> b[i] == a[i];
        if p < q {
            assert(b[p] == a[p]);
        } else if q < p {
            assert(a[q] == b[q]);
        }
    }
}

/// The adaptor that `itertools::Itertools::combinations` returns.
#[verifier::external_type_specification]
#[verifier::external_body]
#[verifier::reject_recursive_types(I)]
pub struct ExCombinations<I: Iterator>(itertools::Combinations<I>);

/// The choices that an enumeration has yet to yield, in the order in which
/// it will yield them.
pub uninterp spec fn pending(choices: itertools::Combinations<core::ops::Range<usize>>) -> Seq<
    Seq<usize>,
>;

/// `all` lists every choice of `k` positions out of `n` once, in
/// dictionary order.
pub open spec fn lists_all_choices(all: Seq<Seq<usize>>, n: nat, k: nat) -> bool {
    &&& forall|i: int| 0 <= i < all.len() ==> is_choice(#[trigger] all[i], n, k)
    &&& forall|s: Seq<usize>| #[trigger]
        is_choice(s, n, k) ==> exists|i: int| 0 <= i < all.len() && #[trigger] all[i] == s
    &&& forall|i: int, j: int|
        0 <= i < j < all.len() ==> lex_before(#[trigger] all[i], #[trigger] all[j])
}

/// Starts the enumeration of all choices of `k` positions out of `n`,
/// through `itertools::Itertools::combinations` on the range `0..n`. The
/// adaptor starts at the positions `0..k` and steps by raising the last
/// position that can be raised and resetting those after it, so that it
/// yields each ascending choice once, in dictionary order; it yields
/// nothing when `k` exceeds `n`.
#[verifier::external_body]
pub(crate) fn index_combinations(n: usize, k: usize) -> (choices: itertools::Combinations<
    core::ops::Range<usize>,
>)
    ensures
        lists_all_choices(pending(choices), n as nat, k as nat),
{
    (0..n).combinations(k)
}

/// Takes the next choice out of an enumeration, through `Iterator::next`
/// of the adaptor: the first of the pending choices, if there is one.
#[verifier::external_body]
pub(crate) fn next_choice(choices: &mut itertools::Combinations<core::ops::Range<usize>>) -> (next:
    Option<Vec<usize>>)
    ensures
        pending(*old(choices)).len() == 0 ==> next is None && pending(*final(choices)).len() == 0,
        pending(*old(choices)).len() > 0 ==> next is Some && next->0@ == pending(*old(choices))[0]
            && pending(*final(choices)) == pending(*old(choices)).drop_first(),
{
    choices.next()
}

} // verus!
