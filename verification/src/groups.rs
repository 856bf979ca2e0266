//! Groups of equal ranks in a hand, and the runs of equal ranks that give
//! them.

use crate::cards::Rank;
use crate::hands::HandType;
use itertools::Itertools;
use vstd::prelude::*;

verus! {

/// How many of the first `n` ranks equal `r`.
pub open spec fn occurrences(ranks: Seq<Rank>, r: Rank, n: int) -> int
    decreases n,
{
    if n <= 0 {
        0
    } else {
        occurrences(ranks, r, n - 1) + if ranks[n - 1] == r {
            1int
        } else {
            0int
        }
    }
}

/// The group that the rank at position `i` belongs to: how often the rank
/// occurs among all the ranks, and the rank.
pub open spec fn group_at(ranks: Seq<Rank>, i: int) -> (int, Rank) {
    (occurrences(ranks, ranks[i], ranks.len() as int), ranks[i])
}

/// Group `a` comes before group `b`: it is larger, or as large and of
/// higher rank.
pub open spec fn outranks(a: (int, Rank), b: (int, Rank)) -> bool {
    a.0 > b.0 || (a.0 == b.0 && a.1.index() > b.1.index())
}

/// The foremost group among those of the first `n` positions, leaving out
/// the rank `skip`; a group of size 0 where there is none.
pub open spec fn leading_group(ranks: Seq<Rank>, skip: Option<Rank>, n: int) -> (int, Rank)
    decreases n,
{
    if n <= 0 {
        (0, Rank::Two)
    } else {
        let rest = leading_group(ranks, skip, n - 1);
        let here = group_at(ranks, n - 1);
        if skip != Some(here.1) && outranks(here, rest) {
            here
        } else {
            rest
        }
    }
}

/// The classification of ranks that form neither straight nor flush, by
/// the sizes of the two foremost groups of equal ranks.
pub open spec fn classify_groups(ranks: Seq<Rank>) -> HandType {
    let first = leading_group(ranks, None, ranks.len() as int);
    let second = leading_group(ranks, Some(first.1), ranks.len() as int);
    if first.0 == 4 {
        HandType::FourOfAKind(first.1)
    } else if first.0 == 3 {
        if second.0 == 2 {
            HandType::FullHouse(first.1, second.1)
        } else {
            HandType::ThreeOfAKind(first.1)
        }
    } else if first.0 == 2 {
        if second.0 == 2 {
            HandType::TwoPair(first.1, second.1)
        } else {
            HandType::Pair(first.1)
        }
    } else {
        HandType::HighCard
    }
}

/// The position in the encoded sequence at which run `i` begins: the
/// lengths of the runs before it, added up.
pub open spec fn run_start(runs: Seq<(usize, Rank)>, i: int) -> int
    decreases i,
{
    if i <= 0 {
        0
    } else {
        run_start(runs, i - 1) + runs[i - 1].0
    }
}

/// Position `k` of the encoded sequence lies in run `i`.
pub open spec fn in_run(runs: Seq<(usize, Rank)>, i: int, k: int) -> bool {
    run_start(runs, i) <= k < run_start(runs, i + 1)
}

/// `runs` is the run-length encoding of `ranks`: the runs, laid end to
/// end, are the ranks; no run is empty; neighbouring runs differ in rank.
pub open spec fn is_run_length_encoding(runs: Seq<(usize, Rank)>, ranks: Seq<Rank>) -> bool {
    &&& run_start(runs, runs.len() as int) == ranks.len()
    &&& forall|i: int| 0 <= i < runs.len() ==> (#[trigger] runs[i]).0 >= 1
    &&& forall|i: int, k: int|
        0 <= i < runs.len() && #[trigger] in_run(runs, i, k) ==> ranks[k] == runs[i].1
    &&& forall|i: int| 0 <= i < runs.len() - 1 ==> (#[trigger] runs[i]).1 != runs[i + 1].1
}

/// No rank is followed by a higher one.
pub open spec fn ranks_descend(ranks: Seq<Rank>) -> bool {
    forall|i: int, j: int| 0 <= i < j < ranks.len() ==> ranks[i].index() >= ranks[j].index()
}

/// A run as a group: its length as a mathematical integer, and its rank.
pub open spec fn as_group(run: (usize, Rank)) -> (int, Rank) {
    (run.0 as int, run.1)
}

/// The run-length encoding of five ranks, through
/// `itertools::Itertools::dedup_with_count`: each stretch of equal
/// neighbours becomes one pair of its length and its rank, in the order of
/// the stretches.
#[verifier::external_body]
pub(crate) fn rank_runs(ranks: [Rank; 5]) -> (runs: Vec<(usize, Rank)>)
    ensures
        is_run_length_encoding(runs@, ranks@),
{
    ranks.into_iter().dedup_with_count().collect()
}

/// Later runs begin later, by at least one position for each run between.
proof fn lemma_starts_grow(runs: Seq<(usize, Rank)>, i: int, j: int)
    requires
        0 <= i <= j <= runs.len(),
        forall|i: int| 0 <= i < runs.len() ==> (#[trigger] runs[i]).0 >= 1,
    ensures
        run_start(runs, j) >= run_start(runs, i) + (j - i),
        run_start(runs, i) >= 0,
    decreases j,
{
    if i < j {
        lemma_starts_grow(runs, i, j - 1);
    } else if i > 0 {
        lemma_starts_grow(runs, 0, i - 1);
        lemma_starts_grow(runs, i - 1, i - 1);
    }
}

/// Every position before the start of run `n` lies in one of the runs
/// before it.
proof fn lemma_position_in_run(runs: Seq<(usize, Rank)>, n: int, k: int) -> (i: int)
    requires
        0 <= n <= runs.len(),
        0 <= k < run_start(runs, n),
    ensures
        0 <= i < n,
        in_run(runs, i, k),
    decreases n,
{
    if k >= run_start(runs, n - 1) {
        n - 1
    } else {
        lemma_position_in_run(runs, n - 1, k)
    }
}

/// In the encoding of descending ranks a run has a higher rank than the
/// run that follows it.
#[verifier::rlimit(50)]
proof fn lemma_next_run_is_lower(runs: Seq<(usize, Rank)>, ranks: Seq<Rank>, i: int)
    requires
        is_run_length_encoding(runs, ranks),
        ranks_descend(ranks),
        0 <= i < runs.len() - 1,
    ensures
        runs[i].1.index() > runs[i + 1].1.index(),
{
    let p = run_start(runs, i + 1) - 1;
    let q = run_start(runs, i + 1);
    lemma_starts_grow(runs, 0, i);
    lemma_starts_grow(runs, i + 2, runs.len() as int);
    assert(runs[i].0 >= 1);
    assert(runs[i + 1].0 >= 1);
    assert(run_start(runs, i + 1) == run_start(runs, i) + runs[i].0);
    assert(run_start(runs, i + 2) == run_start(runs, i + 1) + runs[i + 1].0);
    assert(in_run(runs, i, p));
    assert(in_run(runs, i + 1, q));
    assert(ranks[p] == runs[i].1);
    assert(ranks[q] == runs[i + 1].1);
    assert(0 <= p < q < ranks.len());
    assert(ranks[p].index() >= ranks[q].index());
    assert(runs[i].1 != runs[i + 1].1);
    if runs[i].1.index() == runs[i + 1].1.index() {
        crate::cards::lemma_index_identifies_rank(runs[i].1, runs[i + 1].1);
    }
}

/// In the encoding of descending ranks a later run has a lower rank.
proof fn lemma_runs_descend(runs: Seq<(usize, Rank)>, ranks: Seq<Rank>, i: int, j: int)
    requires
        is_run_length_encoding(runs, ranks),
        ranks_descend(ranks),
        0 <= i < j < runs.len(),
    ensures
        runs[i].1.index() > runs[j].1.index(),
    decreases j,
{
    lemma_next_run_is_lower(runs, ranks, j - 1);
    if i < j - 1 {
        lemma_runs_descend(runs, ranks, i, j - 1);
    }
}

/// In the encoding of descending ranks, the positions that hold the rank
/// of a run are exactly the positions of that run.
proof fn lemma_rank_marks_run(runs: Seq<(usize, Rank)>, ranks: Seq<Rank>, i: int, k: int)
    requires
        is_run_length_encoding(runs, ranks),
        ranks_descend(ranks),
        0 <= i < runs.len(),
        0 <= k < ranks.len(),
    ensures
        ranks[k] == runs[i].1 <==> run_start(runs, i) <= k < run_start(runs, i + 1),
{
    let j = lemma_position_in_run(runs, runs.len() as int, k);
    assert(in_run(runs, j, k));
    assert(ranks[k] == runs[j].1);
    if in_run(runs, i, k) {
        assert(ranks[k] == runs[i].1);
    }
    if j < i {
        lemma_runs_descend(runs, ranks, j, i);
        lemma_starts_grow(runs, j + 1, i);
    } else if i < j {
        lemma_runs_descend(runs, ranks, i, j);
        lemma_starts_grow(runs, i + 1, j);
    }
}

/// In the encoding of five descending ranks, the length of a run is the
/// number of times that its rank occurs.
#[verifier::rlimit(50)]
proof fn lemma_run_counts_rank(runs: Seq<(usize, Rank)>, ranks: Seq<Rank>, i: int)
    requires
        is_run_length_encoding(runs, ranks),
        ranks_descend(ranks),
        ranks.len() == 5,
        0 <= i < runs.len(),
    ensures
        occurrences(ranks, runs[i].1, 5) == runs[i].0,
        0 <= run_start(runs, i) < 5,
        ranks[run_start(runs, i)] == runs[i].1,
{
    lemma_rank_marks_run(runs, ranks, i, 0);
    lemma_rank_marks_run(runs, ranks, i, 1);
    lemma_rank_marks_run(runs, ranks, i, 2);
    lemma_rank_marks_run(runs, ranks, i, 3);
    lemma_rank_marks_run(runs, ranks, i, 4);
    lemma_starts_grow(runs, 0, i);
    lemma_starts_grow(runs, i, i + 1);
    lemma_starts_grow(runs, i + 1, runs.len() as int);
    assert(runs[i].0 >= 1);
    assert(run_start(runs, i + 1) == run_start(runs, i) + runs[i].0);
    assert(in_run(runs, i, run_start(runs, i)));
    reveal_with_fuel(occurrences, 6);
}

/// The leading group is the group of a position that is not left out, if
/// there is one, and no group of such a position comes before it.
pub proof fn lemma_leading_group_is_foremost(ranks: Seq<Rank>, skip: Option<Rank>, n: int)
    requires
        0 <= n <= ranks.len(),
    ensures
        leading_group(ranks, skip, n) == (0int, Rank::Two) || exists|k: int|
            0 <= k < n && Some(ranks[k]) != skip && leading_group(ranks, skip, n) == #[trigger] group_at(
                ranks,
                k,
            ),
        forall|k: int|
            0 <= k < n && Some(ranks[k]) != skip ==> !outranks(
                #[trigger] group_at(ranks, k),
                leading_group(ranks, skip, n),
            ),
    decreases n,
{
    if n > 0 {
        lemma_leading_group_is_foremost(ranks, skip, n - 1);
        let rest = leading_group(ranks, skip, n - 1);
        let here = group_at(ranks, n - 1);
        if skip != Some(here.1) && outranks(here, rest) {
            assert(leading_group(ranks, skip, n) == group_at(ranks, n - 1));
        }
    }
}

/// The foremost run by length and rank, leaving out the rank `skip`; a
/// run of length 0 where every run is left out.
pub(crate) fn foremost_run(runs: &Vec<(usize, Rank)>, skip: Option<Rank>) -> (best: (usize, Rank))
    ensures
        best == (0usize, Rank::Two) || exists|j: int|
            0 <= j < runs@.len() && Some(runs@[j].1) != skip && best == #[trigger] runs@[j],
        forall|j: int|
            0 <= j < runs@.len() && Some(runs@[j].1) != skip ==> !outranks(
                as_group(#[trigger] runs@[j]),
                as_group(best),
            ),
{
    let mut best: (usize, Rank) = (0, Rank::Two);
    let mut i: usize = 0;
    while i < runs.len()
        invariant
            0 <= i <= runs@.len(),
            best == (0usize, Rank::Two) || exists|j: int|
                0 <= j < i && Some(runs@[j].1) != skip && best == #[trigger] runs@[j],
            forall|j: int|
                0 <= j < i && Some(runs@[j].1) != skip ==> !outranks(
                    as_group(#[trigger] runs@[j]),
                    as_group(best),
                ),
        decreases runs@.len() - i,
    {
        let run = runs[i];
        let skipped: bool = match skip {
            Some(rank) => rank == run.1,
            None => false,
        };
        if !skipped && (run.0 > best.0 || (run.0 == best.0 && run.1.ordinal() > best.1.ordinal())) {
            best = run;
        }
        i = i + 1;
    }
    best
}

/// In the encoding of five descending ranks, the foremost run is the
/// leading group of the ranks.
#[verifier::rlimit(50)]
pub(crate) proof fn lemma_foremost_run_leads(
    runs: Seq<(usize, Rank)>,
    ranks: Seq<Rank>,
    skip: Option<Rank>,
    best: (usize, Rank),
)
    requires
        is_run_length_encoding(runs, ranks),
        ranks_descend(ranks),
        ranks.len() == 5,
        best == (0usize, Rank::Two) || exists|j: int|
            0 <= j < runs.len() && Some(runs[j].1) != skip && best == #[trigger] runs[j],
        forall|j: int|
            0 <= j < runs.len() && Some(runs[j].1) != skip ==> !outranks(
                as_group(#[trigger] runs[j]),
                as_group(best),
            ),
    ensures
        as_group(best) == leading_group(ranks, skip, 5),
{
    let lead = leading_group(ranks, skip, 5);
    lemma_leading_group_is_foremost(ranks, skip, 5);
    if exists|j: int| 0 <= j < runs.len() && Some(runs[j].1) != skip && best == #[trigger] runs[j] {
        let b = choose|j: int|
            0 <= j < runs.len() && Some(runs[j].1) != skip && best == #[trigger] runs[j];
        let k0 = run_start(runs, b);
        lemma_run_counts_rank(runs, ranks, b);
        assert(group_at(ranks, k0) == as_group(best));
        assert(!outranks(group_at(ranks, k0), lead));
        assert(runs[b].0 >= 1);
        assert(lead != (0int, Rank::Two));
        let k1 = choose|k: int|
            0 <= k < 5 && Some(ranks[k]) != skip && lead == #[trigger] group_at(ranks, k);
        let j1 = lemma_position_in_run(runs, runs.len() as int, k1);
        lemma_run_counts_rank(runs, ranks, j1);
        assert(in_run(runs, j1, k1));
        assert(ranks[k1] == runs[j1].1);
        assert(lead == as_group(runs[j1]));
        assert(!outranks(as_group(runs[j1]), as_group(best)));
        if lead.1.index() == best.1.index() {
            crate::cards::lemma_index_identifies_rank(lead.1, best.1);
        }
    } else {
        assert(best == (0usize, Rank::Two));
        if lead != (0int, Rank::Two) {
            let k1 = choose|k: int|
                0 <= k < 5 && Some(ranks[k]) != skip && lead == #[trigger] group_at(ranks, k);
            let j1 = lemma_position_in_run(runs, runs.len() as int, k1);
            lemma_run_counts_rank(runs, ranks, j1);
            assert(in_run(runs, j1, k1));
            assert(ranks[k1] == runs[j1].1);
            assert(!outranks(as_group(runs[j1]), as_group(best)));
            assert(runs[j1].0 >= 1);
        }
    }
}

} // verus!
