//! How a row comes to be chosen.

use vstd::prelude::*;

use super::choices::{lemma_every_row_entered, lemma_least_prefill};
use crate::binary64::{Binary64, INFINITE};
use crate::cost::CostModel;
use crate::inputs::{
    ScoredWorkerCandidate, WorkerCacheInput, WorkerLoadInput, WorkerSelectionContext,
    WorkerWithDpRank,
};
use crate::picker::{
    canonical_entries, drawn_by_thread, drawn_leader, entry_costs, first_lowest, leads,
    lemma_drawn_leader, lemma_first_lowest, seeded_leader, worker_key, Choice, DefaultPicker, Entry,
    Leader,
};
use crate::stream::{drawn, lemma_thread_drew, thread_drew, SeededStream};

verus! {

/// How many costs are the same number as `least`.
pub open spec fn tied(costs: Seq<Binary64>, least: Binary64) -> nat
    decreases costs.len(),
{
    if costs.len() == 0 {
        0
    } else {
        tied(costs.drop_last(), least) + if costs.last().equals(least) {
            1nat
        } else {
            0
        }
    }
}

proof fn lemma_none_tied(costs: Seq<Binary64>, least: Binary64)
    requires
        forall|i: int| 0 <= i < costs.len() ==> !(#[trigger] costs[i]).equals(least),
    ensures
        tied(costs, least) == 0,
    decreases costs.len(),
{
    if costs.len() > 0 {
        let front = costs.drop_last();
        assert forall|i: int| 0 <= i < front.len() implies !(#[trigger] front[i]).equals(least) by {
            assert(front[i] == costs[i]);
        }
        lemma_none_tied(front, least);
        assert(costs[costs.len() - 1] == costs.last());
    }
}

proof fn lemma_one_tied(costs: Seq<Binary64>, least: Binary64) -> (place: int)
    requires
        tied(costs, least) > 0,
    ensures
        0 <= place < costs.len(),
        costs[place].equals(least),
    decreases costs.len(),
{
    if costs.last().equals(least) {
        costs.len() - 1
    } else {
        lemma_one_tied(costs.drop_last(), least)
    }
}

proof fn lemma_tied_alike(costs: Seq<Binary64>, a: Binary64, b: Binary64)
    requires
        a.equals(b),
    ensures
        tied(costs, a) == tied(costs, b),
    decreases costs.len(),
{
    if costs.len() > 0 {
        lemma_tied_alike(costs.drop_last(), a, b);
    }
}

/// The leader among costs with their draws: it counts the ties, took the lead first or on a zero,
/// and lost it to none that tied later.
proof fn lemma_reservoir(costs: Seq<Binary64>, draws: Seq<usize>)
    requires
        0 < costs.len() <= usize::MAX,
        draws.len() == costs.len(),
        forall|i: int| 0 <= i < costs.len() ==> (#[trigger] costs[i]).finite(),
    ensures
        ({
            let leader = drawn_leader(costs, draws);
            &&& leads(leader, costs)
            &&& leader.ties == tied(costs, leader.cost)
            &&& leader.row == first_lowest(costs) || draws[leader.row as int] == 0
            &&& forall|i: int|
                leader.row < i < costs.len() && (#[trigger] costs[i]).equals(leader.cost)
                    ==> draws[i] != 0
        }),
    decreases costs.len(),
{
    lemma_drawn_leader(costs, draws);
    let (front, before) = (costs.drop_last(), draws.drop_last());
    let leader = drawn_leader(costs, draws);
    let last = costs.last();
    assert(costs[costs.len() - 1] == last);
    if front.len() > 0 {
        assert forall|i: int| 0 <= i < front.len() implies (#[trigger] front[i]).finite() by {
            assert(front[i] == costs[i]);
        }
        lemma_reservoir(front, before);
        let old_leader = drawn_leader(front, before);
        lemma_first_lowest(front);
        assert(front[first_lowest(front)] == costs[first_lowest(front)]);
        if last.below(old_leader.cost) {
            assert forall|i: int| 0 <= i < front.len() implies !(#[trigger] front[i]).equals(
                last,
            ) by {
                assert(!front[i].below(front[first_lowest(front)]));
            }
            lemma_none_tied(front, last);
        } else {
            assert forall|i: int|
                leader.row < i < costs.len() && (#[trigger] costs[i]).equals(
                    leader.cost,
                ) implies draws[i] != 0 by {
                if i < front.len() {
                    assert(front[i] == costs[i]);
                    assert(before[i] == draws[i]);
                }
            }
            assert(before[old_leader.row as int] == draws[old_leader.row as int]);
        }
    } else {
        assert(drawn_leader(front, before) == Leader::none());
        assert(tied(front, last) == 0);
    }
}

/// Without a seed, at temperature zero, ties are broken by the thread's generator: for each row
/// after the first that ties for the lowest cost, it was asked for a number below the number of rows
/// that tie by then, and the row that is chosen is the last one for which it returned zero, or the
/// first of all where it never did.
pub proof fn law_ties_are_drawn(
    picker: DefaultPicker,
    pinned: bool,
    candidates: Seq<ScoredWorkerCandidate>,
    costs: Seq<Binary64>,
    choice: Choice,
    after: DefaultPicker,
) -> (draws: Seq<usize>)
    requires
        picker.config.router_temperature.magnitude() == 0,
        picker.rng is None,
        0 < costs.len() <= usize::MAX,
        forall|i: int| 0 <= i < costs.len() ==> (#[trigger] costs[i]).finite(),
        picker.chooses(pinned, candidates, costs, choice, after),
    ensures
        after == picker,
        choice is Row,
        ({
            let row = choice->Row_0 as int;
            let least = costs[row];
            &&& 0 <= row < costs.len()
            &&& forall|i: int| 0 <= i < costs.len() ==> least.rank() <= (#[trigger] costs[i]).rank()
            &&& draws.len() == costs.len()
            &&& forall|i: int|
                0 <= i < costs.len() && (#[trigger] costs[i]).rank() == least.rank() && tied(
                    costs.take(i),
                    least,
                ) > 0 ==> thread_drew((tied(costs.take(i), least) + 1) as usize, draws[i])
                    && draws[i] <= tied(costs.take(i), least)
            &&& tied(costs.take(row), least) == 0 || draws[row] == 0
            &&& forall|i: int|
                row < i < costs.len() && (#[trigger] costs[i]).rank() == least.rank() ==> draws[i]
                    != 0
            &&& exists|first: int|
                {
                    &&& 0 <= first < costs.len()
                    &&& choice->Row_1 == #[trigger] costs[first]
                    &&& costs[first].rank() == least.rank()
                    &&& tied(costs.take(first), least) == 0
                }
        }),
{
    let draws = choose|draws: Seq<usize>| #[trigger]
        drawn_by_thread(costs, draws) && choice->Row_0 == drawn_leader(costs, draws).row;
    let row = choice->Row_0 as int;
    let least = costs[row];
    lemma_reservoir(costs, draws);
    let leader = drawn_leader(costs, draws);
    assert forall|i: int| 0 <= i < costs.len() implies least.rank() <= (#[trigger] costs[i]).rank() by {
        assert(!costs[i].below(costs[row]));
    }
    assert forall|i: int|
        0 <= i < costs.len() && (#[trigger] costs[i]).rank() == least.rank() && tied(
            costs.take(i),
            least,
        ) > 0 implies thread_drew((tied(costs.take(i), least) + 1) as usize, draws[i]) && draws[i]
        <= tied(costs.take(i), least) by {
        let (shown, given) = (costs.take(i), draws.take(i));
        assert forall|j: int| 0 <= j < shown.len() implies (#[trigger] shown[j]).finite() by {
            assert(shown[j] == costs[j]);
        }
        let place = lemma_one_tied(shown, least);
        lemma_reservoir(shown, given);
        let by_then = drawn_leader(shown, given);
        assert(shown[by_then.row as int] == costs[by_then.row as int]);
        assert(!shown[place].below(shown[by_then.row as int]));
        assert(by_then.cost.equals(least));
        lemma_tied_alike(shown, by_then.cost, least);
        lemma_thread_drew((by_then.ties + 1) as usize, draws[i]);
    }
    lemma_first_lowest(costs);
    let first = first_lowest(costs);
    lemma_nothing_before_first(costs);
    assert(costs[first].equals(least)) by {
        assert(!costs[first].below(costs[row]));
        assert(!costs[row].below(costs[first]));
    }
    let shown = costs.take(first);
    assert forall|i: int| 0 <= i < shown.len() implies !(#[trigger] shown[i]).equals(least) by {
        assert(shown[i] == costs[i]);
    }
    lemma_none_tied(shown, least);
    draws
}

/// Every cost before the first lowest one is above it.
proof fn lemma_nothing_before_first(costs: Seq<Binary64>)
    requires
        costs.len() > 0,
        forall|i: int| 0 <= i < costs.len() ==> (#[trigger] costs[i]).finite(),
    ensures
        forall|i: int|
            0 <= i < first_lowest(costs) ==> costs[first_lowest(costs)].below(#[trigger] costs[i]),
    decreases costs.len(),
{
    if costs.len() > 1 {
        let front = costs.drop_last();
        assert forall|i: int| 0 <= i < front.len() implies (#[trigger] front[i]).finite() by {
            assert(front[i] == costs[i]);
        }
        lemma_nothing_before_first(front);
        lemma_first_lowest(front);
        let first = first_lowest(front);
        assert forall|i: int| 0 <= i < first_lowest(costs) implies costs[first_lowest(costs)].below(
            #[trigger] costs[i],
        ) by {
            assert(front[i] == costs[i]);
            assert(front[first] == costs[first]);
            assert(!front[i].below(front[first]));
        }
    }
}

/// One more row: it takes the lead where it is below, and where it is equal and zero was drawn;
/// where it is equal, it is one more that ties.
pub proof fn law_one_more_row(leader: Leader, row: usize, cost: Binary64, draw: usize)
    requires
        leader.ties < usize::MAX,
        !cost.is_nan(),
        !leader.cost.is_nan(),
    ensures
        ({
            let after = leader.after(row, cost, draw);
            &&& cost.rank() < leader.cost.rank() ==> after.row == row && after.cost == cost
                && after.ties == 1
            &&& cost.rank() == leader.cost.rank() ==> after.cost == leader.cost && after.ties
                == leader.ties + 1 && after.row == if draw == 0 {
                row
            } else {
                leader.row
            }
            &&& cost.rank() > leader.cost.rank() ==> after == leader
        }),
        Leader::none().ties == 0,
        Leader::none().cost.bits == INFINITE,
{
}

/// One more cost for a seeded choice: the stream is asked exactly where the cost ties, for a number
/// below the number of rows that then tie, and goes on from the state that this leaves.
pub proof fn law_one_more_seeded_row(costs: Seq<Binary64>, cost: Binary64, state: u64)
    requires
        costs.len() < usize::MAX,
    ensures
        seeded_leader(Seq::<Binary64>::empty(), state) == (Leader::none(), state),
        ({
            let (leader, left) = seeded_leader(costs, state);
            let (draw, drawn_from) = drawn(left, (leader.ties + 1) as usize, usize::BITS);
            let row = costs.len() as usize;
            seeded_leader(costs.push(cost), state) == if !cost.is_nan() && !leader.cost.is_nan()
                && cost.rank() == leader.cost.rank() {
                (leader.after(row, cost, draw), drawn_from)
            } else {
                (leader.after(row, cost, 0), left)
            }
        }),
{
    assert(costs.push(cost).drop_last() =~= costs);
}

/// Worker `a` comes before worker `b`: by id, and then by rank.
pub open spec fn comes_before(a: WorkerWithDpRank, b: WorkerWithDpRank) -> bool {
    a.worker_id < b.worker_id || (a.worker_id == b.worker_id && a.dp_rank < b.dp_rank)
}

/// Each row once, with its cost.
pub open spec fn each_row_once(entries: Seq<Entry>, costs: Seq<Binary64>) -> bool {
    &&& entries.len() == costs.len()
    &&& forall|i: int|
        0 <= i < entries.len() ==> (#[trigger] entries[i]).0 < costs.len() && entries[i].1
            == costs[entries[i].0 as int]
    &&& forall|i: int, j: int|
        0 <= i < j < entries.len() ==> (#[trigger] entries[i]).0 != (#[trigger] entries[j]).0
    &&& forall|row: int| 0 <= row < costs.len() ==> #[trigger] has_row(entries, row)
}

/// Some entry is that of a row.
pub open spec fn has_row(entries: Seq<Entry>, row: int) -> bool {
    exists|i: int| 0 <= i < entries.len() && (#[trigger] entries[i]).0 == row
}

/// No entry after another has a worker that comes before its worker.
pub open spec fn by_worker(
    entries: Seq<Entry>,
    candidates: Seq<ScoredWorkerCandidate>,
) -> bool {
    forall|i: int, j: int|
        0 <= i < j < entries.len() ==> !comes_before(
            candidates[(#[trigger] entries[j]).0 as int].worker,
            candidates[(#[trigger] entries[i]).0 as int].worker,
        )
}

proof fn lemma_canonical(
    entries: Seq<Entry>,
    candidates: Seq<ScoredWorkerCandidate>,
    costs: Seq<Binary64>,
)
    requires
        candidates.len() == costs.len(),
        costs.len() <= usize::MAX,
        canonical_entries(entries, candidates, costs, costs.len()),
    ensures
        each_row_once(entries, costs),
        by_worker(entries, candidates),
{
    assert forall|row: int| 0 <= row < costs.len() implies #[trigger] has_row(entries, row) by {
        let i = lemma_every_row_entered(entries, candidates, costs, row);
        assert(entries[i].0 == row);
    }
    assert forall|i: int, j: int| 0 <= i < j < entries.len() implies !comes_before(
        candidates[(#[trigger] entries[j]).0 as int].worker,
        candidates[(#[trigger] entries[i]).0 as int].worker,
    ) by {
        let (a, b) = (
            candidates[entries[i].0 as int].worker,
            candidates[entries[j].0 as int].worker,
        );
        assert(worker_key(a) <= worker_key(b));
        law_workers_are_ordered(b, a);
    }
}

/// Workers are in order by id, and then by rank.
pub proof fn law_workers_are_ordered(a: WorkerWithDpRank, b: WorkerWithDpRank)
    ensures
        worker_key(a) < worker_key(b) <==> comes_before(a, b),
{
}

/// What is chosen in each case. A pinned worker is the first row, unless the lowest cost is wanted
/// without a seed. At a temperature other than zero, every row is handed out once with its cost, in
/// row order without a seed and by worker with one. With a seed, at temperature zero, rows are
/// offered by worker.
pub proof fn law_what_is_chosen(
    picker: DefaultPicker,
    pinned: bool,
    candidates: Seq<ScoredWorkerCandidate>,
    costs: Seq<Binary64>,
    choice: Choice,
    after: DefaultPicker,
)
    requires
        candidates.len() == costs.len(),
        0 < costs.len() <= usize::MAX,
        picker.chooses(pinned, candidates, costs, choice, after),
        picker.rng is Some || picker.config.router_temperature.magnitude() != 0,
    ensures
        ({
            let zero = picker.config.router_temperature.magnitude() == 0;
            &&& pinned ==> choice == Choice::Row(0, costs[0]) && after == picker
            &&& !pinned && !zero ==> {
                &&& after == picker
                &&& choice is Sample
                &&& each_row_once(choice->Sample_0@, costs)
                &&& picker.rng is None ==> forall|i: int|
                    0 <= i < costs.len() ==> (#[trigger] choice->Sample_0@[i]).0 == i
                &&& picker.rng is Some ==> by_worker(choice->Sample_0@, candidates)
            }
            &&& !pinned && zero ==> exists|entries: Seq<Entry>|
                {
                    let (leader, state) = seeded_leader(
                        entry_costs(entries),
                        picker.rng->0.state,
                    );
                    &&& #[trigger] each_row_once(entries, costs)
                    &&& by_worker(entries, candidates)
                    &&& choice == Choice::Row(
                        entries[leader.row as int].0,
                        entries[leader.row as int].1,
                    )
                    &&& after == (DefaultPicker { rng: Some(SeededStream { state }), ..picker })
                }
        }),
{
    let zero = picker.config.router_temperature.magnitude() == 0;
    if !pinned {
        if picker.rng is None {
            let entries = choice->Sample_0@;
            assert forall|row: int| 0 <= row < costs.len() implies #[trigger] has_row(
                entries,
                row,
            ) by {
                assert(entries[row].0 == row);
            }
        } else if !zero {
            lemma_canonical(choice->Sample_0@, candidates, costs);
        } else {
            let entries = choose|entries: Seq<Entry>|
                {
                    let (leader, state) = seeded_leader(
                        entry_costs(entries),
                        picker.rng->0.state,
                    );
                    &&& #[trigger] canonical_entries(entries, candidates, costs, costs.len())
                    &&& 0 <= leader.row < entries.len()
                    &&& choice == Choice::Row(
                        entries[leader.row as int].0,
                        entries[leader.row as int].1,
                    )
                    &&& after == (DefaultPicker { rng: Some(SeededStream { state }), ..picker })
                };
            lemma_canonical(entries, candidates, costs);
            assert(each_row_once(entries, costs));
        }
    }
}

/// The costs of entries are theirs, in their order.
pub proof fn law_entries_keep_their_costs(entries: Seq<Entry>)
    ensures
        entry_costs(entries).len() == entries.len(),
        forall|i: int|
            0 <= i < entries.len() ==> entry_costs(entries)[i] == (#[trigger] entries[i]).1,
{
}

/// Every row is costed by its own cache, load and preference. Where credit decays, that is against
/// the least prefill load of all rows.
pub proof fn law_rows_are_costed(
    picker: DefaultPicker,
    context: WorkerSelectionContext,
    candidates: Seq<ScoredWorkerCandidate>,
    cache: Seq<WorkerCacheInput>,
    load: Seq<WorkerLoadInput>,
) -> (floor: usize)
    requires
        load.len() > 0,
    ensures
        ({
            let rate = picker.config.overlap_score_credit_decay;
            context.tracks_prefill_tokens && !rate.is_nan() && rate.rank() > 0
        }) ==> {
            &&& forall|i: int|
                0 <= i < load.len() ==> floor <= (#[trigger] load[i]).active_prefill_tokens
            &&& exists|i: int|
                0 <= i < load.len() && floor == (#[trigger] load[i]).active_prefill_tokens
        },
        picker.costs(context, candidates, cache, load).len() == candidates.len(),
        forall|i: int|
            0 <= i < candidates.len() ==> #[trigger] picker.costs(context, candidates, cache, load)[i]
                == (CostModel {
                config: picker.config,
                is_decode: picker.worker_label@ == "decode"@,
                plain_decode: picker.plain_decode,
            }).cost_of(
                context,
                floor,
                cache[i],
                load[i],
                candidates[i].preferred_taint_multiplier,
            ),
{
    lemma_least_prefill(load);
    picker.model().prefill_floor(context, load)
}

} // verus!
