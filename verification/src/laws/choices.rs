//! What holds of the choice among workers.

use vstd::prelude::*;

use super::costs::{credits_not_below_zero, law_plain_decode_is_load_only, load_cost};
use crate::binary64::laws::same_number;
use crate::binary64::Binary64;
use crate::config::KvRouterConfig;
use crate::cost::{hits_countable, least_prefill};
use crate::inputs::{
    ScoredWorkerCandidate, WorkerCacheInput, WorkerLoadInput, WorkerSelectionContext,
    WorkerWithDpRank,
};
use crate::parameters::{overridden, Parameters};
use crate::picker::{
    canonical_entries, drawn_leader, draws_fit, entry_costs, first_lowest, lemma_drawn_leader,
    lemma_first_lowest, lemma_seeded_leader, lowest, seeded_leader, worker_key, Choice,
    DefaultPicker, Entry,
};
use crate::policy::DefaultWorkerSelector;
use crate::stream::SeededStream;

verus! {

/// Every row has an entry.
pub proof fn lemma_every_row_entered(
    entries: Seq<Entry>,
    candidates: Seq<ScoredWorkerCandidate>,
    costs: Seq<Binary64>,
    row: int,
) -> (place: int)
    requires
        canonical_entries(entries, candidates, costs, costs.len()),
        0 <= row < costs.len(),
    ensures
        0 <= place < entries.len(),
        entries[place].0 == row,
{
    let n = costs.len() as int;
    let rows = entries.map_values(|entry: Entry| entry.0 as int);
    assert(rows.no_duplicates()) by {
        assert forall|i: int, j: int|
            0 <= i < rows.len() && 0 <= j < rows.len() && i != j implies rows[i] != rows[j] by {
            if i < j {
                assert(entries[i].0 != entries[j].0);
            } else {
                assert(entries[j].0 != entries[i].0);
            }
        }
    }
    rows.unique_seq_to_set();
    vstd::set_lib::lemma_int_range(0, n);
    let all = vstd::set_lib::set_int_range(0, n);
    assert(rows.to_set().subset_of(all)) by {
        assert forall|x: int| rows.to_set().contains(x) implies all.contains(x) by {
            let i = choose|i: int| 0 <= i < rows.len() && rows[i] == x;
            assert(entries[i].0 < n);
        }
    }
    vstd::set_lib::lemma_subset_equality(rows.to_set(), all);
    assert(all.contains(row));
    assert(rows.contains(row));
    choose|i: int| 0 <= i < rows.len() && rows[i] == row
}

/// At temperature zero the worker that is picked has the lowest cost, however ties fall.
pub proof fn law_lowest_cost_is_picked(
    picker: DefaultPicker,
    pinned: bool,
    candidates: Seq<ScoredWorkerCandidate>,
    costs: Seq<Binary64>,
    choice: Choice,
    after: DefaultPicker,
)
    requires
        picker.picks_lowest(),
        picker.rng is None || !pinned,
        candidates.len() == costs.len(),
        0 < costs.len() <= usize::MAX,
        forall|i: int| 0 <= i < costs.len() ==> (#[trigger] costs[i]).finite(),
        picker.chooses(pinned, candidates, costs, choice, after),
    ensures
        choice matches Choice::Row(row, cost) && lowest(costs, row as int) && cost.equals(
            costs[row as int],
        ),
{
    if let Some(stream) = picker.rng {
        let entries = choose|entries: Seq<Entry>|
            {
                let (leader, state) = seeded_leader(entry_costs(entries), stream.state);
                &&& #[trigger] canonical_entries(entries, candidates, costs, costs.len())
                &&& 0 <= leader.row < entries.len()
                &&& choice == Choice::Row(
                    entries[leader.row as int].0,
                    entries[leader.row as int].1,
                )
                &&& after == (DefaultPicker {
                    rng: Some(SeededStream { state }),
                    ..picker
                })
            };
        let leader = seeded_leader(entry_costs(entries), stream.state).0;
        let sorted = entry_costs(entries);
        assert forall|i: int| 0 <= i < sorted.len() implies (#[trigger] sorted[i]).finite() by {
            assert(entries[i].1 == costs[entries[i].0 as int]);
        }
        lemma_seeded_leader(sorted, stream.state);
        let row = entries[leader.row as int].0 as int;
        assert(costs[row] == sorted[leader.row as int]);
        assert forall|i: int| 0 <= i < costs.len() implies !(#[trigger] costs[i]).below(
            costs[row],
        ) by {
            let place = lemma_every_row_entered(entries, candidates, costs, i);
            assert(!sorted[place].below(sorted[leader.row as int]));
        }
    } else {
        lemma_first_lowest(costs);
        let row = choice->Row_0 as int;
        assert(!costs[row].below(costs[first_lowest(costs)]));
        assert(!costs[first_lowest(costs)].below(costs[row]));
    }
}

/// Whatever is drawn for rows that tie, a row of lowest cost comes out.
pub proof fn law_draws_pick_the_lowest(costs: Seq<Binary64>, draws: Seq<usize>)
    requires
        0 < costs.len() <= usize::MAX,
        forall|i: int| 0 <= i < costs.len() ==> (#[trigger] costs[i]).finite(),
    ensures
        lowest(costs, drawn_leader(costs, draws).row as int),
{
    lemma_drawn_leader(costs, draws);
}

/// Draws that single out one row among those that tie.
pub open spec fn draws_for(n: nat, row: int) -> Seq<usize> {
    Seq::new(
        n,
        |i: int|
            if i == row {
                0usize
            } else {
                1
            },
    )
}

/// Any row that ties for the lowest cost can come out: some draws below their bounds single it out.
pub proof fn law_any_tied_row_can_be_drawn(costs: Seq<Binary64>, row: int)
    requires
        costs.len() <= usize::MAX,
        forall|i: int| 0 <= i < costs.len() ==> (#[trigger] costs[i]).finite(),
        lowest(costs, row),
    ensures
        draws_fit(costs, draws_for(costs.len(), row)),
        drawn_leader(costs, draws_for(costs.len(), row)).row == row,
{
    lemma_draws_for(costs, row, costs.len());
    assert(costs.take(costs.len() as int) =~= costs);
}

proof fn lemma_draws_for(costs: Seq<Binary64>, row: int, n: nat)
    requires
        costs.len() <= usize::MAX,
        forall|i: int| 0 <= i < costs.len() ==> (#[trigger] costs[i]).finite(),
        lowest(costs, row),
        n <= costs.len(),
    ensures
        draws_fit(costs.take(n as int), draws_for(n, row)),
        n > 0 ==> drawn_leader(costs.take(n as int), draws_for(n, row)).ties >= 1,
        n > row ==> {
            let leader = drawn_leader(costs.take(n as int), draws_for(n, row));
            leader.row == row && leader.cost.equals(costs[row])
        },
    decreases n,
{
    if n > 0 {
        let m = (n - 1) as nat;
        lemma_draws_for(costs, row, m);
        let (shown, draws) = (costs.take(n as int), draws_for(n, row));
        assert(shown.drop_last() =~= costs.take(m as int));
        assert(draws.drop_last() =~= draws_for(m, row));
        assert(shown.last() == costs[m as int]);
        assert(!costs[m as int].below(costs[row]));
        let front = costs.take(m as int);
        assert forall|i: int| 0 <= i < front.len() implies (#[trigger] front[i]).finite() by {
            assert(front[i] == costs[i]);
        }
        lemma_drawn_leader(front, draws_for(m, row));
        if m == row && m > 0 {
            let before = drawn_leader(front, draws_for(m, row));
            assert(front[before.row as int] == costs[before.row as int]);
            assert(!costs[before.row as int].below(costs[row]));
        }
    }
}

/// Increasing sequences with the same elements are the same.
proof fn lemma_increasing_same(a: Seq<int>, b: Seq<int>)
    requires
        forall|i: int, j: int| 0 <= i < j < a.len() ==> a[i] < a[j],
        forall|i: int, j: int| 0 <= i < j < b.len() ==> b[i] < b[j],
        forall|x: int| a.contains(x) <==> b.contains(x),
    ensures
        a == b,
    decreases a.len(),
{
    if a.len() == 0 {
        if b.len() > 0 {
            assert(b.contains(b[0]));
            assert(a.contains(b[0]));
        }
        assert(a =~= b);
    } else {
        assert(a.contains(a.last()));
        assert(b.contains(a.last()));
        let j = choose|j: int| 0 <= j < b.len() && b[j] == a.last();
        assert(b.contains(b.last()));
        assert(a.contains(b.last()));
        let i = choose|i: int| 0 <= i < a.len() && a[i] == b.last();
        assert(a.last() == b.last()) by {
            if i < a.len() - 1 {
                assert(a[i] < a[a.len() - 1]);
            }
            if j < b.len() - 1 {
                assert(b[j] < b[b.len() - 1]);
            }
        }
        let (p, q) = (a.drop_last(), b.drop_last());
        assert forall|x: int| p.contains(x) <==> q.contains(x) by {
            if p.contains(x) {
                let k = choose|k: int| 0 <= k < p.len() && p[k] == x;
                assert(a[k] == x && a[k] < a[a.len() - 1]);
                assert(b.contains(x));
                let m = choose|m: int| 0 <= m < b.len() && b[m] == x;
                assert(q[m] == x);
            }
            if q.contains(x) {
                let k = choose|k: int| 0 <= k < q.len() && q[k] == x;
                assert(b[k] == x && b[k] < b[b.len() - 1]);
                assert(a.contains(x));
                let m = choose|m: int| 0 <= m < a.len() && a[m] == x;
                assert(p[m] == x);
            }
        }
        lemma_increasing_same(p, q);
        assert(a =~= p.push(a.last()));
        assert(b =~= q.push(b.last()));
    }
}

/// The least prefill load is that of some worker and above that of none.
pub proof fn lemma_least_prefill(loads: Seq<WorkerLoadInput>)
    ensures
        forall|i: int|
            0 <= i < loads.len() ==> least_prefill(loads) <= (
            #[trigger] loads[i]).active_prefill_tokens,
        loads.len() > 0 ==> exists|i: int|
            0 <= i < loads.len() && least_prefill(loads) == (
            #[trigger] loads[i]).active_prefill_tokens,
    decreases loads.len(),
{
    if loads.len() > 0 {
        let front = loads.drop_last();
        lemma_least_prefill(front);
        assert forall|i: int| 0 <= i < loads.len() implies least_prefill(loads) <= (
        #[trigger] loads[i]).active_prefill_tokens by {
            if i < front.len() {
                assert(front[i] == loads[i]);
            }
        }
        if least_prefill(loads) == loads.last().active_prefill_tokens {
            assert(loads[loads.len() - 1] == loads.last());
        } else {
            let i = choose|i: int|
                0 <= i < front.len() && least_prefill(front) == (
                #[trigger] front[i]).active_prefill_tokens;
            assert(loads[i] == front[i]);
        }
    }
}

/// The rows of a selection.
pub struct Rows {
    pub candidates: Seq<ScoredWorkerCandidate>,
    pub cache: Seq<WorkerCacheInput>,
    pub load: Seq<WorkerLoadInput>,
}

impl Rows {
    /// One entry in each column for each candidate, and no worker twice.
    pub open spec fn wf(self) -> bool {
        &&& self.candidates.len() == self.cache.len()
        &&& self.candidates.len() == self.load.len()
        &&& self.candidates.len() <= usize::MAX
        &&& forall|i: int, j: int|
            0 <= i < j < self.candidates.len() ==> (#[trigger] self.candidates[i]).worker != (
            #[trigger] self.candidates[j]).worker
    }

    /// The same rows, where row `order[i]` of `self` is row `i` of `other`.
    pub open spec fn reordered(self, other: Rows, order: Seq<int>) -> bool {
        &&& order.len() == self.candidates.len()
        &&& other.candidates.len() == self.candidates.len()
        &&& forall|i: int| 0 <= i < order.len() ==> 0 <= #[trigger] order[i] < order.len()
        &&& forall|i: int|
            0 <= i < order.len() ==> #[trigger] order.contains(i)
        &&& forall|i: int|
            0 <= i < order.len() ==> other.candidates[i] == self.candidates[#[trigger] order[i]]
                && other.cache[i] == self.cache[order[i]] && other.load[i] == self.load[order[i]]
    }

    /// What a picker makes these rows cost.
    pub open spec fn costs(
        self,
        picker: DefaultPicker,
        context: WorkerSelectionContext,
    ) -> Seq<Binary64> {
        picker.costs(context, self.candidates, self.cache, self.load)
    }
}

proof fn lemma_reordered_costs(
    picker: DefaultPicker,
    context: WorkerSelectionContext,
    rows: Rows,
    other: Rows,
    order: Seq<int>,
)
    requires
        rows.wf(),
        other.wf(),
        rows.reordered(other, order),
    ensures
        forall|i: int|
            0 <= i < order.len() ==> other.costs(picker, context)[i] == rows.costs(
                picker,
                context,
            )[#[trigger] order[i]],
{
    lemma_least_prefill(rows.load);
    lemma_least_prefill(other.load);
    assert(least_prefill(rows.load) == least_prefill(other.load)) by {
        if order.len() > 0 {
            let i = choose|i: int|
                0 <= i < rows.load.len() && least_prefill(rows.load) == (
                #[trigger] rows.load[i]).active_prefill_tokens;
            assert(order.contains(i));
            let j = choose|j: int| 0 <= j < order.len() && order[j] == i;
            assert(other.load[j] == rows.load[i]);
            let k = choose|k: int|
                0 <= k < other.load.len() && least_prefill(other.load) == (
                #[trigger] other.load[k]).active_prefill_tokens;
            assert(other.load[k] == rows.load[order[k]]);
        } else {
            assert(rows.load =~= other.load);
        }
    }
}

/// Two choices fall on the same worker at the same cost, or hand out the same workers at the
/// same costs in the same order.
pub open spec fn same_outcome(
    candidates: Seq<ScoredWorkerCandidate>,
    choice: Choice,
    others: Seq<ScoredWorkerCandidate>,
    other: Choice,
) -> bool {
    match (choice, other) {
        (Choice::Row(row, cost), Choice::Row(other_row, other_cost)) => {
            &&& candidates[row as int].worker == others[other_row as int].worker
            &&& cost == other_cost
        },
        (Choice::Sample(entries), Choice::Sample(other_entries)) => {
            &&& entries@.len() == other_entries@.len()
            &&& forall|i: int|
                0 <= i < entries@.len() ==> candidates[(#[trigger] entries@[i]).0 as int].worker
                    == others[other_entries@[i].0 as int].worker && entries@[i].1
                    == other_entries@[i].1
        },
        _ => false,
    }
}

proof fn lemma_worker_keys(a: WorkerWithDpRank, b: WorkerWithDpRank)
    ensures
        worker_key(a) == worker_key(b) <==> a == b,
{
}

proof fn lemma_canonical_same(
    rows: Rows,
    costs: Seq<Binary64>,
    entries: Seq<Entry>,
    other: Rows,
    other_costs: Seq<Binary64>,
    other_entries: Seq<Entry>,
    order: Seq<int>,
)
    requires
        rows.wf(),
        other.wf(),
        rows.reordered(other, order),
        costs.len() == order.len(),
        other_costs.len() == order.len(),
        forall|i: int| 0 <= i < order.len() ==> other_costs[i] == costs[#[trigger] order[i]],
        canonical_entries(entries, rows.candidates, costs, costs.len()),
        canonical_entries(other_entries, other.candidates, other_costs, other_costs.len()),
    ensures
        forall|i: int|
            0 <= i < order.len() ==> rows.candidates[(#[trigger] entries[i]).0 as int].worker
                == other.candidates[other_entries[i].0 as int].worker && entries[i].1
                == other_entries[i].1,
{
    let keys = entries.map_values(
        |entry: Entry| worker_key(rows.candidates[entry.0 as int].worker),
    );
    let other_keys = other_entries.map_values(
        |entry: Entry| worker_key(other.candidates[entry.0 as int].worker),
    );
    assert forall|i: int, j: int| 0 <= i < j < keys.len() implies keys[i] < keys[j] by {
        let (a, b) = (entries[i].0 as int, entries[j].0 as int);
        assert(a != b);
        lemma_worker_keys(rows.candidates[a].worker, rows.candidates[b].worker);
        if a < b {
            assert(rows.candidates[a].worker != rows.candidates[b].worker);
        } else {
            assert(rows.candidates[b].worker != rows.candidates[a].worker);
        }
    }
    assert forall|i: int, j: int| 0 <= i < j < other_keys.len() implies other_keys[i]
        < other_keys[j] by {
        let (a, b) = (other_entries[i].0 as int, other_entries[j].0 as int);
        assert(a != b);
        lemma_worker_keys(other.candidates[a].worker, other.candidates[b].worker);
        if a < b {
            assert(other.candidates[a].worker != other.candidates[b].worker);
        } else {
            assert(other.candidates[b].worker != other.candidates[a].worker);
        }
    }
    assert forall|x: int| keys.contains(x) <==> other_keys.contains(x) by {
        if keys.contains(x) {
            let i = choose|i: int| 0 <= i < keys.len() && keys[i] == x;
            let row = entries[i].0 as int;
            assert(order.contains(row));
            let j = choose|j: int| 0 <= j < order.len() && order[j] == row;
            assert(other.candidates[j] == rows.candidates[row]);
            let place = lemma_every_row_entered(other_entries, other.candidates, other_costs, j);
            assert(other_keys[place] == x);
        }
        if other_keys.contains(x) {
            let i = choose|i: int| 0 <= i < other_keys.len() && other_keys[i] == x;
            let j = other_entries[i].0 as int;
            assert(other.candidates[j] == rows.candidates[order[j]]);
            let place = lemma_every_row_entered(entries, rows.candidates, costs, order[j]);
            assert(keys[place] == x);
        }
    }
    lemma_increasing_same(keys, other_keys);
    assert forall|i: int| 0 <= i < order.len() implies rows.candidates[(
    #[trigger] entries[i]).0 as int].worker == other.candidates[other_entries[i].0 as int].worker
        && entries[i].1 == other_entries[i].1 by {
        let (a, b) = (entries[i].0 as int, other_entries[i].0 as int);
        assert(keys[i] == other_keys[i]);
        lemma_worker_keys(rows.candidates[a].worker, other.candidates[b].worker);
        assert(other.candidates[b] == rows.candidates[order[b]]);
        let c = order[b];
        if a < c {
            assert(rows.candidates[a].worker != rows.candidates[c].worker);
        } else if c < a {
            assert(rows.candidates[c].worker != rows.candidates[a].worker);
        }
    }
}

/// A seeded choice can be replayed: with the same stream it falls on the same worker at the
/// same cost and leaves the stream in the same state, in whatever order the rows come.
pub proof fn law_replay_ignores_row_order(
    picker: DefaultPicker,
    context: WorkerSelectionContext,
    rows: Rows,
    choice: Choice,
    after: DefaultPicker,
    other: Rows,
    other_choice: Choice,
    other_after: DefaultPicker,
    order: Seq<int>,
)
    requires
        picker.rng is Some,
        rows.wf(),
        other.wf(),
        rows.reordered(other, order),
        picker.chooses(false, rows.candidates, rows.costs(picker, context), choice, after),
        picker.chooses(
            false,
            other.candidates,
            other.costs(picker, context),
            other_choice,
            other_after,
        ),
    ensures
        same_outcome(rows.candidates, choice, other.candidates, other_choice),
        after == other_after,
{
    let costs = rows.costs(picker, context);
    let other_costs = other.costs(picker, context);
    let stream = picker.rng->0;
    lemma_reordered_costs(picker, context, rows, other, order);
    if picker.picks_lowest() {
        let entries = choose|entries: Seq<Entry>|
            {
                let (leader, state) = seeded_leader(entry_costs(entries), stream.state);
                &&& #[trigger] canonical_entries(entries, rows.candidates, costs, costs.len())
                &&& 0 <= leader.row < entries.len()
                &&& choice == Choice::Row(
                    entries[leader.row as int].0,
                    entries[leader.row as int].1,
                )
                &&& after == (DefaultPicker {
                    rng: Some(SeededStream { state }),
                    ..picker
                })
            };
        let other_entries = choose|entries: Seq<Entry>|
            {
                let (leader, state) = seeded_leader(entry_costs(entries), stream.state);
                &&& #[trigger] canonical_entries(
                    entries,
                    other.candidates,
                    other_costs,
                    other_costs.len(),
                )
                &&& 0 <= leader.row < entries.len()
                &&& other_choice == Choice::Row(
                    entries[leader.row as int].0,
                    entries[leader.row as int].1,
                )
                &&& other_after == (DefaultPicker {
                    rng: Some(SeededStream { state }),
                    ..picker
                })
            };
        lemma_canonical_same(
            rows,
            costs,
            entries,
            other,
            other_costs,
            other_entries,
            order,
        );
        assert(entry_costs(entries) =~= entry_costs(other_entries));
        let leader = seeded_leader(entry_costs(entries), stream.state).0;
        assert(entries[leader.row as int].1 == other_entries[leader.row as int].1);
    } else {
        lemma_canonical_same(
            rows,
            costs,
            choice->Sample_0@,
            other,
            other_costs,
            other_choice->Sample_0@,
            order,
        );
    }
}

/// A row that is chosen comes with its cost, and so does every entry to sample from.
proof fn lemma_chosen_costs(
    picker: DefaultPicker,
    pinned: bool,
    candidates: Seq<ScoredWorkerCandidate>,
    costs: Seq<Binary64>,
    choice: Choice,
    after: DefaultPicker,
)
    requires
        candidates.len() == costs.len(),
        0 < costs.len() <= usize::MAX,
        forall|i: int| 0 <= i < costs.len() ==> (#[trigger] costs[i]).finite(),
        picker.chooses(pinned, candidates, costs, choice, after),
    ensures
        match choice {
            Choice::Row(row, cost) => row < costs.len() && cost.equals(costs[row as int]),
            Choice::Sample(entries) => forall|i: int|
                0 <= i < entries@.len() ==> (#[trigger] entries@[i]).0 < costs.len()
                    && entries@[i].1 == costs[entries@[i].0 as int],
        },
{
    if picker.picks_lowest() && picker.rng is None {
        law_lowest_cost_is_picked(picker, pinned, candidates, costs, choice, after);
    }
}

/// Two cache columns and two requests that a plain decode picker cannot tell apart: requests that
/// do not count toward prefill load, with credits that can be counted and are not below zero.
pub open spec fn load_only(
    picker: DefaultPicker,
    context: WorkerSelectionContext,
    cache: Seq<WorkerCacheInput>,
) -> bool {
    &&& !context.tracks_prefill_tokens
    &&& forall|i: int|
        0 <= i < cache.len() ==> hits_countable(context, #[trigger] cache[i])
            && credits_not_below_zero(picker.model(), context, cache[i])
}

/// A selection in plain disaggregated decode is load-only: whatever is cached on the workers and in
/// the shared cache, the costs are the same to the last bit, so the same may be chosen, and what is
/// chosen costs its decode load and its active requests, times its preference.
pub proof fn law_plain_decode_chooses_by_load(
    picker: DefaultPicker,
    candidates: Seq<ScoredWorkerCandidate>,
    load: Seq<WorkerLoadInput>,
    context: WorkerSelectionContext,
    cache: Seq<WorkerCacheInput>,
    other_context: WorkerSelectionContext,
    other_cache: Seq<WorkerCacheInput>,
    pinned: bool,
    choice: Choice,
    after: DefaultPicker,
)
    requires
        picker.plain_decode,
        cache.len() == candidates.len(),
        other_cache.len() == candidates.len(),
        load.len() == candidates.len(),
        load_only(picker, context, cache),
        load_only(picker, other_context, other_cache),
    ensures
        picker.costs(context, candidates, cache, load) == picker.costs(
            other_context,
            candidates,
            other_cache,
            load,
        ),
        ({
            let costs = picker.costs(context, candidates, cache, load);
            let others = picker.costs(other_context, candidates, other_cache, load);
            picker.chooses(pinned, candidates, costs, choice, after) <==> picker.chooses(
                pinned,
                candidates,
                others,
                choice,
                after,
            )
        }),
        ({
            let costs = picker.costs(context, candidates, cache, load);
            &&& picker.config.prefill_load_scale.finite()
            &&& 0 < costs.len() <= usize::MAX
            &&& forall|i: int| 0 <= i < costs.len() ==> (#[trigger] costs[i]).finite()
            &&& picker.chooses(pinned, candidates, costs, choice, after)
        }) ==> match choice {
            Choice::Row(row, cost) => row < candidates.len() && cost.equals(
                load_cost(
                    picker.config,
                    load[row as int],
                    candidates[row as int].preferred_taint_multiplier,
                ),
            ),
            Choice::Sample(entries) => forall|i: int|
                0 <= i < entries@.len() ==> (#[trigger] entries@[i]).0 < candidates.len()
                    && entries@[i].1.equals(
                    load_cost(
                        picker.config,
                        load[entries@[i].0 as int],
                        candidates[entries@[i].0 as int].preferred_taint_multiplier,
                    ),
                ),
        },
{
    let costs = picker.costs(context, candidates, cache, load);
    let others = picker.costs(other_context, candidates, other_cache, load);
    let model = picker.model();
    assert forall|i: int| 0 <= i < candidates.len() implies costs[i] == others[i] && (
    picker.config.prefill_load_scale.finite() ==> same_number(
        costs[i],
        load_cost(picker.config, load[i], candidates[i].preferred_taint_multiplier),
    )) by {
        law_plain_decode_is_load_only(
            model,
            context,
            model.prefill_floor(context, load),
            cache[i],
            load[i],
            candidates[i].preferred_taint_multiplier,
            other_context,
            model.prefill_floor(other_context, load),
            other_cache[i],
        );
    }
    assert(costs =~= others);
    if picker.config.prefill_load_scale.finite() && 0 < costs.len() <= usize::MAX && (forall|i: int|
        0 <= i < costs.len() ==> (#[trigger] costs[i]).finite()) && picker.chooses(
        pinned,
        candidates,
        costs,
        choice,
        after,
    ) {
        lemma_chosen_costs(picker, pinned, candidates, costs, choice, after);
        match choice {
            Choice::Row(row, cost) => {
                assert(costs[row as int].finite());
            },
            Choice::Sample(entries) => {
                assert forall|i: int| 0 <= i < entries@.len() implies entries@[i].1.equals(
                    load_cost(
                        picker.config,
                        load[(#[trigger] entries@[i]).0 as int],
                        candidates[entries@[i].0 as int].preferred_taint_multiplier,
                    ),
                ) by {
                    assert(costs[entries@[i].0 as int].finite());
                }
            },
        }
    }
}

/// The same row at the same cost, or the same entries to sample from.
pub open spec fn same_choice(choice: Choice, other: Choice) -> bool {
    match (choice, other) {
        (Choice::Row(row, cost), Choice::Row(other_row, other_cost)) => row == other_row && cost
            == other_cost,
        (Choice::Sample(entries), Choice::Sample(other_entries)) => entries@ == other_entries@,
        _ => false,
    }
}

/// In plain disaggregated decode a seeded choice among different workers does not depend on what is
/// cached: with the same stream it is the same, and leaves the stream in the same state.
pub proof fn law_plain_decode_replays_by_load(
    picker: DefaultPicker,
    rows: Rows,
    context: WorkerSelectionContext,
    other_context: WorkerSelectionContext,
    other_cache: Seq<WorkerCacheInput>,
    pinned: bool,
    choice: Choice,
    after: DefaultPicker,
    other_choice: Choice,
    other_after: DefaultPicker,
)
    requires
        picker.plain_decode,
        picker.rng is Some,
        rows.wf(),
        rows.candidates.len() > 0,
        other_cache.len() == rows.candidates.len(),
        load_only(picker, context, rows.cache),
        load_only(picker, other_context, other_cache),
        picker.chooses(
            pinned,
            rows.candidates,
            picker.costs(context, rows.candidates, rows.cache, rows.load),
            choice,
            after,
        ),
        picker.chooses(
            pinned,
            rows.candidates,
            picker.costs(other_context, rows.candidates, other_cache, rows.load),
            other_choice,
            other_after,
        ),
    ensures
        same_choice(choice, other_choice),
        after == other_after,
{
    law_plain_decode_chooses_by_load(
        picker,
        rows.candidates,
        rows.load,
        context,
        rows.cache,
        other_context,
        other_cache,
        pinned,
        choice,
        after,
    );
    if !pinned {
        let n = rows.candidates.len();
        let order = Seq::new(n, |i: int| i);
        assert forall|i: int| 0 <= i < order.len() implies #[trigger] order.contains(i) by {
            assert(order[i] == i);
        }
        law_replay_ignores_row_order(
            picker,
            context,
            rows,
            choice,
            after,
            rows,
            other_choice,
            other_after,
            order,
        );
        match (choice, other_choice) {
            (Choice::Sample(entries), Choice::Sample(others)) => {
                assert forall|i: int| 0 <= i < entries@.len() implies entries@[i] == others@[i] by {
                    assert(entries@[i].0 < n && others@[i].0 < n);
                    assert(rows.candidates[entries@[i].0 as int].worker
                        == rows.candidates[others@[i].0 as int].worker);
                }
                assert(entries@ =~= others@);
            },
            (Choice::Row(row, _), Choice::Row(other_row, _)) => {
                assert(row < n && other_row < n);
                assert(rows.candidates[row as int].worker
                    == rows.candidates[other_row as int].worker);
            },
            _ => {},
        }
    }
}

/// Selectors that share a stream choose as one: after any choice, a selector with the same settings
/// that draws on from where the stream was left has the picker that the first one is left with.
pub proof fn law_shared_stream(
    config: KvRouterConfig,
    worker_type: &'static str,
    rng: Option<SeededStream>,
    pinned: bool,
    candidates: Seq<ScoredWorkerCandidate>,
    costs: Seq<Binary64>,
    choice: Choice,
    after: DefaultPicker,
)
    requires
        DefaultWorkerSelector::of(config, worker_type, rng).policy.picker.chooses(
            pinned,
            candidates,
            costs,
            choice,
            after,
        ),
    ensures
        DefaultWorkerSelector::of(config, worker_type, after.rng).policy.picker == after,
{
}

/// Applying parameters twice is applying them once.
pub proof fn law_parameters_are_idempotent(config: KvRouterConfig, parameters: Parameters)
    ensures
        overridden(overridden(config, parameters), parameters) == overridden(config, parameters),
{
}

} // verus!
