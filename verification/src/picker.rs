//! The choice among costed workers.

use vstd::prelude::*;

use crate::binary64::{signed, Binary64, INFINITE};
use crate::config::{is_decode_label, KvRouterConfig};
use crate::cost::{countable, hits_count, least_prefill, tokens_count, CostModel};
use crate::inputs::{
    ScoredWorkerCandidate, WorkerCacheInput, WorkerInputView, WorkerInputs, WorkerLoadInput,
    WorkerSelectionContext, WorkerSelectionPolicyError, WorkerWithDpRank,
};
use crate::stream::{draw_below, drawn, thread_drew, SeededStream};

verus! {

/// No cost is below that of row `row`.
pub open spec fn lowest(costs: Seq<Binary64>, row: int) -> bool {
    &&& 0 <= row < costs.len()
    &&& forall|i: int| 0 <= i < costs.len() ==> !(#[trigger] costs[i]).below(costs[row])
}

/// The first row whose cost is the lowest.
pub open spec fn first_lowest(costs: Seq<Binary64>) -> int
    decreases costs.len(),
{
    if costs.len() <= 1 {
        0
    } else {
        let first = first_lowest(costs.drop_last());
        if costs.last().below(costs[first]) {
            costs.len() - 1
        } else {
            first
        }
    }
}

/// The best row so far, while rows are offered one after the other.
#[derive(Clone, Copy, Debug, PartialEq, Eq, Structural)]
pub struct Leader {
    pub row: usize,
    pub cost: Binary64,
    /// How many of the rows offered so far share the lowest cost.
    pub ties: usize,
}

impl Leader {
    /// The leader before any row is offered.
    pub open spec fn none() -> Self {
        Leader { row: 0, cost: signed(false, INFINITE as int), ties: 0 }
    }

    /// The leader after a row is offered. A row that ties takes the lead if zero was drawn.
    pub open spec fn after(self, row: usize, cost: Binary64, draw: usize) -> Self {
        if cost.below(self.cost) {
            Leader { row, cost, ties: 1 }
        } else if cost.equals(self.cost) {
            Leader {
                row: if draw == 0 {
                    row
                } else {
                    self.row
                },
                cost: self.cost,
                ties: (self.ties + 1) as usize,
            }
        } else {
            self
        }
    }

    pub fn new() -> (r: Self)
        ensures
            r == Leader::none(),
    {
        Leader { row: 0, cost: Binary64::from_bits(INFINITE), ties: 0 }
    }

    /// How many rows tie once one more does: what is drawn for that row lies below this.
    pub fn bound(&self) -> (r: usize)
        requires
            self.ties < usize::MAX,
        ensures
            r == self.ties + 1,
    {
        self.ties + 1
    }

    /// Offers a row, with what was drawn for it below the bound.
    pub fn offer(&mut self, row: usize, cost: Binary64, draw: usize)
        requires
            old(self).ties < usize::MAX,
        ensures
            *final(self) == old(self).after(row, cost, draw),
    {
        if cost.lt(self.cost) {
            self.row = row;
            self.cost = cost;
            self.ties = 1;
        } else if cost.same(self.cost) {
            self.ties = self.ties + 1;
            if draw == 0 {
                self.row = row;
            }
        }
    }
}

/// A leader of some costs: a lowest row, with the cost of the first lowest one.
pub open spec fn leads(leader: Leader, costs: Seq<Binary64>) -> bool {
    &&& leader.ties <= costs.len()
    &&& costs.len() == 0 ==> leader == Leader::none()
    &&& costs.len() > 0 ==> {
        &&& lowest(costs, leader.row as int)
        &&& leader.cost == costs[first_lowest(costs)]
        &&& leader.cost.equals(costs[leader.row as int])
    }
}

/// Whatever is drawn, offering the next row keeps a leader.
proof fn lemma_offer(leader: Leader, costs: Seq<Binary64>, draw: usize)
    requires
        0 < costs.len() <= usize::MAX,
        forall|i: int| 0 <= i < costs.len() ==> (#[trigger] costs[i]).finite(),
        leads(leader, costs.drop_last()),
    ensures
        leads(leader.after((costs.len() - 1) as usize, costs.last(), draw), costs),
{
    let front = costs.drop_last();
    let after = leader.after((costs.len() - 1) as usize, costs.last(), draw);
    if front.len() > 0 {
        assert forall|i: int| 0 <= i < costs.len() implies !(#[trigger] costs[i]).below(
            costs[after.row as int],
        ) by {
            if i < front.len() {
                assert(!front[i].below(front[leader.row as int]));
            }
        }
        lemma_first_lowest(front);
        assert(front[first_lowest(front)] == costs[first_lowest(front)]);
    }
}

/// The leader after all costs are offered in order, each with its draw.
pub open spec fn drawn_leader(costs: Seq<Binary64>, draws: Seq<usize>) -> Leader
    decreases costs.len(),
{
    if costs.len() == 0 {
        Leader::none()
    } else {
        drawn_leader(costs.drop_last(), draws.drop_last()).after(
            (costs.len() - 1) as usize,
            costs.last(),
            draws.last(),
        )
    }
}

/// There is one draw for each cost, and for a cost that ties it is below the number of rows that
/// then tie.
pub open spec fn draws_fit(costs: Seq<Binary64>, draws: Seq<usize>) -> bool
    decreases costs.len(),
{
    &&& draws.len() == costs.len()
    &&& costs.len() > 0 ==> {
        let before = drawn_leader(costs.drop_last(), draws.drop_last());
        &&& draws_fit(costs.drop_last(), draws.drop_last())
        &&& costs.last().equals(before.cost) ==> draws.last() <= before.ties
    }
}

/// Each cost that ties was decided by what the thread's generator returned for the number of rows
/// that then tie.
pub open spec fn drawn_by_thread(costs: Seq<Binary64>, draws: Seq<usize>) -> bool {
    &&& draws_fit(costs, draws)
    &&& forall|i: int|
        0 <= i < costs.len() && (#[trigger] costs[i]).equals(
            drawn_leader(costs.take(i), draws.take(i)).cost,
        ) ==> thread_drew(
            (drawn_leader(costs.take(i), draws.take(i)).ties + 1) as usize,
            draws[i],
        )
}

/// Picks the row that given draws single out.
pub fn lowest_by_draws(costs: &Vec<Binary64>, draws: &Vec<usize>) -> (r: Leader)
    requires
        draws@.len() == costs@.len(),
    ensures
        r == drawn_leader(costs@, draws@),
{
    let mut leader = Leader::new();
    let mut row: usize = 0;
    while row < costs.len()
        invariant
            row <= costs@.len(),
            draws@.len() == costs@.len(),
            leader.ties <= row,
            leader == drawn_leader(costs@.take(row as int), draws@.take(row as int)),
        decreases costs@.len() - row,
    {
        assert(costs@.take(row + 1).drop_last() =~= costs@.take(row as int));
        assert(draws@.take(row + 1).drop_last() =~= draws@.take(row as int));
        leader.offer(row, costs[row], draws[row]);
        row = row + 1;
    }
    assert(costs@.take(row as int) =~= costs@);
    assert(draws@.take(row as int) =~= draws@);
    leader
}

/// One more cost, with what was drawn for it.
proof fn lemma_one_more_draw(
    costs: Seq<Binary64>,
    draws: Seq<usize>,
    cost: Binary64,
    value: usize,
)
    requires
        drawn_by_thread(costs, draws),
        ({
            let leader = drawn_leader(costs, draws);
            cost.equals(leader.cost) ==> value <= leader.ties && thread_drew(
                (leader.ties + 1) as usize,
                value,
            )
        }),
    ensures
        drawn_by_thread(costs.push(cost), draws.push(value)),
        drawn_leader(costs.push(cost), draws.push(value)) == drawn_leader(costs, draws).after(
            costs.len() as usize,
            cost,
            value,
        ),
{
    let (all, given) = (costs.push(cost), draws.push(value));
    let n = costs.len() as int;
    assert(all.drop_last() =~= costs);
    assert(given.drop_last() =~= draws);
    assert(all.take(n) =~= costs);
    assert(given.take(n) =~= draws);
    assert forall|i: int|
        0 <= i < all.len() && (#[trigger] all[i]).equals(
            drawn_leader(all.take(i), given.take(i)).cost,
        ) implies thread_drew(
        (drawn_leader(all.take(i), given.take(i)).ties + 1) as usize,
        given[i],
    ) by {
        if i < n {
            assert(all.take(i) =~= costs.take(i));
            assert(given.take(i) =~= draws.take(i));
            assert(all[i] == costs[i]);
        }
    }
}

/// Picks a row of lowest cost, at random among those that tie: the row that the draws of the
/// thread's generator single out.
fn random_lowest(costs: &Vec<Binary64>) -> (r: Entry)
    requires
        costs@.len() > 0,
        forall|i: int| 0 <= i < costs@.len() ==> (#[trigger] costs@[i]).finite(),
    ensures
        lowest(costs@, r.0 as int),
        r.1 == costs@[first_lowest(costs@)],
        exists|draws: Seq<usize>|
            {
                &&& #[trigger] drawn_by_thread(costs@, draws)
                &&& r.0 == drawn_leader(costs@, draws).row
                &&& r.1 == drawn_leader(costs@, draws).cost
            },
{
    let mut leader = Leader::new();
    let mut row: usize = 0;
    let ghost mut draws: Seq<usize> = Seq::empty();
    while row < costs.len()
        invariant
            row <= costs@.len(),
            forall|i: int| 0 <= i < costs@.len() ==> (#[trigger] costs@[i]).finite(),
            leads(leader, costs@.take(row as int)),
            drawn_by_thread(costs@.take(row as int), draws),
            leader == drawn_leader(costs@.take(row as int), draws),
        decreases costs@.len() - row,
    {
        let cost = costs[row];
        let drawn_for_row: usize = if cost.same(leader.cost) {
            draw_below(leader.bound())
        } else {
            0
        };
        proof {
            assert(costs@.take(row + 1).drop_last() =~= costs@.take(row as int));
            assert(draws.push(drawn_for_row).drop_last() =~= draws);
            assert(costs@.take(row as int).push(cost) =~= costs@.take(row + 1));
            lemma_offer(leader, costs@.take(row + 1), drawn_for_row);
            lemma_one_more_draw(costs@.take(row as int), draws, cost, drawn_for_row);
            draws = draws.push(drawn_for_row);
        }
        leader.offer(row, cost, drawn_for_row);
        row = row + 1;
    }
    assert(costs@.take(row as int) =~= costs@);
    (leader.row, leader.cost)
}

/// The leader after all costs are offered in order, each draw taken from a stream, and the
/// state in which the stream is left.
pub open spec fn seeded_leader(costs: Seq<Binary64>, state: u64) -> (Leader, u64)
    decreases costs.len(),
{
    if costs.len() == 0 {
        (Leader::none(), state)
    } else {
        let (leader, state) = seeded_leader(costs.drop_last(), state);
        let row = (costs.len() - 1) as usize;
        let cost = costs.last();
        if cost.equals(leader.cost) {
            let (draw, state) = drawn(state, (leader.ties + 1) as usize, usize::BITS);
            (leader.after(row, cost, draw), state)
        } else {
            (leader.after(row, cost, 0), state)
        }
    }
}

/// A row and its cost.
pub type Entry = (usize, Binary64);

/// The costs of entries.
pub open spec fn entry_costs(entries: Seq<Entry>) -> Seq<Binary64> {
    entries.map_values(|entry: Entry| entry.1)
}

/// The entries of all rows, in row order.
pub open spec fn row_entries(costs: Seq<Binary64>) -> Seq<Entry> {
    Seq::new(costs.len(), |i: int| (i as usize, costs[i]))
}

/// Workers in order of their id, then of their rank.
pub open spec fn worker_key(worker: WorkerWithDpRank) -> int {
    worker.worker_id * 0x1_0000_0000 + worker.dp_rank
}

/// The entries of the first `n` rows, each once, in order of their workers.
pub open spec fn canonical_entries(
    entries: Seq<Entry>,
    candidates: Seq<ScoredWorkerCandidate>,
    costs: Seq<Binary64>,
    n: nat,
) -> bool {
    &&& entries.len() == n
    &&& forall|i: int|
        0 <= i < n ==> (#[trigger] entries[i]).0 < n && entries[i].1 == costs[entries[i].0 as int]
    &&& forall|i: int, j: int|
        0 <= i < j < n ==> (#[trigger] entries[i]).0 != (#[trigger] entries[j]).0
    &&& forall|i: int, j: int|
        0 <= i <= j < n ==> worker_key(candidates[(#[trigger] entries[i]).0 as int].worker)
            <= worker_key(candidates[(#[trigger] entries[j]).0 as int].worker)
}

/// What the picker decides.
#[derive(Clone, Debug)]
pub enum Choice {
    /// A row, and its cost.
    Row(usize, Binary64),
    /// One of these entries is to be sampled by softmax.
    Sample(Vec<Entry>),
}

/// Draws until all entries are offered, and returns the index of the entry that leads.
pub fn seeded_lowest(entries: &Vec<Entry>, stream: &mut SeededStream) -> (r: usize)
    ensures
        (r, final(stream).state) == ({
            let (leader, state) = seeded_leader(entry_costs(entries@), old(stream).state);
            (leader.row, state)
        }),
{
    let mut leader = Leader::new();
    let mut i: usize = 0;
    let ghost costs = entry_costs(entries@);
    while i < entries.len()
        invariant
            i <= entries@.len(),
            costs == entry_costs(entries@),
            leader.ties <= i,
            (leader, stream.state) == seeded_leader(costs.take(i as int), old(stream).state),
        decreases entries@.len() - i,
    {
        let cost = entries[i].1;
        proof {
            assert(costs.take(i + 1).drop_last() =~= costs.take(i as int));
            assert(costs.take(i + 1).last() == cost);
        }
        let drawn_for_row: usize = if cost.same(leader.cost) {
            stream.draw(leader.bound())
        } else {
            0
        };
        leader.offer(i, cost, drawn_for_row);
        i = i + 1;
    }
    assert(costs.take(i as int) =~= costs);
    leader.row
}

/// Whether worker `a` comes after worker `b`.
fn comes_after(a: WorkerWithDpRank, b: WorkerWithDpRank) -> (r: bool)
    ensures
        r == (worker_key(a) > worker_key(b)),
{
    a.worker_id > b.worker_id || (a.worker_id == b.worker_id && a.dp_rank > b.dp_rank)
}

/// The entries of all rows in order of their workers.
pub fn in_worker_order(candidates: &Vec<ScoredWorkerCandidate>, costs: &Vec<Binary64>) -> (r: Vec<
    Entry,
>)
    requires
        candidates@.len() == costs@.len(),
    ensures
        canonical_entries(r@, candidates@, costs@, costs@.len()),
{
    let mut sorted: Vec<Entry> = Vec::new();
    let mut row: usize = 0;
    while row < costs.len()
        invariant
            candidates@.len() == costs@.len(),
            row <= costs@.len(),
            canonical_entries(sorted@, candidates@, costs@, row as nat),
        decreases costs@.len() - row,
    {
        let worker = candidates[row].worker;
        let mut place: usize = sorted.len();
        while place > 0 && comes_after(candidates[sorted[place - 1].0].worker, worker)
            invariant
                candidates@.len() == costs@.len(),
                row < costs@.len(),
                worker == candidates@[row as int].worker,
                canonical_entries(sorted@, candidates@, costs@, row as nat),
                place <= sorted@.len(),
                forall|i: int|
                    place <= i < sorted@.len() ==> worker_key(
                        candidates@[(#[trigger] sorted@[i]).0 as int].worker,
                    ) > worker_key(worker),
            decreases place,
        {
            place = place - 1;
        }
        let ghost before = sorted@;
        proof {
            assert forall|i: int| 0 <= i < place implies worker_key(
                candidates@[(#[trigger] before[i]).0 as int].worker,
            ) <= worker_key(worker) by {
                assert(worker_key(candidates@[before[i].0 as int].worker) <= worker_key(
                    candidates@[before[place - 1].0 as int].worker,
                ));
            }
        }
        sorted.insert(place, (row, costs[row]));
        row = row + 1;
    }
    sorted
}

/// The costs before row `row` are finite.
pub open spec fn finite_before(costs: Seq<Binary64>, row: int) -> bool {
    forall|i: int| 0 <= i < row ==> (#[trigger] costs[i]).finite()
}

/// The default picker: costs every candidate and chooses one.
#[derive(Clone, Copy, Debug)]
pub struct DefaultPicker {
    /// Whether decode workers never run prefill.
    pub plain_decode: bool,
    pub config: KvRouterConfig,
    /// The label of the worker pool.
    pub worker_label: &'static str,
    /// The stream to draw from where choices are to be reproducible.
    pub rng: Option<SeededStream>,
}

impl DefaultPicker {
    /// The settings by which this picker costs workers.
    pub open spec fn model(self) -> CostModel {
        CostModel {
            config: self.config,
            is_decode: self.worker_label@ == "decode"@,
            plain_decode: self.plain_decode,
        }
    }

    /// At temperature zero the lowest cost is picked.
    pub open spec fn picks_lowest(self) -> bool {
        self.config.router_temperature.equals(signed(false, 0))
    }

    /// The cost of each candidate.
    pub open spec fn costs(
        self,
        context: WorkerSelectionContext,
        candidates: Seq<ScoredWorkerCandidate>,
        cache: Seq<WorkerCacheInput>,
        load: Seq<WorkerLoadInput>,
    ) -> Seq<Binary64> {
        let floor = self.model().prefill_floor(context, load);
        Seq::new(
            candidates.len(),
            |i: int|
                self.model().cost_of(
                    context,
                    floor,
                    cache[i],
                    load[i],
                    candidates[i].preferred_taint_multiplier,
                ),
        )
    }

    /// What goes into the cost of each row can be counted, up to the first row whose cost is not
    /// finite.
    pub open spec fn rows_countable(
        self,
        context: WorkerSelectionContext,
        candidates: Seq<ScoredWorkerCandidate>,
        cache: Seq<WorkerCacheInput>,
        load: Seq<WorkerLoadInput>,
    ) -> bool {
        forall|i: int|
            0 <= i < candidates.len() && finite_before(
                self.costs(context, candidates, cache, load),
                i,
            ) ==> #[trigger] countable(context, cache[i], load[i])
    }

    /// A selection that this picker can decide on, or refuse with an error.
    pub open spec fn decidable(
        self,
        context: WorkerSelectionContext,
        input: WorkerInputView,
    ) -> bool {
        &&& input.wf()
        &&& input.cache is Some && input.load is Some ==> self.rows_countable(
            context,
            input.candidates@,
            input.cache->0@,
            input.load->0@,
        )
    }

    /// What may be chosen among candidates with finite costs, and what becomes of the picker.
    pub open spec fn chooses(
        self,
        pinned: bool,
        candidates: Seq<ScoredWorkerCandidate>,
        costs: Seq<Binary64>,
        choice: Choice,
        after: DefaultPicker,
    ) -> bool {
        if self.picks_lowest() && self.rng is None {
            // ties are broken at random
            &&& after == self
            &&& choice matches Choice::Row(row, cost) && lowest(costs, row as int) && cost
                == costs[first_lowest(costs)] && exists|draws: Seq<usize>| #[trigger]
                drawn_by_thread(costs, draws) && row == drawn_leader(costs, draws).row
        } else if pinned {
            &&& after == self
            &&& choice == Choice::Row(0, costs[0])
        } else {
            match self.rng {
                None => {
                    &&& after == self
                    &&& choice matches Choice::Sample(entries) && entries@ == row_entries(costs)
                },
                Some(stream) => {
                    if self.picks_lowest() {
                        exists|entries: Seq<Entry>|
                            {
                                let (leader, state) = seeded_leader(
                                    entry_costs(entries),
                                    stream.state,
                                );
                                &&& #[trigger] canonical_entries(
                                    entries,
                                    candidates,
                                    costs,
                                    costs.len(),
                                )
                                &&& 0 <= leader.row < entries.len()
                                &&& choice == Choice::Row(
                                    entries[leader.row as int].0,
                                    entries[leader.row as int].1,
                                )
                                &&& after == (DefaultPicker {
                                    rng: Some(SeededStream { state }),
                                    ..self
                                })
                            }
                    } else {
                        &&& after == self
                        &&& choice matches Choice::Sample(entries) && canonical_entries(
                            entries@,
                            candidates,
                            costs,
                            costs.len(),
                        )
                    }
                },
            }
        }
    }

    /// The worker signals that this picker reads.
    pub fn required_worker_inputs(&self) -> (r: WorkerInputs)
        ensures
            r == (WorkerInputs { cache: true, load: true, preferred_taint: true }),
    {
        WorkerInputs { cache: true, load: true, preferred_taint: true }
    }

    fn cost_model(&self) -> (r: CostModel)
        ensures
            r == self.model(),
    {
        CostModel {
            config: self.config,
            is_decode: is_decode_label(self.worker_label),
            plain_decode: self.plain_decode,
        }
    }

    /// Whether this picker can decide on a selection, or refuse it with an error: what goes into
    /// the costs can be counted, at least up to the first cost that is not finite.
    pub fn can_decide(&self, context: &WorkerSelectionContext, input: &WorkerInputView) -> (r: bool)
        ensures
            r == self.decidable(*context, *input),
    {
        let candidates = &input.candidates;
        if let Some(cache) = &input.cache {
            if cache.len() != candidates.len() {
                return false;
            }
        }
        if let Some(load) = &input.load {
            if load.len() != candidates.len() {
                return false;
            }
        }
        match (&input.cache, &input.load) {
            (Some(cache), Some(load)) => self.can_count(context, candidates, cache, load),
            _ => true,
        }
    }

    fn can_count(
        &self,
        context: &WorkerSelectionContext,
        candidates: &Vec<ScoredWorkerCandidate>,
        cache: &Vec<WorkerCacheInput>,
        load: &Vec<WorkerLoadInput>,
    ) -> (r: bool)
        requires
            cache@.len() == candidates@.len(),
            load@.len() == candidates@.len(),
        ensures
            r == self.rows_countable(*context, candidates@, cache@, load@),
    {
        let mut counted: usize = 0;
        while counted < candidates.len() && tokens_count(context, &cache[counted], &load[counted])
            && hits_count(context, &cache[counted])
            invariant
                cache@.len() == candidates@.len(),
                load@.len() == candidates@.len(),
                counted <= candidates@.len(),
                forall|i: int|
                    0 <= i < counted ==> #[trigger] countable(*context, cache@[i], load@[i]),
            decreases candidates@.len() - counted,
        {
            counted = counted + 1;
        }
        if counted == candidates.len() {
            return true;
        }
        // a cost that is not finite is found before the row that cannot be counted
        let model = self.cost_model();
        let floor: usize = floor_of(&model, context, load);
        let ghost all = self.costs(*context, candidates@, cache@, load@);
        let mut row: usize = 0;
        while row < counted
            invariant
                cache@.len() == candidates@.len(),
                load@.len() == candidates@.len(),
                row <= counted < candidates@.len(),
                forall|i: int|
                    0 <= i < counted ==> #[trigger] countable(*context, cache@[i], load@[i]),
                model == self.model(),
                floor == model.prefill_floor(*context, load@),
                all == self.costs(*context, candidates@, cache@, load@),
                finite_before(all, row as int),
            decreases counted - row,
        {
            assert(countable(*context, cache@[row as int], load@[row as int]));
            let cost = model.cost(
                context,
                floor,
                &cache[row],
                &load[row],
                candidates[row].preferred_taint_multiplier,
            );
            assert(cost == all[row as int]);
            if !cost.is_finite() {
                assert(forall|i: int| i > row ==> !finite_before(all, i));
                return true;
            }
            row = row + 1;
        }
        assert(!countable(*context, cache@[counted as int], load@[counted as int]));
        false
    }

    /// The cost of each candidate, unless one is not finite.
    fn candidate_costs(
        &self,
        context: &WorkerSelectionContext,
        candidates: &Vec<ScoredWorkerCandidate>,
        cache: &Vec<WorkerCacheInput>,
        load: &Vec<WorkerLoadInput>,
    ) -> (r: Result<Vec<Binary64>, WorkerSelectionPolicyError>)
        requires
            cache@.len() == candidates@.len(),
            load@.len() == candidates@.len(),
            self.rows_countable(*context, candidates@, cache@, load@),
        ensures
            ({
                let costs = self.costs(*context, candidates@, cache@, load@);
                match r {
                    Ok(v) => v@ == costs && forall|i: int|
                        0 <= i < costs.len() ==> (#[trigger] costs[i]).finite(),
                    Err(error) => error == WorkerSelectionPolicyError::NonFiniteCost && exists|
                        i: int,
                    |
                        0 <= i < costs.len() && !(#[trigger] costs[i]).finite(),
                }
            }),
    {
        let model = self.cost_model();
        let floor: usize = floor_of(&model, context, load);
        let ghost all = self.costs(*context, candidates@, cache@, load@);
        let mut costs: Vec<Binary64> = Vec::new();
        let mut row: usize = 0;
        while row < candidates.len()
            invariant
                cache@.len() == candidates@.len(),
                load@.len() == candidates@.len(),
                self.rows_countable(*context, candidates@, cache@, load@),
                model == self.model(),
                floor == model.prefill_floor(*context, load@),
                all == self.costs(*context, candidates@, cache@, load@),
                row <= candidates@.len(),
                costs@ == all.take(row as int),
                forall|i: int| 0 <= i < row ==> (#[trigger] all[i]).finite(),
            decreases candidates@.len() - row,
        {
            assert(finite_before(all, row as int));
            assert(countable(*context, cache@[row as int], load@[row as int]));
            let cost = model.cost(
                context,
                floor,
                &cache[row],
                &load[row],
                candidates[row].preferred_taint_multiplier,
            );
            assert(cost == all[row as int]);
            if !cost.is_finite() {
                return Err(WorkerSelectionPolicyError::NonFiniteCost);
            }
            costs.push(cost);
            assert(all.take(row + 1) =~= all.take(row as int).push(cost));
            row = row + 1;
        }
        assert(all.take(row as int) =~= all);
        Ok(costs)
    }

    /// Costs every candidate and chooses a row, or hands out the entries to sample from.
    pub fn decide(
        &mut self,
        context: &WorkerSelectionContext,
        input: &WorkerInputView,
    ) -> (r: Result<Choice, WorkerSelectionPolicyError>)
        requires
            old(self).decidable(*context, *input),
        ensures
            input.cache is None ==> r == Err::<Choice, _>(
                WorkerSelectionPolicyError::CacheInputUnavailable,
            ),
            input.cache is Some && input.load is None ==> r == Err::<Choice, _>(
                WorkerSelectionPolicyError::LoadInputUnavailable,
            ),
            input.cache is Some && input.load is Some && input.candidates@.len() == 0 ==> r == Err::<
                Choice,
                _,
            >(WorkerSelectionPolicyError::NoEligibleWorker),
            input.cache is Some && input.load is Some && input.candidates@.len() > 0 ==> {
                let costs = old(self).costs(
                    *context,
                    input.candidates@,
                    input.cache->0@,
                    input.load->0@,
                );
                match r {
                    Err(error) => error == WorkerSelectionPolicyError::NonFiniteCost && exists|i: int|
                        0 <= i < costs.len() && !(#[trigger] costs[i]).finite(),
                    Ok(choice) => {
                        &&& forall|i: int| 0 <= i < costs.len() ==> (#[trigger] costs[i]).finite()
                        &&& old(self).chooses(
                            context.pinned_worker is Some,
                            input.candidates@,
                            costs,
                            choice,
                            *final(self),
                        )
                    },
                }
            },
            r is Err ==> *final(self) == *old(self),
    {
        let cache = match &input.cache {
            Some(cache) => cache,
            None => {
                return Err(WorkerSelectionPolicyError::CacheInputUnavailable);
            },
        };
        let load = match &input.load {
            Some(load) => load,
            None => {
                return Err(WorkerSelectionPolicyError::LoadInputUnavailable);
            },
        };
        let candidates = &input.candidates;
        if candidates.len() == 0 {
            return Err(WorkerSelectionPolicyError::NoEligibleWorker);
        }
        let costs = match self.candidate_costs(context, candidates, cache, load) {
            Ok(costs) => costs,
            Err(error) => {
                return Err(error);
            },
        };
        let lowest_wanted = self.config.router_temperature.same(Binary64::zero());
        if lowest_wanted && self.rng.is_none() {
            let (row, cost) = random_lowest(&costs);
            return Ok(Choice::Row(row, cost));
        }
        if context.pinned_worker.is_some() {
            return Ok(Choice::Row(0, costs[0]));
        }
        match self.rng {
            None => {
                Ok(Choice::Sample(in_row_order(&costs)))
            },
            Some(stream) => {
                let entries = in_worker_order(candidates, &costs);
                if lowest_wanted {
                    let mut stream = stream;
                    let selected: usize = seeded_lowest(&entries, &mut stream);
                    proof {
                        lemma_seeded_leader(entry_costs(entries@), old(self).rng->0.state);
                    }
                    self.rng = Some(stream);
                    let (row, cost) = entries[selected];
                    Ok(Choice::Row(row, cost))
                } else {
                    Ok(Choice::Sample(entries))
                }
            },
        }
    }
}

/// The first lowest row is a lowest row.
pub proof fn lemma_first_lowest(costs: Seq<Binary64>)
    requires
        costs.len() > 0,
        forall|i: int| 0 <= i < costs.len() ==> (#[trigger] costs[i]).finite(),
    ensures
        lowest(costs, first_lowest(costs)),
    decreases costs.len(),
{
    if costs.len() > 1 {
        let front = costs.drop_last();
        lemma_first_lowest(front);
        let first = first_lowest(front);
        assert forall|i: int| 0 <= i < costs.len() implies !(#[trigger] costs[i]).below(
            costs[first_lowest(costs)],
        ) by {
            if i < front.len() {
                assert(!front[i].below(front[first]));
            }
        }
    }
}

/// Whatever is drawn, a leader comes out.
pub proof fn lemma_drawn_leader(costs: Seq<Binary64>, draws: Seq<usize>)
    requires
        costs.len() <= usize::MAX,
        forall|i: int| 0 <= i < costs.len() ==> (#[trigger] costs[i]).finite(),
    ensures
        leads(drawn_leader(costs, draws), costs),
    decreases costs.len(),
{
    if costs.len() > 0 {
        lemma_drawn_leader(costs.drop_last(), draws.drop_last());
        lemma_offer(
            drawn_leader(costs.drop_last(), draws.drop_last()),
            costs,
            draws.last(),
        );
    }
}

/// Whatever the stream draws, a leader comes out.
pub proof fn lemma_seeded_leader(costs: Seq<Binary64>, state: u64)
    requires
        costs.len() <= usize::MAX,
        forall|i: int| 0 <= i < costs.len() ==> (#[trigger] costs[i]).finite(),
    ensures
        leads(seeded_leader(costs, state).0, costs),
    decreases costs.len(),
{
    if costs.len() > 0 {
        let front = costs.drop_last();
        lemma_seeded_leader(front, state);
        let (leader, state) = seeded_leader(front, state);
        lemma_offer(leader, costs, 0);
        lemma_offer(leader, costs, drawn(state, (leader.ties + 1) as usize, usize::BITS).0);
    }
}

/// The prefill load against which decay is measured.
fn floor_of(
    model: &CostModel,
    context: &WorkerSelectionContext,
    load: &Vec<WorkerLoadInput>,
) -> (r: usize)
    ensures
        r == model.prefill_floor(*context, load@),
{
    if model.decays(context) {
        least_active_prefill(load)
    } else {
        0
    }
}

/// The least number of prefill tokens among workers.
pub fn least_active_prefill(loads: &Vec<WorkerLoadInput>) -> (r: usize)
    ensures
        r == least_prefill(loads@),
{
    let mut least: usize = usize::MAX;
    let mut i: usize = 0;
    while i < loads.len()
        invariant
            i <= loads@.len(),
            least == least_prefill(loads@.take(i as int)),
        decreases loads@.len() - i,
    {
        assert(loads@.take(i + 1).drop_last() =~= loads@.take(i as int));
        let tokens = loads[i].active_prefill_tokens;
        if tokens < least {
            least = tokens;
        }
        i = i + 1;
    }
    assert(loads@.take(i as int) =~= loads@);
    least
}

/// The entries of all rows in row order.
fn in_row_order(costs: &Vec<Binary64>) -> (r: Vec<Entry>)
    ensures
        r@ == row_entries(costs@),
{
    let mut entries: Vec<Entry> = Vec::new();
    let mut row: usize = 0;
    while row < costs.len()
        invariant
            row <= costs@.len(),
            entries@.len() == row,
            forall|i: int| 0 <= i < row ==> entries@[i] == (i as usize, costs@[i]),
        decreases costs@.len() - row,
    {
        entries.push((row, costs[row]));
        row = row + 1;
    }
    assert(entries@ =~= row_entries(costs@));
    entries
}

} // verus!
