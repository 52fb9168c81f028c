//! The alias table and the pairing that fills it.
//!
//! An alias table has one column per entry. A column holds the probability of
//! keeping its own entry and the index of the entry that it hands over to
//! otherwise. The table is filled from the scaled weights of the entries by
//! pairing columns that hold less than the mean with columns that hold at
//! least the mean: the small column is settled, and the large one gives up
//! what the small one lacked and is classed anew.
//!
//! Which columns are paired, in what order, and on which side of the mean a
//! column waits is decided here. The arithmetic on the scaled weights is done
//! by the caller, one step at a time.

use vstd::prelude::*;
use itertools::Either;
use itertools::Itertools;
use crate::error::PickerError;
use crate::weight::{below, is_probability, is_weight, less_than, probability, usable_weight, ONE};

verus! {

/// [`itertools::Either`], with its two variants.
#[verifier::external_type_specification]
#[verifier::reject_recursive_types(L)]
#[verifier::reject_recursive_types(R)]
pub struct ExEither<L, R>(Either<L, R>);

/// The columns on one side of the mean, in ascending order: those whose
/// scaled weight is below `average` if `small`, the others if not.
pub open spec fn positions(scaled: Seq<u64>, average: u64, small: bool) -> Seq<usize>
    decreases scaled.len(),
{
    if scaled.len() == 0 {
        Seq::empty()
    } else {
        let before = positions(scaled.drop_last(), average, small);
        if less_than(scaled.last(), average) == small {
            before.push((scaled.len() - 1) as usize)
        } else {
            before
        }
    }
}

/// What `positions` holds: only columns of the wanted side, every one of
/// them, each once and in ascending order.
pub proof fn lemma_positions(scaled: Seq<u64>, average: u64, small: bool)
    requires
        scaled.len() <= usize::MAX,
    ensures
        positions(scaled, average, small).len() <= scaled.len(),
        forall|k: int|
            0 <= k < positions(scaled, average, small).len() ==> {
                &&& (#[trigger] positions(scaled, average, small)[k]) < scaled.len()
                &&& less_than(scaled[positions(scaled, average, small)[k] as int], average)
                    == small
            },
        forall|j: int, k: int|
            0 <= j < k < positions(scaled, average, small).len() ==> positions(
                scaled,
                average,
                small,
            )[j] < positions(scaled, average, small)[k],
        forall|i: int|
            0 <= i < scaled.len() && less_than(scaled[i], average) == small ==> positions(
                scaled,
                average,
                small,
            ).contains(i as usize),
    decreases scaled.len(),
{
    if scaled.len() > 0 {
        let shorter = scaled.drop_last();
        let before = positions(shorter, average, small);
        lemma_positions(shorter, average, small);
        let last = (scaled.len() - 1) as usize;
        assert forall|i: int|
            0 <= i < scaled.len() && less_than(scaled[i], average) == small implies positions(
            scaled,
            average,
            small,
        ).contains(i as usize) by {
            if i < scaled.len() - 1 {
                assert(shorter[i] == scaled[i]);
                let k = choose|k: int| 0 <= k < before.len() && before[k] == i as usize;
                assert(positions(scaled, average, small)[k] == i as usize);
            } else {
                assert(positions(scaled, average, small)[before.len() as int] == last);
            }
        }
    }
}

/// Every column is on one of the two sides.
proof fn lemma_positions_split(scaled: Seq<u64>, average: u64)
    ensures
        positions(scaled, average, true).len() + positions(scaled, average, false).len()
            == scaled.len(),
    decreases scaled.len(),
{
    if scaled.len() > 0 {
        lemma_positions_split(scaled.drop_last(), average);
    }
}

/// The side of the mean on which a column waits: left if its scaled weight is
/// below the mean, right if it is the mean or more.
fn side_of(column: usize, scaled: u64, average: u64) -> (side: Either<usize, usize>)
    ensures
        side == (if less_than(scaled, average) {
            Either::<usize, usize>::Left(column)
        } else {
            Either::<usize, usize>::Right(column)
        }),
{
    if below(scaled, average) {
        Either::Left(column)
    } else {
        Either::Right(column)
    }
}

/// Splits the columns by their side of the mean with
/// [`itertools::Itertools::partition_map`], which walks the scaled weights once
/// from the front and appends what `side_of` calls left to the first vector
/// and what it calls right to the second. So the first holds the columns below
/// the mean and the second the others, both in ascending order.
#[verifier::external_body]
fn split_columns(scaled: &Vec<u64>, average: u64) -> (sides: (Vec<usize>, Vec<usize>))
    ensures
        sides.0@ == positions(scaled@, average, true),
        sides.1@ == positions(scaled@, average, false),
{
    scaled.iter().enumerate().partition_map(|(column, weight)| side_of(column, *weight, average))
}

/// The state of a pairing, as plain values.
pub struct PairingState {
    /// The mean against which columns are classed.
    pub average: u64,
    /// What every column holds, as bit patterns.
    pub scaled: Seq<u64>,
    /// The waiting columns that hold less than the mean, the next to be paired
    /// last.
    pub small: Seq<usize>,
    /// The waiting columns that hold the mean or more, the next to be paired
    /// last.
    pub large: Seq<usize>,
    /// The acceptance probability of every column, as bit patterns.
    pub prob: Seq<u64>,
    /// The alias of every column.
    pub alias: Seq<usize>,
}

impl PairingState {
    /// The state before the first step: every column waits on its side of the
    /// mean, in ascending order.
    pub open spec fn start(scaled: Seq<u64>, average: u64) -> PairingState {
        PairingState {
            average,
            scaled,
            small: positions(scaled, average, true),
            large: positions(scaled, average, false),
            prob: Seq::new(scaled.len(), |i: int| 0u64),
            alias: Seq::new(scaled.len(), |i: int| 0usize),
        }
    }

    /// The columns that wait, the small ones first.
    pub open spec fn waiting(self) -> Seq<usize> {
        self.small + self.large
    }

    /// The mean and what the columns hold are finite and not negative. No
    /// column waits twice, so that no more columns wait than there are, and
    /// each waits on its side of the mean. Every alias is a column, and every
    /// probability is a number in `[0, 1]`.
    pub open spec fn wf(self) -> bool {
        &&& is_weight(self.average)
        &&& self.scaled.len() == self.prob.len()
        &&& self.alias.len() == self.prob.len()
        &&& self.waiting().len() <= self.prob.len()
        &&& self.waiting().no_duplicates()
        &&& forall|k: int| 0 <= k < self.small.len() ==> self.small[k] < self.prob.len()
        &&& forall|k: int| 0 <= k < self.large.len() ==> self.large[k] < self.prob.len()
        &&& forall|k: int|
            0 <= k < self.small.len() ==> less_than(
                self.scaled[(#[trigger] self.small[k]) as int],
                self.average,
            )
        &&& forall|k: int|
            0 <= k < self.large.len() ==> !less_than(
                self.scaled[(#[trigger] self.large[k]) as int],
                self.average,
            )
        &&& forall|i: int| 0 <= i < self.scaled.len() ==> is_weight(self.scaled[i])
        &&& forall|i: int| 0 <= i < self.alias.len() ==> self.alias[i] < self.prob.len()
        &&& forall|i: int| 0 <= i < self.prob.len() ==> is_probability(self.prob[i])
    }

    /// The pair to settle next, the receiver first and the donor second, while
    /// both sides still have a column.
    pub open spec fn pending(self) -> Option<(usize, usize)> {
        if self.small.len() > 0 && self.large.len() > 0 {
            Some((self.small.last(), self.large.last()))
        } else {
            None
        }
    }

    /// The state after the pending pair is settled. The receiver keeps its own
    /// entry with probability `prob` and hands over to the donor otherwise.
    /// The donor is left with `rest` and waits again: among the small columns
    /// if `rest` is below the mean, among the large ones if it is the mean or
    /// more.
    pub open spec fn settle(self, prob: u64, rest: u64) -> PairingState
        recommends
            self.pending().is_some(),
    {
        let less = self.small.last();
        let more = self.large.last();
        let small = self.small.drop_last();
        let large = self.large.drop_last();
        PairingState {
            average: self.average,
            scaled: self.scaled.update(more as int, rest),
            small: if less_than(rest, self.average) {
                small.push(more)
            } else {
                small
            },
            large: if less_than(rest, self.average) {
                large
            } else {
                large.push(more)
            },
            prob: self.prob.update(less as int, prob),
            alias: self.alias.update(less as int, more),
        }
    }

    /// The probabilities of the finished table: a column that still waits
    /// always keeps its own entry.
    pub open spec fn final_prob(self) -> Seq<u64> {
        Seq::new(
            self.prob.len(),
            |i: int|
                if self.waiting().contains(i as usize) {
                    ONE
                } else {
                    self.prob[i]
                },
        )
    }
}

/// Whether a pairing can start from these values: the mean and every scaled
/// weight must be finite and not negative.
pub open spec fn can_start(scaled: Seq<u64>, average: u64) -> bool {
    is_weight(average) && forall|i: int| 0 <= i < scaled.len() ==> is_weight(scaled[i])
}

/// At the start every column waits: as many as there are scaled weights.
pub proof fn lemma_start(scaled: Seq<u64>, average: u64)
    requires
        scaled.len() <= usize::MAX,
        can_start(scaled, average),
    ensures
        PairingState::start(scaled, average).wf(),
        PairingState::start(scaled, average).waiting().len() == scaled.len(),
{
    let state = PairingState::start(scaled, average);
    lemma_positions(scaled, average, true);
    lemma_positions(scaled, average, false);
    lemma_positions_split(scaled, average);
    let ns = state.small.len() as int;
    assert forall|k: int| 0 <= k < state.waiting().len() implies less_than(
        scaled[state.waiting()[k] as int],
        average,
    ) == (k < ns) by {
        if k < ns {
            assert(state.waiting()[k] == state.small[k]);
        } else {
            assert(state.waiting()[k] == state.large[k - ns]);
        }
    }
    assert forall|j: int, k: int|
        0 <= j < state.waiting().len() && 0 <= k < state.waiting().len() && j
            != k implies state.waiting()[j] != state.waiting()[k] by {
        if j < ns && k < ns {
            assert(state.waiting()[j] == state.small[j]);
            assert(state.waiting()[k] == state.small[k]);
        } else if j >= ns && k >= ns {
            assert(state.waiting()[j] == state.large[j - ns]);
            assert(state.waiting()[k] == state.large[k - ns]);
        }
    }
}

/// The place in `state.waiting()` of the column that waits at place `k` after
/// the pending pair is settled.
spec fn waited_at(state: PairingState, rest: u64, k: int) -> int {
    let ns = state.small.len() as int;
    let nl = state.large.len() as int;
    if k < ns - 1 {
        k
    } else if less_than(rest, state.average) && k == ns - 1 {
        ns + nl - 1
    } else if less_than(rest, state.average) {
        k
    } else {
        k + 1
    }
}

/// Settling a pair keeps the state well formed and leaves one column fewer
/// waiting.
pub proof fn lemma_settle(state: PairingState, prob: u64, rest: u64)
    requires
        state.wf(),
        state.pending().is_some(),
        is_probability(prob),
        is_weight(rest),
    ensures
        state.settle(prob, rest).wf(),
        state.settle(prob, rest).waiting().len() + 1 == state.waiting().len(),
        state.settle(prob, rest).prob.len() == state.prob.len(),
{
    let next = state.settle(prob, rest);
    let ns = state.small.len() as int;
    let nl = state.large.len() as int;
    let less = state.small.last();
    let more = state.large.last();
    assert(state.waiting()[ns - 1] == less);
    assert(state.waiting()[ns + nl - 1] == more);
    assert forall|k: int| 0 <= k < next.waiting().len() implies 0 <= waited_at(state, rest, k)
        < state.waiting().len() && state.waiting()[waited_at(state, rest, k)]
        == #[trigger] next.waiting()[k] by {}
    assert forall|j: int, k: int|
        0 <= j < next.waiting().len() && 0 <= k < next.waiting().len() && j != k implies next.waiting()[j]
        != next.waiting()[k] by {
        assert(waited_at(state, rest, j) != waited_at(state, rest, k));
    }
    assert forall|k: int| 0 <= k < next.small.len() implies next.small[k] < next.prob.len()
        && less_than(next.scaled[(#[trigger] next.small[k]) as int], next.average) by {
        if k < ns - 1 {
            assert(state.waiting()[k] == state.small[k]);
            assert(state.small[k] != more);
        }
    }
    assert forall|k: int| 0 <= k < next.large.len() implies next.large[k] < next.prob.len()
        && !less_than(next.scaled[(#[trigger] next.large[k]) as int], next.average) by {
        if k < nl - 1 {
            assert(state.waiting()[ns + k] == state.large[k]);
            assert(state.large[k] != more);
        }
    }
}

/// The state after `steps`, each the probability and the rest that one pair
/// was settled with.
pub open spec fn after_steps(scaled: Seq<u64>, average: u64, steps: Seq<(u64, u64)>) -> PairingState
    decreases steps.len(),
{
    if steps.len() == 0 {
        PairingState::start(scaled, average)
    } else {
        after_steps(scaled, average, steps.drop_last()).settle(steps.last().0, steps.last().1)
    }
}

/// Whether `steps` can be taken one after the other: each finds a pair
/// pending and settles it with a probability and a rest that are accepted.
pub open spec fn can_step(scaled: Seq<u64>, average: u64, steps: Seq<(u64, u64)>) -> bool
    decreases steps.len(),
{
    steps.len() > 0 ==> {
        &&& can_step(scaled, average, steps.drop_last())
        &&& after_steps(scaled, average, steps.drop_last()).pending().is_some()
        &&& is_probability(steps.last().0)
        &&& is_weight(steps.last().1)
    }
}

/// A pairing of `n` columns takes fewer than `n` steps, whatever the
/// arithmetic says: every step leaves one column fewer waiting, and a step
/// needs two.
pub proof fn lemma_steps(scaled: Seq<u64>, average: u64, steps: Seq<(u64, u64)>)
    requires
        scaled.len() <= usize::MAX,
        can_start(scaled, average),
        can_step(scaled, average, steps),
    ensures
        after_steps(scaled, average, steps).wf(),
        after_steps(scaled, average, steps).prob.len() == scaled.len(),
        after_steps(scaled, average, steps).waiting().len() + steps.len() == scaled.len(),
        steps.len() > 0 ==> steps.len() < scaled.len(),
    decreases steps.len(),
{
    if steps.len() == 0 {
        lemma_start(scaled, average);
    } else {
        let before = after_steps(scaled, average, steps.drop_last());
        lemma_steps(scaled, average, steps.drop_last());
        lemma_settle(before, steps.last().0, steps.last().1);
    }
}

/// A step takes its receiver, and no other column, out of the waiting ones,
/// and writes the receiver's probability and alias, and no other's.
pub proof fn lemma_settled(state: PairingState, prob: u64, rest: u64, column: usize)
    requires
        state.wf(),
        state.pending().is_some(),
        column < state.prob.len(),
    ensures
        state.settle(prob, rest).waiting().contains(column) <==> state.waiting().contains(column)
            && column != state.small.last(),
        column != state.small.last() ==> {
            &&& state.settle(prob, rest).prob[column as int] == state.prob[column as int]
            &&& state.settle(prob, rest).alias[column as int] == state.alias[column as int]
        },
        column == state.small.last() ==> {
            &&& state.settle(prob, rest).prob[column as int] == prob
            &&& state.settle(prob, rest).alias[column as int] == state.large.last()
        },
{
    let next = state.settle(prob, rest);
    let ns = state.small.len() as int;
    let nl = state.large.len() as int;
    let to_small = less_than(rest, state.average);
    assert(state.waiting()[ns - 1] == state.small.last());
    assert(state.waiting()[ns + nl - 1] == state.large.last());
    if next.waiting().contains(column) {
        let k = choose|k: int| 0 <= k < next.waiting().len() && next.waiting()[k] == column;
        assert(state.waiting()[waited_at(state, rest, k)] == column);
    }
    if state.waiting().contains(column) && column != state.small.last() {
        let m = choose|m: int| 0 <= m < state.waiting().len() && state.waiting()[m] == column;
        let k = if m < ns - 1 {
            m
        } else if m == ns + nl - 1 {
            if to_small {
                ns - 1
            } else {
                ns + nl - 2
            }
        } else if to_small {
            m
        } else {
            m - 1
        };
        assert(next.waiting()[k] == column);
    }
}

/// The pair that step number `j` of `steps` settles, the receiver first.
pub open spec fn pair_at(scaled: Seq<u64>, average: u64, steps: Seq<(u64, u64)>, j: int) -> (
    usize,
    usize,
)
    recommends
        0 <= j < steps.len(),
{
    let state = after_steps(scaled, average, steps.take(j));
    (state.small.last(), state.large.last())
}

/// Whether `column` is the receiver of one of `steps`.
pub open spec fn receives(
    scaled: Seq<u64>,
    average: u64,
    steps: Seq<(u64, u64)>,
    column: usize,
) -> bool {
    exists|j: int| 0 <= j < steps.len() && pair_at(scaled, average, steps, j).0 == column
}

/// What a pairing makes of a column. Every column waits until a step has it
/// as its receiver, and never after: so a column receives at most once. The
/// step that it receives in gives it its probability and, as its alias, the
/// donor of that step, for good. A column that never receives still waits at
/// the end, with the alias `0` that it started with, and finishes with the
/// probability one.
pub proof fn lemma_columns(scaled: Seq<u64>, average: u64, steps: Seq<(u64, u64)>, column: usize)
    requires
        scaled.len() <= usize::MAX,
        can_start(scaled, average),
        can_step(scaled, average, steps),
        column < scaled.len(),
    ensures
        after_steps(scaled, average, steps).waiting().contains(column) <==> !receives(
            scaled,
            average,
            steps,
            column,
        ),
        after_steps(scaled, average, steps).waiting().contains(column) ==> {
            &&& after_steps(scaled, average, steps).alias[column as int] == 0
            &&& after_steps(scaled, average, steps).final_prob()[column as int] == ONE
        },
        forall|j: int|
            0 <= j < steps.len() && (#[trigger] pair_at(scaled, average, steps, j)).0 == column ==> {
                &&& after_steps(scaled, average, steps).prob[column as int] == steps[j].0
                &&& after_steps(scaled, average, steps).final_prob()[column as int] == steps[j].0
                &&& after_steps(scaled, average, steps).alias[column as int] == pair_at(
                    scaled,
                    average,
                    steps,
                    j,
                ).1
            },
    decreases steps.len(),
{
    let end = after_steps(scaled, average, steps);
    lemma_steps(scaled, average, steps);
    if steps.len() == 0 {
        lemma_positions(scaled, average, true);
        lemma_positions(scaled, average, false);
        let side = less_than(scaled[column as int], average);
        assert(positions(scaled, average, side).contains(column));
        let m = choose|m: int|
            0 <= m < positions(scaled, average, side).len() && positions(scaled, average, side)[m]
                == column;
        if side {
            assert(end.waiting()[m] == column);
        } else {
            assert(end.waiting()[end.small.len() + m] == column);
        }
    } else {
        let init = steps.drop_last();
        let last = steps.len() - 1;
        let before = after_steps(scaled, average, init);
        lemma_steps(scaled, average, init);
        lemma_columns(scaled, average, init, column);
        lemma_settled(before, steps.last().0, steps.last().1, column);
        assert(steps.take(last) == init);
        assert forall|j: int| 0 <= j < last implies pair_at(scaled, average, steps, j) == pair_at(
            scaled,
            average,
            init,
            j,
        ) by {
            assert(steps.take(j) == init.take(j));
        }
        assert(pair_at(scaled, average, steps, last) == (before.small.last(), before.large.last()));
        assert(before.waiting()[before.small.len() - 1] == before.small.last());
        if receives(scaled, average, init, column) {
            let j = choose|j: int| 0 <= j < init.len() && pair_at(scaled, average, init, j).0 == column;
            assert(pair_at(scaled, average, steps, j).0 == column);
        }
        if receives(scaled, average, steps, column) && before.small.last() != column {
            let j = choose|j: int|
                0 <= j < steps.len() && pair_at(scaled, average, steps, j).0 == column;
            assert(pair_at(scaled, average, init, j).0 == column);
        }
        assert forall|j: int|
            0 <= j < steps.len() && (#[trigger] pair_at(scaled, average, steps, j)).0
                == column implies {
            &&& end.prob[column as int] == steps[j].0
            &&& end.final_prob()[column as int] == steps[j].0
            &&& end.alias[column as int] == pair_at(scaled, average, steps, j).1
        } by {
            if j < last {
                assert(pair_at(scaled, average, init, j).0 == column);
                assert(init[j] == steps[j]);
            }
        }
    }
}

/// A single column is never paired: it keeps its own entry with probability
/// one and names entry `0`, itself, as its alias, whatever it holds.
pub proof fn lemma_single_column(scaled: Seq<u64>, average: u64)
    requires
        scaled.len() == 1,
    ensures
        PairingState::start(scaled, average).pending().is_none(),
        PairingState::start(scaled, average).final_prob() == seq![ONE],
        PairingState::start(scaled, average).alias == seq![0usize],
{
    let state = PairingState::start(scaled, average);
    lemma_positions(scaled, average, true);
    lemma_positions(scaled, average, false);
    lemma_positions_split(scaled, average);
    assert(state.waiting().len() == 1);
    assert(state.waiting()[0] == 0usize) by {
        if state.small.len() == 1 {
            assert(state.waiting()[0] == state.small[0]);
        } else {
            assert(state.waiting()[0] == state.large[0]);
        }
    }
    assert(state.waiting().contains(0usize));
    assert(state.final_prob() =~= seq![ONE]);
    assert(state.alias =~= seq![0usize]);
}

/// A finished alias table: for every column the probability of keeping its
/// own entry, as a bit pattern, and the entry that it hands over to otherwise.
#[derive(Debug)]
pub struct AliasTable {
    prob: Vec<u64>,
    alias: Vec<usize>,
}

impl AliasTable {
    /// The acceptance probabilities, column by column.
    pub closed spec fn prob(self) -> Seq<u64> {
        self.prob@
    }

    /// The aliases, column by column.
    pub closed spec fn alias(self) -> Seq<usize> {
        self.alias@
    }

    /// Both halves have one value per column, every alias is a column, and
    /// every probability is a number in `[0, 1]`.
    #[verifier::type_invariant]
    pub open spec fn wf(self) -> bool {
        &&& self.alias().len() == self.prob().len()
        &&& forall|i: int| 0 <= i < self.alias().len() ==> self.alias()[i] < self.prob().len()
        &&& forall|i: int| 0 <= i < self.prob().len() ==> is_probability(self.prob()[i])
    }

    /// The number of columns.
    pub fn len(&self) -> (n: usize)
        ensures
            n == self.prob().len(),
            n == self.alias().len(),
    {
        proof {
            use_type_invariant(self);
        }
        self.prob.len()
    }

    /// The acceptance probabilities, column by column.
    pub fn probabilities(&self) -> (prob: &Vec<u64>)
        ensures
            prob@ == self.prob(),
            self.wf(),
    {
        proof {
            use_type_invariant(self);
        }
        &self.prob
    }

    /// The aliases, column by column.
    pub fn aliases(&self) -> (alias: &Vec<usize>)
        ensures
            alias@ == self.alias(),
            self.wf(),
    {
        proof {
            use_type_invariant(self);
        }
        &self.alias
    }

    /// Takes the table apart.
    pub(crate) fn into_parts(self) -> (parts: (Vec<u64>, Vec<usize>))
        ensures
            parts.0@ == self.prob(),
            parts.1@ == self.alias(),
            self.wf(),
    {
        proof {
            use_type_invariant(&self);
        }
        (self.prob, self.alias)
    }
}

/// A pairing in progress.
#[derive(Debug)]
pub struct Pairing {
    average: u64,
    scaled: Vec<u64>,
    small: Vec<usize>,
    large: Vec<usize>,
    prob: Vec<u64>,
    alias: Vec<usize>,
}

impl View for Pairing {
    type V = PairingState;

    closed spec fn view(&self) -> PairingState {
        PairingState {
            average: self.average,
            scaled: self.scaled@,
            small: self.small@,
            large: self.large@,
            prob: self.prob@,
            alias: self.alias@,
        }
    }
}

impl Pairing {
    #[verifier::type_invariant]
    spec fn inv(self) -> bool {
        self@.wf()
    }

    /// Begins a pairing. `scaled[i]` is what column `i` holds and `average`
    /// the mean: columns that hold less wait to receive, the others to give.
    ///
    /// Fails with `InvalidWeight` if the mean or a scaled weight is negative,
    /// infinite or not a number.
    pub fn start(scaled: Vec<u64>, average: u64) -> (r: Result<Pairing, PickerError>)
        ensures
            match r {
                Ok(pairing) => can_start(scaled@, average) && pairing@ == PairingState::start(
                    scaled@,
                    average,
                ) && pairing@.wf(),
                Err(e) => !can_start(scaled@, average) && e == PickerError::InvalidWeight,
            },
    {
        if !usable_weight(average) {
            return Err(PickerError::InvalidWeight);
        }
        let n = scaled.len();
        let mut i: usize = 0;
        while i < n
            invariant
                n == scaled@.len(),
                i <= n,
                forall|k: int| 0 <= k < i ==> is_weight(scaled@[k]),
            decreases n - i,
        {
            if !usable_weight(scaled[i]) {
                return Err(PickerError::InvalidWeight);
            }
            i += 1;
        }
        let (small, large) = split_columns(&scaled, average);
        let prob = vec![0u64; n];
        let alias = vec![0usize; n];
        proof {
            lemma_start(scaled@, average);
            assert(PairingState::start(scaled@, average).prob =~= prob@);
            assert(PairingState::start(scaled@, average).alias =~= alias@);
        }
        Ok(Pairing { average, scaled, small, large, prob, alias })
    }

    /// A pairing of no columns around a mean of zero: nothing waits or is held.
    fn idle() -> (pairing: Pairing)
        ensures
            pairing@ == PairingState::start(Seq::<u64>::empty(), 0u64),
            pairing@.prob == Seq::<u64>::empty(),
            pairing@.alias == Seq::<usize>::empty(),
            pairing@.waiting() == Seq::<usize>::empty(),
            pairing@.wf(),
    {
        let pairing = Pairing {
            average: 0,
            scaled: Vec::new(),
            small: Vec::new(),
            large: Vec::new(),
            prob: Vec::new(),
            alias: Vec::new(),
        };
        proof {
            let start = PairingState::start(Seq::<u64>::empty(), 0u64);
            assert(start.small =~= Seq::<usize>::empty());
            assert(start.large =~= Seq::<usize>::empty());
            assert(start.prob =~= Seq::<u64>::empty());
            assert(start.alias =~= Seq::<usize>::empty());
            assert(pairing@.waiting() =~= Seq::<usize>::empty());
        }
        pairing
    }

    /// The number of columns.
    pub fn len(&self) -> (n: usize)
        ensures
            n == self@.prob.len(),
    {
        self.prob.len()
    }

    /// What every column holds by now.
    pub fn scaled(&self) -> (scaled: &Vec<u64>)
        ensures
            scaled@ == self@.scaled,
            self@.wf(),
    {
        proof {
            use_type_invariant(self);
        }
        &self.scaled
    }

    /// The pair to settle next, the receiver first and the donor second; `None`
    /// once either side has run out of columns.
    pub fn pending(&self) -> (pair: Option<(usize, usize)>)
        ensures
            pair == self@.pending(),
            self@.wf(),
            pair matches Some((less, more)) ==> less < self@.prob.len() && more
                < self@.prob.len() && less != more,
    {
        proof {
            use_type_invariant(self);
        }
        let ns = self.small.len();
        let nl = self.large.len();
        if ns > 0 && nl > 0 {
            proof {
                assert(self@.waiting()[ns - 1] == self.small@[ns - 1]);
                assert(self@.waiting()[ns + nl - 1] == self.large@[nl - 1]);
            }
            Some((self.small[ns - 1], self.large[nl - 1]))
        } else {
            None
        }
    }

    /// Settles the pending pair. The receiver keeps its own entry with
    /// probability `prob` and hands over to the donor otherwise. The donor,
    /// which has given up what the receiver lacked, is left with `rest` and
    /// waits again: among the small columns if `rest` is below the mean, among
    /// the large ones if not.
    ///
    /// Fails with `InvalidWeight`, and changes nothing, if `prob` is not a
    /// number in `[0, 1]` or `rest` is negative, infinite or not a number.
    pub fn settle(&mut self, prob: u64, rest: u64) -> (r: Result<(), PickerError>)
        requires
            old(self)@.pending().is_some(),
        ensures
            is_probability(prob) && is_weight(rest) ==> r == Ok::<(), PickerError>(())
                && final(self)@ == old(self)@.settle(prob, rest),
            !(is_probability(prob) && is_weight(rest)) ==> r == Err::<(), PickerError>(
                PickerError::InvalidWeight,
            ) && final(self)@ == old(self)@,
            final(self)@.wf(),
    {
        proof {
            use_type_invariant(&*self);
        }
        if !probability(prob) || !usable_weight(rest) {
            return Err(PickerError::InvalidWeight);
        }
        let ghost before = self@;
        proof {
            lemma_settle(before, prob, rest);
        }
        let mut taken = Pairing::idle();
        core::mem::swap(self, &mut taken);
        let Pairing { average, mut scaled, mut small, mut large, prob: mut table, mut alias } =
            taken;
        let ns = small.len();
        let nl = large.len();
        proof {
            assert(before.waiting()[ns - 1] == small@[ns - 1]);
            assert(before.waiting()[ns + nl - 1] == large@[nl - 1]);
        }
        let less = small[ns - 1];
        let more = large[nl - 1];
        small.pop();
        large.pop();
        table[less] = prob;
        alias[less] = more;
        scaled[more] = rest;
        if below(rest, average) {
            small.push(more);
        } else {
            large.push(more);
        }
        proof {
            assert(small@ =~= before.settle(prob, rest).small);
            assert(large@ =~= before.settle(prob, rest).large);
        }
        *self = Pairing { average, scaled, small, large, prob: table, alias };
        Ok(())
    }

    /// Ends the pairing, once one side has run out of columns. Every column
    /// that still waits on the other side keeps its own entry with probability
    /// one.
    pub fn finish(self) -> (table: AliasTable)
        requires
            self@.pending().is_none(),
        ensures
            table.prob() == self@.final_prob(),
            table.alias() == self@.alias,
            table.wf(),
    {
        proof {
            use_type_invariant(&self);
        }
        let ghost before = self@;
        let Pairing { small, large, mut prob, alias, .. } = self;
        keep_own(&mut prob, small);
        keep_own(&mut prob, large);
        proof {
            let ns = before.small.len() as int;
            assert(prob.len() == prob@.len());
            assert forall|i: int| 0 <= i < prob@.len() implies prob@[i]
                == before.final_prob()[i] by {
                let x = i as usize;
                if before.small.contains(x) {
                    let m = choose|m: int| 0 <= m < before.small.len() && before.small[m] == x;
                    assert(before.waiting()[m] == x);
                } else if before.large.contains(x) {
                    let m = choose|m: int| 0 <= m < before.large.len() && before.large[m] == x;
                    assert(before.waiting()[ns + m] == x);
                } else if before.waiting().contains(x) {
                    let m = choose|m: int|
                        0 <= m < before.waiting().len() && before.waiting()[m] == x;
                    if m < ns {
                        assert(before.small[m] == x);
                    } else {
                        assert(before.large[m - ns] == x);
                    }
                }
            }
            assert(prob@ =~= before.final_prob());
        }
        AliasTable { prob, alias }
    }
}

/// Gives each of `columns`, from the last to the first, the probability one.
fn keep_own(prob: &mut Vec<u64>, columns: Vec<usize>)
    requires
        forall|k: int| 0 <= k < columns@.len() ==> columns@[k] < old(prob)@.len(),
    ensures
        final(prob)@.len() == old(prob)@.len(),
        forall|x: usize|
            x < old(prob)@.len() ==> final(prob)@[x as int] == (if columns@.contains(x) {
                ONE
            } else {
                old(prob)@[x as int]
            }),
{
    let ghost all = columns@;
    let mut columns = columns;
    assert(all.skip(all.len() as int) =~= Seq::<usize>::empty());
    while columns.len() > 0
        invariant
            columns@.len() <= all.len(),
            columns@ == all.take(columns@.len() as int),
            prob@.len() == old(prob)@.len(),
            forall|k: int| 0 <= k < all.len() ==> all[k] < old(prob)@.len(),
            forall|x: usize|
                x < prob@.len() ==> prob@[x as int] == (if all.skip(columns@.len() as int).contains(
                    x,
                ) {
                    ONE
                } else {
                    old(prob)@[x as int]
                }),
        decreases columns.len(),
    {
        let ghost kept = columns@.len() as int;
        let last = columns[columns.len() - 1];
        columns.pop();
        prob[last] = ONE;
        proof {
            let done = all.skip(kept);
            let now = all.skip(kept - 1);
            assert(now[0] == last);
            assert forall|x: usize| x < prob@.len() implies prob@[x as int] == (if now.contains(x) {
                ONE
            } else {
                old(prob)@[x as int]
            }) by {
                if done.contains(x) {
                    let m = choose|m: int| 0 <= m < done.len() && done[m] == x;
                    assert(now[m + 1] == x);
                } else if now.contains(x) {
                    let m = choose|m: int| 0 <= m < now.len() && now[m] == x;
                    if m > 0 {
                        assert(done[m - 1] == x);
                    }
                } else {
                    assert(x != last);
                }
            }
        }
    }
    assert(all.skip(0) =~= all);
}

} // verus!
