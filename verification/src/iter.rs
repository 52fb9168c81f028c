//! Iteration over the entries of a [`WeightedPicker`] in order of weight.

use vstd::prelude::*;
use itertools::Itertools;
use crate::weight::total_rank;
use crate::WeightedPicker;

verus! {

/// `order` names every one of `n` entries exactly once.
pub open spec fn is_permutation(order: Seq<usize>, n: nat) -> bool {
    &&& order.len() == n
    &&& order.no_duplicates()
    &&& forall|k: int| 0 <= k < order.len() ==> order[k] < n
    &&& forall|i: usize| i < n ==> order.contains(i)
}

/// No two entries have the same weight, bit for bit.
pub open spec fn distinct_weights<T>(entries: Seq<(T, u64)>) -> bool {
    forall|i: int, j: int|
        0 <= i < entries.len() && 0 <= j < entries.len() && i != j ==> entries[i].1 != entries[j].1
}

/// Walking `order` never comes to a lighter entry: weights ascend in the
/// total order of their bit patterns.
pub open spec fn ascending<T>(order: Seq<usize>, entries: Seq<(T, u64)>) -> bool {
    forall|j: int, k: int|
        0 <= j <= k < order.len() ==> total_rank(entries[order[j] as int].1) <= total_rank(
            entries[order[k] as int].1,
        )
}

/// The two ends of an iteration over `n` sorted positions.
pub struct Cursor {
    /// The position that the front yields next.
    pub front: nat,
    /// The position that the back yields next.
    pub back: nat,
    /// Set once the back has yielded position `0`.
    pub exhausted_back: bool,
}

impl Cursor {
    /// Both ends before anything is yielded.
    pub open spec fn start(n: nat) -> Cursor {
        Cursor { front: 0, back: (n - 1) as nat, exhausted_back: false }
    }

    /// The ends lie within `n` positions and have crossed by at most one.
    pub open spec fn wf(self, n: nat) -> bool {
        &&& self.back < n
        &&& self.front <= self.back + 1
        &&& self.exhausted_back ==> self.back == 0
    }

    /// The position that the front yields, if it yields.
    pub open spec fn head(self) -> Option<nat> {
        if self.front > self.back {
            None
        } else {
            Some(self.front)
        }
    }

    /// The ends after the front was asked.
    pub open spec fn advance(self) -> Cursor {
        if self.front > self.back {
            self
        } else {
            Cursor { front: self.front + 1, ..self }
        }
    }

    /// The position that the back yields, if it yields.
    pub open spec fn tail(self) -> Option<nat> {
        if self.exhausted_back || self.back < self.front {
            None
        } else {
            Some(self.back)
        }
    }

    /// The ends after the back was asked.
    pub open spec fn retreat(self) -> Cursor {
        if self.exhausted_back || self.back < self.front {
            self
        } else if self.back == 0 {
            Cursor { exhausted_back: true, ..self }
        } else {
            Cursor { back: (self.back - 1) as nat, ..self }
        }
    }

    /// The number of positions not yet yielded.
    pub open spec fn remaining(self) -> nat {
        if self.exhausted_back || self.front > self.back {
            0
        } else {
            (1 + self.back - self.front) as nat
        }
    }
}

/// How many of `calls` went to the end `end`: `true` is the front, `false`
/// the back.
pub open spec fn count(calls: Seq<bool>, end: bool) -> nat
    decreases calls.len(),
{
    if calls.len() == 0 {
        0
    } else if calls.last() == end {
        count(calls.drop_last(), end) + 1
    } else {
        count(calls.drop_last(), end)
    }
}

/// The ends of an iteration over `n` positions after `calls`, each `true` for
/// a call of the front and `false` for a call of the back.
pub open spec fn after(n: nat, calls: Seq<bool>) -> Cursor
    decreases calls.len(),
{
    if calls.len() == 0 {
        Cursor::start(n)
    } else if calls.last() {
        after(n, calls.drop_last()).advance()
    } else {
        after(n, calls.drop_last()).retreat()
    }
}

/// The position that call number `j` of `calls` yields, if it yields.
pub open spec fn yielded(n: nat, calls: Seq<bool>, j: int) -> Option<nat>
    recommends
        0 <= j < calls.len(),
{
    if calls[j] {
        after(n, calls.take(j)).head()
    } else {
        after(n, calls.take(j)).tail()
    }
}

/// Where the ends are after at most `n` calls: the front has moved up by the
/// number of calls to it and the back down by the number of calls to it, and
/// the number of positions left has gone down by one with every call. It
/// starts at `n` and is `0` after `n` calls.
pub proof fn lemma_after(n: nat, calls: Seq<bool>)
    requires
        n >= 1,
        calls.len() <= n,
    ensures
        count(calls, true) + count(calls, false) == calls.len(),
        after(n, calls).wf(n),
        after(n, calls).front == count(calls, true),
        after(n, calls).exhausted_back <==> count(calls, false) == n,
        after(n, calls).back == (if count(calls, false) == n {
            0
        } else {
            n - 1 - count(calls, false)
        }),
        after(n, calls).remaining() == n - calls.len(),
    decreases calls.len(),
{
    if calls.len() > 0 {
        lemma_after(n, calls.drop_last());
    }
}

/// Every one of the first `n` calls yields: a call of the front yields the
/// position after those that the front has yielded before, which start at
/// `0`, and a call of the back the position before those that the back has
/// yielded before, which start at `n - 1`.
pub proof fn lemma_yielded(n: nat, calls: Seq<bool>, j: int)
    requires
        n >= 1,
        calls.len() <= n,
        0 <= j < calls.len(),
    ensures
        yielded(n, calls, j) == Some(
            if calls[j] {
                count(calls.take(j), true)
            } else {
                (n - 1 - count(calls.take(j), false)) as nat
            },
        ),
        yielded(n, calls, j).unwrap() < n,
{
    lemma_after(n, calls.take(j));
}

/// Counting further along a run of calls never counts fewer.
proof fn lemma_count_grows(calls: Seq<bool>, end: bool, j: int, k: int)
    requires
        0 <= j <= k <= calls.len(),
    ensures
        count(calls.take(j), end) <= count(calls.take(k), end),
        j < k && calls[j] == end ==> count(calls.take(j), end) < count(calls.take(k), end),
    decreases k - j,
{
    if j < k {
        assert(calls.take(k).drop_last() == calls.take(k - 1));
        lemma_count_grows(calls, end, j, k - 1);
    }
}

/// No two of the first `n` calls yield the same position, whichever ends they
/// go to.
pub proof fn lemma_yielded_once(n: nat, calls: Seq<bool>, j: int, k: int)
    requires
        n >= 1,
        calls.len() <= n,
        0 <= j < k < calls.len(),
    ensures
        yielded(n, calls, j) != yielded(n, calls, k),
{
    lemma_yielded(n, calls, j);
    lemma_yielded(n, calls, k);
    lemma_count_grows(calls, true, j, k);
    lemma_count_grows(calls, false, j, k);
    assert(calls.take(k + 1).drop_last() == calls.take(k));
    lemma_after(n, calls.take(k + 1));
}

/// `n` calls, to whichever ends, yield every position: those below the number
/// of calls to the front are yielded by the front, the others by the back.
pub proof fn lemma_yielded_all(n: nat, calls: Seq<bool>, position: nat)
    requires
        n >= 1,
        calls.len() == n,
        position < n,
    ensures
        exists|j: int| 0 <= j < calls.len() && yielded(n, calls, j) == Some(position),
{
    assert(calls.take(calls.len() as int) == calls);
    lemma_after(n, calls);
    lemma_reached(n, calls, calls.len() as int, position);
}

/// The first `m` calls yield the positions below the number of calls to the
/// front among them, and the positions within the number of calls to the back
/// from the top.
proof fn lemma_reached(n: nat, calls: Seq<bool>, m: int, position: nat)
    requires
        n >= 1,
        calls.len() <= n,
        0 <= m <= calls.len(),
        position < count(calls.take(m), true) || n - count(calls.take(m), false) <= position < n,
    ensures
        exists|j: int| 0 <= j < m && yielded(n, calls, j) == Some(position),
    decreases m,
{
    assert(m > 0) by {
        if m == 0 {
            assert(calls.take(0).len() == 0);
        }
    }
    let j = m - 1;
    assert(calls.take(m).drop_last() == calls.take(j));
    assert(calls.take(m).last() == calls[j]);
    lemma_yielded(n, calls, j);
    lemma_after(n, calls.take(j));
    if yielded(n, calls, j) != Some(position) {
        lemma_reached(n, calls, j, position);
        let i = choose|i: int| 0 <= i < j && yielded(n, calls, i) == Some(position);
        assert(0 <= i < m && yielded(n, calls, i) == Some(position));
    }
}

/// A front that is called `n` times and alone yields the positions in
/// ascending order; a back that is called `n` times and alone yields them in
/// descending order.
pub proof fn lemma_one_end(n: nat, end: bool, j: int)
    requires
        n >= 1,
        0 <= j < n,
    ensures
        yielded(n, Seq::new(n, |i: int| end), j) == Some(
            if end {
                j as nat
            } else {
                (n - 1 - j) as nat
            },
        ),
{
    let calls = Seq::new(n, |i: int| end);
    lemma_yielded(n, calls, j);
    lemma_count_same(calls.take(j), end);
}

/// Calls that all go to one end are all counted for it.
proof fn lemma_count_same(calls: Seq<bool>, end: bool)
    requires
        forall|i: int| 0 <= i < calls.len() ==> calls[i] == end,
    ensures
        count(calls, end) == calls.len(),
        count(calls, !end) == 0,
    decreases calls.len(),
{
    if calls.len() > 0 {
        lemma_count_same(calls.drop_last(), end);
    }
}

/// After `n` calls nothing is left. The back yields nothing from then on, and
/// neither does the front if it was called at least once. If every call went
/// to the back, the front has not passed the back, and yields the first
/// position once more before it yields nothing.
pub proof fn lemma_drained(n: nat, calls: Seq<bool>)
    requires
        n >= 1,
        calls.len() == n,
    ensures
        after(n, calls).remaining() == 0,
        after(n, calls).tail().is_none(),
        after(n, calls).retreat() == after(n, calls),
        count(calls, true) > 0 ==> after(n, calls).head().is_none() && after(n, calls).advance()
            == after(n, calls),
        count(calls, true) == 0 ==> after(n, calls).head() == Some(0nat) && after(
            n,
            calls,
        ).advance().head().is_none() && after(n, calls).advance().remaining() == 0,
{
    lemma_after(n, calls);
}

/// The indices `0..n` in ascending order, collected with
/// [`itertools::Itertools::collect_vec`].
#[verifier::external_body]
fn index_range(n: usize) -> (range: Vec<usize>)
    ensures
        range@ == Seq::new(n as nat, |i: int| i as usize),
{
    (0..n).collect_vec()
}

/// Sorts `order` by the weights of the entries that it names, lightest first,
/// with `sort_unstable_by_key` of slices. The sort rearranges what it is given
/// and leaves the keys ascending; among entries of one weight any order may
/// come out.
#[verifier::external_body]
fn sort_by_weight<T>(order: &mut Vec<usize>, picker: &WeightedPicker<T>)
    requires
        forall|k: int| 0 <= k < old(order)@.len() ==> old(order)@[k] < picker.entries().len(),
    ensures
        final(order)@.to_multiset() == old(order)@.to_multiset(),
        ascending(final(order)@, picker.entries()),
{
    order.sort_unstable_by_key(|idx| picker.sort_key(*idx));
}

/// A rearrangement of `0..n` is a permutation of `n` entries.
proof fn lemma_rearranged_range(order: Seq<usize>, n: usize)
    requires
        order.to_multiset() == Seq::new(n as nat, |i: int| i as usize).to_multiset(),
    ensures
        is_permutation(order, n as nat),
{
    broadcast use vstd::seq_lib::group_to_multiset_ensures;

    let range = Seq::new(n as nat, |i: int| i as usize);
    assert(range.no_duplicates());
    range.lemma_multiset_has_no_duplicates();
    order.lemma_multiset_has_no_duplicates_conv();
    assert(order.len() == order.to_multiset().len());
    assert(range.len() == range.to_multiset().len());
    assert forall|k: int| 0 <= k < order.len() implies order[k] < n by {
        assert(order.contains(order[k]));
        assert(order.to_multiset().count(order[k]) > 0);
        assert(range.contains(order[k]));
    }
    assert forall|i: usize| i < n implies order.contains(i) by {
        assert(range[i as int] == i);
        assert(range.contains(i));
        assert(range.to_multiset().count(i) > 0);
    }
}

/// Two orders of the same entries by weight agree up to position `k`, if no
/// two weights are the same.
proof fn lemma_order_agrees<T>(a: Seq<usize>, b: Seq<usize>, entries: Seq<(T, u64)>, k: int)
    requires
        is_permutation(a, entries.len()),
        is_permutation(b, entries.len()),
        ascending(a, entries),
        ascending(b, entries),
        distinct_weights(entries),
        0 <= k < entries.len(),
    ensures
        a[k] == b[k],
    decreases k,
{
    assert forall|j: int| 0 <= j < k implies a[j] == b[j] by {
        lemma_order_agrees(a, b, entries, j);
    }
    let x = a[k];
    let y = b[k];
    if x != y {
        assert(b.contains(x));
        let j = choose|j: int| 0 <= j < b.len() && b[j] == x;
        assert(a.contains(y));
        let i = choose|i: int| 0 <= i < a.len() && a[i] == y;
        assert(j > k) by {
            if j < k {
                assert(a[j] == a[k]);
            }
        }
        assert(i > k) by {
            if i < k {
                assert(b[i] == b[k]);
            }
        }
        assert(total_rank(entries[y as int].1) <= total_rank(entries[b[j] as int].1));
        assert(total_rank(entries[x as int].1) <= total_rank(entries[a[i] as int].1));
        crate::weight::lemma_total_rank_injective(entries[x as int].1, entries[y as int].1);
    }
}

/// Where no two weights are the same, there is one order by weight and no
/// other: what the iterator yields is then settled by the weights alone.
pub proof fn lemma_order_unique<T>(a: Seq<usize>, b: Seq<usize>, entries: Seq<(T, u64)>)
    requires
        is_permutation(a, entries.len()),
        is_permutation(b, entries.len()),
        ascending(a, entries),
        ascending(b, entries),
        distinct_weights(entries),
    ensures
        a == b,
{
    assert forall|k: int| 0 <= k < a.len() implies a[k] == b[k] by {
        lemma_order_agrees(a, b, entries, k);
    }
    assert(a =~= b);
}

/// The entry that call number `j` of `calls` yields from an iteration in the
/// order `order`, if it yields.
pub open spec fn yielded_entry(order: Seq<usize>, calls: Seq<bool>, j: int) -> Option<usize>
    recommends
        0 <= j < calls.len(),
{
    match yielded(order.len(), calls, j) {
        Some(position) => Some(order[position as int]),
        None => None,
    }
}

/// Whether one of `calls` yields `entry`.
pub open spec fn comes_out(order: Seq<usize>, calls: Seq<bool>, entry: usize) -> bool {
    exists|j: int| 0 <= j < calls.len() && yielded_entry(order, calls, j) == Some(entry)
}

/// As many calls as there are entries, to whichever ends, yield every entry,
/// and none of them twice.
pub proof fn lemma_every_entry_once(order: Seq<usize>, calls: Seq<bool>)
    requires
        order.len() >= 1,
        is_permutation(order, order.len()),
        calls.len() == order.len(),
    ensures
        forall|j: int| 0 <= j < calls.len() ==> (#[trigger] yielded_entry(order, calls, j)).is_some(),
        forall|j: int, k: int|
            0 <= j < k < calls.len() ==> yielded_entry(order, calls, j) != yielded_entry(
                order,
                calls,
                k,
            ),
        forall|entry: usize| entry < order.len() ==> #[trigger] comes_out(order, calls, entry),
{
    let n = order.len();
    assert forall|j: int| 0 <= j < calls.len() implies (#[trigger] yielded_entry(
        order,
        calls,
        j,
    )).is_some() by {
        lemma_yielded(n, calls, j);
    }
    assert forall|j: int, k: int| 0 <= j < k < calls.len() implies yielded_entry(order, calls, j)
        != yielded_entry(order, calls, k) by {
        lemma_yielded(n, calls, j);
        lemma_yielded(n, calls, k);
        lemma_yielded_once(n, calls, j, k);
    }
    assert forall|entry: usize| entry < order.len() implies #[trigger] comes_out(
        order,
        calls,
        entry,
    ) by {
        assert(order.contains(entry));
        let position = choose|position: int| 0 <= position < order.len() && order[position] == entry;
        lemma_yielded_all(n, calls, position as nat);
        let j = choose|j: int| 0 <= j < calls.len() && yielded(n, calls, j) == Some(position as nat);
        assert(yielded_entry(order, calls, j) == Some(entry));
    }
}

/// Borrowing iterator over the entries of a [`WeightedPicker`], lightest
/// first. It can be asked from both ends.
pub struct Iter<'a, T> {
    inner: &'a WeightedPicker<T>,
    idx_list: Vec<usize>,
    front_idx: usize,
    back_idx: usize,
    exhausted_back: bool,
}

impl<'a, T> Iter<'a, T> {
    /// The picker that is iterated over.
    pub closed spec fn picker(self) -> WeightedPicker<T> {
        *self.inner
    }

    /// The indices of the entries, sorted by weight.
    pub closed spec fn order(self) -> Seq<usize> {
        self.idx_list@
    }

    /// The two ends.
    pub closed spec fn cursor(self) -> Cursor {
        Cursor {
            front: self.front_idx as nat,
            back: self.back_idx as nat,
            exhausted_back: self.exhausted_back,
        }
    }

    /// The order names every entry of the picker once, lightest first, and the
    /// ends lie within it.
    #[verifier::type_invariant]
    pub open spec fn wf(self) -> bool {
        &&& self.picker().wf()
        &&& is_permutation(self.order(), self.picker().entries().len())
        &&& ascending(self.order(), self.picker().entries())
        &&& self.cursor().wf(self.order().len())
    }

    /// The entry at a sorted position.
    pub open spec fn entry(self, position: nat) -> T {
        self.picker().entries()[self.order()[position as int] as int].0
    }

    /// Sorts the entries of `inner` by weight and places one end before the
    /// lightest and the other behind the heaviest.
    pub fn new(inner: &'a WeightedPicker<T>) -> (iter: Self)
        ensures
            iter.picker() == *inner,
            iter.cursor() == Cursor::start(inner.entries().len()),
            iter.wf(),
    {
        let n = inner.len();
        let mut idx_list = index_range(n);
        sort_by_weight(&mut idx_list, inner);
        proof {
            lemma_rearranged_range(idx_list@, n);
        }
        Iter { inner, idx_list, front_idx: 0, back_idx: n - 1, exhausted_back: false }
    }

    /// Yields the lightest entry not yet yielded from the front, and moves the
    /// front on. Yields nothing once the front has passed the back.
    pub fn next(&mut self) -> (item: Option<&'a T>)
        ensures
            final(self).picker() == old(self).picker(),
            final(self).order() == old(self).order(),
            final(self).cursor() == old(self).cursor().advance(),
            match old(self).cursor().head() {
                Some(position) => item.is_some() && *item.unwrap() == old(self).entry(position),
                None => item.is_none(),
            },
    {
        proof {
            use_type_invariant(&*self);
            assert(self.idx_list@.len() == self.idx_list.len());
        }
        if self.front_idx > self.back_idx {
            None
        } else {
            let idx = self.front_idx;
            self.front_idx += 1;
            let real_idx = self.idx_list[idx];
            self.inner.get_by_idx(real_idx)
        }
    }

    /// Yields the heaviest entry not yet yielded from the back, and moves the
    /// back on. Yields nothing once the back has yielded the lightest entry or
    /// has passed the front.
    pub fn next_back(&mut self) -> (item: Option<&'a T>)
        ensures
            final(self).picker() == old(self).picker(),
            final(self).order() == old(self).order(),
            final(self).cursor() == old(self).cursor().retreat(),
            match old(self).cursor().tail() {
                Some(position) => item.is_some() && *item.unwrap() == old(self).entry(position),
                None => item.is_none(),
            },
    {
        proof {
            use_type_invariant(&*self);
        }
        if self.exhausted_back || self.back_idx < self.front_idx {
            None
        } else {
            let idx = self.back_idx;
            if self.back_idx == 0 {
                self.exhausted_back = true;
            } else {
                self.back_idx -= 1;
            }
            let real_idx = self.idx_list[idx];
            self.inner.get_by_idx(real_idx)
        }
    }

    /// The number of entries not yet yielded.
    pub fn len(&self) -> (n: usize)
        ensures
            n == self.cursor().remaining(),
    {
        proof {
            use_type_invariant(self);
            assert(self.idx_list@.len() == self.idx_list.len());
        }
        if self.exhausted_back || self.front_idx > self.back_idx {
            0
        } else {
            1 + self.back_idx - self.front_idx
        }
    }

    /// The number of entries not yet yielded, as both bounds.
    pub fn size_hint(&self) -> (bounds: (usize, Option<usize>))
        ensures
            bounds.0 == self.cursor().remaining(),
            bounds.1 == Some(bounds.0),
    {
        (self.len(), Some(self.len()))
    }
}

} // verus!
