//! Weighted random picking in constant time with the alias method.
//!
//! A [`WeightedPicker`] holds entries with their weights and an alias table
//! over them. Given a column drawn uniformly from the table and a coin drawn
//! uniformly from `[0, 1)`, it names an entry in constant time. Weights,
//! probabilities and coins are IEEE 754 doubles held as bit patterns (see
//! [`weight`]); the table is filled by a [`table::Pairing`].

use vstd::prelude::*;

pub mod error;
pub mod iter;
pub mod table;
pub mod weight;

use crate::error::PickerError;
use crate::iter::Iter;
use crate::table::AliasTable;
use crate::weight::{
    below, is_probability, is_weight, is_zero, less_than, total_key, total_rank, usable_weight,
    zero,
};

verus! {

/// Weights that a picker can be built on: each is finite and not negative, and
/// at least one is above zero, so that their total is.
pub open spec fn usable_weights<T>(entries: Seq<(T, u64)>) -> bool {
    &&& forall|i: int| 0 <= i < entries.len() ==> is_weight((#[trigger] entries[i]).1)
    &&& exists|i: int| 0 <= i < entries.len() && !is_zero((#[trigger] entries[i]).1)
}

/// Why a picker cannot be built from `entries` and a table of `columns`
/// columns, if it cannot.
pub open spec fn refusal<T>(entries: Seq<(T, u64)>, columns: nat) -> Option<PickerError> {
    if entries.len() == 0 || columns != entries.len() {
        Some(PickerError::InvalidInput)
    } else if !usable_weights(entries) {
        Some(PickerError::InvalidWeight)
    } else {
        None
    }
}

/// The entry that a draw names: the column itself if the coin falls below the
/// column's acceptance probability, the column's alias if not.
pub open spec fn sample_index(prob: Seq<u64>, alias: Seq<usize>, column: usize, coin: u64) -> usize
    recommends
        column < prob.len(),
        column < alias.len(),
{
    if less_than(coin, prob[column as int]) {
        column
    } else {
        alias[column as int]
    }
}

/// Tests the weights of `entries`.
pub fn validate<T>(entries: &[(T, u64)]) -> (r: Result<(), PickerError>)
    ensures
        r == (match refusal(entries@, entries@.len()) {
            Some(e) => Err::<(), PickerError>(e),
            None => Ok::<(), PickerError>(()),
        }),
{
    let n = entries.len();
    if n == 0 {
        return Err(PickerError::InvalidInput);
    }
    let mut positive: bool = false;
    let mut i: usize = 0;
    while i < n
        invariant
            n == entries@.len(),
            i <= n,
            forall|k: int| 0 <= k < i ==> is_weight((#[trigger] entries@[k]).1),
            positive <==> exists|k: int| 0 <= k < i && !is_zero((#[trigger] entries@[k]).1),
        decreases n - i,
    {
        let w = entries[i].1;
        if !usable_weight(w) {
            return Err(PickerError::InvalidWeight);
        }
        if !zero(w) {
            positive = true;
        }
        i += 1;
    }
    if positive {
        Ok(())
    } else {
        Err(PickerError::InvalidWeight)
    }
}

/// Entries with their weights and an alias table over them.
#[derive(Debug)]
pub struct WeightedPicker<T> {
    prob: Vec<u64>,
    alias: Vec<usize>,
    items: Vec<(T, u64)>,
}

impl<T> WeightedPicker<T> {
    /// The entries, each with its weight.
    pub closed spec fn entries(self) -> Seq<(T, u64)> {
        self.items@
    }

    /// The acceptance probability of each column.
    pub closed spec fn prob(self) -> Seq<u64> {
        self.prob@
    }

    /// The alias of each column.
    pub closed spec fn alias(self) -> Seq<usize> {
        self.alias@
    }

    /// There is at least one entry, the table has one column per entry, every
    /// alias is the index of an entry, and every probability is a number in
    /// `[0, 1]`.
    #[verifier::type_invariant]
    pub open spec fn wf(self) -> bool {
        &&& self.entries().len() >= 1
        &&& self.prob().len() == self.entries().len()
        &&& self.alias().len() == self.entries().len()
        &&& forall|i: int| 0 <= i < self.alias().len() ==> self.alias()[i] < self.entries().len()
        &&& forall|i: int| 0 <= i < self.prob().len() ==> is_probability(self.prob()[i])
    }

    /// Builds a picker from entries and the alias table made for them.
    ///
    /// Fails with `InvalidInput` if there are no entries or the table has
    /// another number of columns, and with `InvalidWeight` if a weight is
    /// negative, infinite or not a number, or if all weights are zero.
    pub fn new(entries: Vec<(T, u64)>, table: AliasTable) -> (r: Result<Self, PickerError>)
        ensures
            match r {
                Ok(picker) => {
                    &&& refusal(entries@, table.prob().len()).is_none()
                    &&& picker.entries() == entries@
                    &&& picker.prob() == table.prob()
                    &&& picker.alias() == table.alias()
                    &&& picker.wf()
                    &&& usable_weights(picker.entries())
                },
                Err(e) => refusal(entries@, table.prob().len()) == Some(e),
            },
    {
        if entries.len() == 0 || table.len() != entries.len() {
            return Err(PickerError::InvalidInput);
        }
        if validate(entries.as_slice()).is_err() {
            return Err(PickerError::InvalidWeight);
        }
        let (prob, alias) = table.into_parts();
        Ok(WeightedPicker { prob, alias, items: entries })
    }

    /// The entry that the draw of `column` and `coin` names.
    pub fn get(&self, column: usize, coin: u64) -> (item: &T)
        requires
            column < self.entries().len(),
        ensures
            *item == self.entries()[sample_index(
                self.prob(),
                self.alias(),
                column,
                coin,
            ) as int].0,
    {
        let idx = self.get_idx(column, coin);
        &self.items[idx].0
    }

    /// The index of the entry that the draw of `column` and `coin` names.
    /// `column` is drawn uniformly from the columns and `coin`, a bit pattern,
    /// uniformly from `[0, 1)`.
    pub fn get_idx(&self, column: usize, coin: u64) -> (idx: usize)
        requires
            column < self.entries().len(),
        ensures
            idx == sample_index(self.prob(), self.alias(), column, coin),
            idx < self.entries().len(),
    {
        proof {
            use_type_invariant(self);
        }
        if below(coin, self.prob[column]) {
            column
        } else {
            self.alias[column]
        }
    }

    /// The number of entries, which is never zero.
    pub fn len(&self) -> (n: usize)
        ensures
            n == self.entries().len(),
            n >= 1,
            self.wf(),
    {
        proof {
            use_type_invariant(self);
        }
        self.items.len()
    }

    /// The entry at `idx`, if there is one.
    pub fn get_by_idx(&self, idx: usize) -> (item: Option<&T>)
        ensures
            match item {
                Some(item) => idx < self.entries().len() && *item == self.entries()[idx as int].0,
                None => idx >= self.entries().len(),
            },
    {
        if idx < self.items.len() {
            Some(&self.items[idx].0)
        } else {
            None
        }
    }

    /// The entry at `idx`, if there is one, for changing it in place. Its
    /// weight, the other entries and the table stay as they are.
    pub fn get_mut_by_idx(&mut self, idx: usize) -> (item: Option<&mut T>)
        ensures
            match item {
                Some(item) => {
                    &&& idx < old(self).entries().len()
                    &&& *item == old(self).entries()[idx as int].0
                    &&& final(self).entries() == old(self).entries().update(
                        idx as int,
                        (*final(item), old(self).entries()[idx as int].1),
                    )
                    &&& final(self).prob() == old(self).prob()
                    &&& final(self).alias() == old(self).alias()
                },
                None => idx >= old(self).entries().len() && *final(self) == *old(self),
            },
    {
        proof {
            use_type_invariant(&*self);
        }
        if idx < self.items.len() {
            Some(&mut self.items[idx].0)
        } else {
            None
        }
    }

    /// The key by which the entry at `idx` is sorted.
    pub(crate) fn sort_key(&self, idx: usize) -> (key: i64)
        requires
            idx < self.entries().len(),
        ensures
            key == total_rank(self.entries()[idx as int].1),
    {
        total_key(self.items[idx].1)
    }

    /// Iterates over the entries in order of weight, lightest first. This
    /// sorts them, at a cost of `O(n log n)`.
    pub fn iter(&self) -> (iter: Iter<'_, T>)
        ensures
            iter.picker() == *self,
            iter.cursor() == crate::iter::Cursor::start(self.entries().len()),
            iter.wf(),
    {
        Iter::new(self)
    }

    /// Builds a picker, draws once and hands out the entry drawn. The entry is
    /// taken out by swapping the last one into its place.
    pub fn pick(items: Vec<(T, u64)>, table: AliasTable, column: usize, coin: u64) -> (r: Result<
        T,
        PickerError,
    >)
        requires
            items@.len() > 0 ==> column < items@.len(),
        ensures
            match r {
                Ok(item) => {
                    &&& refusal(items@, table.prob().len()).is_none()
                    &&& item == items@[sample_index(
                        table.prob(),
                        table.alias(),
                        column,
                        coin,
                    ) as int].0
                },
                Err(e) => refusal(items@, table.prob().len()) == Some(e),
            },
    {
        match WeightedPicker::new(items, table) {
            Ok(wp) => {
                let idx = wp.get_idx(column, coin);
                let WeightedPicker { items: mut rest, .. } = wp;
                Ok(rest.swap_remove(idx).0)
            },
            Err(e) => Err(e),
        }
    }
}

impl<T: Clone> Clone for WeightedPicker<T> {
    /// A picker over clones of the entries, with the same weights and the same
    /// table.
    fn clone(&self) -> (copy: Self)
        ensures
            copy.prob() == self.prob(),
            copy.alias() == self.alias(),
            copy.entries().len() == self.entries().len(),
            forall|i: int|
                0 <= i < self.entries().len() ==> {
                    &&& cloned::<T>(self.entries()[i].0, (#[trigger] copy.entries()[i]).0)
                    &&& copy.entries()[i].1 == self.entries()[i].1
                },
    {
        proof {
            use_type_invariant(self);
        }
        let n = self.items.len();
        let mut items: Vec<(T, u64)> = Vec::with_capacity(n);
        let mut i: usize = 0;
        while i < n
            invariant
                n == self.items@.len(),
                i <= n,
                items@.len() == i,
                forall|k: int|
                    0 <= k < i ==> {
                        &&& cloned::<T>(self.items@[k].0, (#[trigger] items@[k]).0)
                        &&& items@[k].1 == self.items@[k].1
                    },
            decreases n - i,
        {
            items.push((self.items[i].0.clone(), self.items[i].1));
            i += 1;
        }
        WeightedPicker { prob: self.prob.clone(), alias: self.alias.clone(), items }
    }
}

} // verus!
