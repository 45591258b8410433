//! The smaller and the larger of two weights, record by record.

use vstd::prelude::*;
use std::collections::HashMap;
use crate::weights::{lemma_mass_take, lemma_take_next, lemma_weight_bound, lemma_weight_concat, lemma_weight_push, mass, weight_of};

verus! {

broadcast use vstd::std_specs::hash::group_hash_axioms;

/// The smaller of two integers.
pub open spec fn lesser(a: int, b: int) -> int {
    if a <= b {
        a
    } else {
        b
    }
}

/// The larger of two integers.
pub open spec fn greater(a: int, b: int) -> int {
    if a <= b {
        b
    } else {
        a
    }
}

/// What is emitted for a change of `change` units: nothing when it is zero.
pub open spec fn emitted(change: int) -> Option<i64> {
    if change == 0 {
        None
    } else {
        Some(change as i64)
    }
}

/// The weights that the records have on each of the two sides.
pub struct MinMaxState {
    state: HashMap<u64, (i64, i64)>,
}

impl MinMaxState {
    /// The weight of `d` on the first side.
    pub closed spec fn first(&self, d: u64) -> int {
        if self.state@.contains_key(d) {
            self.state@[d].0 as int
        } else {
            0
        }
    }

    /// The weight of `d` on the second side.
    pub closed spec fn second(&self, d: u64) -> int {
        if self.state@.contains_key(d) {
            self.state@[d].1 as int
        } else {
            0
        }
    }

    /// The weight of `d` in the collection of minima.
    pub open spec fn lower(&self, d: u64) -> int {
        lesser(self.first(d), self.second(d))
    }

    /// The weight of `d` in the collection of maxima.
    pub open spec fn upper(&self, d: u64) -> int {
        greater(self.first(d), self.second(d))
    }

    /// The two weights of `d` once `amount` is added to it, on the second
    /// side if `second` and on the first if not.
    pub open spec fn moved(&self, d: u64, amount: int, second: bool) -> (int, int) {
        if second {
            (self.first(d), self.second(d) + amount)
        } else {
            (self.first(d) + amount, self.second(d))
        }
    }

    /// The minimum of `d` once `amount` is added to it on one side.
    pub open spec fn lower_after(&self, d: u64, amount: int, second: bool) -> int {
        lesser(self.moved(d, amount, second).0, self.moved(d, amount, second).1)
    }

    /// The maximum of `d` once `amount` is added to it on one side.
    pub open spec fn upper_after(&self, d: u64, amount: int, second: bool) -> int {
        greater(self.moved(d, amount, second).0, self.moved(d, amount, second).1)
    }

    /// A state in which every record has weight zero on both sides.
    pub fn new() -> (state: Self)
        ensures
            forall|d: u64| state.first(d) == 0 && state.second(d) == 0,
    {
        MinMaxState { state: HashMap::new() }
    }

    /// The weights of `key` on the first and on the second side.
    pub fn get(&self, key: u64) -> (pair: (i64, i64))
        ensures
            pair.0 == self.first(key),
            pair.1 == self.second(key),
    {
        match self.state.get(&key) {
            Some(pair) => *pair,
            None => (0, 0),
        }
    }

    /// Adds `delta` to the weight of `key` on the first side. Returns the
    /// change of its minimum and the change of its maximum, each only if it
    /// is not zero.
    pub fn update_first(&mut self, key: u64, delta: i64) -> (changes: (Option<i64>, Option<i64>))
        requires
            i64::MIN <= old(self).first(key) + delta <= i64::MAX,
        ensures
            final(self).first(key) == old(self).first(key) + delta,
            final(self).second(key) == old(self).second(key),
            forall|d: u64| d != key ==> final(self).first(d) == old(self).first(d) && final(self).second(d) == old(self).second(d),
            changes.0 == emitted(final(self).lower(key) - old(self).lower(key)),
            changes.1 == emitted(final(self).upper(key) - old(self).upper(key)),
    {
        let (first, second) = self.get(key);
        let moved: i64 = first + delta;
        self.state.insert(key, (moved, second));
        (change_of(smaller(first, second), smaller(moved, second)), change_of(larger(first, second), larger(moved, second)))
    }

    /// Adds `delta` to the weight of `key` on the second side. Returns the
    /// change of its minimum and the change of its maximum, each only if it
    /// is not zero.
    pub fn update_second(&mut self, key: u64, delta: i64) -> (changes: (Option<i64>, Option<i64>))
        requires
            i64::MIN <= old(self).second(key) + delta <= i64::MAX,
        ensures
            final(self).first(key) == old(self).first(key),
            final(self).second(key) == old(self).second(key) + delta,
            forall|d: u64| d != key ==> final(self).first(d) == old(self).first(d) && final(self).second(d) == old(self).second(d),
            changes.0 == emitted(final(self).lower(key) - old(self).lower(key)),
            changes.1 == emitted(final(self).upper(key) - old(self).upper(key)),
    {
        let (first, second) = self.get(key);
        let moved: i64 = second + delta;
        self.state.insert(key, (first, moved));
        (change_of(smaller(first, second), smaller(first, moved)), change_of(larger(first, second), larger(first, moved)))
    }

    /// Applies the updates of `batch` in their order, to the second side if
    /// `second` and to the first if not. Returns what the minima emit and
    /// what the maxima emit.
    fn apply(&mut self, batch: &Vec<(u64, i64)>, second: bool) -> (out: (Vec<(u64, i64)>, Vec<(u64, i64)>))
        requires
            forall|n: int|
                0 <= n < batch@.len() ==> {
                    let d = (#[trigger] batch@[n]).0;
                    let amount = weight_of(batch@.take(n + 1), d);
                    &&& i64::MIN <= old(self).moved(d, amount, second).0 <= i64::MAX
                    &&& i64::MIN <= old(self).moved(d, amount, second).1 <= i64::MAX
                },
        ensures
            forall|d: u64| final(self).first(d) == old(self).moved(d, weight_of(batch@, d), second).0,
            forall|d: u64| final(self).second(d) == old(self).moved(d, weight_of(batch@, d), second).1,
            out.0@ == min_trace(*old(self), batch@, second),
            out.1@ == max_trace(*old(self), batch@, second),
    {
        let mut mins: Vec<(u64, i64)> = Vec::new();
        let mut maxs: Vec<(u64, i64)> = Vec::new();
        let mut i: usize = 0;
        assert(mins@ =~= min_trace(*old(self), batch@.take(0), second));
        assert(maxs@ =~= max_trace(*old(self), batch@.take(0), second));
        while i < batch.len()
            invariant
                i <= batch@.len(),
                forall|n: int|
                    0 <= n < batch@.len() ==> {
                        let d = (#[trigger] batch@[n]).0;
                        let amount = weight_of(batch@.take(n + 1), d);
                        &&& i64::MIN <= old(self).moved(d, amount, second).0 <= i64::MAX
                        &&& i64::MIN <= old(self).moved(d, amount, second).1 <= i64::MAX
                    },
                forall|d: u64| self.first(d) == old(self).moved(d, weight_of(batch@.take(i as int), d), second).0,
                forall|d: u64| self.second(d) == old(self).moved(d, weight_of(batch@.take(i as int), d), second).1,
                mins@ == min_trace(*old(self), batch@.take(i as int), second),
                maxs@ == max_trace(*old(self), batch@.take(i as int), second),
            decreases batch@.len() - i,
        {
            let key = batch[i].0;
            let delta = batch[i].1;
            proof {
                assert(batch@[i as int].0 == key);
                lemma_take_next(batch@, i as int, key);
                assert(batch@.take(i as int + 1).drop_last() =~= batch@.take(i as int));
            }
            let changes = if second {
                self.update_second(key, delta)
            } else {
                self.update_first(key, delta)
            };
            match changes.0 {
                Some(change) => {
                    mins.push((key, change));
                },
                None => {},
            }
            match changes.1 {
                Some(change) => {
                    maxs.push((key, change));
                },
                None => {},
            }
            proof {
                assert forall|d: u64| self.first(d) == old(self).moved(d, weight_of(batch@.take(i as int + 1), d), second).0
                    && self.second(d) == old(self).moved(d, weight_of(batch@.take(i as int + 1), d), second).1 by {
                    lemma_take_next(batch@, i as int, d);
                }
            }
            i = i + 1;
        }
        assert(batch@.take(i as int) =~= batch@);
        (mins, maxs)
    }

    /// Applies the updates of `batch`, in their order, to the first side.
    /// Returns the changes of the minima and the changes of the maxima,
    /// each with its record, without those that are zero.
    pub fn update_first_batch(&mut self, batch: &Vec<(u64, i64)>) -> (out: (Vec<(u64, i64)>, Vec<(u64, i64)>))
        requires
            forall|n: int|
                0 <= n < batch@.len() ==> i64::MIN <= old(self).first((#[trigger] batch@[n]).0) + weight_of(
                    batch@.take(n + 1),
                    batch@[n].0,
                ) <= i64::MAX,
        ensures
            forall|d: u64| final(self).first(d) == old(self).first(d) + weight_of(batch@, d),
            forall|d: u64| final(self).second(d) == old(self).second(d),
            out.0@ == min_trace(*old(self), batch@, false),
            out.1@ == max_trace(*old(self), batch@, false),
            forall|d: u64| weight_of(out.0@, d) == final(self).lower(d) - old(self).lower(d),
            forall|d: u64| weight_of(out.1@, d) == final(self).upper(d) - old(self).upper(d),
            forall|d: u64| weight_of(out.0@, d) + weight_of(out.1@, d) == weight_of(batch@, d),
    {
        let out = self.apply(batch, false);
        proof {
            assert forall|d: u64|
                weight_of(out.0@, d) == self.lower(d) - old(self).lower(d) && weight_of(out.1@, d) == self.upper(d) - old(self).upper(d)
                    && weight_of(out.0@, d) + weight_of(out.1@, d) == weight_of(batch@, d) by {
                old(self).lemma_trace_weights(batch@, false, d);
            }
        }
        out
    }

    /// Applies the updates of `batch`, in their order, to the second side.
    /// Returns the changes of the minima and the changes of the maxima,
    /// each with its record, without those that are zero.
    pub fn update_second_batch(&mut self, batch: &Vec<(u64, i64)>) -> (out: (Vec<(u64, i64)>, Vec<(u64, i64)>))
        requires
            forall|n: int|
                0 <= n < batch@.len() ==> i64::MIN <= old(self).second((#[trigger] batch@[n]).0) + weight_of(
                    batch@.take(n + 1),
                    batch@[n].0,
                ) <= i64::MAX,
        ensures
            forall|d: u64| final(self).first(d) == old(self).first(d),
            forall|d: u64| final(self).second(d) == old(self).second(d) + weight_of(batch@, d),
            out.0@ == min_trace(*old(self), batch@, true),
            out.1@ == max_trace(*old(self), batch@, true),
            forall|d: u64| weight_of(out.0@, d) == final(self).lower(d) - old(self).lower(d),
            forall|d: u64| weight_of(out.1@, d) == final(self).upper(d) - old(self).upper(d),
            forall|d: u64| weight_of(out.0@, d) + weight_of(out.1@, d) == weight_of(batch@, d),
    {
        let out = self.apply(batch, true);
        proof {
            assert forall|d: u64|
                weight_of(out.0@, d) == self.lower(d) - old(self).lower(d) && weight_of(out.1@, d) == self.upper(d) - old(self).upper(d)
                    && weight_of(out.0@, d) + weight_of(out.1@, d) == weight_of(batch@, d) by {
                old(self).lemma_trace_weights(batch@, true, d);
            }
        }
        out
    }

    /// What the minima and the maxima emit for a batch gives every record
    /// the change of its minimum and of its maximum; the two together give
    /// it the weight that the batch gave it.
    pub proof fn lemma_trace_weights(&self, run: Seq<(u64, i64)>, second: bool, d: u64)
        ensures
            weight_of(min_trace(*self, run, second), d) == self.lower_after(d, weight_of(run, d), second) - self.lower(d),
            weight_of(max_trace(*self, run, second), d) == self.upper_after(d, weight_of(run, d), second) - self.upper(d),
            weight_of(min_trace(*self, run, second), d) + weight_of(max_trace(*self, run, second), d) == weight_of(run, d),
        decreases run.len(),
    {
        if run.len() > 0 {
            let rest = run.drop_last();
            let key = run.last().0;
            self.lemma_trace_weights(rest, second, d);
            let before = weight_of(rest, key);
            let low = self.lower_after(key, before + run.last().1, second) - self.lower_after(key, before, second);
            let high = self.upper_after(key, before + run.last().1, second) - self.upper_after(key, before, second);
            if low != 0 {
                lemma_weight_push(min_trace(*self, rest, second), (key, low as i64), d);
            }
            if high != 0 {
                lemma_weight_push(max_trace(*self, rest, second), (key, high as i64), d);
            }
        }
    }

    /// The minimum and the maximum of a record add up to its two weights.
    pub proof fn lemma_min_max_identity(&self, d: u64)
        ensures
            self.lower(d) + self.upper(d) == self.first(d) + self.second(d),
    {
    }
}

/// What the minima emit when the updates of `run` are applied in their
/// order to one side of `start`: for each update the change of the minimum
/// of its record, unless that is zero.
pub open spec fn min_trace(start: MinMaxState, run: Seq<(u64, i64)>, second: bool) -> Seq<(u64, i64)>
    decreases run.len(),
{
    if run.len() == 0 {
        Seq::empty()
    } else {
        let d = run.last().0;
        let before = weight_of(run.drop_last(), d);
        let change = start.lower_after(d, before + run.last().1, second) - start.lower_after(d, before, second);
        if change == 0 {
            min_trace(start, run.drop_last(), second)
        } else {
            min_trace(start, run.drop_last(), second).push((d, change as i64))
        }
    }
}

/// What the maxima emit when the updates of `run` are applied in their
/// order to one side of `start`: for each update the change of the maximum
/// of its record, unless that is zero.
pub open spec fn max_trace(start: MinMaxState, run: Seq<(u64, i64)>, second: bool) -> Seq<(u64, i64)>
    decreases run.len(),
{
    if run.len() == 0 {
        Seq::empty()
    } else {
        let d = run.last().0;
        let before = weight_of(run.drop_last(), d);
        let change = start.upper_after(d, before + run.last().1, second) - start.upper_after(d, before, second);
        if change == 0 {
            max_trace(start, run.drop_last(), second)
        } else {
            max_trace(start, run.drop_last(), second).push((d, change as i64))
        }
    }
}

/// The smaller of two weights.
fn smaller(a: i64, b: i64) -> (m: i64)
    ensures
        m == lesser(a as int, b as int),
{
    if a <= b {
        a
    } else {
        b
    }
}

/// The larger of two weights.
fn larger(a: i64, b: i64) -> (m: i64)
    ensures
        m == greater(a as int, b as int),
{
    if a <= b {
        b
    } else {
        a
    }
}

/// The step from `before` to `after`, if there is one.
fn change_of(before: i64, after: i64) -> (change: Option<i64>)
    requires
        i64::MIN <= after - before <= i64::MAX,
    ensures
        change == emitted(after - before),
{
    if after == before {
        None
    } else {
        Some(after - before)
    }
}

/// The minima and the maxima of two whole collections: every record gets
/// the smaller of its two weights in the first result and the larger in
/// the second.
pub fn min_max(first: &Vec<(u64, i64)>, second: &Vec<(u64, i64)>) -> (out: (Vec<(u64, i64)>, Vec<(u64, i64)>))
    requires
        mass(first@) <= i64::MAX,
        mass(second@) <= i64::MAX,
    ensures
        forall|d: u64| weight_of(out.0@, d) == lesser(weight_of(first@, d), weight_of(second@, d)),
        forall|d: u64| weight_of(out.1@, d) == greater(weight_of(first@, d), weight_of(second@, d)),
        exists|start: MinMaxState, middle: MinMaxState|
            {
                &&& forall|d: u64| start.first(d) == 0 && start.second(d) == 0
                &&& forall|d: u64| middle.first(d) == weight_of(first@, d) && middle.second(d) == 0
                &&& out.0@ == min_trace(start, first@, false) + min_trace(middle, second@, true)
                &&& out.1@ == max_trace(start, first@, false) + max_trace(middle, second@, true)
            },
{
    let mut state = MinMaxState::new();
    let ghost start = state;
    proof {
        assert forall|n: int| 0 <= n < first@.len() implies i64::MIN <= state.first((#[trigger] first@[n]).0) + weight_of(
            first@.take(n + 1),
            first@[n].0,
        ) <= i64::MAX by {
            lemma_mass_take(first@, n + 1);
            lemma_weight_bound(first@.take(n + 1), first@[n].0);
        }
    }
    let (mut mins, mut maxs) = state.update_first_batch(first);
    let ghost middle = state;
    let ghost mins1 = mins@;
    let ghost maxs1 = maxs@;
    proof {
        assert forall|n: int| 0 <= n < second@.len() implies i64::MIN <= state.second((#[trigger] second@[n]).0) + weight_of(
            second@.take(n + 1),
            second@[n].0,
        ) <= i64::MAX by {
            lemma_mass_take(second@, n + 1);
            lemma_weight_bound(second@.take(n + 1), second@[n].0);
        }
    }
    let (mut mins2, mut maxs2) = state.update_second_batch(second);
    let ghost mins2_view = mins2@;
    let ghost maxs2_view = maxs2@;
    mins.append(&mut mins2);
    maxs.append(&mut maxs2);
    proof {
        assert forall|d: u64|
            weight_of(mins@, d) == lesser(weight_of(first@, d), weight_of(second@, d)) && weight_of(maxs@, d) == greater(
                weight_of(first@, d),
                weight_of(second@, d),
            ) by {
            lemma_weight_concat(mins1, mins2_view, d);
            lemma_weight_concat(maxs1, maxs2_view, d);
        }
        assert(mins@ == min_trace(start, first@, false) + min_trace(middle, second@, true));
        assert(maxs@ == max_trace(start, first@, false) + max_trace(middle, second@, true));
    }
    (mins, maxs)
}

} // verus!
