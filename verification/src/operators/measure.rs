//! Noisy counts of the records of a collection, and the error of a
//! candidate collection against them.
//!
//! Every record that is touched, by an update on either side or by an
//! observation, is bound to a noise sample, once and for good. What is
//! published of a record is its true weight plus its noise. A record counts
//! toward the error from the first update that reaches it: its error is then
//! the distance between what is published of it and its synthetic weight.
//! The error of the measurement is the sum over the records that count. To
//! observe a record never changes the error.

use vstd::prelude::*;
use std::collections::HashMap;
use crate::weights::magnitude;

verus! {

broadcast use vstd::std_specs::hash::group_hash_axioms;

/// What the measurement holds of one record.
#[derive(Clone, Copy, Debug)]
pub struct Entry {
    pub datum: u64,
    pub synth: i64,
    pub truth: i64,
    pub noise: i64,
    /// Whether an update has reached the record, so that it counts toward the error.
    pub counted: bool,
}

impl Entry {
    /// The distance between the published count and the synthetic weight,
    /// once the record counts; nothing before.
    pub open spec fn gap(&self) -> int {
        if self.counted {
            magnitude(self.truth + self.noise - self.synth)
        } else {
            0
        }
    }
}

/// The sum of the gaps of a sequence of entries.
pub open spec fn errors(entries: Seq<Entry>) -> int
    decreases entries.len(),
{
    if entries.len() == 0 {
        0
    } else {
        errors(entries.drop_last()) + entries.last().gap()
    }
}

/// One more entry adds its gap to the sum.
proof fn lemma_errors_push(entries: Seq<Entry>, entry: Entry)
    ensures
        errors(entries.push(entry)) == errors(entries) + entry.gap(),
{
    assert(entries.push(entry).drop_last() =~= entries);
}

/// Replacing an entry replaces its gap in the sum.
proof fn lemma_errors_update(entries: Seq<Entry>, i: int, entry: Entry)
    requires
        0 <= i < entries.len(),
    ensures
        errors(entries.update(i, entry)) == errors(entries) - entries[i].gap() + entry.gap(),
    decreases entries.len(),
{
    let changed = entries.update(i, entry);
    if i == entries.len() - 1 {
        assert(changed.drop_last() =~= entries.drop_last());
    } else {
        lemma_errors_update(entries.drop_last(), i, entry);
        assert(changed.drop_last() =~= entries.drop_last().update(i, entry));
    }
}

/// Entries without a gap sum to zero.
proof fn lemma_errors_zero(entries: Seq<Entry>)
    requires
        forall|i: int| 0 <= i < entries.len() ==> (#[trigger] entries[i]).gap() == 0,
    ensures
        errors(entries) == 0,
    decreases entries.len(),
{
    if entries.len() > 0 {
        assert forall|i: int| 0 <= i < entries.drop_last().len() implies (#[trigger] entries.drop_last()[i]).gap() == 0 by {
            assert(entries.drop_last()[i] == entries[i]);
        }
        lemma_errors_zero(entries.drop_last());
    }
}

/// The counts behind a measurement: for every touched record its weight on
/// both sides and its noise.
pub struct MeasurementState {
    entries: Vec<Entry>,
    index: HashMap<u64, usize>,
}

impl MeasurementState {
    /// Whether `d` has been bound to a noise sample.
    pub closed spec fn touched(&self, d: u64) -> bool {
        self.index@.contains_key(d)
    }

    /// What the state holds of a touched record.
    pub closed spec fn entry(&self, d: u64) -> Entry {
        self.entries@[self.index@[d] as int]
    }

    /// The synthetic weight of `d`.
    pub open spec fn synth(&self, d: u64) -> int {
        if self.touched(d) {
            self.entry(d).synth as int
        } else {
            0
        }
    }

    /// The true weight of `d`.
    pub open spec fn truth(&self, d: u64) -> int {
        if self.touched(d) {
            self.entry(d).truth as int
        } else {
            0
        }
    }

    /// The noise that `d` is bound to; zero while it is not touched.
    pub open spec fn noise(&self, d: u64) -> int {
        if self.touched(d) {
            self.entry(d).noise as int
        } else {
            0
        }
    }

    /// The noise that `d` has once it is touched, when `fresh` is the sample
    /// offered to it: its own if it is bound already.
    pub open spec fn bound_noise(&self, d: u64, fresh: i64) -> int {
        if self.touched(d) {
            self.noise(d)
        } else {
            fresh as int
        }
    }

    /// What is published of `d`: its true weight plus its noise.
    pub open spec fn published(&self, d: u64) -> int {
        self.truth(d) + self.noise(d)
    }

    /// Whether an update has reached `d`, so that it counts toward the error.
    pub open spec fn counted(&self, d: u64) -> bool {
        self.touched(d) && self.entry(d).counted
    }

    /// The error of `d`: nothing while no update has reached it.
    pub open spec fn gap(&self, d: u64) -> int {
        if self.counted(d) {
            magnitude(self.published(d) - self.synth(d))
        } else {
            0
        }
    }

    /// The error of the measurement: the sum of the errors of the records that count.
    pub closed spec fn error(&self) -> int {
        errors(self.entries@)
    }

    /// Every touched record has one entry, what is published of it fits a
    /// weight, and a record that does not count has no weight yet.
    pub closed spec fn wf(&self) -> bool {
        &&& forall|d: u64| #[trigger]
            self.index@.contains_key(d) ==> self.index@[d] < self.entries@.len() && self.entries@[self.index@[d] as int].datum == d
        &&& forall|i: int|
            0 <= i < self.entries@.len() ==> self.index@.contains_key((#[trigger] self.entries@[i]).datum)
                && self.index@[self.entries@[i].datum] == i
        &&& forall|i: int|
            0 <= i < self.entries@.len() ==> i64::MIN <= (#[trigger] self.entries@[i]).truth + self.entries@[i].noise <= i64::MAX
        &&& forall|i: int|
            0 <= i < self.entries@.len() && !(#[trigger] self.entries@[i]).counted ==> self.entries@[i].truth == 0 && self.entries@[i].synth == 0
    }

    /// A measurement of nothing.
    pub fn new() -> (state: Self)
        ensures
            state.wf(),
            state.error() == 0,
            forall|d: u64| !state.touched(d),
    {
        MeasurementState { entries: Vec::new(), index: HashMap::new() }
    }

    /// What the state holds of `element`, if it is touched.
    pub fn get(&self, element: u64) -> (held: Option<Entry>)
        requires
            self.wf(),
        ensures
            held.is_some() == self.touched(element),
            held.is_some() ==> held.unwrap() == self.entry(element),
    {
        match self.index.get(&element) {
            Some(at) => Some(self.entries[*at]),
            None => None,
        }
    }

    /// Where the entry of `element` is, after binding it to `fresh` if it
    /// was not touched. A record bound here does not count yet.
    fn slot(&mut self, element: u64, fresh: i64) -> (at: usize)
        requires
            old(self).wf(),
        ensures
            final(self).wf(),
            at < final(self).entries@.len(),
            final(self).index@.contains_key(element),
            final(self).index@[element] == at,
            forall|d: u64| final(self).touched(d) == (old(self).touched(d) || d == element),
            forall|d: u64| old(self).touched(d) ==> final(self).entry(d) == old(self).entry(d),
            !old(self).touched(element) ==> final(self).entry(element) == (Entry {
                datum: element,
                synth: 0,
                truth: 0,
                noise: fresh,
                counted: false,
            }),
            final(self).error() == old(self).error(),
    {
        match self.index.get(&element) {
            Some(at) => *at,
            None => {
                let at = self.entries.len();
                let entry = Entry { datum: element, synth: 0, truth: 0, noise: fresh, counted: false };
                proof {
                    lemma_errors_push(self.entries@, entry);
                }
                self.entries.push(entry);
                self.index.insert(element, at);
                assert forall|i: int| 0 <= i < self.entries@.len() implies self.index@.contains_key((#[trigger] self.entries@[i]).datum)
                    && self.index@[self.entries@[i].datum] == i by {
                    if i < at {
                        assert(self.entries@[i] == old(self).entries@[i]);
                    }
                }
                at
            },
        }
    }

    /// Writes `entry`, which counts, over the entry of its record, which is at `at`.
    fn write(&mut self, at: usize, entry: Entry)
        requires
            old(self).wf(),
            old(self).index@.contains_key(entry.datum),
            old(self).index@[entry.datum] == at,
            entry.counted,
            i64::MIN <= entry.truth + entry.noise <= i64::MAX,
        ensures
            final(self).wf(),
            forall|d: u64| final(self).touched(d) == old(self).touched(d),
            final(self).entry(entry.datum) == entry,
            forall|d: u64| d != entry.datum && old(self).touched(d) ==> final(self).entry(d) == old(self).entry(d),
            final(self).error() == old(self).error() - old(self).entry(entry.datum).gap() + entry.gap(),
    {
        proof {
            lemma_errors_update(self.entries@, at as int, entry);
        }
        self.entries.set(at, entry);
        assert forall|i: int| 0 <= i < self.entries@.len() implies self.index@.contains_key((#[trigger] self.entries@[i]).datum)
            && self.index@[self.entries@[i].datum] == i by {
            if i != at {
                assert(self.entries@[i] == old(self).entries@[i]);
            }
        }
    }

    /// Adds `delta` to the true weight of `element`, binding it to the noise
    /// `fresh` if it was not touched, and moves `total` by the change of the
    /// error of the measurement. The record counts toward the error from
    /// here on: if it did not before, all of its error is new.
    pub fn update_truth(&mut self, element: u64, delta: i64, fresh: i64, total: &mut i64)
        requires
            old(self).wf(),
            i64::MIN <= old(self).truth(element) + delta <= i64::MAX,
            i64::MIN <= old(self).truth(element) + delta + old(self).bound_noise(element, fresh) <= i64::MAX,
            i64::MIN <= *old(total) + magnitude(
                old(self).truth(element) + delta + old(self).bound_noise(element, fresh) - old(self).synth(element),
            ) - old(self).gap(element) <= i64::MAX,
        ensures
            final(self).wf(),
            forall|d: u64| final(self).touched(d) == (old(self).touched(d) || d == element),
            forall|d: u64| final(self).counted(d) == (old(self).counted(d) || d == element),
            final(self).noise(element) == old(self).bound_noise(element, fresh),
            final(self).truth(element) == old(self).truth(element) + delta,
            final(self).synth(element) == old(self).synth(element),
            forall|d: u64|
                d != element ==> final(self).noise(d) == old(self).noise(d) && final(self).truth(d) == old(self).truth(d)
                    && final(self).synth(d) == old(self).synth(d),
            final(self).error() == old(self).error() + final(self).gap(element) - old(self).gap(element),
            *final(total) == *old(total) + final(self).error() - old(self).error(),
    {
        let at = self.slot(element, fresh);
        let held = self.entries[at];
        let entry = Entry { datum: held.datum, synth: held.synth, truth: held.truth + delta, noise: held.noise, counted: true };
        let was: i128 = if held.counted {
            distance(held.truth, held.noise, held.synth)
        } else {
            0
        };
        let is: i128 = distance(entry.truth, entry.noise, entry.synth);
        self.write(at, entry);
        *total = (*total as i128 + is - was) as i64;
    }

    /// Adds `delta` to the synthetic weight of `element`, binding it to the
    /// noise `fresh` if it was not touched, and moves `total` by the change
    /// of the error of the measurement. The record counts toward the error
    /// from here on: if it did not before, all of its error is new.
    pub fn update_synth(&mut self, element: u64, delta: i64, fresh: i64, total: &mut i64)
        requires
            old(self).wf(),
            i64::MIN <= old(self).synth(element) + delta <= i64::MAX,
            i64::MIN <= *old(total) + magnitude(
                old(self).truth(element) + old(self).bound_noise(element, fresh) - old(self).synth(element) - delta,
            ) - old(self).gap(element) <= i64::MAX,
        ensures
            final(self).wf(),
            forall|d: u64| final(self).touched(d) == (old(self).touched(d) || d == element),
            forall|d: u64| final(self).counted(d) == (old(self).counted(d) || d == element),
            final(self).noise(element) == old(self).bound_noise(element, fresh),
            final(self).truth(element) == old(self).truth(element),
            final(self).synth(element) == old(self).synth(element) + delta,
            forall|d: u64|
                d != element ==> final(self).noise(d) == old(self).noise(d) && final(self).truth(d) == old(self).truth(d)
                    && final(self).synth(d) == old(self).synth(d),
            final(self).error() == old(self).error() + final(self).gap(element) - old(self).gap(element),
            *final(total) == *old(total) + final(self).error() - old(self).error(),
    {
        let at = self.slot(element, fresh);
        let held = self.entries[at];
        let entry = Entry { datum: held.datum, synth: held.synth + delta, truth: held.truth, noise: held.noise, counted: true };
        let was: i128 = if held.counted {
            distance(held.truth, held.noise, held.synth)
        } else {
            0
        };
        let is: i128 = distance(entry.truth, entry.noise, entry.synth);
        self.write(at, entry);
        *total = (*total as i128 + is - was) as i64;
    }

    /// The noisy count of `element`: its true weight plus its noise. A record
    /// that was not touched is bound to the noise `fresh`, and the count is
    /// that noise. Nothing else changes: no weight, no other noise, and not
    /// the error of the measurement.
    pub fn observe(&mut self, element: u64, fresh: i64) -> (count: i64)
        requires
            old(self).wf(),
        ensures
            final(self).wf(),
            count == old(self).truth(element) + old(self).bound_noise(element, fresh),
            count == final(self).published(element),
            forall|d: u64| final(self).touched(d) == (old(self).touched(d) || d == element),
            forall|d: u64| final(self).counted(d) == old(self).counted(d),
            final(self).noise(element) == old(self).bound_noise(element, fresh),
            forall|d: u64|
                final(self).truth(d) == old(self).truth(d) && final(self).synth(d) == old(self).synth(d) && (d != element
                    ==> final(self).noise(d) == old(self).noise(d)),
            forall|d: u64| final(self).gap(d) == old(self).gap(d),
            final(self).error() == old(self).error(),
    {
        let at = self.slot(element, fresh);
        let held = self.entries[at];
        held.truth + held.noise
    }

    /// When the synthetic weight of every record that counts equals what is
    /// published of it, the error of the measurement is zero.
    pub proof fn lemma_converged_error(&self)
        requires
            self.wf(),
            forall|d: u64| self.counted(d) ==> self.synth(d) == self.published(d),
        ensures
            self.error() == 0,
    {
        assert forall|i: int| 0 <= i < self.entries@.len() implies (#[trigger] self.entries@[i]).gap() == 0 by {
            let d = self.entries@[i].datum;
            assert(self.touched(d));
            assert(self.entry(d) == self.entries@[i]);
            if self.entries@[i].counted {
                assert(self.counted(d));
                assert(self.synth(d) == self.published(d));
            }
        }
        lemma_errors_zero(self.entries@);
    }
}

/// The distance between `truth + noise` and `synth`.
fn distance(truth: i64, noise: i64, synth: i64) -> (d: i128)
    ensures
        d == magnitude(truth + noise - synth),
{
    let signed: i128 = truth as i128 + noise as i128 - synth as i128;
    if signed < 0 {
        -signed
    } else {
        signed
    }
}

/// A handle on a measurement, through which its counts are read.
pub struct Measurement {
    pub shared: MeasurementState,
}

impl Measurement {
    /// The noisy count of `data`; see [`MeasurementState::observe`].
    pub fn observe(&mut self, data: u64, fresh: i64) -> (count: i64)
        requires
            old(self).shared.wf(),
        ensures
            final(self).shared.wf(),
            count == old(self).shared.truth(data) + old(self).shared.bound_noise(data, fresh),
            count == final(self).shared.published(data),
            forall|d: u64| final(self).shared.touched(d) == (old(self).shared.touched(d) || d == data),
            forall|d: u64| final(self).shared.counted(d) == old(self).shared.counted(d),
            final(self).shared.noise(data) == old(self).shared.bound_noise(data, fresh),
            forall|d: u64|
                final(self).shared.truth(d) == old(self).shared.truth(d) && final(self).shared.synth(d) == old(self).shared.synth(d)
                    && (d != data ==> final(self).shared.noise(d) == old(self).shared.noise(d)),
            forall|d: u64| final(self).shared.gap(d) == old(self).shared.gap(d),
            final(self).shared.error() == old(self).shared.error(),
    {
        self.shared.observe(data, fresh)
    }
}

} // verus!
