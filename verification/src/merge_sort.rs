//! Sorted runs of weighted updates and the engine that merges them.

use vstd::prelude::*;
use crate::datum::Datum;
use crate::weights::{all_before, consolidated, lemma_drop_first_consolidated, lemma_mass_bounds, lemma_mass_concat, lemma_mass_first, lemma_mass_push, lemma_weight_concat, lemma_weight_first, lemma_weight_push, mass, weight_of};

verus! {

/// A queue that hands out the items of a vector from first to last.
pub struct VecQueue<T> {
    // The items still to come, last one first.
    list: Vec<T>,
}

impl<T> View for VecQueue<T> {
    type V = Seq<T>;

    /// The items still to come, in the order in which they will be popped.
    closed spec fn view(&self) -> Seq<T> {
        Seq::new(self.list@.len(), |i: int| self.list@[self.list@.len() - 1 - i])
    }
}

impl<T> VecQueue<T> {
    /// An empty queue.
    pub fn new() -> (q: Self)
        ensures
            q@ == Seq::<T>::empty(),
    {
        let q = VecQueue { list: Vec::new() };
        assert(q@ =~= Seq::<T>::empty());
        q
    }

    /// A queue of the items of `list`, the first of them at its head.
    pub fn from(list: Vec<T>) -> (q: Self)
        ensures
            q@ == list@,
    {
        let ghost items = list@;
        let mut list = list;
        let mut turned: Vec<T> = Vec::new();
        while list.len() > 0
            invariant
                list@.len() + turned@.len() == items.len(),
                list@ == items.subrange(0, list@.len() as int),
                forall|j: int| 0 <= j < turned@.len() ==> turned@[j] == items[items.len() - 1 - j],
            decreases list@.len(),
        {
            let item = list.pop().unwrap();
            turned.push(item);
        }
        let q = VecQueue { list: turned };
        assert(q@ =~= items);
        q
    }

    /// Takes the item at the head of the queue.
    pub fn pop(&mut self) -> (item: T)
        requires
            old(self)@.len() > 0,
        ensures
            item == old(self)@[0],
            final(self)@ == old(self)@.drop_first(),
    {
        let item = self.list.pop().unwrap();
        assert(self@ =~= old(self)@.drop_first());
        item
    }

    /// The item at the head of the queue.
    pub fn peek(&self) -> (item: &T)
        requires
            self@.len() > 0,
        ensures
            *item == self@[0],
    {
        &self.list[self.list.len() - 1]
    }

    /// Gives back the storage of a queue that has been emptied.
    pub fn done(self) -> (list: Vec<T>)
        requires
            self@.len() == 0,
        ensures
            list@ == Seq::<T>::empty(),
    {
        assert(self.list@ =~= Seq::<T>::empty());
        self.list
    }

    /// The number of items still in the queue.
    pub fn len(&self) -> (n: usize)
        ensures
            n == self@.len(),
    {
        self.list.len()
    }

    /// Whether no item is left in the queue.
    pub fn is_empty(&self) -> (b: bool)
        ensures
            b == (self@.len() == 0),
    {
        self.list.len() == 0
    }
}

/// Merges two consolidated runs into one consolidated run. Records that
/// occur in both have their weights added, and leave if the sum is zero.
pub fn merge_by<T: Datum>(list1: Vec<(T, i64)>, list2: Vec<(T, i64)>) -> (merged: Vec<(T, i64)>)
    requires
        consolidated(list1@),
        consolidated(list2@),
        mass(list1@) + mass(list2@) <= i64::MAX,
    ensures
        consolidated(merged@),
        forall|d: T| weight_of(merged@, d) == weight_of(list1@, d) + weight_of(list2@, d),
        mass(merged@) <= mass(list1@) + mass(list2@),
        merged@.len() <= list1@.len() + list2@.len(),
{
    let ghost run1 = list1@;
    let ghost run2 = list2@;
    let mut head1 = VecQueue::from(list1);
    let mut head2 = VecQueue::from(list2);
    let mut result: Vec<(T, i64)> = Vec::new();

    while !head1.is_empty() && !head2.is_empty()
        invariant
            consolidated(result@),
            consolidated(head1@),
            consolidated(head2@),
            all_before(result@, head1@),
            all_before(result@, head2@),
            forall|d: T| weight_of(result@, d) + weight_of(head1@, d) + weight_of(head2@, d)
                == weight_of(run1, d) + weight_of(run2, d),
            mass(result@) + mass(head1@) + mass(head2@) <= mass(run1) + mass(run2),
            mass(run1) + mass(run2) <= i64::MAX,
            result@.len() + head1@.len() + head2@.len() <= run1.len() + run2.len(),
        decreases head1@.len() + head2@.len(),
    {
        let ghost before = result@;
        let ghost rest1 = head1@;
        let ghost rest2 = head2@;
        proof {
            lemma_mass_first(rest1);
            lemma_mass_first(rest2);
            lemma_drop_first_consolidated(rest1);
            lemma_drop_first_consolidated(rest2);
        }
        let first_leads = head1.peek().0.precedes(&head2.peek().0);
        let second_leads = head2.peek().0.precedes(&head1.peek().0);
        if first_leads {
            let item = head1.pop();
            result.push(item);
            proof {
                lemma_mass_push(before, item);
                assert forall|d: T| weight_of(result@, d) + weight_of(head1@, d) + weight_of(head2@, d)
                    == weight_of(run1, d) + weight_of(run2, d) by {
                    lemma_weight_push(before, item, d);
                    lemma_weight_first(rest1, d);
                }
            }
        } else if second_leads {
            let item = head2.pop();
            result.push(item);
            proof {
                lemma_mass_push(before, item);
                assert forall|d: T| weight_of(result@, d) + weight_of(head1@, d) + weight_of(head2@, d)
                    == weight_of(run1, d) + weight_of(run2, d) by {
                    lemma_weight_push(before, item, d);
                    lemma_weight_first(rest2, d);
                }
            }
        } else {
            let (data1, diff1) = head1.pop();
            let (data2, diff2) = head2.pop();
            proof {
                T::rank_injective(data1, data2);
                lemma_mass_bounds(head1@);
                lemma_mass_bounds(head2@);
                lemma_mass_bounds(before);
            }
            let diff = diff1 + diff2;
            if diff != 0 {
                result.push((data1, diff));
                proof {
                    lemma_mass_push(before, (data1, diff));
                }
            }
            proof {
                assert forall|d: T| weight_of(result@, d) + weight_of(head1@, d) + weight_of(head2@, d)
                    == weight_of(run1, d) + weight_of(run2, d) by {
                    if diff != 0 {
                        lemma_weight_push(before, (data1, diff), d);
                    }
                    lemma_weight_first(rest1, d);
                    lemma_weight_first(rest2, d);
                }
            }
        }
    }

    while !head1.is_empty()
        invariant
            consolidated(result@),
            consolidated(head1@),
            all_before(result@, head1@),
            head2@.len() == 0 || all_before(result@, head2@) && consolidated(head2@) && head1@.len() == 0,
            forall|d: T| weight_of(result@, d) + weight_of(head1@, d) + weight_of(head2@, d)
                == weight_of(run1, d) + weight_of(run2, d),
            mass(result@) + mass(head1@) + mass(head2@) <= mass(run1) + mass(run2),
            result@.len() + head1@.len() + head2@.len() <= run1.len() + run2.len(),
        decreases head1@.len(),
    {
        let ghost before = result@;
        let ghost rest1 = head1@;
        proof {
            lemma_mass_first(rest1);
            lemma_drop_first_consolidated(rest1);
        }
        let item = head1.pop();
        result.push(item);
        proof {
            lemma_mass_push(before, item);
            assert forall|d: T| weight_of(result@, d) + weight_of(head1@, d) + weight_of(head2@, d)
                == weight_of(run1, d) + weight_of(run2, d) by {
                lemma_weight_push(before, item, d);
                lemma_weight_first(rest1, d);
            }
        }
    }

    while !head2.is_empty()
        invariant
            consolidated(result@),
            consolidated(head2@),
            all_before(result@, head2@),
            head1@.len() == 0,
            forall|d: T| weight_of(result@, d) + weight_of(head1@, d) + weight_of(head2@, d)
                == weight_of(run1, d) + weight_of(run2, d),
            mass(result@) + mass(head1@) + mass(head2@) <= mass(run1) + mass(run2),
            result@.len() + head1@.len() + head2@.len() <= run1.len() + run2.len(),
        decreases head2@.len(),
    {
        let ghost before = result@;
        let ghost rest2 = head2@;
        proof {
            lemma_mass_first(rest2);
            lemma_drop_first_consolidated(rest2);
        }
        let item = head2.pop();
        result.push(item);
        proof {
            lemma_mass_push(before, item);
            assert forall|d: T| weight_of(result@, d) + weight_of(head1@, d) + weight_of(head2@, d)
                == weight_of(run1, d) + weight_of(run2, d) by {
                lemma_weight_push(before, item, d);
                lemma_weight_first(rest2, d);
            }
        }
    }
    proof {
        assert(head1@ =~= Seq::<(T, i64)>::empty());
        assert(head2@ =~= Seq::<(T, i64)>::empty());
    }
    result
}

/// The updates of a stack of runs, as one batch.
pub open spec fn joined<T>(runs: Seq<Vec<(T, i64)>>) -> Seq<(T, i64)>
    decreases runs.len(),
{
    if runs.len() == 0 {
        Seq::empty()
    } else {
        joined(runs.drop_last()) + runs.last()@
    }
}

/// A stack with one more run holds the updates of that run after the others.
proof fn lemma_joined_push<T>(runs: Seq<Vec<(T, i64)>>, run: Vec<(T, i64)>)
    ensures
        joined(runs.push(run)) == joined(runs) + run@,
{
    assert(runs.push(run).drop_last() =~= runs);
}

/// Sorts and consolidates a batch of updates: afterwards its records are
/// strictly ascending, no weight is zero, and every record has the sum of
/// the weights that the batch gave it.
pub fn consolidate<T: Datum>(list: &mut Vec<(T, i64)>)
    requires
        mass(old(list)@) <= i64::MAX,
    ensures
        consolidated(final(list)@),
        forall|d: T| weight_of(final(list)@, d) == weight_of(old(list)@, d),
        mass(final(list)@) <= mass(old(list)@),
        final(list)@.len() <= old(list)@.len(),
{
    assert(list@.subrange(0, list@.len() as int) =~= list@);
    let run = consolidate_range(list, 0, list.len());
    *list = run;
}

/// The consolidated form of the updates of `list` from `lo` up to `hi`.
fn consolidate_range<T: Datum>(list: &Vec<(T, i64)>, lo: usize, hi: usize) -> (run: Vec<(T, i64)>)
    requires
        lo <= hi <= list@.len(),
        mass(list@.subrange(lo as int, hi as int)) <= i64::MAX,
    ensures
        consolidated(run@),
        forall|d: T| weight_of(run@, d) == weight_of(list@.subrange(lo as int, hi as int), d),
        mass(run@) <= mass(list@.subrange(lo as int, hi as int)),
        run@.len() <= hi - lo,
    decreases hi - lo,
{
    let ghost part = list@.subrange(lo as int, hi as int);
    let mut run: Vec<(T, i64)> = Vec::new();
    if hi - lo == 1 {
        let weight = list[lo].1;
        proof {
            assert(part =~= Seq::<(T, i64)>::empty().push(list@[lo as int]));
            lemma_mass_push(Seq::<(T, i64)>::empty(), list@[lo as int]);
            assert forall|d: T| weight_of(part, d) == if list@[lo as int].0 == d {
                weight as int
            } else {
                0
            } by {
                lemma_weight_push(Seq::<(T, i64)>::empty(), list@[lo as int], d);
            }
        }
        if weight != 0 {
            run.push((list[lo].0.duplicate(), weight));
            assert(run@ =~= part);
        }
        run
    } else if hi - lo > 1 {
        let mid = lo + (hi - lo) / 2;
        proof {
            let left = list@.subrange(lo as int, mid as int);
            let right = list@.subrange(mid as int, hi as int);
            assert(part =~= left + right);
            lemma_mass_concat(left, right);
            lemma_mass_bounds(left);
            lemma_mass_bounds(right);
            assert forall|d: T| weight_of(part, d) == weight_of(left, d) + weight_of(right, d) by {
                lemma_weight_concat(left, right, d);
            }
        }
        let run1 = consolidate_range(list, lo, mid);
        let run2 = consolidate_range(list, mid, hi);
        merge_by(run1, run2)
    } else {
        assert(part =~= Seq::<(T, i64)>::empty());
        run
    }
}

/// A stack of consolidated runs that merges neighbours of similar length.
pub struct MergeSorter<T: Datum> {
    queue: Vec<Vec<(T, i64)>>,
}

impl<T: Datum> MergeSorter<T> {
    /// All the updates that the sorter holds, as one batch.
    pub closed spec fn pending(&self) -> Seq<(T, i64)> {
        joined(self.queue@)
    }

    /// Whether the sorter holds no run.
    pub closed spec fn is_empty(&self) -> bool {
        self.queue@.len() == 0
    }

    /// Every run is consolidated, and the mass of all of them fits a weight.
    pub closed spec fn wf(&self) -> bool {
        &&& forall|i: int| 0 <= i < self.queue@.len() ==> consolidated((#[trigger] self.queue@[i])@)
        &&& mass(joined(self.queue@)) <= i64::MAX
    }

    /// The stack is settled: the topmost run, if there is one below it, is
    /// shorter than half of that one.
    pub closed spec fn settled(&self) -> bool {
        self.queue@.len() > 1 ==> self.queue@[self.queue@.len() - 1]@.len() < self.queue@[self.queue@.len() - 2]@.len() / 2
    }

    /// A sorter without runs holds no update.
    pub proof fn lemma_empty(&self)
        requires
            self.is_empty(),
        ensures
            self.pending() == Seq::<(T, i64)>::empty(),
    {
    }

    /// A sorter that holds nothing.
    pub fn new() -> (sorter: Self)
        ensures
            sorter.wf(),
            sorter.is_empty(),
            sorter.pending() == Seq::<(T, i64)>::empty(),
    {
        MergeSorter { queue: Vec::new() }
    }

    /// Merges the two topmost runs into one.
    fn merge_top(&mut self)
        requires
            old(self).wf(),
            old(self).queue@.len() >= 2,
        ensures
            final(self).wf(),
            final(self).queue@.len() == old(self).queue@.len() - 1,
            forall|d: T| weight_of(final(self).pending(), d) == weight_of(old(self).pending(), d),
            mass(final(self).pending()) <= mass(old(self).pending()),
    {
        let ghost before = self.queue@;
        let list1 = self.queue.pop().unwrap();
        let ghost middle = self.queue@;
        let list2 = self.queue.pop().unwrap();
        let ghost below = self.queue@;
        proof {
            assert(before =~= middle.push(list1));
            assert(middle =~= below.push(list2));
            lemma_joined_push(middle, list1);
            lemma_joined_push(below, list2);
            lemma_mass_concat(joined(middle), list1@);
            lemma_mass_concat(joined(below), list2@);
            lemma_mass_bounds(joined(below));
            lemma_mass_bounds(list1@);
            lemma_mass_bounds(list2@);
            assert(consolidated(before[before.len() - 1]@));
            assert(consolidated(before[before.len() - 2]@));
        }
        let merged = merge_by(list1, list2);
        self.queue.push(merged);
        proof {
            lemma_joined_push(below, merged);
            lemma_mass_concat(joined(below), merged@);
            assert forall|d: T| weight_of(self.pending(), d) == weight_of(old(self).pending(), d) by {
                lemma_weight_concat(joined(middle), list1@, d);
                lemma_weight_concat(joined(below), list2@, d);
                lemma_weight_concat(joined(below), merged@, d);
            }
            assert forall|i: int| 0 <= i < self.queue@.len() implies consolidated((#[trigger] self.queue@[i])@) by {
                if i < below.len() {
                    assert(self.queue@[i] == before[i]);
                }
            }
        }
    }

    /// Takes the updates of `batch`, leaving it empty, and adds them to the
    /// sorter as a consolidated run; then merges runs from the top while the
    /// topmost is at least half as long as the one below it.
    pub fn push(&mut self, batch: &mut Vec<(T, i64)>)
        requires
            old(self).wf(),
            mass(old(self).pending()) + mass(old(batch)@) <= i64::MAX,
        ensures
            final(self).wf(),
            final(batch)@.len() == 0,
            forall|d: T| weight_of(final(self).pending(), d) == weight_of(old(self).pending(), d) + weight_of(old(batch)@, d),
            mass(final(self).pending()) <= mass(old(self).pending()) + mass(old(batch)@),
            final(self).is_empty() == (old(self).is_empty() && old(batch)@.len() == 0),
            old(batch)@.len() > 0 ==> final(self).settled(),
    {
        let mut run: Vec<(T, i64)> = Vec::new();
        std::mem::swap(batch, &mut run);
        if run.len() > 0 {
            proof {
                lemma_mass_bounds(self.pending());
            }
            consolidate(&mut run);
            let ghost below = self.queue@;
            self.queue.push(run);
            proof {
                lemma_joined_push(below, run);
                lemma_mass_concat(joined(below), run@);
                assert forall|d: T| weight_of(self.pending(), d) == weight_of(old(self).pending(), d) + weight_of(old(batch)@, d) by {
                    lemma_weight_concat(joined(below), run@, d);
                }
                assert forall|i: int| 0 <= i < self.queue@.len() implies consolidated((#[trigger] self.queue@[i])@) by {
                    if i < below.len() {
                        assert(self.queue@[i] == below[i]);
                    }
                }
            }
            while self.queue.len() > 1 && self.queue[self.queue.len() - 1].len() >= self.queue[self.queue.len() - 2].len() / 2
                invariant
                    self.wf(),
                    self.queue@.len() >= 1,
                    forall|d: T| weight_of(self.pending(), d) == weight_of(old(self).pending(), d) + weight_of(old(batch)@, d),
                    mass(self.pending()) <= mass(old(self).pending()) + mass(old(batch)@),
                decreases self.queue@.len(),
            {
                self.merge_top();
            }
        } else {
            assert(old(batch)@ =~= Seq::<(T, i64)>::empty());
        }
    }

    /// Adds the chunks of `list`, which together are a consolidated run, to
    /// the sorter as one run, after merging runs from the top while the
    /// topmost is shorter than the new one.
    pub fn _push_list(&mut self, list: Vec<Vec<(T, i64)>>)
        requires
            old(self).wf(),
            consolidated(joined(list@)),
            mass(old(self).pending()) + mass(joined(list@)) <= i64::MAX,
        ensures
            final(self).wf(),
            !final(self).is_empty(),
            forall|d: T| weight_of(final(self).pending(), d) == weight_of(old(self).pending(), d) + weight_of(joined(list@), d),
            mass(final(self).pending()) <= mass(old(self).pending()) + mass(joined(list@)),
    {
        let list = flattened(list);
        while self.queue.len() > 1 && self.queue[self.queue.len() - 1].len() < list.len()
            invariant
                self.wf(),
                forall|d: T| weight_of(self.pending(), d) == weight_of(old(self).pending(), d),
                mass(self.pending()) <= mass(old(self).pending()),
            decreases self.queue@.len(),
        {
            self.merge_top();
        }
        let ghost below = self.queue@;
        proof {
            lemma_joined_push(below, list);
            lemma_mass_concat(joined(below), list@);
            assert forall|d: T| weight_of(joined(below.push(list)), d) == weight_of(old(self).pending(), d) + weight_of(list@, d) by {
                lemma_weight_concat(joined(below), list@, d);
            }
        }
        self.queue.push(list);
        assert forall|i: int| 0 <= i < self.queue@.len() implies consolidated((#[trigger] self.queue@[i])@) by {
            if i < below.len() {
                assert(self.queue@[i] == below[i]);
            }
        }
    }

    /// Takes all the batches of `list`, and leaves in it the one
    /// consolidated run of all their updates and of those that the sorter
    /// held; nothing if there was no update at all.
    pub fn _sort(&mut self, list: &mut Vec<Vec<(T, i64)>>)
        requires
            old(self).wf(),
            mass(old(self).pending()) + mass(joined(old(list)@)) <= i64::MAX,
        ensures
            final(self).wf(),
            final(self).is_empty(),
            consolidated(joined(final(list)@)),
            forall|d: T|
                weight_of(joined(final(list)@), d) == weight_of(old(self).pending(), d) + weight_of(joined(old(list)@), d),
            forall|i: int| 0 <= i < final(list)@.len() ==> 0 < (#[trigger] final(list)@[i])@.len() <= CHUNK,
    {
        while list.len() > 0
            invariant
                self.wf(),
                mass(self.pending()) + mass(joined(list@)) <= i64::MAX,
                forall|d: T|
                    weight_of(self.pending(), d) + weight_of(joined(list@), d) == weight_of(old(self).pending(), d) + weight_of(
                        joined(old(list)@),
                        d,
                    ),
            decreases list@.len(),
        {
            let ghost before = list@;
            let mut batch = list.pop().unwrap();
            proof {
                assert(before =~= list@.push(batch));
                lemma_joined_push(list@, batch);
                lemma_mass_concat(joined(list@), batch@);
                lemma_mass_bounds(joined(list@));
                assert forall|d: T| weight_of(joined(before), d) == weight_of(joined(list@), d) + weight_of(batch@, d) by {
                    lemma_weight_concat(joined(list@), batch@, d);
                }
            }
            self.push(&mut batch);
        }
        proof {
            if self.is_empty() {
                self.lemma_empty();
            }
            assert(list@ =~= Seq::<Vec<(T, i64)>>::empty());
        }
        self.finish_into(list);
    }

    /// Merges all the runs into one and hands it out in `target`, whose
    /// former content is dropped. A sorter that holds no run leaves `target`
    /// as it is. The sorter holds nothing afterwards.
    pub fn finish_run(&mut self, target: &mut Vec<(T, i64)>)
        requires
            old(self).wf(),
        ensures
            final(self).wf(),
            final(self).is_empty(),
            final(self).pending() == Seq::<(T, i64)>::empty(),
            old(self).is_empty() ==> final(target)@ == old(target)@,
            !old(self).is_empty() ==> consolidated(final(target)@),
            !old(self).is_empty() ==> forall|d: T| weight_of(final(target)@, d) == weight_of(old(self).pending(), d),
            !old(self).is_empty() ==> mass(final(target)@) <= mass(old(self).pending()),
    {
        while self.queue.len() > 1
            invariant
                self.wf(),
                self.is_empty() == old(self).is_empty(),
                forall|d: T| weight_of(self.pending(), d) == weight_of(old(self).pending(), d),
                mass(self.pending()) <= mass(old(self).pending()),
            decreases self.queue@.len(),
        {
            self.merge_top();
        }
        let ghost before = self.queue@;
        if let Some(last) = self.queue.pop() {
            proof {
                assert(before =~= Seq::<Vec<(T, i64)>>::empty().push(last));
                lemma_joined_push(Seq::<Vec<(T, i64)>>::empty(), last);
                assert(joined(before) =~= last@);
                assert(consolidated(before[0]@));
            }
            *target = last;
        }
        assert(self.queue@ =~= Seq::<Vec<(T, i64)>>::empty());
    }

    /// Merges all the runs into one and hands it out in `target`, cut into
    /// chunks of at most `CHUNK` updates; the former content of `target` is
    /// dropped. A sorter that holds no run leaves `target` as it is. The
    /// sorter holds nothing afterwards.
    pub fn finish_into(&mut self, target: &mut Vec<Vec<(T, i64)>>)
        requires
            old(self).wf(),
        ensures
            final(self).wf(),
            final(self).is_empty(),
            final(self).pending() == Seq::<(T, i64)>::empty(),
            old(self).is_empty() ==> final(target)@ == old(target)@,
            !old(self).is_empty() ==> consolidated(joined(final(target)@)),
            !old(self).is_empty() ==> forall|d: T| weight_of(joined(final(target)@), d) == weight_of(old(self).pending(), d),
            !old(self).is_empty() ==> mass(joined(final(target)@)) <= mass(old(self).pending()),
            !old(self).is_empty() ==> forall|i: int| 0 <= i < final(target)@.len() ==> 0 < (#[trigger] final(target)@[i])@.len() <= CHUNK,
    {
        if self.queue.len() > 0 {
            let mut run: Vec<(T, i64)> = Vec::new();
            self.finish_run(&mut run);
            *target = chunked(run);
        }
    }
}

/// The updates of all the chunks of `chunks`, in one vector.
fn flattened<T>(chunks: Vec<Vec<(T, i64)>>) -> (run: Vec<(T, i64)>)
    ensures
        run@ == joined(chunks@),
{
    let ghost all = chunks@;
    let mut chunks = chunks;
    let mut run: Vec<(T, i64)> = Vec::new();
    assert(joined(chunks@) + run@ =~= joined(all));
    while chunks.len() > 0
        invariant
            joined(chunks@) + run@ == joined(all),
        decreases chunks@.len(),
    {
        let ghost before = chunks@;
        let ghost tail = run@;
        let mut front = chunks.pop().unwrap();
        proof {
            assert(before =~= chunks@.push(front));
            lemma_joined_push(chunks@, front);
        }
        front.append(&mut run);
        run = front;
        assert(joined(chunks@) + run@ =~= joined(before) + tail);
    }
    assert(joined(chunks@) =~= Seq::<(T, i64)>::empty());
    assert(joined(chunks@) + run@ =~= run@);
    run
}

/// The largest number of updates in one chunk of a finished run.
pub const CHUNK: usize = 1024;

/// Cuts `run` into chunks of `CHUNK` updates, the last one with the rest.
fn chunked<T>(run: Vec<(T, i64)>) -> (chunks: Vec<Vec<(T, i64)>>)
    ensures
        joined(chunks@) == run@,
        forall|i: int| 0 <= i < chunks@.len() ==> 0 < (#[trigger] chunks@[i])@.len() <= CHUNK,
{
    let ghost items = run@;
    let mut queue = VecQueue::from(run);
    let mut chunks: Vec<Vec<(T, i64)>> = Vec::new();
    let mut chunk: Vec<(T, i64)> = Vec::new();
    assert(joined(chunks@) + chunk@ + queue@ =~= items);
    while !queue.is_empty()
        invariant
            joined(chunks@) + chunk@ + queue@ == items,
            chunk@.len() < CHUNK,
            forall|i: int| 0 <= i < chunks@.len() ==> 0 < (#[trigger] chunks@[i])@.len() <= CHUNK,
        decreases queue@.len(),
    {
        let ghost done = joined(chunks@);
        let ghost part = chunk@;
        let ghost rest = queue@;
        let item = queue.pop();
        chunk.push(item);
        assert(done + chunk@ + queue@ =~= done + part + rest);
        if chunk.len() == CHUNK {
            proof {
                lemma_joined_push(chunks@, chunk);
            }
            chunks.push(chunk);
            chunk = Vec::new();
            assert(joined(chunks@) + chunk@ + queue@ =~= items);
        }
    }
    if chunk.len() > 0 {
        proof {
            lemma_joined_push(chunks@, chunk);
            assert(joined(chunks@) + chunk@ =~= items);
        }
        chunks.push(chunk);
    } else {
        assert(joined(chunks@) =~= items);
    }
    chunks
}

} // verus!
