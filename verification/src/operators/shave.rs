//! Decomposition of weights into slices of a fixed width.
//!
//! The weight of a record is laid along the integer line from zero. The
//! line is cut into cells of `width` units; cell `i` covers the units from
//! `i * width` up to `(i + 1) * width`. A change of weight is reported cell
//! by cell, in the order in which the cells are crossed.

use vstd::prelude::*;
use vstd::arithmetic::div_mod::{lemma_fundamental_div_mod, lemma_fundamental_div_mod_converse, lemma_mod_bound};
use std::collections::HashMap;
use crate::merge_sort::MergeSorter;
use crate::weights::{consolidated, lemma_ascending_weight, lemma_weight_bound, lemma_mass_concat, lemma_mass_push, lemma_take_next, lemma_total_push, magnitude, mass, total, weight_of};

verus! {

broadcast use vstd::std_specs::hash::group_hash_axioms;

/// The slices, as `(index, change)`, by which a weight `w` moves by `delta`
/// over cells of `width` units.
pub open spec fn shave_slices(w: int, delta: int, width: int) -> Seq<(int, int)>
    decreases magnitude(delta),
    via shave_slices_decreases
{
    if width <= 0 || delta == 0 {
        Seq::empty()
    } else if delta > 0 {
        let index = w / width;
        let change = if (index + 1) * width - w <= delta {
            (index + 1) * width - w
        } else {
            delta
        };
        seq![(index, change)] + shave_slices(w + change, delta - change, width)
    } else {
        let index = (w - 1) / width;
        let change = if index * width - w >= delta {
            index * width - w
        } else {
            delta
        };
        seq![(index, change)] + shave_slices(w + change, delta - change, width)
    }
}

/// Every slice takes at least one unit off what is left of `delta`.
#[via_fn]
proof fn shave_slices_decreases(w: int, delta: int, width: int) {
    if width > 0 {
        lemma_cell(w, width);
        lemma_cell(w - 1, width);
    }
}

/// The cell of `w` starts at or below `w` and ends above it.
pub proof fn lemma_cell(w: int, width: int)
    requires
        width > 0,
    ensures
        (w / width) * width <= w < (w / width + 1) * width,
        (w / width + 1) * width == (w / width) * width + width,
        (w / width) * width == w - w % width,
        0 <= w % width < width,
{
    lemma_fundamental_div_mod(w, width);
    lemma_mod_bound(w, width);
    let q = w / width;
    assert((q + 1) * width == q * width + width) by (nonlinear_arith);
    assert(width * q == q * width) by (nonlinear_arith);
}

/// The quotient and remainder of `w` by `width`, the quotient rounded
/// toward negative infinity.
pub fn floor_div_rem(w: i64, width: i64) -> (qr: (i64, i64))
    requires
        width > 0,
    ensures
        qr.0 == w as int / width as int,
        qr.1 == w as int % width as int,
        0 <= qr.1 < width,
{
    proof {
        lemma_cell(w as int, width as int);
    }
    if w >= 0 {
        (w / width, w % width)
    } else {
        let m: i64 = -(w + 1);
        let q: i64 = m / width;
        let r: i64 = m % width;
        proof {
            lemma_cell(m as int, width as int);
            let qq = -(q as int) - 1;
            let rr = width as int - 1 - r as int;
            assert(w as int == qq * width as int + rr) by (nonlinear_arith)
                requires
                    m as int == -(w as int) - 1,
                    q as int * width as int == m as int - r as int,
                    qq == -(q as int) - 1,
                    rr == width as int - 1 - r as int,
            ;
            lemma_fundamental_div_mod_converse(w as int, width as int, qq, rr);
        }
        (-q - 1, width - 1 - r)
    }
}

/// The emitted slices as `(index, change)` pairs of integers.
pub open spec fn slice_view(out: Seq<((u64, i64), i64)>) -> Seq<(int, int)> {
    out.map_values(|e: ((u64, i64), i64)| ((e.0).1 as int, e.1 as int))
}

/// The sum of the changes of a sequence of slices.
pub open spec fn slices_sum(s: Seq<(int, int)>) -> int
    decreases s.len(),
{
    if s.len() == 0 {
        0
    } else {
        s[0].1 + slices_sum(s.drop_first())
    }
}

/// The slices `(index, change)` as emitted for the record `datum`.
pub open spec fn tagged(datum: u64, slices: Seq<(int, int)>) -> Seq<((u64, i64), i64)> {
    slices.map_values(|e: (int, int)| ((datum, e.0 as i64), e.1 as i64))
}

/// The weight that `weights` holds for `d`: zero where it holds none.
pub open spec fn weight_in(weights: Map<u64, int>, d: u64) -> int {
    if weights.contains_key(d) {
        weights[d]
    } else {
        0
    }
}

/// What is emitted when the updates of `run` are applied in their order to
/// the weights of `start`: for each update the slices that its record
/// crosses, from the weight that the record has reached by then.
pub open spec fn shave_run(start: Map<u64, int>, run: Seq<(u64, i64)>, width: int) -> Seq<((u64, i64), i64)>
    decreases run.len(),
{
    if run.len() == 0 {
        Seq::empty()
    } else {
        let datum = run.last().0;
        shave_run(start, run.drop_last(), width) + tagged(
            datum,
            shave_slices(weight_in(start, datum) + weight_of(run.drop_last(), datum), run.last().1 as int, width),
        )
    }
}

/// The weight of every record that was shaved, by record.
pub struct ShaveState {
    weight: HashMap<u64, i64>,
}

impl ShaveState {
    /// The weights that the records have reached, by record.
    pub closed spec fn weights(&self) -> Map<u64, int> {
        self.weight@.map_values(|w: i64| w as int)
    }

    /// The weight that the record `d` has reached.
    pub open spec fn weight(&self, d: u64) -> int {
        weight_in(self.weights(), d)
    }

    /// A state in which every record has weight zero.
    pub fn new() -> (state: Self)
        ensures
            state.weights() == Map::<u64, int>::empty(),
    {
        let state = ShaveState { weight: HashMap::new() };
        assert(state.weights() =~= Map::<u64, int>::empty());
        state
    }

    /// The weight that the record `d` has reached.
    pub fn get(&self, d: u64) -> (w: i64)
        ensures
            w == self.weight(d),
    {
        match self.weight.get(&d) {
            Some(w) => *w,
            None => 0,
        }
    }

    /// Moves the weight of `datum` by `delta` and returns the slices crossed,
    /// each as `((datum, index), change)`, in the order of crossing.
    pub fn update(&mut self, datum: u64, delta: i64, width: i64) -> (slices: Vec<((u64, i64), i64)>)
        requires
            width > 0,
            i64::MIN <= old(self).weight(datum) + delta <= i64::MAX,
        ensures
            forall|d: u64| final(self).weight(d) == old(self).weight(d) + if d == datum {
                delta as int
            } else {
                0
            },
            slice_view(slices@) == shave_slices(old(self).weight(datum), delta as int, width as int),
            forall|i: int| 0 <= i < slices@.len() ==> (#[trigger] slices@[i].0).0 == datum,
            total(slices@) == delta,
            mass(slices@) == magnitude(delta as int),
    {
        let start: i64 = self.get(datum);
        let mut weight: i64 = start;
        let mut remaining: i64 = delta;
        let mut slices: Vec<((u64, i64), i64)> = Vec::new();
        let ghost goal = shave_slices(start as int, delta as int, width as int);
        assert(slice_view(slices@) =~= Seq::<(int, int)>::empty());
        while remaining > 0
            invariant
                width > 0,
                i64::MIN <= weight + remaining <= i64::MAX,
                weight + remaining == old(self).weight(datum) + delta,
                slice_view(slices@) + shave_slices(weight as int, remaining as int, width as int) == goal,
                goal == shave_slices(old(self).weight(datum), delta as int, width as int),
                self.weight@ == old(self).weight@,
                total(slices@) + remaining == delta,
                mass(slices@) + magnitude(remaining as int) == magnitude(delta as int),
                forall|i: int| 0 <= i < slices@.len() ==> (#[trigger] slices@[i].0).0 == datum,
            decreases remaining,
        {
            let (index, used) = floor_div_rem(weight, width);
            proof {
                lemma_cell(weight as int, width as int);
            }
            let room: i64 = width - used;
            let change: i64 = if room <= remaining {
                room
            } else {
                remaining
            };
            let ghost before = slices@;
            let ghost rest = shave_slices(weight as int + change, remaining as int - change, width as int);
            slices.push(((datum, index), change));
            proof {
                assert(slice_view(slices@) =~= slice_view(before).push((index as int, change as int)));
                lemma_total_push(before, ((datum, index), change));
                lemma_mass_push(before, ((datum, index), change));
                assert(slice_view(slices@) + rest =~= slice_view(before) + (seq![(index as int, change as int)] + rest));
            }
            weight = weight + change;
            remaining = remaining - change;
        }
        while remaining < 0
            invariant
                width > 0,
                remaining <= 0,
                i64::MIN <= weight + remaining <= i64::MAX,
                weight + remaining == old(self).weight(datum) + delta,
                slice_view(slices@) + shave_slices(weight as int, remaining as int, width as int) == goal,
                goal == shave_slices(old(self).weight(datum), delta as int, width as int),
                self.weight@ == old(self).weight@,
                total(slices@) + remaining == delta,
                mass(slices@) + magnitude(remaining as int) == magnitude(delta as int),
                forall|i: int| 0 <= i < slices@.len() ==> (#[trigger] slices@[i].0).0 == datum,
            decreases -remaining,
        {
            let (index, used) = floor_div_rem(weight - 1, width);
            proof {
                lemma_cell(weight as int - 1, width as int);
            }
            let reach: i64 = -used - 1;
            let change: i64 = if reach >= remaining {
                reach
            } else {
                remaining
            };
            let ghost before = slices@;
            let ghost rest = shave_slices(weight as int + change, remaining as int - change, width as int);
            slices.push(((datum, index), change));
            proof {
                assert(slice_view(slices@) =~= slice_view(before).push((index as int, change as int)));
                lemma_total_push(before, ((datum, index), change));
                lemma_mass_push(before, ((datum, index), change));
                assert(slice_view(slices@) + rest =~= slice_view(before) + (seq![(index as int, change as int)] + rest));
            }
            weight = weight + change;
            remaining = remaining - change;
        }
        assert(slice_view(slices@) + Seq::<(int, int)>::empty() =~= slice_view(slices@));
        self.weight.insert(datum, weight);
        slices
    }

    /// Takes all the updates out of `sorter`, consolidated and in ascending
    /// order of their records, applies each to the weights, and returns the
    /// slices crossed.
    pub fn drain(&mut self, sorter: &mut MergeSorter<u64>, width: i64) -> (out: Vec<((u64, i64), i64)>)
        requires
            old(sorter).wf(),
            width > 0,
            forall|d: u64| i64::MIN <= #[trigger] old(self).weight(d) + weight_of(old(sorter).pending(), d) <= i64::MAX,
        ensures
            final(sorter).wf(),
            final(sorter).is_empty(),
            forall|d: u64| final(self).weight(d) == old(self).weight(d) + weight_of(old(sorter).pending(), d),
            exists|run: Seq<(u64, i64)>|
                {
                    &&& consolidated(run)
                    &&& forall|d: u64| weight_of(run, d) == weight_of(old(sorter).pending(), d)
                    &&& out@ == shave_run(old(self).weights(), run, width as int)
                },
            mass(out@) <= mass(old(sorter).pending()),
    {
        let mut run: Vec<(u64, i64)> = Vec::new();
        proof {
            if sorter.is_empty() {
                sorter.lemma_empty();
            }
        }
        sorter.finish_run(&mut run);
        let mut out: Vec<((u64, i64), i64)> = Vec::new();
        let mut i: usize = 0;
        assert(out@ =~= shave_run(old(self).weights(), run@.take(0), width as int));
        while i < run.len()
            invariant
                i <= run@.len(),
                width > 0,
                consolidated(run@),
                forall|d: u64| i64::MIN <= #[trigger] old(self).weight(d) + weight_of(run@, d) <= i64::MAX,
                forall|d: u64| self.weight(d) == old(self).weight(d) + weight_of(run@.take(i as int), d),
                out@ == shave_run(old(self).weights(), run@.take(i as int), width as int),
                mass(out@) == mass(run@.take(i as int)),
            decreases run@.len() - i,
        {
            let datum = run[i].0;
            let delta = run[i].1;
            let ghost reached = self.weight(datum);
            let ghost emitted = out@;
            proof {
                lemma_ascending_weight(run@, i as int);
                assert(run@.take(i as int + 1).drop_last() =~= run@.take(i as int));
            }
            let mut slices = self.update(datum, delta, width);
            proof {
                assert(slices@ =~= tagged(datum, shave_slices(reached, delta as int, width as int)));
                lemma_mass_concat(emitted, slices@);
                assert forall|d: u64| self.weight(d) == old(self).weight(d) + weight_of(run@.take(i as int + 1), d) by {
                    lemma_take_next(run@, i as int, d);
                }
                lemma_take_next(run@, i as int, datum);
            }
            out.append(&mut slices);
            i = i + 1;
        }
        assert(run@.take(i as int) =~= run@);
        out
    }
}

/// Shaving conserves weight: the changes of the slices add up to `delta`.
/// Each of them has the sign of `delta` and at most `width` units.
pub proof fn lemma_shave_conserves(w: int, delta: int, width: int)
    requires
        width > 0,
    ensures
        slices_sum(shave_slices(w, delta, width)) == delta,
        forall|i: int| 0 <= i < shave_slices(w, delta, width).len() ==> {
            let change = (#[trigger] shave_slices(w, delta, width)[i]).1;
            &&& delta > 0 ==> 0 < change <= width
            &&& delta < 0 ==> -width <= change < 0
        },
    decreases magnitude(delta),
{
    let s = shave_slices(w, delta, width);
    if delta != 0 {
        lemma_cell(w, width);
        lemma_cell(w - 1, width);
        let first = s[0];
        let rest = shave_slices(w + first.1, delta - first.1, width);
        assert(s.drop_first() =~= rest);
        lemma_shave_conserves(w + first.1, delta - first.1, width);
        assert forall|i: int| 0 <= i < s.len() implies {
            let change = (#[trigger] s[i]).1;
            &&& delta > 0 ==> 0 < change <= width
            &&& delta < 0 ==> -width <= change < 0
        } by {
            if i > 0 {
                assert(s[i] == rest[i - 1]);
            }
        }
    }
}

/// A weight of exactly `k` cells, shaved from zero, gives `k` slices of
/// `width` units each, with the indices `0` to `k - 1` in order.
pub proof fn lemma_shave_whole_cells(k: nat, width: int)
    requires
        width > 0,
    ensures
        shave_slices(0, k * width, width) == Seq::new(k, |i: int| (i, width)),
{
    lemma_shave_cells_from(0, k, width);
    assert(0 * width == 0) by (nonlinear_arith);
    assert(shave_slices(0, k * width, width) =~= Seq::new(k, |i: int| (i, width)));
}

/// From the start of cell `j`, a weight of exactly `m` cells gives `m`
/// slices of `width` units each, with the indices `j` to `j + m - 1`.
pub proof fn lemma_shave_cells_from(j: int, m: nat, width: int)
    requires
        width > 0,
    ensures
        shave_slices(j * width, m * width, width) == Seq::new(m, |i: int| (j + i, width)),
    decreases m,
{
    let s = shave_slices(j * width, m * width, width);
    if m == 0 {
        assert(0 * width == 0) by (nonlinear_arith);
        assert(s =~= Seq::new(m, |i: int| (j + i, width)));
    } else {
        assert(m * width >= width) by (nonlinear_arith)
            requires
                m >= 1,
                width > 0,
        ;
        assert((j + 1) * width == j * width + width) by (nonlinear_arith);
        assert(m * width - width == (m - 1) * width) by (nonlinear_arith);
        lemma_fundamental_div_mod_converse(j * width, width, j, 0);
        lemma_shave_cells_from(j + 1, (m - 1) as nat, width);
        let rest = shave_slices((j + 1) * width, (m - 1) * width, width);
        assert(s == seq![(j, width)] + rest);
        assert(s =~= Seq::new(m, |i: int| (j + i, width)));
    }
}

/// `output` is what shaving emits for the collection of `input` from
/// weights of zero: the slices of its consolidated updates, in ascending
/// order of their records.
pub open spec fn shaved(input: Seq<(u64, i64)>, output: Seq<((u64, i64), i64)>, width: int) -> bool {
    exists|run: Seq<(u64, i64)>|
        {
            &&& consolidated(run)
            &&& forall|d: u64| weight_of(run, d) == weight_of(input, d)
            &&& output == shave_run(Map::<u64, int>::empty(), run, width)
        }
}

/// Shaves a whole collection: consolidates `batch` and emits the slices of
/// each of its records, from a weight of zero.
pub fn shave(batch: Vec<(u64, i64)>, width: i64) -> (out: Vec<((u64, i64), i64)>)
    requires
        width > 0,
        mass(batch@) <= i64::MAX,
    ensures
        shaved(batch@, out@, width as int),
        mass(out@) <= mass(batch@),
{
    let mut batch = batch;
    let mut sorter: MergeSorter<u64> = MergeSorter::new();
    let mut state = ShaveState::new();
    sorter.push(&mut batch);
    proof {
        assert forall|d: u64| i64::MIN <= #[trigger] state.weight(d) + weight_of(sorter.pending(), d) <= i64::MAX by {
            lemma_weight_bound(sorter.pending(), d);
        }
    }
    state.drain(&mut sorter, width)
}

/// How much of the cell `index` a weight of `w` fills, counted from the
/// lower end of the cell: nothing below it, all `width` units above it.
pub open spec fn filled(w: int, index: int, width: int) -> int {
    if w - index * width <= 0 {
        0
    } else if w - index * width >= width {
        width
    } else {
        w - index * width
    }
}

/// The sum of the changes that the slices `s` bring to the cell `index`.
pub open spec fn slice_weight(s: Seq<(int, int)>, index: int) -> int
    decreases s.len(),
{
    if s.len() == 0 {
        0
    } else {
        slice_weight(s.drop_first(), index) + if s[0].0 == index {
            s[0].1
        } else {
            0
        }
    }
}

/// A move of the weight within one cell changes what is filled of that
/// cell by the length of the move, and of no other cell.
proof fn lemma_filled_step(w: int, change: int, cell: int, index: int, width: int)
    requires
        width > 0,
        cell * width <= w <= cell * width + width,
        cell * width <= w + change <= cell * width + width,
    ensures
        filled(w + change, index, width) - filled(w, index, width) == if index == cell {
            change
        } else {
            0
        },
{
    if index < cell {
        assert(cell * width - index * width >= width) by (nonlinear_arith)
            requires
                cell - index >= 1,
                width > 0,
        ;
    } else if index > cell {
        assert(index * width - cell * width >= width) by (nonlinear_arith)
            requires
                index - cell >= 1,
                width > 0,
        ;
    }
}

/// The slices of a move add up, cell by cell, to the change of what the
/// weight fills of the cell: after a move from `w` by `delta`, the cell
/// `index` has gained `filled(w + delta) - filled(w)`. From a weight of
/// zero, a weight `w` above zero so gives the cell `index` the weight
/// `w - index * width`, clamped to the range from zero to `width`.
pub proof fn lemma_shave_fills(w: int, delta: int, width: int, index: int)
    requires
        width > 0,
    ensures
        slice_weight(shave_slices(w, delta, width), index) == filled(w + delta, index, width) - filled(w, index, width),
    decreases magnitude(delta),
{
    let s = shave_slices(w, delta, width);
    if delta != 0 {
        lemma_cell(w, width);
        lemma_cell(w - 1, width);
        let first = s[0];
        let rest = shave_slices(w + first.1, delta - first.1, width);
        assert(s.drop_first() =~= rest);
        lemma_shave_fills(w + first.1, delta - first.1, width, index);
        lemma_filled_step(w, first.1, first.0, index, width);
    }
}

} // verus!
