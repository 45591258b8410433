//! Weighted collections as values, and the stateless operators on them.

use vstd::prelude::*;
use crate::merge_sort::VecQueue;
use crate::operators::flat_map::{contents, flat_map, produced, spread_all};
use crate::operators::join::{join, joined_as, joined_in_order};
use crate::operators::min_max::{greater, lesser, min_max};
use crate::operators::shave::{shave, shaved};
use crate::weights::{lemma_mass_bounds, lemma_net_mass_one_record, lemma_net_mass_peel, lemma_net_mass_same, lemma_weight_concat, lemma_weight_push, lemma_without, mass, net_mass, weight_of, without};

verus! {

/// The updates of `s` with every weight negated.
pub open spec fn negated<D>(s: Seq<(D, i64)>) -> Seq<(D, i64)> {
    s.map_values(|e: (D, i64)| (e.0, (-e.1) as i64))
}

/// No weight of `s` is the one weight that has no negative.
pub open spec fn negatable<D>(s: Seq<(D, i64)>) -> bool {
    forall|i: int| 0 <= i < s.len() ==> (#[trigger] s[i]).1 > i64::MIN
}

/// Negation turns the weight of every record around and keeps the mass.
pub proof fn lemma_negated<D>(s: Seq<(D, i64)>, d: D)
    requires
        negatable(s),
    ensures
        weight_of(negated(s), d) == -weight_of(s, d),
        mass(negated(s)) == mass(s),
    decreases s.len(),
{
    if s.len() > 0 {
        let rest = s.drop_last();
        assert(negated(s).drop_last() =~= negated(rest));
        lemma_negated(rest, d);
    }
}

/// Negates the weight of every update of `batch`.
pub fn negate<D>(batch: Vec<(D, i64)>) -> (out: Vec<(D, i64)>)
    requires
        negatable(batch@),
    ensures
        out@ == negated(batch@),
{
    let ghost items = batch@;
    let mut queue = VecQueue::from(batch);
    let mut out: Vec<(D, i64)> = Vec::new();
    while !queue.is_empty()
        invariant
            negatable(items),
            out@.len() + queue@.len() == items.len(),
            queue@ == items.skip(out@.len() as int),
            out@ == negated(items.take(out@.len() as int)),
        decreases queue@.len(),
    {
        let ghost n = out@.len() as int;
        let (datum, weight) = queue.pop();
        assert(items[n] == (datum, weight));
        out.push((datum, -weight));
        proof {
            assert(queue@ =~= items.skip(n + 1));
            assert(out@ =~= negated(items.take(n + 1)));
        }
    }
    assert(items.take(out@.len() as int) =~= items);
    out
}

/// The updates of `s` with every record replaced by its image under `f`.
pub open spec fn map_updates<D, R>(s: Seq<(D, i64)>, f: spec_fn(D) -> R) -> Seq<(R, i64)> {
    s.map_values(|e: (D, i64)| (f(e.0), e.1))
}

/// The updates of `s` that are marked in `keep`, in their order.
pub open spec fn kept<D>(s: Seq<(D, i64)>, keep: Seq<bool>) -> Seq<(D, i64)>
    decreases s.len(),
{
    if s.len() == 0 || keep.len() != s.len() {
        Seq::empty()
    } else if keep.last() {
        kept(s.drop_last(), keep.drop_last()).push(s.last())
    } else {
        kept(s.drop_last(), keep.drop_last())
    }
}

/// The updates of `s` whose record satisfies `p`, in their order.
pub open spec fn filter_updates<D>(s: Seq<(D, i64)>, p: spec_fn(D) -> bool) -> Seq<(D, i64)> {
    kept(s, s.map_values(|e: (D, i64)| p(e.0)))
}

/// The updates of `a` followed by those of `b`: the sum of two collections.
pub open spec fn concat_updates<D>(a: Seq<(D, i64)>, b: Seq<(D, i64)>) -> Seq<(D, i64)> {
    a + b
}

/// The updates of `a` followed by those of `b` negated: the difference of
/// two collections.
pub open spec fn except_updates<D>(a: Seq<(D, i64)>, b: Seq<(D, i64)>) -> Seq<(D, i64)> {
    a + negated(b)
}

/// `output` is `input` with every record sent through `function`.
pub open spec fn mapped<D, R, F: Fn(D) -> R>(input: Seq<(D, i64)>, output: Seq<(R, i64)>, function: F) -> bool {
    &&& output.len() == input.len()
    &&& forall|i: int|
        0 <= i < input.len() ==> (#[trigger] output[i]).1 == input[i].1 && function.ensures((input[i].0,), output[i].0)
}

/// `keep` holds what `predicate` answered for each record of `input`.
pub open spec fn answered<D, P: Fn(&D) -> bool>(input: Seq<(D, i64)>, keep: Seq<bool>, predicate: P) -> bool {
    &&& keep.len() == input.len()
    &&& forall|i: int| 0 <= i < input.len() ==> predicate.ensures((&input[i].0,), #[trigger] keep[i])
}

/// Sends every record of `batch` through `function`; the weights stay.
pub fn map_batch<D, R, F: Fn(D) -> R>(batch: Vec<(D, i64)>, function: &F) -> (out: Vec<(R, i64)>)
    requires
        forall|i: int| 0 <= i < batch@.len() ==> function.requires(((#[trigger] batch@[i]).0,)),
    ensures
        mapped(batch@, out@, *function),
{
    let ghost items = batch@;
    let mut queue = VecQueue::from(batch);
    let mut out: Vec<(R, i64)> = Vec::new();
    while !queue.is_empty()
        invariant
            forall|i: int| 0 <= i < items.len() ==> function.requires(((#[trigger] items[i]).0,)),
            out@.len() + queue@.len() == items.len(),
            queue@ == items.skip(out@.len() as int),
            mapped(items.take(out@.len() as int), out@, *function),
        decreases queue@.len(),
    {
        let ghost n = out@.len() as int;
        let (datum, weight) = queue.pop();
        assert(items[n] == (datum, weight));
        let image = function(datum);
        out.push((image, weight));
        proof {
            assert(queue@ =~= items.skip(n + 1));
            assert forall|i: int| 0 <= i < n + 1 implies (#[trigger] out@[i]).1 == items.take(n + 1)[i].1 && function.ensures(
                (items.take(n + 1)[i].0,),
                out@[i].0,
            ) by {
                if i < n {
                    assert(items.take(n)[i] == items.take(n + 1)[i]);
                }
            }
        }
    }
    assert(items.take(out@.len() as int) =~= items);
    out
}

/// Keeps the updates of `batch` whose record `predicate` accepts.
pub fn filter_batch<D, P: Fn(&D) -> bool>(batch: Vec<(D, i64)>, predicate: &P) -> (out: Vec<(D, i64)>)
    requires
        forall|i: int| 0 <= i < batch@.len() ==> predicate.requires((&(#[trigger] batch@[i]).0,)),
    ensures
        exists|keep: Seq<bool>| answered(batch@, keep, *predicate) && out@ == kept(batch@, keep),
{
    let ghost items = batch@;
    let ghost mut keep: Seq<bool> = Seq::empty();
    let mut queue = VecQueue::from(batch);
    let mut out: Vec<(D, i64)> = Vec::new();
    assert(kept(items.take(0), keep) =~= out@);
    while !queue.is_empty()
        invariant
            forall|i: int| 0 <= i < items.len() ==> predicate.requires((&(#[trigger] items[i]).0,)),
            keep.len() + queue@.len() == items.len(),
            queue@ == items.skip(keep.len() as int),
            answered(items.take(keep.len() as int), keep, *predicate),
            out@ == kept(items.take(keep.len() as int), keep),
        decreases queue@.len(),
    {
        let ghost n = keep.len() as int;
        let ghost before = keep;
        let (datum, weight) = queue.pop();
        assert(items[n] == (datum, weight));
        let answer = predicate(&datum);
        proof {
            keep = keep.push(answer);
            assert(queue@ =~= items.skip(n + 1));
            assert(keep.drop_last() =~= before);
            assert(items.take(n + 1).drop_last() =~= items.take(n));
            assert forall|i: int| 0 <= i < n + 1 implies predicate.ensures((&items.take(n + 1)[i].0,), #[trigger] keep[i]) by {
                if i < n {
                    assert(items.take(n)[i] == items.take(n + 1)[i]);
                    assert(before[i] == keep[i]);
                }
            }
        }
        if answer {
            out.push((datum, weight));
        }
    }
    assert(items.take(keep.len() as int) =~= items);
    out
}

/// The updates of `first` followed by those of `second`.
pub fn concat_batch<D>(first: Vec<(D, i64)>, second: Vec<(D, i64)>) -> (out: Vec<(D, i64)>)
    ensures
        out@ == concat_updates(first@, second@),
{
    let mut out = first;
    let mut second = second;
    out.append(&mut second);
    out
}

/// A weighted collection in its two forms: the sensitive data, `truth`, and
/// the candidate that is tested against it, `synth`. Each is a batch of
/// updates; every operator treats the two alike.
pub struct Dataset<D> {
    pub truth: Vec<(D, i64)>,
    pub synth: Vec<(D, i64)>,
}

impl<D> Dataset<D> {
    /// The dataset of the two batches.
    pub fn from(truth: Vec<(D, i64)>, synth: Vec<(D, i64)>) -> (out: Self)
        ensures
            out.truth@ == truth@,
            out.synth@ == synth@,
    {
        Dataset { truth, synth }
    }

    /// Sends every record through `function`; the weights stay.
    pub fn map<R, F: Fn(D) -> R>(self, function: F) -> (out: Dataset<R>)
        requires
            forall|i: int| 0 <= i < self.truth@.len() ==> function.requires(((#[trigger] self.truth@[i]).0,)),
            forall|i: int| 0 <= i < self.synth@.len() ==> function.requires(((#[trigger] self.synth@[i]).0,)),
        ensures
            mapped(self.truth@, out.truth@, function),
            mapped(self.synth@, out.synth@, function),
    {
        let truth = map_batch(self.truth, &function);
        let synth = map_batch(self.synth, &function);
        Dataset { truth, synth }
    }

    /// Keeps the records that `predicate` accepts.
    pub fn filter<P: Fn(&D) -> bool>(self, predicate: P) -> (out: Dataset<D>)
        requires
            forall|i: int| 0 <= i < self.truth@.len() ==> predicate.requires((&(#[trigger] self.truth@[i]).0,)),
            forall|i: int| 0 <= i < self.synth@.len() ==> predicate.requires((&(#[trigger] self.synth@[i]).0,)),
        ensures
            exists|keep: Seq<bool>| answered(self.truth@, keep, predicate) && out.truth@ == kept(self.truth@, keep),
            exists|keep: Seq<bool>| answered(self.synth@, keep, predicate) && out.synth@ == kept(self.synth@, keep),
    {
        let truth = filter_batch(self.truth, &predicate);
        let synth = filter_batch(self.synth, &predicate);
        Dataset { truth, synth }
    }

    /// The sum of two datasets: every record has the sum of its weights.
    pub fn concat(self, other: Self) -> (out: Self)
        ensures
            out.truth@ == concat_updates(self.truth@, other.truth@),
            out.synth@ == concat_updates(self.synth@, other.synth@),
    {
        let truth = concat_batch(self.truth, other.truth);
        let synth = concat_batch(self.synth, other.synth);
        Dataset { truth, synth }
    }

    /// The difference of two datasets: every record has its weight in
    /// `self` less its weight in `other`.
    pub fn except(self, other: Self) -> (out: Self)
        requires
            negatable(other.truth@),
            negatable(other.synth@),
        ensures
            out.truth@ == except_updates(self.truth@, other.truth@),
            out.synth@ == except_updates(self.synth@, other.synth@),
    {
        let truth = concat_batch(self.truth, negate(other.truth));
        let synth = concat_batch(self.synth, negate(other.synth));
        Dataset { truth, synth }
    }
}

impl<D> Dataset<D> {
    /// Sends every record through `function` and divides its weight among
    /// the results. A record without results emits nothing: its weight is
    /// lost.
    pub fn flat_map<E, F: Fn(D) -> Vec<E>>(self, function: F) -> (out: Dataset<E>)
        requires
            forall|i: int| 0 <= i < self.truth@.len() ==> function.requires(((#[trigger] self.truth@[i]).0,)),
            forall|i: int| 0 <= i < self.synth@.len() ==> function.requires(((#[trigger] self.synth@[i]).0,)),
        ensures
            exists|lists: Seq<Vec<E>>| produced(self.truth@, lists, function) && out.truth@ == spread_all(self.truth@, contents(lists)),
            exists|lists: Seq<Vec<E>>| produced(self.synth@, lists, function) && out.synth@ == spread_all(self.synth@, contents(lists)),
            mass(out.truth@) <= mass(self.truth@),
            mass(out.synth@) <= mass(self.synth@),
    {
        let truth = flat_map(self.truth, &function);
        let synth = flat_map(self.synth, &function);
        Dataset { truth, synth }
    }
}

impl Dataset<u64> {
    /// Cuts the weight of every record into slices of `width` units: the
    /// record `d` of weight `w` becomes the records `(d, 0)`, `(d, 1)`, and
    /// so on, each of weight `width` but for the last, which has the rest.
    pub fn shave(self, width: i64) -> (out: Dataset<(u64, i64)>)
        requires
            width > 0,
            mass(self.truth@) <= i64::MAX,
            mass(self.synth@) <= i64::MAX,
        ensures
            shaved(self.truth@, out.truth@, width as int),
            shaved(self.synth@, out.synth@, width as int),
            mass(out.truth@) <= mass(self.truth@),
            mass(out.synth@) <= mass(self.synth@),
    {
        let truth = shave(self.truth, width);
        let synth = shave(self.synth, width);
        Dataset { truth, synth }
    }

    /// The minima and the maxima of two datasets: in the first result every
    /// record has the smaller of its weights in `self` and in `other`, in
    /// the second the larger.
    pub fn min_max(self, other: Self) -> (out: (Self, Self))
        requires
            mass(self.truth@) <= i64::MAX,
            mass(self.synth@) <= i64::MAX,
            mass(other.truth@) <= i64::MAX,
            mass(other.synth@) <= i64::MAX,
        ensures
            forall|d: u64| weight_of(out.0.truth@, d) == lesser(weight_of(self.truth@, d), weight_of(other.truth@, d)),
            forall|d: u64| weight_of(out.0.synth@, d) == lesser(weight_of(self.synth@, d), weight_of(other.synth@, d)),
            forall|d: u64| weight_of(out.1.truth@, d) == greater(weight_of(self.truth@, d), weight_of(other.truth@, d)),
            forall|d: u64| weight_of(out.1.synth@, d) == greater(weight_of(self.synth@, d), weight_of(other.synth@, d)),
    {
        let (min_truth, max_truth) = min_max(&self.truth, &other.truth);
        let (min_synth, max_synth) = min_max(&self.synth, &other.synth);
        (Dataset { truth: min_truth, synth: min_synth }, Dataset { truth: max_truth, synth: max_synth })
    }
}

impl Dataset<(u64, u64)> {
    /// Joins two datasets of `(key, value)` records: under every key, each
    /// value of `self` is paired with each value of `other`, with the
    /// product of their weights divided by the mass that the key has in
    /// both.
    pub fn join(self, other: Dataset<(u64, u64)>) -> (out: Dataset<(u64, (u64, u64))>)
        requires
            mass(self.truth@) + mass(other.truth@) <= i64::MAX,
            mass(self.synth@) + mass(other.synth@) <= i64::MAX,
        ensures
            joined_as(self.truth@, other.truth@, out.truth@),
            joined_as(self.synth@, other.synth@, out.synth@),
            joined_in_order(self.truth@, other.truth@, out.truth@),
            joined_in_order(self.synth@, other.synth@, out.synth@),
    {
        let truth = join(&self.truth, &other.truth);
        let synth = join(&self.synth, &other.synth);
        Dataset { truth, synth }
    }
}

/// A closure that computes `f` maps a batch to `map_updates` of it.
pub proof fn lemma_mapped_is_map<D, R, F: Fn(D) -> R>(input: Seq<(D, i64)>, output: Seq<(R, i64)>, function: F, f: spec_fn(D) -> R)
    requires
        mapped(input, output, function),
        forall|d: D, r: R| function.ensures((d,), r) ==> r == f(d),
    ensures
        output == map_updates(input, f),
{
    assert(output =~= map_updates(input, f));
}

/// A closure that decides `p` keeps `filter_updates` of a batch.
pub proof fn lemma_answered_is_filter<D, P: Fn(&D) -> bool>(input: Seq<(D, i64)>, keep: Seq<bool>, predicate: P, p: spec_fn(D) -> bool)
    requires
        answered(input, keep, predicate),
        forall|d: D, b: bool| predicate.ensures((&d,), b) ==> b == p(d),
    ensures
        kept(input, keep) == filter_updates(input, p),
{
    assert(keep =~= input.map_values(|e: (D, i64)| p(e.0)));
}

/// Mapping is linear, and keeps the mass of a change.
pub proof fn lemma_map_affine<D, R>(x: Seq<(D, i64)>, change: Seq<(D, i64)>, f: spec_fn(D) -> R)
    ensures
        map_updates(x + change, f) == map_updates(x, f) + map_updates(change, f),
        mass(map_updates(change, f)) == mass(change),
    decreases change.len(),
{
    assert(map_updates(x + change, f) =~= map_updates(x, f) + map_updates(change, f));
    if change.len() > 0 {
        lemma_map_affine(x, change.drop_last(), f);
        assert(map_updates(change, f).drop_last() =~= map_updates(change.drop_last(), f));
    }
}

/// What is kept of a concatenation is what is kept of its parts.
pub proof fn lemma_kept_concat<D>(a: Seq<(D, i64)>, ka: Seq<bool>, b: Seq<(D, i64)>, kb: Seq<bool>)
    requires
        ka.len() == a.len(),
        kb.len() == b.len(),
    ensures
        kept(a + b, ka + kb) == kept(a, ka) + kept(b, kb),
    decreases b.len(),
{
    if b.len() == 0 {
        assert(a + b =~= a);
        assert(ka + kb =~= ka);
        assert(kept(a, ka) + kept(b, kb) =~= kept(a, ka));
    } else {
        lemma_kept_concat(a, ka, b.drop_last(), kb.drop_last());
        assert((a + b).drop_last() =~= a + b.drop_last());
        assert((ka + kb).drop_last() =~= ka + kb.drop_last());
        assert(kept(a + b, ka + kb) =~= kept(a, ka) + kept(b, kb));
    }
}

/// What is kept of a batch has at most its mass.
pub proof fn lemma_kept_mass<D>(s: Seq<(D, i64)>, keep: Seq<bool>)
    ensures
        mass(kept(s, keep)) <= mass(s),
        kept(s, keep).len() <= s.len(),
    decreases s.len(),
{
    lemma_mass_bounds(s);
    if s.len() > 0 && keep.len() == s.len() {
        lemma_kept_mass(s.drop_last(), keep.drop_last());
        if keep.last() {
            assert(kept(s, keep).drop_last() =~= kept(s.drop_last(), keep.drop_last()));
        }
    }
}

/// Filtering is linear, and does not add to the mass of a change.
pub proof fn lemma_filter_affine<D>(x: Seq<(D, i64)>, change: Seq<(D, i64)>, p: spec_fn(D) -> bool)
    ensures
        filter_updates(x + change, p) == filter_updates(x, p) + filter_updates(change, p),
        mass(filter_updates(change, p)) <= mass(change),
{
    let kx = x.map_values(|e: (D, i64)| p(e.0));
    let kc = change.map_values(|e: (D, i64)| p(e.0));
    assert((x + change).map_values(|e: (D, i64)| p(e.0)) =~= kx + kc);
    lemma_kept_concat(x, kx, change, kc);
    lemma_kept_mass(change, kc);
}

/// A change of either input of a sum or a difference changes the result by
/// a batch of the same mass.
pub proof fn lemma_concat_except_affine<D>(a: Seq<(D, i64)>, b: Seq<(D, i64)>, change: Seq<(D, i64)>)
    requires
        negatable(change),
    ensures
        concat_updates(a, b + change) == concat_updates(a, b) + change,
        except_updates(a, b + change) == except_updates(a, b) + negated(change),
        mass(negated(change)) == mass(change),
        forall|d: D| weight_of(concat_updates(a + change, b), d) == weight_of(concat_updates(a, b), d) + weight_of(change, d),
        forall|d: D| weight_of(except_updates(a + change, b), d) == weight_of(except_updates(a, b), d) + weight_of(change, d),
{
    assert(concat_updates(a, b + change) =~= concat_updates(a, b) + change);
    assert(negated(b + change) =~= negated(b) + negated(change));
    assert(except_updates(a, b + change) =~= except_updates(a, b) + negated(change));
    if change.len() > 0 {
        lemma_negated(change, change[0].0);
    } else {
        assert(negated(change) =~= change);
    }
    assert forall|d: D| weight_of(concat_updates(a + change, b), d) == weight_of(concat_updates(a, b), d) + weight_of(change, d) by {
        lemma_weight_concat(a + change, b, d);
        lemma_weight_concat(a, change, d);
        lemma_weight_concat(a, b, d);
    }
    assert forall|d: D| weight_of(except_updates(a + change, b), d) == weight_of(except_updates(a, b), d) + weight_of(change, d) by {
        lemma_weight_concat(a + change, negated(b), d);
        lemma_weight_concat(a, change, d);
        lemma_weight_concat(a, negated(b), d);
    }
}

/// Filtering twice by one predicate is filtering once.
pub proof fn lemma_filter_idempotent<D>(s: Seq<(D, i64)>, p: spec_fn(D) -> bool)
    ensures
        filter_updates(filter_updates(s, p), p) == filter_updates(s, p),
    decreases s.len(),
{
    if s.len() > 0 {
        let rest = s.drop_last();
        let flags = s.map_values(|e: (D, i64)| p(e.0));
        assert(flags.drop_last() =~= rest.map_values(|e: (D, i64)| p(e.0)));
        lemma_filter_idempotent(rest, p);
        let once = filter_updates(rest, p);
        if p(s.last().0) {
            let again = once.push(s.last());
            assert(filter_updates(s, p) == again);
            let flags2 = again.map_values(|e: (D, i64)| p(e.0));
            assert(again.drop_last() =~= once);
            assert(flags2.drop_last() =~= once.map_values(|e: (D, i64)| p(e.0)));
        }
    }
}

/// The sum of `a` with the difference of `a` and `b` is the difference of
/// twice `a` and `b`.
pub proof fn lemma_concat_except<D>(a: Seq<(D, i64)>, b: Seq<(D, i64)>)
    ensures
        concat_updates(a, except_updates(a, b)) == except_updates(concat_updates(a, a), b),
{
    assert(a + (a + negated(b)) =~= (a + a) + negated(b));
}

/// Mapping by `g` and then by `f` is mapping by `f` after `g`.
pub proof fn lemma_map_compose<D, R, S>(s: Seq<(D, i64)>, g: spec_fn(D) -> R, f: spec_fn(R) -> S)
    ensures
        map_updates(map_updates(s, g), f) == map_updates(s, |d: D| f(g(d))),
{
    assert(map_updates(map_updates(s, g), f) =~= map_updates(s, |d: D| f(g(d))));
}

/// The distance between two collections: the sum, over all records, of the
/// absolute difference of the weights that the two give to the record.
pub open spec fn distance<D>(x: Seq<(D, i64)>, y: Seq<(D, i64)>) -> int {
    net_mass(x + negated(y))
}

/// The difference of two collections gives every record the difference of
/// its weights.
pub proof fn lemma_difference_weight<D>(x: Seq<(D, i64)>, y: Seq<(D, i64)>, d: D)
    requires
        negatable(y),
    ensures
        weight_of(x + negated(y), d) == weight_of(x, d) - weight_of(y, d),
{
    lemma_weight_concat(x, negated(y), d);
    lemma_negated(y, d);
}

/// The image of a batch gives a record the weight that the image of the
/// batch without `d` gives it, and to the image of `d` the weight of `d`
/// besides.
proof fn lemma_map_without<D, R>(s: Seq<(D, i64)>, f: spec_fn(D) -> R, d: D, e: R)
    ensures
        weight_of(map_updates(s, f), e) == weight_of(map_updates(without(s, d), f), e) + if f(d) == e {
            weight_of(s, d)
        } else {
            0
        },
    decreases s.len(),
{
    if s.len() > 0 {
        let rest = s.drop_last();
        let x = s.last();
        lemma_map_without(rest, f, d, e);
        assert(map_updates(s, f) =~= map_updates(rest, f).push((f(x.0), x.1)));
        lemma_weight_push(map_updates(rest, f), (f(x.0), x.1), e);
        if x.0 != d {
            assert(map_updates(without(s, d), f) =~= map_updates(without(rest, d), f).push((f(x.0), x.1)));
            lemma_weight_push(map_updates(without(rest, d), f), (f(x.0), x.1), e);
        }
    } else {
        assert(map_updates(s, f) =~= Seq::<(R, i64)>::empty());
    }
}

/// The image of a collection is no larger than the collection: records
/// that fall together may cancel, and nothing is added.
pub proof fn lemma_map_net_mass<D, R>(s: Seq<(D, i64)>, f: spec_fn(D) -> R)
    ensures
        net_mass(map_updates(s, f)) <= net_mass(s),
    decreases s.len(),
{
    if s.len() > 0 {
        let d = s.last().0;
        let rest = without(s, d);
        lemma_without(s.drop_last(), d, d);
        lemma_map_net_mass(rest, f);
        assert forall|e: R| e != f(d) implies weight_of(map_updates(s, f), e) == weight_of(map_updates(rest, f), e) by {
            lemma_map_without(s, f, d, e);
        }
        lemma_map_without(s, f, d, f(d));
        lemma_net_mass_one_record(map_updates(s, f), map_updates(rest, f), f(d));
    }
}

/// What is kept of a batch gives a record its weight if the predicate
/// accepts the record, and no weight if not.
pub proof fn lemma_filter_weight<D>(s: Seq<(D, i64)>, p: spec_fn(D) -> bool, d: D)
    ensures
        weight_of(filter_updates(s, p), d) == if p(d) {
            weight_of(s, d)
        } else {
            0
        },
    decreases s.len(),
{
    if s.len() > 0 {
        let rest = s.drop_last();
        let flags = s.map_values(|e: (D, i64)| p(e.0));
        assert(flags.drop_last() =~= rest.map_values(|e: (D, i64)| p(e.0)));
        lemma_filter_weight(rest, p, d);
        if p(s.last().0) {
            lemma_weight_push(filter_updates(rest, p), s.last(), d);
        }
    }
}

/// What is kept of a collection is no larger than the collection.
pub proof fn lemma_filter_net_mass<D>(s: Seq<(D, i64)>, p: spec_fn(D) -> bool)
    ensures
        net_mass(filter_updates(s, p)) <= net_mass(s),
    decreases s.len(),
{
    if s.len() > 0 {
        let d = s.last().0;
        let rest = without(s, d);
        lemma_without(s.drop_last(), d, d);
        lemma_filter_net_mass(rest, p);
        assert forall|e: D| e != d implies weight_of(filter_updates(s, p), e) == weight_of(filter_updates(rest, p), e) by {
            lemma_filter_weight(s, p, e);
            lemma_filter_weight(rest, p, e);
            lemma_without(s, d, e);
        }
        lemma_filter_weight(s, p, d);
        lemma_filter_weight(rest, p, d);
        lemma_without(s, d, d);
        lemma_net_mass_one_record(filter_updates(s, p), filter_updates(rest, p), d);
    }
}

/// To filter the negated updates is to negate the filtered ones.
proof fn lemma_filter_negated<D>(s: Seq<(D, i64)>, p: spec_fn(D) -> bool)
    ensures
        filter_updates(negated(s), p) == negated(filter_updates(s, p)),
    decreases s.len(),
{
    if s.len() > 0 {
        let rest = s.drop_last();
        lemma_filter_negated(rest, p);
        assert(negated(s).drop_last() =~= negated(rest));
        assert(s.map_values(|e: (D, i64)| p(e.0)).drop_last() =~= rest.map_values(|e: (D, i64)| p(e.0)));
        assert(negated(s).map_values(|e: (D, i64)| p(e.0)).drop_last() =~= negated(rest).map_values(|e: (D, i64)| p(e.0)));
        assert(filter_updates(negated(s), p) =~= negated(filter_updates(s, p)));
    } else {
        assert(filter_updates(negated(s), p) =~= negated(filter_updates(s, p)));
    }
}

/// Mapping is affine: the images of two collections are no further apart
/// than the collections are.
pub proof fn lemma_map_distance<D, R>(x: Seq<(D, i64)>, y: Seq<(D, i64)>, f: spec_fn(D) -> R)
    ensures
        distance(map_updates(x, f), map_updates(y, f)) <= distance(x, y),
{
    assert(map_updates(x, f) + negated(map_updates(y, f)) =~= map_updates(x + negated(y), f));
    lemma_map_net_mass(x + negated(y), f);
}

/// Filtering is affine: what is kept of two collections is no further
/// apart than the collections are.
pub proof fn lemma_filter_distance<D>(x: Seq<(D, i64)>, y: Seq<(D, i64)>, p: spec_fn(D) -> bool)
    ensures
        distance(filter_updates(x, p), filter_updates(y, p)) <= distance(x, y),
{
    lemma_filter_affine(x, negated(y), p);
    lemma_filter_negated(y, p);
    lemma_filter_net_mass(x + negated(y), p);
}

/// Sums and differences are affine in each input: with the other input
/// held, the results are as far apart as the inputs that differ.
pub proof fn lemma_concat_except_distance<D>(x: Seq<(D, i64)>, y: Seq<(D, i64)>, other: Seq<(D, i64)>)
    requires
        negatable(x),
        negatable(y),
        negatable(other),
    ensures
        distance(concat_updates(x, other), concat_updates(y, other)) == distance(x, y),
        distance(concat_updates(other, x), concat_updates(other, y)) == distance(x, y),
        distance(except_updates(x, other), except_updates(y, other)) == distance(x, y),
        distance(except_updates(other, x), except_updates(other, y)) == distance(x, y),
{
    let base = x + negated(y);
    assert(negatable(y + other));
    assert(negatable(other + y));
    assert(negatable(negated(other))) by {
        assert forall|i: int| 0 <= i < negated(other).len() implies (#[trigger] negated(other)[i]).1 > i64::MIN by {
            assert(other[i].1 > i64::MIN);
        }
    }
    assert(negatable(negated(y))) by {
        assert forall|i: int| 0 <= i < negated(y).len() implies (#[trigger] negated(y)[i]).1 > i64::MIN by {
            assert(y[i].1 > i64::MIN);
        }
    }
    assert(negatable(y + negated(other)));
    assert(negatable(other + negated(y)));
    assert forall|d: D|
        weight_of((x + other) + negated(y + other), d) == weight_of(base, d) && weight_of((other + x) + negated(other + y), d) == weight_of(
            base,
            d,
        ) && weight_of((x + negated(other)) + negated(y + negated(other)), d) == weight_of(base, d) && weight_of(
            (other + negated(y)) + negated(other + negated(x)),
            d,
        ) == weight_of(base, d) by {
        lemma_difference_weight(x, y, d);
        lemma_difference_weight(x + other, y + other, d);
        lemma_difference_weight(other + x, other + y, d);
        lemma_difference_weight(x + negated(other), y + negated(other), d);
        lemma_difference_weight(other + negated(y), other + negated(x), d);
        lemma_weight_concat(x, other, d);
        lemma_weight_concat(y, other, d);
        lemma_weight_concat(other, x, d);
        lemma_weight_concat(other, y, d);
        lemma_weight_concat(x, negated(other), d);
        lemma_weight_concat(y, negated(other), d);
        lemma_weight_concat(other, negated(x), d);
        lemma_weight_concat(other, negated(y), d);
        lemma_negated(x, d);
        lemma_negated(y, d);
    }
    lemma_net_mass_same((x + other) + negated(y + other), base);
    lemma_net_mass_same((other + x) + negated(other + y), base);
    lemma_net_mass_same((x + negated(other)) + negated(y + negated(other)), base);
    lemma_net_mass_same((other + negated(y)) + negated(other + negated(x)), base);
    lemma_distance_symmetric(other + negated(x), other + negated(y));
}

/// The distance from one collection to another is the distance back.
pub proof fn lemma_distance_symmetric<D>(x: Seq<(D, i64)>, y: Seq<(D, i64)>)
    requires
        negatable(x),
        negatable(y),
    ensures
        distance(x, y) == distance(y, x),
{
    lemma_net_mass_negated(x + negated(y));
    assert forall|d: D| weight_of(negated(x + negated(y)), d) == weight_of(y + negated(x), d) by {
        assert(negatable(x + negated(y))) by {
            assert forall|i: int| 0 <= i < (x + negated(y)).len() implies (#[trigger] (x + negated(y))[i]).1 > i64::MIN by {
                if i >= x.len() {
                    assert(y[i - x.len()].1 > i64::MIN);
                }
            }
        }
        lemma_negated(x + negated(y), d);
        lemma_difference_weight(x, y, d);
        lemma_difference_weight(y, x, d);
    }
    lemma_net_mass_same(negated(x + negated(y)), y + negated(x));
}

/// A collection and its negative have the same size.
pub proof fn lemma_net_mass_negated<D>(s: Seq<(D, i64)>)
    requires
        negatable(s),
    ensures
        net_mass(negated(s)) == net_mass(s),
    decreases s.len(),
{
    if s.len() > 0 {
        let d = s.last().0;
        let rest = without(s, d);
        lemma_without(s.drop_last(), d, d);
        assert(negatable(rest)) by {
            lemma_without_keeps(s, d);
        }
        lemma_net_mass_negated(rest);
        lemma_net_mass_peel(s, d);
        lemma_net_mass_peel(negated(s), d);
        lemma_negated(s, d);
        assert forall|e: D| weight_of(without(negated(s), d), e) == weight_of(negated(rest), e) by {
            lemma_without(negated(s), d, e);
            lemma_without(s, d, e);
            lemma_negated(s, e);
            lemma_negated(rest, e);
        }
        lemma_net_mass_same(without(negated(s), d), negated(rest));
    } else {
        assert(negated(s) =~= s);
    }
}

/// A batch without a record keeps only weights that the batch had.
proof fn lemma_without_keeps<D>(s: Seq<(D, i64)>, d: D)
    requires
        negatable(s),
    ensures
        negatable(without(s, d)),
    decreases s.len(),
{
    if s.len() > 0 {
        let rest = s.drop_last();
        assert(negatable(rest)) by {
            assert forall|i: int| 0 <= i < rest.len() implies (#[trigger] rest[i]).1 > i64::MIN by {
                assert(rest[i] == s[i]);
            }
        }
        lemma_without_keeps(rest, d);
        assert(s.last() == s[s.len() - 1]);
    }
}

} // verus!
