//! One record to many, the weight divided among them.

use vstd::prelude::*;
use vstd::arithmetic::div_mod::{lemma_div_pos_is_pos, lemma_fundamental_div_mod, lemma_mod_bound};
use crate::merge_sort::VecQueue;
use crate::weights::{lemma_mass_concat, magnitude, mass, total};

verus! {

/// The weight that each of `n` results gets of `delta`: the quotient,
/// rounded toward zero.
pub open spec fn share(delta: int, n: int) -> int {
    if delta >= 0 {
        delta / n
    } else {
        -((-delta) / n)
    }
}

/// What a record of weight `delta` with the results `results` emits: every
/// result with an equal share; nothing when there is no result.
pub open spec fn spread<E>(results: Seq<E>, delta: int) -> Seq<(E, i64)> {
    results.map_values(|e: E| (e, share(delta, results.len() as int) as i64))
}

/// The shares are no larger than the weight, and all of them together
/// fall short of it by less than their number.
pub proof fn lemma_share(delta: int, n: int)
    requires
        n > 0,
    ensures
        magnitude(share(delta, n)) <= magnitude(delta),
        n * magnitude(share(delta, n)) <= magnitude(delta),
        magnitude(delta) - n * magnitude(share(delta, n)) <= n - 1,
        n * share(delta, n) == if delta >= 0 {
            n * magnitude(share(delta, n))
        } else {
            -(n * magnitude(share(delta, n)))
        },
{
    let m = magnitude(delta);
    let q = m / n;
    lemma_div_pos_is_pos(m, n);
    lemma_fundamental_div_mod(m, n);
    lemma_mod_bound(m, n);
    assert(q <= n * q) by (nonlinear_arith)
        requires
            n >= 1,
            q >= 0,
    ;
    assert(n * (-q) == -(n * q)) by (nonlinear_arith);
}

/// What is emitted for one record has at most the mass of the record, and
/// loses less than one unit for each result.
pub proof fn lemma_spread_mass<E>(results: Seq<E>, delta: int)
    requires
        i64::MIN <= delta <= i64::MAX,
    ensures
        mass(spread(results, delta)) == results.len() * magnitude(share(delta, results.len() as int)),
        total(spread(results, delta)) == results.len() * share(delta, results.len() as int),
        mass(spread(results, delta)) <= magnitude(delta),
        results.len() > 0 ==> magnitude(delta) - mass(spread(results, delta)) <= results.len() - 1,
        results.len() == 0 ==> spread(results, delta) == Seq::<(E, i64)>::empty(),
{
    let n = results.len() as int;
    if n == 0 {
        assert(spread(results, delta) =~= Seq::<(E, i64)>::empty());
        assert(0 * magnitude(share(delta, 0)) == 0) by (nonlinear_arith);
        assert(0 * share(delta, 0) == 0) by (nonlinear_arith);
    } else {
        lemma_share(delta, n);
        lemma_uniform(spread(results, delta), share(delta, n) as i64);
    }
}

/// A batch whose weights all equal `w` has `w` times its length as total,
/// and the magnitude of `w` times its length as mass.
proof fn lemma_uniform<E>(s: Seq<(E, i64)>, w: i64)
    requires
        forall|i: int| 0 <= i < s.len() ==> (#[trigger] s[i]).1 == w,
    ensures
        mass(s) == s.len() * magnitude(w as int),
        total(s) == s.len() * w,
    decreases s.len(),
{
    if s.len() == 0 {
        assert(0 * magnitude(w as int) == 0) by (nonlinear_arith);
        assert(0 * (w as int) == 0) by (nonlinear_arith);
    } else {
        let rest = s.drop_last();
        assert forall|i: int| 0 <= i < rest.len() implies (#[trigger] rest[i]).1 == w by {
            assert(rest[i] == s[i]);
        }
        lemma_uniform(rest, w);
        let n = rest.len() as int;
        assert((n + 1) * magnitude(w as int) == n * magnitude(w as int) + magnitude(w as int)) by (nonlinear_arith);
        assert((n + 1) * (w as int) == n * (w as int) + w) by (nonlinear_arith);
    }
}

/// The share that each of `n` results gets of `delta`.
fn share_of(delta: i64, n: usize) -> (q: i64)
    requires
        n > 0,
    ensures
        q == share(delta as int, n as int),
{
    proof {
        lemma_share(delta as int, n as int);
    }
    if delta >= 0 {
        ((delta as u64) / (n as u64)) as i64
    } else {
        let m: u64 = (-(delta + 1)) as u64 + 1;
        let q: u64 = m / (n as u64);
        if q > 0x7fff_ffff_ffff_ffff {
            i64::MIN
        } else {
            -(q as i64)
        }
    }
}

/// Divides the weight `delta` of a record among its `results`.
pub fn divide<E>(results: Vec<E>, delta: i64) -> (out: Vec<(E, i64)>)
    ensures
        out@ == spread(results@, delta as int),
{
    let ghost items = results@;
    let n = results.len();
    let mut out: Vec<(E, i64)> = Vec::new();
    if n == 0 {
        assert(out@ =~= spread(items, delta as int));
        return out;
    }
    let each = share_of(delta, n);
    let mut queue = VecQueue::from(results);
    while !queue.is_empty()
        invariant
            out@.len() + queue@.len() == items.len(),
            queue@ == items.skip(out@.len() as int),
            forall|i: int| 0 <= i < out@.len() ==> out@[i] == (items[i], each),
        decreases queue@.len(),
    {
        let ghost k = out@.len() as int;
        let result = queue.pop();
        assert(items[k] == result);
        out.push((result, each));
        assert(queue@ =~= items.skip(k + 1));
    }
    assert(out@ =~= spread(items, delta as int));
    out
}

/// `output` holds, for the records of `input` in their order, what each
/// emits when `lists` holds the results that `function` gave for it.
pub open spec fn spread_all<D, E>(input: Seq<(D, i64)>, lists: Seq<Seq<E>>) -> Seq<(E, i64)>
    decreases input.len(),
{
    if input.len() == 0 || lists.len() != input.len() {
        Seq::empty()
    } else {
        spread_all(input.drop_last(), lists.drop_last()) + spread(lists.last(), input.last().1 as int)
    }
}

/// `lists` holds what `function` gave for each record of `input`.
pub open spec fn produced<D, E, F: Fn(D) -> Vec<E>>(input: Seq<(D, i64)>, lists: Seq<Vec<E>>, function: F) -> bool {
    &&& lists.len() == input.len()
    &&& forall|i: int| 0 <= i < input.len() ==> function.ensures((input[i].0,), #[trigger] lists[i])
}

/// The results of each list, without the vectors that hold them.
pub open spec fn contents<E>(lists: Seq<Vec<E>>) -> Seq<Seq<E>> {
    lists.map_values(|v: Vec<E>| v@)
}

/// Sends every record of `batch` through `function` and divides its weight
/// among the results. A record without results emits nothing: its weight
/// is lost.
pub fn flat_map<D, E, F: Fn(D) -> Vec<E>>(batch: Vec<(D, i64)>, function: &F) -> (out: Vec<(E, i64)>)
    requires
        forall|i: int| 0 <= i < batch@.len() ==> function.requires(((#[trigger] batch@[i]).0,)),
    ensures
        exists|lists: Seq<Vec<E>>| produced(batch@, lists, *function) && out@ == spread_all(batch@, contents(lists)),
        mass(out@) <= mass(batch@),
{
    let ghost items = batch@;
    let ghost mut lists: Seq<Vec<E>> = Seq::empty();
    let mut queue = VecQueue::from(batch);
    let mut out: Vec<(E, i64)> = Vec::new();
    assert(out@ =~= spread_all(items.take(0), contents(lists)));
    while !queue.is_empty()
        invariant
            forall|i: int| 0 <= i < items.len() ==> function.requires(((#[trigger] items[i]).0,)),
            lists.len() + queue@.len() == items.len(),
            queue@ == items.skip(lists.len() as int),
            produced(items.take(lists.len() as int), lists, *function),
            out@ == spread_all(items.take(lists.len() as int), contents(lists)),
            mass(out@) <= mass(items.take(lists.len() as int)),
        decreases queue@.len(),
    {
        let ghost k = lists.len() as int;
        let ghost before = lists;
        let ghost emitted = out@;
        let (datum, delta) = queue.pop();
        assert(items[k] == (datum, delta));
        let results = function(datum);
        let mut part = divide(results, delta);
        proof {
            lists = lists.push(results);
            assert(queue@ =~= items.skip(k + 1));
            assert(lists.drop_last() =~= before);
            assert(contents(lists).drop_last() =~= contents(before));
            assert(items.take(k + 1).drop_last() =~= items.take(k));
            assert forall|i: int| 0 <= i < k + 1 implies function.ensures((items.take(k + 1)[i].0,), #[trigger] lists[i]) by {
                if i < k {
                    assert(items.take(k)[i] == items.take(k + 1)[i]);
                    assert(before[i] == lists[i]);
                }
            }
            lemma_spread_mass(results@, delta as int);
            lemma_mass_concat(emitted, part@);
        }
        out.append(&mut part);
    }
    assert(items.take(lists.len() as int) =~= items);
    out
}

} // verus!
