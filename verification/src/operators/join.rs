//! Keyed pairing of two weighted collections, with weights scaled down by
//! the mass that the key has on both sides.

use vstd::prelude::*;
use vstd::arithmetic::div_mod::{lemma_div_is_ordered, lemma_div_multiples_vanish, lemma_div_pos_is_pos, lemma_fundamental_div_mod, lemma_mod_bound};
use vstd::arithmetic::mul::lemma_mul_inequality;
use std::collections::HashMap;
use crate::dataset::{lemma_negated, negate};
use crate::merge_sort::consolidate;
use crate::weights::{consolidated, lemma_mass_bounds, lemma_mass_concat, lemma_mass_push, lemma_mass_take, lemma_take_next, lemma_weight_concat, lemma_weight_push, magnitude, mass, weight_of};

verus! {

broadcast use vstd::std_specs::hash::group_hash_axioms;

/// The product of `w1` and `w2` divided by `t`, rounded toward zero.
pub open spec fn scaled(w1: int, w2: int, t: int) -> int {
    let q = (magnitude(w1) * magnitude(w2)) / t;
    if (w1 < 0) != (w2 < 0) {
        -q
    } else {
        q
    }
}

/// The pairs of the value `x` with each value of `l2`, with weights scaled by `t`.
pub open spec fn row(x: (u64, i64), l2: Seq<(u64, i64)>, t: int) -> Seq<((u64, u64), i64)>
    decreases l2.len(),
{
    if l2.len() == 0 {
        Seq::empty()
    } else {
        row(x, l2.drop_last(), t).push(
            ((x.0, l2.last().0), scaled(x.1 as int, l2.last().1 as int, t) as i64),
        )
    }
}

/// The pairs of each value of `l1` with each value of `l2`, with weights
/// scaled by `t`, the values of `l1` in their order and under each of them
/// the values of `l2` in theirs.
pub open spec fn rows(l1: Seq<(u64, i64)>, l2: Seq<(u64, i64)>, t: int) -> Seq<((u64, u64), i64)>
    decreases l1.len(),
{
    if l1.len() == 0 {
        Seq::empty()
    } else {
        rows(l1.drop_last(), l2, t) + row(l1.last(), l2, t)
    }
}

/// What a key with the values `l1` and `l2` contributes to the join: every
/// pair of values, with the product of their weights divided by the mass of
/// both lists; nothing when that mass is zero.
pub open spec fn pairs(l1: Seq<(u64, i64)>, l2: Seq<(u64, i64)>) -> Seq<((u64, u64), i64)> {
    let t = mass(l1) + mass(l2);
    if t == 0 {
        Seq::empty()
    } else {
        rows(l1, l2, t)
    }
}

/// A scaled product is no larger than either factor, as long as the factors
/// are no larger than the divisor.
pub proof fn lemma_scaled_bound(w1: int, w2: int, t: int)
    requires
        t > 0,
        magnitude(w1) <= t,
        magnitude(w2) <= t,
    ensures
        magnitude(scaled(w1, w2, t)) == (magnitude(w1) * magnitude(w2)) / t,
        magnitude(scaled(w1, w2, t)) <= magnitude(w1),
        magnitude(scaled(w1, w2, t)) <= magnitude(w2),
        magnitude(scaled(w1, w2, t)) * t <= magnitude(w1) * magnitude(w2),
{
    let a = magnitude(w1);
    let b = magnitude(w2);
    let q = (a * b) / t;
    assert(a * b >= 0) by (nonlinear_arith)
        requires
            a >= 0,
            b >= 0,
    ;
    lemma_div_pos_is_pos(a * b, t);
    lemma_fundamental_div_mod(a * b, t);
    lemma_mod_bound(a * b, t);
    assert(q * t == t * q) by (nonlinear_arith);
    lemma_mul_inequality(a, t, b);
    lemma_div_is_ordered(a * b, t * b, t);
    lemma_div_multiples_vanish(b, t);
    lemma_mul_inequality(b, t, a);
    assert(b * a == a * b) by (nonlinear_arith);
    lemma_div_is_ordered(a * b, t * a, t);
    lemma_div_multiples_vanish(a, t);
}

/// The mass of a row, times the divisor, is at most the weight of its
/// value times the mass of the other list.
pub proof fn lemma_row_mass(x: (u64, i64), l2: Seq<(u64, i64)>, t: int)
    requires
        t > 0,
        magnitude(x.1 as int) + mass(l2) <= t <= i64::MAX,
    ensures
        row(x, l2, t).len() == l2.len(),
        mass(row(x, l2, t)) * t <= magnitude(x.1 as int) * mass(l2),
        mass(row(x, l2, t)) <= magnitude(x.1 as int),
    decreases l2.len(),
{
    let a = magnitude(x.1 as int);
    lemma_mass_bounds(l2);
    if l2.len() == 0 {
        assert(a * 0 == 0) by (nonlinear_arith);
        assert(0 * t == 0) by (nonlinear_arith);
    } else {
        let rest = l2.drop_last();
        let b = magnitude(l2.last().1 as int);
        let q = scaled(x.1 as int, l2.last().1 as int, t);
        lemma_mass_bounds(rest);
        lemma_row_mass(x, rest, t);
        lemma_scaled_bound(x.1 as int, l2.last().1 as int, t);
        lemma_mass_push(row(x, rest, t), ((x.0, l2.last().0), q as i64));
        let m = mass(row(x, rest, t));
        assert((m + magnitude(q)) * t <= a * (mass(rest) + b)) by (nonlinear_arith)
            requires
                m * t <= a * mass(rest),
                magnitude(q) * t <= a * b,
        ;
    }
    let total = mass(row(x, l2, t));
    lemma_mass_bounds(row(x, l2, t));
    assert(total <= a) by (nonlinear_arith)
        requires
            total * t <= a * mass(l2),
            0 <= mass(l2) <= t,
            t > 0,
            a >= 0,
            total >= 0,
    ;
}

/// The mass of all rows, times the divisor, is at most the product of the
/// masses of the two lists.
pub proof fn lemma_rows_mass(l1: Seq<(u64, i64)>, l2: Seq<(u64, i64)>, t: int)
    requires
        t > 0,
        mass(l1) + mass(l2) <= t <= i64::MAX,
    ensures
        mass(rows(l1, l2, t)) * t <= mass(l1) * mass(l2),
        mass(rows(l1, l2, t)) <= mass(l1),
        mass(rows(l1, l2, t)) <= mass(l2),
    decreases l1.len(),
{
    lemma_mass_bounds(l1);
    lemma_mass_bounds(l2);
    if l1.len() == 0 {
        assert(0 * mass(l2) == 0) by (nonlinear_arith);
        assert(0 * t == 0) by (nonlinear_arith);
    } else {
        let rest = l1.drop_last();
        let a = magnitude(l1.last().1 as int);
        lemma_mass_bounds(rest);
        lemma_rows_mass(rest, l2, t);
        lemma_row_mass(l1.last(), l2, t);
        lemma_mass_concat(rows(rest, l2, t), row(l1.last(), l2, t));
        let m = mass(rows(rest, l2, t));
        let r = mass(row(l1.last(), l2, t));
        assert((m + r) * t <= (mass(rest) + a) * mass(l2)) by (nonlinear_arith)
            requires
                m * t <= mass(rest) * mass(l2),
                r * t <= a * mass(l2),
        ;
    }
    let total = mass(rows(l1, l2, t));
    lemma_mass_bounds(rows(l1, l2, t));
    assert(total <= mass(l1) && total <= mass(l2)) by (nonlinear_arith)
        requires
            total * t <= mass(l1) * mass(l2),
            0 <= mass(l1) <= t,
            0 <= mass(l2) <= t,
            t > 0,
            total >= 0,
    ;
}

/// The mass that a key contributes to the join is at most the mass that it
/// has on either side.
pub proof fn lemma_pairs_mass(l1: Seq<(u64, i64)>, l2: Seq<(u64, i64)>)
    requires
        mass(l1) + mass(l2) <= i64::MAX,
    ensures
        mass(pairs(l1, l2)) <= mass(l1),
        mass(pairs(l1, l2)) <= mass(l2),
{
    lemma_mass_bounds(l1);
    lemma_mass_bounds(l2);
    if mass(l1) + mass(l2) != 0 {
        lemma_rows_mass(l1, l2, mass(l1) + mass(l2));
    }
}

/// A key without values on the second side contributes nothing.
pub proof fn lemma_pairs_empty_second(l1: Seq<(u64, i64)>)
    ensures
        pairs(l1, Seq::empty()) == Seq::<((u64, u64), i64)>::empty(),
    decreases l1.len(),
{
    let none = Seq::<(u64, i64)>::empty();
    let t = mass(l1) + mass(none);
    lemma_rows_empty_second(l1, t);
}

/// There are no rows where the second list is empty.
proof fn lemma_rows_empty_second(l1: Seq<(u64, i64)>, t: int)
    ensures
        rows(l1, Seq::empty(), t) == Seq::<((u64, u64), i64)>::empty(),
    decreases l1.len(),
{
    if l1.len() > 0 {
        lemma_rows_empty_second(l1.drop_last(), t);
        assert(rows(l1, Seq::empty(), t) =~= Seq::<((u64, u64), i64)>::empty());
    }
}

/// The absolute value of a weight.
fn weight_magnitude(w: i64) -> (m: i64)
    requires
        w > i64::MIN,
    ensures
        m == magnitude(w as int),
{
    if w < 0 {
        -w
    } else {
        w
    }
}

/// The mass of a list.
fn mass_of(list: &[(u64, i64)]) -> (m: i64)
    requires
        mass(list@) <= i64::MAX,
    ensures
        m == mass(list@),
{
    let mut sum: i64 = 0;
    let mut i: usize = 0;
    while i < list.len()
        invariant
            i <= list@.len(),
            sum == mass(list@.take(i as int)),
            mass(list@) <= i64::MAX,
        decreases list@.len() - i,
    {
        proof {
            let upto = list@.take(i as int + 1);
            assert(upto.drop_last() =~= list@.take(i as int));
            assert(list@ =~= upto + list@.skip(i as int + 1));
            lemma_mass_concat(upto, list@.skip(i as int + 1));
            lemma_mass_bounds(list@.skip(i as int + 1));
            lemma_mass_bounds(list@.take(i as int));
        }
        sum = sum + weight_magnitude(list[i].1);
        i = i + 1;
    }
    assert(list@.take(i as int) =~= list@);
    sum
}

/// The product of two weights divided by `t`, rounded toward zero.
fn scale(w1: i64, w2: i64, t: i64) -> (q: i64)
    requires
        t > 0,
        magnitude(w1 as int) <= t,
        magnitude(w2 as int) <= t,
    ensures
        q == scaled(w1 as int, w2 as int, t as int),
{
    let a: u128 = weight_magnitude(w1) as u128;
    let b: u128 = weight_magnitude(w2) as u128;
    proof {
        lemma_scaled_bound(w1 as int, w2 as int, t as int);
        assert(a * b <= 0x7fff_ffff_ffff_ffff * 0x7fff_ffff_ffff_ffff) by (nonlinear_arith)
            requires
                0 <= a <= 0x7fff_ffff_ffff_ffff,
                0 <= b <= 0x7fff_ffff_ffff_ffff,
        ;
    }
    let q: u128 = (a * b) / (t as u128);
    if (w1 < 0) != (w2 < 0) {
        -(q as i64)
    } else {
        q as i64
    }
}

/// Appends to `output` what a key with the values `list1` and `list2`
/// contributes to the join.
pub fn join_helper(list1: &[(u64, i64)], list2: &[(u64, i64)], output: &mut Vec<((u64, u64), i64)>)
    requires
        mass(list1@) + mass(list2@) <= i64::MAX,
    ensures
        final(output)@ == old(output)@ + pairs(list1@, list2@),
{
    proof {
        lemma_mass_bounds(list1@);
        lemma_mass_bounds(list2@);
    }
    let total1 = mass_of(list1);
    let total2 = mass_of(list2);
    let total = total1 + total2;
    if total == 0 {
        assert(output@ =~= old(output)@ + pairs(list1@, list2@));
        return ;
    }
    let mut i: usize = 0;
    assert(output@ =~= old(output)@ + rows(list1@.take(0), list2@, total as int));
    while i < list1.len()
        invariant
            i <= list1@.len(),
            total > 0,
            total == mass(list1@) + mass(list2@),
            output@ == old(output)@ + rows(list1@.take(i as int), list2@, total as int),
        decreases list1@.len() - i,
    {
        let datum1 = list1[i].0;
        let weight1 = list1[i].1;
        let ghost done = output@;
        let mut j: usize = 0;
        assert(output@ =~= done + row(list1@[i as int], list2@.take(0), total as int));
        while j < list2.len()
            invariant
                i < list1@.len(),
                j <= list2@.len(),
                datum1 == list1@[i as int].0,
                weight1 == list1@[i as int].1,
                total > 0,
                total == mass(list1@) + mass(list2@),
                output@ == done + row(list1@[i as int], list2@.take(j as int), total as int),
            decreases list2@.len() - j,
        {
            proof {
                lemma_mass_bounds(list1@);
                lemma_mass_bounds(list2@);
                assert(list2@.take(j as int + 1).drop_last() =~= list2@.take(j as int));
            }
            output.push(((datum1, list2[j].0), scale(weight1, list2[j].1, total)));
            j = j + 1;
            assert(output@ =~= done + row(list1@[i as int], list2@.take(j as int), total as int));
        }
        proof {
            assert(list2@.take(j as int) =~= list2@);
            assert(list1@.take(i as int + 1).drop_last() =~= list1@.take(i as int));
            assert(output@ =~= old(output)@ + rows(list1@.take(i as int + 1), list2@, total as int));
        }
        i = i + 1;
    }
    assert(list1@.take(i as int) =~= list1@);
}

/// For every key, the consolidated values that it has on each side.
pub struct JoinState {
    state: HashMap<u64, (Vec<(u64, i64)>, Vec<(u64, i64)>)>,
}

impl JoinState {
    /// The values of `key` on the first side, with their weights.
    pub closed spec fn first(&self, key: u64) -> Seq<(u64, i64)> {
        if self.state@.contains_key(key) {
            self.state@[key].0@
        } else {
            Seq::empty()
        }
    }

    /// The values of `key` on the second side, with their weights.
    pub closed spec fn second(&self, key: u64) -> Seq<(u64, i64)> {
        if self.state@.contains_key(key) {
            self.state@[key].1@
        } else {
            Seq::empty()
        }
    }

    /// Under every key both lists are consolidated, and their mass fits a weight.
    pub open spec fn wf(&self) -> bool {
        forall|key: u64|
            {
                &&& consolidated(#[trigger] self.first(key))
                &&& consolidated(self.second(key))
                &&& mass(self.first(key)) + mass(self.second(key)) <= i64::MAX
            }
    }

    /// A state in which no key has a value.
    pub fn new() -> (state: Self)
        ensures
            state.wf(),
            forall|key: u64| state.first(key).len() == 0 && state.second(key).len() == 0,
    {
        let state = JoinState { state: HashMap::new() };
        assert forall|key: u64| state.first(key) =~= Seq::empty() && state.second(key) =~= Seq::empty() by {}
        state
    }

    /// The mass that `key` has on both sides together.
    pub fn mass_of_key(&self, key: u64) -> (m: i64)
        requires
            self.wf(),
        ensures
            m == mass(self.first(key)) + mass(self.second(key)),
    {
        proof {
            assert(consolidated(self.first(key)));
            lemma_mass_bounds(self.first(key));
            lemma_mass_bounds(self.second(key));
        }
        match self.state.get(&key) {
            Some(lists) => mass_of(lists.0.as_slice()) + mass_of(lists.1.as_slice()),
            None => 0,
        }
    }

    /// Takes the two lists of `key` out of the state.
    fn take(&mut self, key: u64) -> (lists: (Vec<(u64, i64)>, Vec<(u64, i64)>))
        ensures
            lists.0@ == old(self).first(key),
            lists.1@ == old(self).second(key),
            final(self).state@ == old(self).state@.remove(key),
    {
        match self.state.remove(&key) {
            Some(lists) => lists,
            None => (Vec::new(), Vec::new()),
        }
    }

    /// The change of the join when `key` goes from the lists that `buffer`
    /// was computed from to the lists `list1` and `list2`: `buffer` holds
    /// the old contribution, and the result is the consolidated difference.
    fn change(buffer: Vec<((u64, u64), i64)>, list1: &Vec<(u64, i64)>, list2: &Vec<(u64, i64)>) -> (out: Vec<((u64, u64), i64)>)
        requires
            mass(list1@) + mass(list2@) <= i64::MAX,
            2 * mass(buffer@) <= i64::MAX,
        ensures
            consolidated(out@),
            forall|p: (u64, u64)| weight_of(out@, p) == weight_of(pairs(list1@, list2@), p) - weight_of(buffer@, p),
    {
        proof {
            lemma_mass_bounds(buffer@);
            lemma_pairs_mass(list1@, list2@);
            lemma_mass_bounds(list1@);
            lemma_mass_bounds(list2@);
        }
        let mut output = negate(buffer);
        let ghost old_part = output@;
        join_helper(list1.as_slice(), list2.as_slice(), &mut output);
        proof {
            lemma_mass_concat(old_part, pairs(list1@, list2@));
            lemma_negated(buffer@, (0u64, 0u64));
            assert forall|p: (u64, u64)| weight_of(output@, p) == weight_of(pairs(list1@, list2@), p) - weight_of(buffer@, p) by {
                lemma_weight_concat(old_part, pairs(list1@, list2@), p);
                lemma_negated(buffer@, p);
            }
        }
        consolidate(&mut output);
        output
    }

    /// Adds `delta` to the weight of the value `val` of `key` on the first
    /// side. Returns the change of the pairs of `key`, consolidated: what
    /// the key contributes afterwards less what it contributed before.
    pub fn update_first(&mut self, key: u64, val: u64, delta: i64) -> (out: Vec<((u64, u64), i64)>)
        requires
            old(self).wf(),
            mass(old(self).first(key)) + mass(old(self).second(key)) + magnitude(delta as int) <= i64::MAX,
        ensures
            final(self).wf(),
            forall|v: u64| weight_of(final(self).first(key), v) == weight_of(old(self).first(key), v) + if v == val {
                delta as int
            } else {
                0
            },
            final(self).second(key) == old(self).second(key),
            mass(final(self).first(key)) <= mass(old(self).first(key)) + magnitude(delta as int),
            forall|k: u64| k != key ==> final(self).first(k) == old(self).first(k) && final(self).second(k) == old(self).second(k),
            consolidated(out@),
            forall|p: (u64, u64)| weight_of(out@, p) == weight_of(pairs(final(self).first(key), final(self).second(key)), p)
                - weight_of(pairs(old(self).first(key), old(self).second(key)), p),
            stepped(*old(self), *final(self), key, val, delta, false, out@),
    {
        let (mut list1, list2) = self.take(key);
        let ghost before1 = list1@;
        assert(consolidated(old(self).first(key)));
        let mut buffer: Vec<((u64, u64), i64)> = Vec::new();
        join_helper(list1.as_slice(), list2.as_slice(), &mut buffer);
        proof {
            assert(buffer@ =~= pairs(list1@, list2@));
            lemma_pairs_mass(list1@, list2@);
            lemma_mass_push(before1, (val, delta));
            lemma_mass_bounds(list2@);
        }
        list1.push((val, delta));
        consolidate(&mut list1);
        proof {
            assert forall|v: u64| weight_of(list1@, v) == weight_of(before1, v) + if v == val {
                delta as int
            } else {
                0
            } by {
                lemma_weight_push(before1, (val, delta), v);
            }
        }
        let out = Self::change(buffer, &list1, &list2);
        self.state.insert(key, (list1, list2));
        proof {
            assert forall|k: u64| k != key implies self.first(k) == old(self).first(k) && self.second(k) == old(self).second(k) by {}
            assert(self.first(key) == list1@);
            assert(self.second(key) == list2@);
            assert forall|k: u64|
                {
                    &&& consolidated(#[trigger] self.first(k))
                    &&& consolidated(self.second(k))
                    &&& mass(self.first(k)) + mass(self.second(k)) <= i64::MAX
                } by {
                if k != key {
                    assert(consolidated(old(self).first(k)));
                }
            }
        }
        out
    }

    /// Adds `delta` to the weight of the value `val` of `key` on the second
    /// side. Returns the change of the pairs of `key`, consolidated: what
    /// the key contributes afterwards less what it contributed before.
    pub fn update_second(&mut self, key: u64, val: u64, delta: i64) -> (out: Vec<((u64, u64), i64)>)
        requires
            old(self).wf(),
            mass(old(self).first(key)) + mass(old(self).second(key)) + magnitude(delta as int) <= i64::MAX,
        ensures
            final(self).wf(),
            forall|v: u64| weight_of(final(self).second(key), v) == weight_of(old(self).second(key), v) + if v == val {
                delta as int
            } else {
                0
            },
            final(self).first(key) == old(self).first(key),
            mass(final(self).second(key)) <= mass(old(self).second(key)) + magnitude(delta as int),
            forall|k: u64| k != key ==> final(self).first(k) == old(self).first(k) && final(self).second(k) == old(self).second(k),
            consolidated(out@),
            forall|p: (u64, u64)| weight_of(out@, p) == weight_of(pairs(final(self).first(key), final(self).second(key)), p)
                - weight_of(pairs(old(self).first(key), old(self).second(key)), p),
            stepped(*old(self), *final(self), key, val, delta, true, out@),
    {
        let (list1, mut list2) = self.take(key);
        let ghost before2 = list2@;
        assert(consolidated(old(self).first(key)));
        let mut buffer: Vec<((u64, u64), i64)> = Vec::new();
        join_helper(list1.as_slice(), list2.as_slice(), &mut buffer);
        proof {
            assert(buffer@ =~= pairs(list1@, list2@));
            lemma_pairs_mass(list1@, list2@);
            lemma_mass_push(before2, (val, delta));
            lemma_mass_bounds(list1@);
        }
        list2.push((val, delta));
        consolidate(&mut list2);
        proof {
            assert forall|v: u64| weight_of(list2@, v) == weight_of(before2, v) + if v == val {
                delta as int
            } else {
                0
            } by {
                lemma_weight_push(before2, (val, delta), v);
            }
        }
        let out = Self::change(buffer, &list1, &list2);
        self.state.insert(key, (list1, list2));
        proof {
            assert forall|k: u64| k != key implies self.first(k) == old(self).first(k) && self.second(k) == old(self).second(k) by {}
            assert(self.first(key) == list1@);
            assert(self.second(key) == list2@);
            assert forall|k: u64|
                {
                    &&& consolidated(#[trigger] self.first(k))
                    &&& consolidated(self.second(k))
                    &&& mass(self.first(k)) + mass(self.second(k)) <= i64::MAX
                } by {
                if k != key {
                    assert(consolidated(old(self).first(k)));
                }
            }
        }
        out
    }
}

/// One update of the state: `after` is `before` with `delta` added to the
/// weight of the value `val` of `key`, on the second side if `second` and
/// on the first if not, and `part` is the consolidated change of the pairs
/// of `key`.
pub open spec fn stepped(before: JoinState, after: JoinState, key: u64, val: u64, delta: i64, second: bool, part: Seq<((u64, u64), i64)>) -> bool {
    &&& after.wf()
    &&& if second {
        &&& after.first(key) == before.first(key)
        &&& consolidated(after.second(key))
        &&& forall|v: u64| #[trigger]
            weight_of(after.second(key), v) == weight_of(before.second(key), v) + if v == val {
                delta as int
            } else {
                0
            }
    } else {
        &&& after.second(key) == before.second(key)
        &&& consolidated(after.first(key))
        &&& forall|v: u64| #[trigger]
            weight_of(after.first(key), v) == weight_of(before.first(key), v) + if v == val {
                delta as int
            } else {
                0
            }
    }
    &&& forall|k: u64| k != key ==> #[trigger] after.first(k) == before.first(k) && after.second(k) == before.second(k)
    &&& consolidated(part)
    &&& forall|p: (u64, u64)| #[trigger]
        weight_of(part, p) == weight_of(pairs(after.first(key), after.second(key)), p) - weight_of(
            pairs(before.first(key), before.second(key)),
            p,
        )
}

/// The changes `parts`, one for each update of `batch`, each under the key
/// of its update, one after the other.
pub open spec fn gathered(batch: Seq<((u64, u64), i64)>, parts: Seq<Seq<((u64, u64), i64)>>) -> Seq<((u64, (u64, u64)), i64)>
    decreases batch.len(),
{
    if batch.len() == 0 || parts.len() != batch.len() {
        Seq::empty()
    } else {
        gathered(batch.drop_last(), parts.drop_last()) + keyed((batch.last().0).0, parts.last())
    }
}

/// The states `states` lead from `before` to `after` by the updates of
/// `batch`, one step for each, and `parts` holds the change of each step.
pub open spec fn traced(
    before: JoinState,
    after: JoinState,
    batch: Seq<((u64, u64), i64)>,
    second: bool,
    states: Seq<JoinState>,
    parts: Seq<Seq<((u64, u64), i64)>>,
) -> bool {
    &&& states.len() == batch.len() + 1
    &&& parts.len() == batch.len()
    &&& states[0] == before
    &&& states[batch.len() as int] == after
    &&& forall|i: int|
        0 <= i < batch.len() ==> stepped(states[i], states[i + 1], (batch[i].0).0, (batch[i].0).1, batch[i].1, second, #[trigger] parts[i])
}

/// `output` is what the updates of `batch`, applied one by one in their
/// order, emit on the way from `before` to `after`.
pub open spec fn applied(before: JoinState, after: JoinState, batch: Seq<((u64, u64), i64)>, second: bool, output: Seq<((u64, (u64, u64)), i64)>) -> bool {
    exists|states: Seq<JoinState>, parts: Seq<Seq<((u64, u64), i64)>>|
        #[trigger] traced(before, after, batch, second, states, parts) && output == gathered(batch, parts)
}

/// The pairs `e` as records of `key`.
pub open spec fn keyed(key: u64, e: Seq<((u64, u64), i64)>) -> Seq<((u64, (u64, u64)), i64)> {
    e.map_values(|x: ((u64, u64), i64)| ((key, x.0), x.1))
}

/// Records of `key` give weight to pairs under `key` only, and there the
/// weight that the pairs have.
pub proof fn lemma_keyed_weight(key: u64, e: Seq<((u64, u64), i64)>, k: u64, p: (u64, u64))
    ensures
        weight_of(keyed(key, e), (k, p)) == if k == key {
            weight_of(e, p)
        } else {
            0
        },
    decreases e.len(),
{
    if e.len() > 0 {
        lemma_keyed_weight(key, e.drop_last(), k, p);
        assert(keyed(key, e).drop_last() =~= keyed(key, e.drop_last()));
    }
}

impl JoinState {
    /// Applies the updates of `batch`, each `((key, value), delta)`, in
    /// their order to one side: the second if `second`, the first if not.
    /// Returns the changes of the join, each pair under its key.
    fn apply(&mut self, batch: &Vec<((u64, u64), i64)>, second: bool) -> (out: Vec<((u64, (u64, u64)), i64)>)
        requires
            old(self).wf(),
            forall|n: int|
                0 <= n < batch@.len() ==> mass(old(self).first(((#[trigger] batch@[n]).0).0)) + mass(old(self).second((batch@[n].0).0)) + mass(
                    batch@,
                ) <= i64::MAX,
        ensures
            final(self).wf(),
            forall|k: u64, v: u64|
                #![trigger weight_of(final(self).first(k), v)]
                #![trigger weight_of(final(self).second(k), v)]
                {
                    &&& weight_of(final(self).first(k), v) == weight_of(old(self).first(k), v) + if second {
                        0
                    } else {
                        weight_of(batch@, (k, v))
                    }
                    &&& weight_of(final(self).second(k), v) == weight_of(old(self).second(k), v) + if second {
                        weight_of(batch@, (k, v))
                    } else {
                        0
                    }
                },
            forall|k: u64, p: (u64, u64)| #[trigger]
                weight_of(out@, (k, p)) == weight_of(pairs(final(self).first(k), final(self).second(k)), p) - weight_of(
                    pairs(old(self).first(k), old(self).second(k)),
                    p,
                ),
            forall|k: u64| mass(#[trigger] final(self).first(k)) + mass(final(self).second(k)) <= mass(old(self).first(k)) + mass(old(self).second(k)) + mass(batch@),
            applied(*old(self), *final(self), batch@, second, out@),
    {
        let mut out: Vec<((u64, (u64, u64)), i64)> = Vec::new();
        let mut i: usize = 0;
        let ghost mut states: Seq<JoinState> = seq![*self];
        let ghost mut parts: Seq<Seq<((u64, u64), i64)>> = Seq::empty();
        proof {
            lemma_mass_take(batch@, 0);
            assert(batch@.take(0) =~= Seq::<((u64, u64), i64)>::empty());
        }
        while i < batch.len()
            invariant
                i <= batch@.len(),
                self.wf(),
                forall|n: int|
                0 <= n < batch@.len() ==> mass(old(self).first(((#[trigger] batch@[n]).0).0)) + mass(old(self).second((batch@[n].0).0)) + mass(
                    batch@,
                ) <= i64::MAX,
                forall|k: u64, v: u64|
                    #![trigger weight_of(self.first(k), v)]
                    #![trigger weight_of(self.second(k), v)]
                    {
                        &&& weight_of(self.first(k), v) == weight_of(old(self).first(k), v) + if second {
                            0
                        } else {
                            weight_of(batch@.take(i as int), (k, v))
                        }
                        &&& weight_of(self.second(k), v) == weight_of(old(self).second(k), v) + if second {
                            weight_of(batch@.take(i as int), (k, v))
                        } else {
                            0
                        }
                    },
                forall|k: u64, p: (u64, u64)| #[trigger]
                    weight_of(out@, (k, p)) == weight_of(pairs(self.first(k), self.second(k)), p) - weight_of(
                        pairs(old(self).first(k), old(self).second(k)),
                        p,
                    ),
                forall|k: u64| mass(#[trigger] self.first(k)) + mass(self.second(k)) <= mass(old(self).first(k)) + mass(old(self).second(k)) + mass(
                    batch@.take(i as int),
                ),
                traced(*old(self), *self, batch@.take(i as int), second, states, parts),
                out@ == gathered(batch@.take(i as int), parts),
            decreases batch@.len() - i,
        {
            let key = (batch[i].0).0;
            let val = (batch[i].0).1;
            let delta = batch[i].1;
            let ghost before = *self;
            let ghost emitted = out@;
            proof {
                lemma_take_next(batch@, i as int, (key, val));
                lemma_mass_take(batch@, i as int + 1);
                assert(mass(self.first(key)) + mass(self.second(key)) <= mass(old(self).first(key)) + mass(old(self).second(key)) + mass(
                    batch@.take(i as int),
                ));
                assert((batch@[i as int].0).0 == key);
                assert(mass(old(self).first(key)) + mass(old(self).second(key)) + mass(batch@) <= i64::MAX);
            }
            let part = if second {
                self.update_second(key, val, delta)
            } else {
                self.update_first(key, val, delta)
            };
            let mut j: usize = 0;
            while j < part.len()
                invariant
                    j <= part@.len(),
                    out@ == emitted + keyed(key, part@.take(j as int)),
                decreases part@.len() - j,
            {
                out.push(((key, part[j].0), part[j].1));
                j = j + 1;
                assert(out@ =~= emitted + keyed(key, part@.take(j as int)));
            }
            proof {
                assert(part@.take(j as int) =~= part@);
                let earlier = states;
                let given = parts;
                states = states.push(*self);
                parts = parts.push(part@);
                let upto = batch@.take(i as int + 1);
                assert(upto.drop_last() =~= batch@.take(i as int));
                assert(parts.drop_last() =~= given);
                assert forall|n: int| 0 <= n < upto.len() implies stepped(
                    states[n],
                    states[n + 1],
                    (upto[n].0).0,
                    (upto[n].0).1,
                    upto[n].1,
                    second,
                    #[trigger] parts[n],
                ) by {
                    if n < i {
                        assert(states[n] == earlier[n]);
                        assert(states[n + 1] == earlier[n + 1]);
                        assert(parts[n] == given[n]);
                        assert(upto[n] == batch@.take(i as int)[n]);
                    }
                }
                assert forall|k: u64, v: u64|
                    #![trigger weight_of(self.first(k), v)]
                    #![trigger weight_of(self.second(k), v)]
                    {
                        &&& weight_of(self.first(k), v) == weight_of(old(self).first(k), v) + if second {
                            0
                        } else {
                            weight_of(batch@.take(i as int + 1), (k, v))
                        }
                        &&& weight_of(self.second(k), v) == weight_of(old(self).second(k), v) + if second {
                            weight_of(batch@.take(i as int + 1), (k, v))
                        } else {
                            0
                        }
                    } by {
                    lemma_take_next(batch@, i as int, (k, v));
                    assert(weight_of(before.first(k), v) == weight_of(old(self).first(k), v) + if second {
                        0
                    } else {
                        weight_of(batch@.take(i as int), (k, v))
                    });
                    assert(weight_of(before.second(k), v) == weight_of(old(self).second(k), v) + if second {
                        weight_of(batch@.take(i as int), (k, v))
                    } else {
                        0
                    });
                }
                assert forall|k: u64, p: (u64, u64)| #[trigger]
                    weight_of(out@, (k, p)) == weight_of(pairs(self.first(k), self.second(k)), p) - weight_of(
                        pairs(old(self).first(k), old(self).second(k)),
                        p,
                    ) by {
                    lemma_weight_concat(emitted, keyed(key, part@), (k, p));
                    lemma_keyed_weight(key, part@, k, p);
                    assert(weight_of(emitted, (k, p)) == weight_of(pairs(before.first(k), before.second(k)), p) - weight_of(
                        pairs(old(self).first(k), old(self).second(k)),
                        p,
                    ));
                }
                assert forall|k: u64| mass(#[trigger] self.first(k)) + mass(self.second(k)) <= mass(old(self).first(k)) + mass(
                    old(self).second(k),
                ) + mass(batch@.take(i as int + 1)) by {
                    assert(mass(before.first(k)) + mass(before.second(k)) <= mass(old(self).first(k)) + mass(old(self).second(k)) + mass(
                        batch@.take(i as int),
                    ));
                }
            }
            i = i + 1;
        }
        assert(batch@.take(i as int) =~= batch@);
        out
    }

    /// Applies the updates of `batch`, each `((key, value), delta)`, in
    /// their order to the first side. Returns the changes of the join, each
    /// pair under its key: together they give every pair what its key
    /// contributes afterwards less what it contributed before.
    pub fn update_first_batch(&mut self, batch: &Vec<((u64, u64), i64)>) -> (out: Vec<((u64, (u64, u64)), i64)>)
        requires
            old(self).wf(),
            forall|n: int|
                0 <= n < batch@.len() ==> mass(old(self).first(((#[trigger] batch@[n]).0).0)) + mass(old(self).second((batch@[n].0).0)) + mass(
                    batch@,
                ) <= i64::MAX,
        ensures
            final(self).wf(),
            forall|k: u64, v: u64| #[trigger]
                weight_of(final(self).first(k), v) == weight_of(old(self).first(k), v) + weight_of(batch@, (k, v)),
            forall|k: u64, v: u64| #[trigger] weight_of(final(self).second(k), v) == weight_of(old(self).second(k), v),
            forall|k: u64, p: (u64, u64)| #[trigger]
                weight_of(out@, (k, p)) == weight_of(pairs(final(self).first(k), final(self).second(k)), p) - weight_of(
                    pairs(old(self).first(k), old(self).second(k)),
                    p,
                ),
            forall|k: u64| mass(#[trigger] final(self).first(k)) + mass(final(self).second(k)) <= mass(old(self).first(k)) + mass(old(self).second(k)) + mass(batch@),
            applied(*old(self), *final(self), batch@, false, out@),
    {
        self.apply(batch, false)
    }

    /// Applies the updates of `batch`, each `((key, value), delta)`, in
    /// their order to the second side. Returns the changes of the join, each
    /// pair under its key: together they give every pair what its key
    /// contributes afterwards less what it contributed before.
    pub fn update_second_batch(&mut self, batch: &Vec<((u64, u64), i64)>) -> (out: Vec<((u64, (u64, u64)), i64)>)
        requires
            old(self).wf(),
            forall|n: int|
                0 <= n < batch@.len() ==> mass(old(self).first(((#[trigger] batch@[n]).0).0)) + mass(old(self).second((batch@[n].0).0)) + mass(
                    batch@,
                ) <= i64::MAX,
        ensures
            final(self).wf(),
            forall|k: u64, v: u64| #[trigger] weight_of(final(self).first(k), v) == weight_of(old(self).first(k), v),
            forall|k: u64, v: u64| #[trigger]
                weight_of(final(self).second(k), v) == weight_of(old(self).second(k), v) + weight_of(batch@, (k, v)),
            forall|k: u64, p: (u64, u64)| #[trigger]
                weight_of(out@, (k, p)) == weight_of(pairs(final(self).first(k), final(self).second(k)), p) - weight_of(
                    pairs(old(self).first(k), old(self).second(k)),
                    p,
                ),
            forall|k: u64| mass(#[trigger] final(self).first(k)) + mass(final(self).second(k)) <= mass(old(self).first(k)) + mass(old(self).second(k)) + mass(batch@),
            applied(*old(self), *final(self), batch@, true, out@),
    {
        self.apply(batch, true)
    }
}

/// The lists `l1` and `l2` are the values that `k` has in `a` and in `b`,
/// and `output` gives the pairs under `k` what the two lists contribute.
pub open spec fn joined_by(
    a: Seq<((u64, u64), i64)>,
    b: Seq<((u64, u64), i64)>,
    output: Seq<((u64, (u64, u64)), i64)>,
    k: u64,
    l1: Seq<(u64, i64)>,
    l2: Seq<(u64, i64)>,
) -> bool {
    &&& consolidated(l1)
    &&& consolidated(l2)
    &&& forall|v: u64| weight_of(l1, v) == #[trigger] weight_of(a, (k, v))
    &&& forall|v: u64| weight_of(l2, v) == #[trigger] weight_of(b, (k, v))
    &&& forall|p: (u64, u64)| #[trigger] weight_of(output, (k, p)) == weight_of(pairs(l1, l2), p)
}

/// Under the key `k`, `output` holds the pairs of the values that `k` has
/// in `a` with those that it has in `b`, weighted as `pairs` says.
pub open spec fn joined_under(a: Seq<((u64, u64), i64)>, b: Seq<((u64, u64), i64)>, output: Seq<((u64, (u64, u64)), i64)>, k: u64) -> bool {
    exists|l1: Seq<(u64, i64)>, l2: Seq<(u64, i64)>| #[trigger] joined_by(a, b, output, k, l1, l2)
}

/// `output` is the join of the collections `a` and `b`.
pub open spec fn joined_as(a: Seq<((u64, u64), i64)>, b: Seq<((u64, u64), i64)>, output: Seq<((u64, (u64, u64)), i64)>) -> bool {
    forall|k: u64| #[trigger] joined_under(a, b, output, k)
}

/// `output` is what is emitted when, from a state without values, first
/// the updates of `a` are applied to the first side and then those of `b`
/// to the second.
pub open spec fn joined_in_order(a: Seq<((u64, u64), i64)>, b: Seq<((u64, u64), i64)>, output: Seq<((u64, (u64, u64)), i64)>) -> bool {
    exists|start: JoinState, middle: JoinState, end: JoinState, out1: Seq<((u64, (u64, u64)), i64)>, out2: Seq<((u64, (u64, u64)), i64)>|
        {
            &&& forall|k: u64| start.first(k).len() == 0 && start.second(k).len() == 0
            &&& #[trigger] applied(start, middle, a, false, out1)
            &&& #[trigger] applied(middle, end, b, true, out2)
            &&& output == out1 + out2
        }
}

/// Joins two whole collections of `(key, value)` records.
pub fn join(first: &Vec<((u64, u64), i64)>, second: &Vec<((u64, u64), i64)>) -> (out: Vec<((u64, (u64, u64)), i64)>)
    requires
        mass(first@) + mass(second@) <= i64::MAX,
    ensures
        joined_as(first@, second@, out@),
        joined_in_order(first@, second@, out@),
{
    let mut state = JoinState::new();
    proof {
        lemma_mass_bounds(first@);
        lemma_mass_bounds(second@);
        assert forall|n: int| 0 <= n < first@.len() implies mass(state.first(((#[trigger] first@[n]).0).0)) + mass(
            state.second((first@[n].0).0),
        ) + mass(first@) <= i64::MAX by {
            let k = (first@[n].0).0;
            assert(state.first(k) =~= Seq::empty());
            assert(state.second(k) =~= Seq::empty());
        }
    }
    let ghost start = state;
    let mut out = state.update_first_batch(first);
    let ghost middle = state;
    let ghost out1 = out@;
    proof {
        assert forall|n: int| 0 <= n < second@.len() implies mass(state.first(((#[trigger] second@[n]).0).0)) + mass(
            state.second((second@[n].0).0),
        ) + mass(second@) <= i64::MAX by {
            let k = (second@[n].0).0;
            assert(start.first(k) =~= Seq::empty());
            assert(start.second(k) =~= Seq::empty());
            assert(mass(state.first(k)) + mass(state.second(k)) <= mass(start.first(k)) + mass(start.second(k)) + mass(first@));
        }
    }
    let mut more = state.update_second_batch(second);
    let ghost out2 = more@;
    out.append(&mut more);
    proof {
        assert forall|k: u64| #[trigger] joined_under(first@, second@, out@, k) by {
            let l1 = state.first(k);
            let l2 = state.second(k);
            assert(consolidated(state.first(k)));
            assert(start.first(k) =~= Seq::empty());
            assert(start.second(k) =~= Seq::empty());
            assert forall|v: u64| weight_of(l1, v) == #[trigger] weight_of(first@, (k, v)) by {
                assert(weight_of(middle.first(k), v) == weight_of(start.first(k), v) + weight_of(first@, (k, v)));
                assert(weight_of(state.first(k), v) == weight_of(middle.first(k), v));
            }
            assert forall|v: u64| weight_of(l2, v) == #[trigger] weight_of(second@, (k, v)) by {
                assert(weight_of(middle.second(k), v) == weight_of(start.second(k), v));
                assert(weight_of(state.second(k), v) == weight_of(middle.second(k), v) + weight_of(second@, (k, v)));
            }
            assert forall|p: (u64, u64)| #[trigger] weight_of(out@, (k, p)) == weight_of(pairs(l1, l2), p) by {
                lemma_weight_concat(out1, out2, (k, p));
                assert(weight_of(out1, (k, p)) == weight_of(pairs(middle.first(k), middle.second(k)), p) - weight_of(
                    pairs(start.first(k), start.second(k)),
                    p,
                ));
                assert(weight_of(out2, (k, p)) == weight_of(pairs(state.first(k), state.second(k)), p) - weight_of(
                    pairs(middle.first(k), middle.second(k)),
                    p,
                ));
                lemma_pairs_empty_second(start.first(k));
            }
            assert(joined_by(first@, second@, out@, k, l1, l2));
        }
        assert(applied(start, middle, first@, false, out1));
        assert(applied(middle, state, second@, true, out2));
    }
    out
}

} // verus!
