//! The mathematical model of weighted collections.
//!
//! A batch of updates is a sequence of `(record, weight)` pairs. What it
//! means is the function from records to the sum of their weights; two
//! batches with the same function are the same collection.

use vstd::prelude::*;
use crate::datum::Datum;

verus! {

/// The absolute value of an integer.
pub open spec fn magnitude(x: int) -> int {
    if x < 0 {
        -x
    } else {
        x
    }
}

/// The weight that `s` gives to the record `d`: the sum of the weights of
/// all its updates to `d`.
pub open spec fn weight_of<D>(s: Seq<(D, i64)>, d: D) -> int
    decreases s.len(),
{
    if s.len() == 0 {
        0
    } else {
        weight_of(s.drop_last(), d) + if s.last().0 == d {
            s.last().1 as int
        } else {
            0
        }
    }
}

/// The mass of `s`: the sum of the absolute values of its weights.
pub open spec fn mass<D>(s: Seq<(D, i64)>) -> int
    decreases s.len(),
{
    if s.len() == 0 {
        0
    } else {
        mass(s.drop_last()) + magnitude(s.last().1 as int)
    }
}

/// The sum of the weights of `s`.
pub open spec fn total<D>(s: Seq<(D, i64)>) -> int
    decreases s.len(),
{
    if s.len() == 0 {
        0
    } else {
        total(s.drop_last()) + s.last().1 as int
    }
}

/// Two batches denote the same weighted collection.
pub open spec fn same_collection<D>(a: Seq<(D, i64)>, b: Seq<(D, i64)>) -> bool {
    forall|d: D| weight_of(a, d) == weight_of(b, d)
}

/// The records of `s` come in strictly ascending order.
pub open spec fn ascending<D: Datum>(s: Seq<(D, i64)>) -> bool {
    forall|i: int, j: int| 0 <= i < j < s.len() ==> (#[trigger] s[i]).0.rank() < (#[trigger] s[j]).0.rank()
}

/// `s` is in canonical form: strictly ascending records, no zero weight.
pub open spec fn consolidated<D: Datum>(s: Seq<(D, i64)>) -> bool {
    &&& ascending(s)
    &&& forall|i: int| 0 <= i < s.len() ==> (#[trigger] s[i]).1 != 0
}

/// Every record of `a` comes strictly before every record of `b`.
pub open spec fn all_before<D: Datum>(a: Seq<(D, i64)>, b: Seq<(D, i64)>) -> bool {
    forall|i: int, j: int| 0 <= i < a.len() && 0 <= j < b.len() ==> (#[trigger] a[i]).0.rank() < (#[trigger] b[j]).0.rank()
}

/// One more update adds its weight to the record that it names.
pub proof fn lemma_weight_push<D>(s: Seq<(D, i64)>, x: (D, i64), d: D)
    ensures
        weight_of(s.push(x), d) == weight_of(s, d) + if x.0 == d {
            x.1 as int
        } else {
            0
        },
{
    assert(s.push(x).drop_last() =~= s);
}

/// One more update adds the magnitude of its weight to the mass.
pub proof fn lemma_mass_push<D>(s: Seq<(D, i64)>, x: (D, i64))
    ensures
        mass(s.push(x)) == mass(s) + magnitude(x.1 as int),
{
    assert(s.push(x).drop_last() =~= s);
}

/// One more update adds its weight to the total.
pub proof fn lemma_total_push<D>(s: Seq<(D, i64)>, x: (D, i64))
    ensures
        total(s.push(x)) == total(s) + x.1,
{
    assert(s.push(x).drop_last() =~= s);
}

/// The weight function of a concatenation is the sum of the weight functions.
pub proof fn lemma_weight_concat<D>(a: Seq<(D, i64)>, b: Seq<(D, i64)>, d: D)
    ensures
        weight_of(a + b, d) == weight_of(a, d) + weight_of(b, d),
    decreases b.len(),
{
    if b.len() == 0 {
        assert(a + b =~= a);
    } else {
        lemma_weight_concat(a, b.drop_last(), d);
        assert((a + b).drop_last() =~= a + b.drop_last());
    }
}

/// The mass of a concatenation is the sum of the masses.
pub proof fn lemma_mass_concat<D>(a: Seq<(D, i64)>, b: Seq<(D, i64)>)
    ensures
        mass(a + b) == mass(a) + mass(b),
    decreases b.len(),
{
    if b.len() == 0 {
        assert(a + b =~= a);
    } else {
        lemma_mass_concat(a, b.drop_last());
        assert((a + b).drop_last() =~= a + b.drop_last());
    }
}

/// Taking the first update off a batch takes its weight off the record it names.
pub proof fn lemma_weight_first<D>(s: Seq<(D, i64)>, d: D)
    requires
        s.len() > 0,
    ensures
        weight_of(s, d) == weight_of(s.drop_first(), d) + if s[0].0 == d {
            s[0].1 as int
        } else {
            0
        },
{
    let head = Seq::<(D, i64)>::empty().push(s[0]);
    assert(s =~= head + s.drop_first());
    lemma_weight_concat(head, s.drop_first(), d);
    lemma_weight_push(Seq::<(D, i64)>::empty(), s[0], d);
}

/// Taking the first update off a batch takes the magnitude of its weight off the mass.
pub proof fn lemma_mass_first<D>(s: Seq<(D, i64)>)
    requires
        s.len() > 0,
    ensures
        mass(s) == mass(s.drop_first()) + magnitude(s[0].1 as int),
{
    let head = Seq::<(D, i64)>::empty().push(s[0]);
    assert(s =~= head + s.drop_first());
    lemma_mass_concat(head, s.drop_first());
    lemma_mass_push(Seq::<(D, i64)>::empty(), s[0]);
}

/// The mass is never negative, and bounds every weight and the sum of the weights.
pub proof fn lemma_mass_bounds<D>(s: Seq<(D, i64)>)
    ensures
        0 <= mass(s),
        magnitude(total(s)) <= mass(s),
        forall|i: int| 0 <= i < s.len() ==> magnitude((#[trigger] s[i]).1 as int) <= mass(s),
    decreases s.len(),
{
    if s.len() > 0 {
        lemma_mass_bounds(s.drop_last());
        assert forall|i: int| 0 <= i < s.len() implies magnitude((#[trigger] s[i]).1 as int) <= mass(s) by {
            if i < s.len() - 1 {
                assert(s[i] == s.drop_last()[i]);
            }
        }
    }
}

/// The mass bounds the weight of every record.
pub proof fn lemma_weight_bound<D>(s: Seq<(D, i64)>, d: D)
    ensures
        magnitude(weight_of(s, d)) <= mass(s),
    decreases s.len(),
{
    if s.len() > 0 {
        lemma_weight_bound(s.drop_last(), d);
    }
}

/// A batch that never names `d` gives it weight zero.
pub proof fn lemma_weight_absent<D>(s: Seq<(D, i64)>, d: D)
    requires
        forall|i: int| 0 <= i < s.len() ==> (#[trigger] s[i]).0 != d,
    ensures
        weight_of(s, d) == 0,
    decreases s.len(),
{
    if s.len() > 0 {
        assert forall|i: int| 0 <= i < s.drop_last().len() implies (#[trigger] s.drop_last()[i]).0 != d by {
            assert(s.drop_last()[i] == s[i]);
        }
        lemma_weight_absent(s.drop_last(), d);
    }
}

/// In a batch with ascending records, a record has the weight of its one
/// update, and no weight before it.
pub proof fn lemma_ascending_weight<D: Datum>(s: Seq<(D, i64)>, i: int)
    requires
        ascending(s),
        0 <= i < s.len(),
    ensures
        weight_of(s.take(i), s[i].0) == 0,
        weight_of(s, s[i].0) == s[i].1,
{
    let d = s[i].0;
    let before = s.take(i);
    let after = s.skip(i + 1);
    assert forall|j: int| 0 <= j < before.len() implies (#[trigger] before[j]).0 != d by {
        assert(before[j] == s[j]);
    }
    assert forall|j: int| 0 <= j < after.len() implies (#[trigger] after[j]).0 != d by {
        assert(after[j] == s[i + 1 + j]);
    }
    lemma_weight_absent(before, d);
    lemma_weight_absent(after, d);
    assert(s =~= before.push(s[i]) + after);
    lemma_weight_concat(before.push(s[i]), after, d);
    lemma_weight_push(before, s[i], d);
}

/// The first `n + 1` updates of a batch are its first `n` and one more.
pub proof fn lemma_take_next<D>(s: Seq<(D, i64)>, n: int, d: D)
    requires
        0 <= n < s.len(),
    ensures
        s.take(n + 1) == s.take(n).push(s[n]),
        weight_of(s.take(n + 1), d) == weight_of(s.take(n), d) + if s[n].0 == d {
            s[n].1 as int
        } else {
            0
        },
        mass(s.take(n + 1)) == mass(s.take(n)) + magnitude(s[n].1 as int),
        total(s.take(n + 1)) == total(s.take(n)) + s[n].1,
{
    assert(s.take(n + 1) =~= s.take(n).push(s[n]));
    lemma_weight_push(s.take(n), s[n], d);
    lemma_mass_push(s.take(n), s[n]);
    lemma_total_push(s.take(n), s[n]);
}

/// The first updates of a batch have at most the mass of all of them.
pub proof fn lemma_mass_take<D>(s: Seq<(D, i64)>, n: int)
    requires
        0 <= n <= s.len(),
    ensures
        0 <= mass(s.take(n)) <= mass(s),
{
    assert(s =~= s.take(n) + s.skip(n));
    lemma_mass_concat(s.take(n), s.skip(n));
    lemma_mass_bounds(s.take(n));
    lemma_mass_bounds(s.skip(n));
}

/// What is left of a consolidated run after its first update is consolidated,
/// and the first update comes before all of it.
pub proof fn lemma_drop_first_consolidated<D: Datum>(s: Seq<(D, i64)>)
    requires
        consolidated(s),
        s.len() > 0,
    ensures
        consolidated(s.drop_first()),
        forall|j: int| 0 <= j < s.drop_first().len() ==> s[0].0.rank() < (#[trigger] s.drop_first()[j]).0.rank(),
{
    let rest = s.drop_first();
    assert forall|i: int, j: int| 0 <= i < j < rest.len() implies (#[trigger] rest[i]).0.rank() < (#[trigger] rest[j]).0.rank() by {
        assert(rest[i] == s[i + 1]);
        assert(rest[j] == s[j + 1]);
    }
    assert forall|i: int| 0 <= i < rest.len() implies (#[trigger] rest[i]).1 != 0 by {
        assert(rest[i] == s[i + 1]);
    }
    assert forall|j: int| 0 <= j < rest.len() implies s[0].0.rank() < (#[trigger] rest[j]).0.rank() by {
        assert(rest[j] == s[j + 1]);
    }
}

/// The canonical form of a collection is unique: two consolidated batches
/// that give every record the same weight are the same batch.
pub proof fn lemma_consolidated_unique<D: Datum>(a: Seq<(D, i64)>, b: Seq<(D, i64)>)
    requires
        consolidated(a),
        consolidated(b),
        same_collection(a, b),
    ensures
        a == b,
    decreases a.len() + b.len(),
{
    if a.len() == 0 && b.len() == 0 {
        assert(a =~= b);
    } else if a.len() == 0 {
        lemma_ascending_weight(b, 0);
        assert(weight_of(a, b[0].0) == weight_of(b, b[0].0));
    } else if b.len() == 0 {
        lemma_ascending_weight(a, 0);
        assert(weight_of(a, a[0].0) == weight_of(b, a[0].0));
    } else {
        lemma_ascending_weight(a, 0);
        lemma_ascending_weight(b, 0);
        lemma_drop_first_consolidated(a);
        lemma_drop_first_consolidated(b);
        if a[0].0.rank() < b[0].0.rank() {
            assert forall|j: int| 0 <= j < b.len() implies (#[trigger] b[j]).0 != a[0].0 by {
                if j > 0 {
                    assert(b[j] == b.drop_first()[j - 1]);
                }
            }
            lemma_weight_absent(b, a[0].0);
            assert(weight_of(a, a[0].0) == weight_of(b, a[0].0));
        } else if b[0].0.rank() < a[0].0.rank() {
            assert forall|j: int| 0 <= j < a.len() implies (#[trigger] a[j]).0 != b[0].0 by {
                if j > 0 {
                    assert(a[j] == a.drop_first()[j - 1]);
                }
            }
            lemma_weight_absent(a, b[0].0);
            assert(weight_of(a, b[0].0) == weight_of(b, b[0].0));
        } else {
            D::rank_injective(a[0].0, b[0].0);
            assert(weight_of(a, a[0].0) == weight_of(b, a[0].0));
            assert forall|d: D| weight_of(a.drop_first(), d) == weight_of(b.drop_first(), d) by {
                lemma_weight_first(a, d);
                lemma_weight_first(b, d);
                assert(weight_of(a, d) == weight_of(b, d));
            }
            lemma_consolidated_unique(a.drop_first(), b.drop_first());
            assert(a =~= seq![a[0]] + a.drop_first());
            assert(b =~= seq![b[0]] + b.drop_first());
        }
    }
}

/// The updates of `s` without those to the record `d`.
pub open spec fn without<D>(s: Seq<(D, i64)>, d: D) -> Seq<(D, i64)>
    decreases s.len(),
{
    if s.len() == 0 {
        Seq::empty()
    } else if s.last().0 == d {
        without(s.drop_last(), d)
    } else {
        without(s.drop_last(), d).push(s.last())
    }
}

/// The size of the collection that `s` denotes: the sum, over the records
/// that `s` names, of the absolute value of the weight of each. Updates
/// that cancel do not count, unlike in the mass.
pub open spec fn net_mass<D>(s: Seq<(D, i64)>) -> int
    decreases s.len(),
    via net_mass_decreases::<D>
{
    if s.len() == 0 {
        0
    } else {
        magnitude(weight_of(s, s.last().0)) + net_mass(without(s.drop_last(), s.last().0))
    }
}

/// To leave out a record does not make a batch longer.
#[via_fn]
proof fn net_mass_decreases<D>(s: Seq<(D, i64)>) {
    if s.len() > 0 {
        lemma_without(s.drop_last(), s.last().0, s.last().0);
    }
}

/// Without a record, a batch is no longer, gives that record no weight, and
/// gives every other record the weight it had.
pub proof fn lemma_without<D>(s: Seq<(D, i64)>, d: D, e: D)
    ensures
        without(s, d).len() <= s.len(),
        weight_of(without(s, d), e) == if e == d {
            0
        } else {
            weight_of(s, e)
        },
    decreases s.len(),
{
    if s.len() > 0 {
        lemma_without(s.drop_last(), d, e);
        if s.last().0 != d {
            lemma_weight_push(without(s.drop_last(), d), s.last(), e);
        }
    }
}

/// What one more update does to a batch without a record.
pub proof fn lemma_without_push<D>(s: Seq<(D, i64)>, x: (D, i64), d: D)
    ensures
        without(s.push(x), d) == if x.0 == d {
            without(s, d)
        } else {
            without(s, d).push(x)
        },
{
    assert(s.push(x).drop_last() =~= s);
}

/// Two records can be left out in either order.
pub proof fn lemma_without_commutes<D>(s: Seq<(D, i64)>, d: D, e: D)
    ensures
        without(without(s, d), e) == without(without(s, e), d),
    decreases s.len(),
{
    if s.len() > 0 {
        let rest = s.drop_last();
        let x = s.last();
        lemma_without_commutes(rest, d, e);
        if x.0 != d {
            lemma_without_push(without(rest, d), x, e);
        }
        if x.0 != e {
            lemma_without_push(without(rest, e), x, d);
        }
    }
}

/// The size of a collection can be counted from any record: it is the
/// absolute weight of that record and the size of the rest.
pub proof fn lemma_net_mass_peel<D>(s: Seq<(D, i64)>, d: D)
    ensures
        net_mass(s) == magnitude(weight_of(s, d)) + net_mass(without(s, d)),
    decreases s.len(),
{
    if s.len() > 0 {
        let rest = s.drop_last();
        let first = s.last().0;
        if first != d {
            let left = without(rest, first);
            lemma_without(rest, first, first);
            lemma_net_mass_peel(left, d);
            lemma_without(rest, first, d);
            lemma_weight_push(rest, s.last(), d);
            let other = without(s, d);
            assert(other == without(rest, d).push(s.last()));
            assert(other.drop_last() =~= without(rest, d));
            lemma_without(s, d, first);
            lemma_without_commutes(rest, first, d);
        }
    }
}

/// A batch that gives every record the weight zero denotes the empty
/// collection, of size zero.
pub proof fn lemma_net_mass_zero<D>(s: Seq<(D, i64)>)
    requires
        forall|e: D| weight_of(s, e) == 0,
    ensures
        net_mass(s) == 0,
    decreases s.len(),
{
    if s.len() > 0 {
        let d = s.last().0;
        let rest = without(s.drop_last(), d);
        lemma_without(s.drop_last(), d, d);
        assert forall|e: D| weight_of(rest, e) == 0 by {
            lemma_without(s, d, e);
        }
        lemma_net_mass_zero(rest);
    }
}

/// The size belongs to the collection, not to the batch: two batches that
/// denote the same collection have the same size.
pub proof fn lemma_net_mass_same<D>(a: Seq<(D, i64)>, b: Seq<(D, i64)>)
    requires
        same_collection(a, b),
    ensures
        net_mass(a) == net_mass(b),
    decreases a.len(),
{
    if a.len() == 0 {
        assert forall|e: D| weight_of(b, e) == 0 by {
            assert(weight_of(a, e) == weight_of(b, e));
        }
        lemma_net_mass_zero(b);
    } else {
        let d = a.last().0;
        lemma_net_mass_peel(b, d);
        lemma_without(a.drop_last(), d, d);
        assert(weight_of(a, d) == weight_of(b, d));
        assert forall|e: D| weight_of(without(a, d), e) == weight_of(without(b, d), e) by {
            lemma_without(a, d, e);
            lemma_without(b, d, e);
            assert(weight_of(a, e) == weight_of(b, e));
        }
        lemma_net_mass_same(without(a, d), without(b, d));
    }
}

/// Two collections that differ in the weight of one record only differ in
/// size by no more than that difference.
pub proof fn lemma_net_mass_one_record<D>(a: Seq<(D, i64)>, b: Seq<(D, i64)>, d: D)
    requires
        forall|e: D| e != d ==> weight_of(a, e) == weight_of(b, e),
    ensures
        net_mass(a) <= net_mass(b) + magnitude(weight_of(a, d) - weight_of(b, d)),
{
    lemma_net_mass_peel(a, d);
    lemma_net_mass_peel(b, d);
    assert forall|e: D| weight_of(without(a, d), e) == weight_of(without(b, d), e) by {
        lemma_without(a, d, e);
        lemma_without(b, d, e);
    }
    lemma_net_mass_same(without(a, d), without(b, d));
}

} // verus!
