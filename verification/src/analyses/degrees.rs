//! Reconciling two measurements of a degree distribution.
//!
//! One measurement gives, for every index `x`, a count `horizontal[x]`; the
//! other gives, for every index `y`, a count `vertical[y]`. Of an exact
//! pair each is the transpose of the other: together they trace a
//! staircase on the integer grid, from `(0, top)` down and right to
//! `(width, 0)`. A step right from `(x, y)` commits the first measurement
//! at `x` to the value `y`; a step down from `(x, y)` commits the second
//! at `y - 1` to the value `x`. The fit is the staircase of least cost.

use vstd::prelude::*;

verus! {

/// The largest value of `s`, and zero when none is above zero.
pub open spec fn largest(s: Seq<i64>) -> int
    decreases s.len(),
{
    if s.len() == 0 {
        0
    } else if s.last() > largest(s.drop_last()) {
        s.last() as int
    } else {
        largest(s.drop_last())
    }
}

/// `cost` gives one answer for each pair of arguments.
pub open spec fn single_valued<M, F: Fn(M, i64) -> u64>(cost: F) -> bool {
    forall|e: M, a: i64, c1: u64, c2: u64| cost.ensures((e, a), c1) && cost.ensures((e, a), c2) ==> c1 == c2
}

/// What `cost` answers for the measured value `expected` and the value `actual`.
pub open spec fn cost_of<M, F: Fn(M, i64) -> u64>(cost: F, expected: M, actual: i64) -> u64 {
    choose|c: u64| cost.ensures((expected, actual), c)
}

/// The cost of the step right from `(x, y)`.
pub open spec fn edge_right<M, F: Fn(M, i64) -> u64>(cost: F, horizontal: Seq<M>, x: int, y: int) -> int {
    cost_of(cost, horizontal[x], y as i64) as int
}

/// The cost of the step down from `(x, y)`.
pub open spec fn edge_down<M, F: Fn(M, i64) -> u64>(cost: F, vertical: Seq<M>, x: int, y: int) -> int {
    cost_of(cost, vertical[y - 1], x as i64) as int
}

/// The least cost of a staircase from `(0, top)` to `(x, y)`.
pub open spec fn dist<M, F: Fn(M, i64) -> u64>(cost: F, horizontal: Seq<M>, vertical: Seq<M>, top: int, x: int, y: int) -> int
    decreases x + (top - y),
    when 0 <= x && 0 <= y <= top
{
    if x == 0 && y == top {
        0
    } else if x == 0 {
        dist(cost, horizontal, vertical, top, x, y + 1) + edge_down(cost, vertical, x, y + 1)
    } else if y == top {
        dist(cost, horizontal, vertical, top, x - 1, y) + edge_right(cost, horizontal, x - 1, y)
    } else {
        let by_right = dist(cost, horizontal, vertical, top, x - 1, y) + edge_right(cost, horizontal, x - 1, y);
        let by_down = dist(cost, horizontal, vertical, top, x, y + 1) + edge_down(cost, vertical, x, y + 1);
        if by_right <= by_down {
            by_right
        } else {
            by_down
        }
    }
}

/// Whether the best staircase reaches `(x, y)` by a step right: it does
/// where that costs no more than to reach it by a step down.
pub open spec fn by_right<M, F: Fn(M, i64) -> u64>(cost: F, horizontal: Seq<M>, vertical: Seq<M>, top: int, x: int, y: int) -> bool {
    x > 0 && (y == top || dist(cost, horizontal, vertical, top, x - 1, y) + edge_right(cost, horizontal, x - 1, y) <= dist(
        cost,
        horizontal,
        vertical,
        top,
        x,
        y + 1,
    ) + edge_down(cost, vertical, x, y + 1))
}

/// The heights of the steps right of the best staircase to `(x, y)`, by column.
pub open spec fn fit_right<M, F: Fn(M, i64) -> u64>(cost: F, horizontal: Seq<M>, vertical: Seq<M>, top: int, x: int, y: int) -> Seq<int>
    decreases x + (top - y),
    when 0 <= x && 0 <= y <= top
{
    if x == 0 && y == top {
        Seq::empty()
    } else if by_right(cost, horizontal, vertical, top, x, y) {
        fit_right(cost, horizontal, vertical, top, x - 1, y).push(y)
    } else {
        fit_right(cost, horizontal, vertical, top, x, y + 1)
    }
}

/// The columns of the steps down of the best staircase to `(x, y)`, from
/// the topmost row downward.
pub open spec fn fit_down<M, F: Fn(M, i64) -> u64>(cost: F, horizontal: Seq<M>, vertical: Seq<M>, top: int, x: int, y: int) -> Seq<int>
    decreases x + (top - y),
    when 0 <= x && 0 <= y <= top
{
    if x == 0 && y == top {
        Seq::empty()
    } else if by_right(cost, horizontal, vertical, top, x, y) {
        fit_down(cost, horizontal, vertical, top, x - 1, y)
    } else {
        fit_down(cost, horizontal, vertical, top, x, y + 1).push(x)
    }
}

/// A staircase to `(x, y)` has one step right for each column before `x`
/// and one step down for each row from `top` to `y`.
pub proof fn lemma_fit_lengths<M, F: Fn(M, i64) -> u64>(cost: F, horizontal: Seq<M>, vertical: Seq<M>, top: int, x: int, y: int)
    requires
        0 <= x,
        0 <= y <= top,
    ensures
        fit_right(cost, horizontal, vertical, top, x, y).len() == x,
        fit_down(cost, horizontal, vertical, top, x, y).len() == top - y,
    decreases x + (top - y),
{
    if x == 0 && y == top {
    } else if by_right(cost, horizontal, vertical, top, x, y) {
        lemma_fit_lengths(cost, horizontal, vertical, top, x - 1, y);
    } else {
        lemma_fit_lengths(cost, horizontal, vertical, top, x, y + 1);
    }
}

/// The least cost to a point is at most the largest cost times the number
/// of steps to it.
pub proof fn lemma_dist_bound<M, F: Fn(M, i64) -> u64>(cost: F, horizontal: Seq<M>, vertical: Seq<M>, top: int, x: int, y: int)
    requires
        0 <= x,
        0 <= y <= top,
    ensures
        0 <= dist(cost, horizontal, vertical, top, x, y) <= (x + top - y) * u64::MAX,
    decreases x + (top - y),
{
    let n = x + top - y;
    assert((n - 1) * u64::MAX + u64::MAX == n * u64::MAX) by (nonlinear_arith);
    if x == 0 && y == top {
        assert(0 * u64::MAX == 0) by (nonlinear_arith);
    } else if x == 0 {
        lemma_dist_bound(cost, horizontal, vertical, top, x, y + 1);
    } else if y == top {
        lemma_dist_bound(cost, horizontal, vertical, top, x - 1, y);
    } else {
        lemma_dist_bound(cost, horizontal, vertical, top, x - 1, y);
        lemma_dist_bound(cost, horizontal, vertical, top, x, y + 1);
    }
}

/// The largest value of `list`, and zero when none is above zero.
fn largest_of(list: &[i64]) -> (m: usize)
    requires
        largest(list@) <= usize::MAX,
    ensures
        m == largest(list@),
{
    let mut best: i64 = 0;
    let mut i: usize = 0;
    while i < list.len()
        invariant
            i <= list@.len(),
            0 <= best,
            best == largest(list@.take(i as int)),
            largest(list@) <= usize::MAX,
        decreases list@.len() - i,
    {
        assert(list@.take(i as int + 1).drop_last() =~= list@.take(i as int));
        if list[i] > best {
            best = list[i];
        }
        i = i + 1;
    }
    assert(list@.take(i as int) =~= list@);
    best as usize
}

/// A vector of `n` zeros.
fn zeros(n: usize) -> (v: Vec<usize>)
    ensures
        v@.len() == n,
        forall|i: int| 0 <= i < n ==> (#[trigger] v@[i]) == 0,
{
    let mut v: Vec<usize> = Vec::new();
    while v.len() < n
        invariant
            v@.len() <= n,
            forall|i: int| 0 <= i < v@.len() ==> (#[trigger] v@[i]) == 0,
        decreases n - v@.len(),
    {
        v.push(0);
    }
    v
}

/// Asks `cost` for the cost of committing the measured value `expected`
/// to the value `actual`.
fn ask<M: Copy, F: Fn(M, i64) -> u64>(cost: &F, expected: M, actual: usize) -> (c: u64)
    requires
        actual <= i64::MAX,
        forall|e: M, a: i64| cost.requires((e, a)),
        single_valued(*cost),
    ensures
        c == cost_of(*cost, expected, actual as i64),
{
    let c = cost(expected, actual as i64);
    assert(cost.ensures((expected, actual as i64), c));
    c
}

/// The least costs to all points of the grid: for the point `(x, y)` at
/// `table[x][top - y]`.
fn distances<M: Copy, F: Fn(M, i64) -> u64>(horizontal: &[M], vertical: &[M], cost: &F, width: usize, top: usize) -> (table: Vec<Vec<u128>>)
    requires
        width <= horizontal@.len(),
        top <= vertical@.len(),
        width <= i64::MAX,
        top <= i64::MAX,
        (width + 1) * (top + 1) <= usize::MAX,
        forall|e: M, a: i64| cost.requires((e, a)),
        single_valued(*cost),
    ensures
        table@.len() == width + 1,
        forall|x: int| 0 <= x <= width ==> (#[trigger] table@[x])@.len() == top + 1,
        forall|x: int, k: int|
            0 <= x <= width && 0 <= k <= top ==> (#[trigger] table@[x]@[k]) == dist(*cost, horizontal@, vertical@, top as int, x, top - k),
{
    let ghost limit = width + top;
    proof {
        assert(width + top + 1 <= (width + 1) * (top + 1)) by (nonlinear_arith)
            requires
                width >= 0,
                top >= 0,
        ;
        assert(limit * u64::MAX + u64::MAX <= u128::MAX) by (nonlinear_arith)
            requires
                0 <= limit < u64::MAX,
        ;
    }
    let mut table: Vec<Vec<u128>> = Vec::new();
    let mut x: usize = 0;
    while x <= width
        invariant
            x <= width + 1,
            width <= horizontal@.len(),
            top <= vertical@.len(),
            width <= i64::MAX,
            top <= i64::MAX,
            width + 1 <= usize::MAX,
            top + 1 <= usize::MAX,
            limit == width + top,
            limit * u64::MAX + u64::MAX <= u128::MAX,
            forall|e: M, a: i64| cost.requires((e, a)),
            single_valued(*cost),
            table@.len() == x,
            forall|xx: int| 0 <= xx < x ==> (#[trigger] table@[xx])@.len() == top + 1,
            forall|xx: int, k: int|
                0 <= xx < x && 0 <= k <= top ==> (#[trigger] table@[xx]@[k]) == dist(*cost, horizontal@, vertical@, top as int, xx, top - k),
        decreases width + 1 - x,
    {
        let mut column: Vec<u128> = Vec::new();
        let mut k: usize = 0;
        while k <= top
            invariant
                k <= top + 1,
                x <= width,
                width <= horizontal@.len(),
                top <= vertical@.len(),
                width <= i64::MAX,
                top <= i64::MAX,
                top + 1 <= usize::MAX,
                limit == width + top,
                limit * u64::MAX + u64::MAX <= u128::MAX,
                forall|e: M, a: i64| cost.requires((e, a)),
                single_valued(*cost),
                table@.len() == x,
                forall|xx: int| 0 <= xx < x ==> (#[trigger] table@[xx])@.len() == top + 1,
                forall|xx: int, kk: int|
                    0 <= xx < x && 0 <= kk <= top ==> (#[trigger] table@[xx]@[kk]) == dist(*cost, horizontal@, vertical@, top as int, xx, top - kk),
                column@.len() == k,
                forall|kk: int| 0 <= kk < k ==> (#[trigger] column@[kk]) == dist(*cost, horizontal@, vertical@, top as int, x as int, top - kk),
            decreases top + 1 - k,
        {
            let y: usize = top - k;
            proof {
                if x > 0 {
                    lemma_dist_bound(*cost, horizontal@, vertical@, top as int, x as int - 1, y as int);
                    assert((x as int - 1 + top - y) * u64::MAX <= limit * u64::MAX) by (nonlinear_arith)
                        requires
                            x as int - 1 + top - y <= limit,
                    ;
                }
                if k > 0 {
                    lemma_dist_bound(*cost, horizontal@, vertical@, top as int, x as int, y as int + 1);
                    assert((x as int + top - (y + 1)) * u64::MAX <= limit * u64::MAX) by (nonlinear_arith)
                        requires
                            x as int + top - (y + 1) <= limit,
                    ;
                }
            }
            let value: u128 = if k == 0 {
                if x == 0 {
                    0
                } else {
                    table[x - 1][0] + ask(cost, horizontal[x - 1], y) as u128
                }
            } else {
                let down: u128 = column[k - 1] + ask(cost, vertical[y], x) as u128;
                if x == 0 {
                    down
                } else {
                    let right: u128 = table[x - 1][k] + ask(cost, horizontal[x - 1], y) as u128;
                    if right <= down {
                        right
                    } else {
                        down
                    }
                }
            };
            column.push(value);
            k = k + 1;
        }
        table.push(column);
        x = x + 1;
    }
    table
}

/// The staircase of least cost from `(0, top)` to `(width, 0)` on the grid
/// of the two measurements, whatever kind of value they hold.
///
/// Returns for every column the height of the step right that the
/// staircase takes there, and for every row the column of its step down
/// through that row. Each result has the length of its measurement, so
/// that the fit can stand in its place: the grid may be narrower than the
/// first measurement is long, or lower than the second, and the columns
/// and rows beyond it get zero. Where stepping right and stepping down
/// reach a point at the same cost, the staircase comes by the step right.
pub fn fit_grid<M: Copy, F: Fn(M, i64) -> u64>(horizontal: &[M], vertical: &[M], width: usize, top: usize, cost: F) -> (fit: (Vec<usize>, Vec<usize>))
    requires
        width <= horizontal@.len(),
        top <= vertical@.len(),
        width <= i64::MAX,
        top <= i64::MAX,
        (width + 1) * (top + 1) <= usize::MAX,
        forall|e: M, a: i64| cost.requires((e, a)),
        single_valued(cost),
    ensures
        fit.0@.len() == horizontal@.len(),
        fit.1@.len() == vertical@.len(),
        forall|x: int| width <= x < horizontal@.len() ==> (#[trigger] fit.0@[x]) == 0,
        forall|y: int| top <= y < vertical@.len() ==> (#[trigger] fit.1@[y]) == 0,
        forall|x: int| 0 <= x < width ==> (#[trigger] fit.0@[x]) == fit_right(cost, horizontal@, vertical@, top as int, width as int, 0)[x],
        forall|y: int|
            0 <= y < top ==> (#[trigger] fit.1@[y]) == fit_down(cost, horizontal@, vertical@, top as int, width as int, 0)[top - 1 - y],
{
    let table = distances(horizontal, vertical, &cost, width, top);
    let mut result_h = zeros(horizontal.len());
    let mut result_v = zeros(vertical.len());
    let mut cx: usize = width;
    let mut cy: usize = 0;
    let ghost rights = fit_right(cost, horizontal@, vertical@, top as int, width as int, 0);
    let ghost downs = fit_down(cost, horizontal@, vertical@, top as int, width as int, 0);
    proof {
        lemma_fit_lengths(cost, horizontal@, vertical@, top as int, width as int, 0);
        assert(rights.subrange(0, cx as int) =~= rights);
        assert(downs.subrange(0, top - cy) =~= downs);
    }
    while !(cx == 0 && cy == top)
        invariant
            cx <= width,
            cy <= top,
            width <= horizontal@.len(),
            top <= vertical@.len(),
            width <= i64::MAX,
            top <= i64::MAX,
            forall|e: M, a: i64| cost.requires((e, a)),
            single_valued(cost),
            table@.len() == width + 1,
            forall|x: int| 0 <= x <= width ==> (#[trigger] table@[x])@.len() == top + 1,
            forall|x: int, k: int|
                0 <= x <= width && 0 <= k <= top ==> (#[trigger] table@[x]@[k]) == dist(cost, horizontal@, vertical@, top as int, x, top - k),
            rights == fit_right(cost, horizontal@, vertical@, top as int, width as int, 0),
            downs == fit_down(cost, horizontal@, vertical@, top as int, width as int, 0),
            rights.len() == width,
            downs.len() == top,
            result_h@.len() == horizontal@.len(),
            result_v@.len() == vertical@.len(),
            forall|x: int| width <= x < horizontal@.len() ==> (#[trigger] result_h@[x]) == 0,
            forall|y: int| top <= y < vertical@.len() ==> (#[trigger] result_v@[y]) == 0,
            rights.subrange(0, cx as int) == fit_right(cost, horizontal@, vertical@, top as int, cx as int, cy as int),
            downs.subrange(0, top - cy) == fit_down(cost, horizontal@, vertical@, top as int, cx as int, cy as int),
            forall|x: int| cx <= x < width ==> (#[trigger] result_h@[x]) == rights[x],
            forall|y: int| 0 <= y < cy ==> (#[trigger] result_v@[y]) == downs[top - 1 - y],
        decreases cx + (top - cy),
    {
        let ghost here_right = fit_right(cost, horizontal@, vertical@, top as int, cx as int, cy as int);
        let ghost here_down = fit_down(cost, horizontal@, vertical@, top as int, cx as int, cy as int);
        proof {
            lemma_fit_lengths(cost, horizontal@, vertical@, top as int, cx as int, cy as int);
            if cx > 0 {
                lemma_dist_bound(cost, horizontal@, vertical@, top as int, cx as int - 1, cy as int);
                lemma_fit_lengths(cost, horizontal@, vertical@, top as int, cx as int - 1, cy as int);
            }
            if cy < top {
                lemma_dist_bound(cost, horizontal@, vertical@, top as int, cx as int, cy as int + 1);
                lemma_fit_lengths(cost, horizontal@, vertical@, top as int, cx as int, cy as int + 1);
            }
        }
        let right: bool = if cx == 0 {
            false
        } else if cy == top {
            true
        } else {
            let d1: u128 = table[cx - 1][top - cy];
            let d2: u128 = table[cx][top - cy - 1];
            let c1: u64 = ask(&cost, horizontal[cx - 1], cy);
            let c2: u64 = ask(&cost, vertical[cy], cx);
            closer(d1, c1, d2, c2)
        };
        assert(right == by_right(cost, horizontal@, vertical@, top as int, cx as int, cy as int));
        if right {
            result_h.set(cx - 1, cy);
            proof {
                assert(rights[cx as int - 1] == rights.subrange(0, cx as int)[cx as int - 1]);
                assert(rights.subrange(0, cx as int - 1) =~= here_right.drop_last());
            }
            cx = cx - 1;
        } else {
            result_v.set(cy, cx);
            proof {
                assert(downs[top - cy - 1] == downs.subrange(0, top - cy)[top - cy - 1]);
                assert(downs.subrange(0, top - cy - 1) =~= here_down.drop_last());
            }
            cy = cy + 1;
        }
    }
    (result_h, result_v)
}

/// The staircase of least cost that reconciles two measurements of
/// counts. The grid is as wide as the largest count of `vertical` and as
/// high as the largest count of `horizontal`; see [`fit_grid`] for what is
/// returned.
pub fn fit_cdf_seq<F: Fn(i64, i64) -> u64>(horizontal: &[i64], vertical: &[i64], cost: F) -> (fit: (Vec<usize>, Vec<usize>))
    requires
        horizontal@.len() > 0,
        vertical@.len() > 0,
        largest(vertical@) <= horizontal@.len(),
        largest(horizontal@) <= vertical@.len(),
        (largest(vertical@) + 1) * (largest(horizontal@) + 1) <= usize::MAX,
        forall|e: i64, a: i64| cost.requires((e, a)),
        single_valued(cost),
    ensures
        fit.0@.len() == horizontal@.len(),
        fit.1@.len() == vertical@.len(),
        forall|x: int| largest(vertical@) <= x < horizontal@.len() ==> (#[trigger] fit.0@[x]) == 0,
        forall|y: int| largest(horizontal@) <= y < vertical@.len() ==> (#[trigger] fit.1@[y]) == 0,
        forall|x: int|
            0 <= x < largest(vertical@) ==> (#[trigger] fit.0@[x]) == fit_right(
                cost,
                horizontal@,
                vertical@,
                largest(horizontal@),
                largest(vertical@),
                0,
            )[x],
        forall|y: int|
            0 <= y < largest(horizontal@) ==> (#[trigger] fit.1@[y]) == fit_down(
                cost,
                horizontal@,
                vertical@,
                largest(horizontal@),
                largest(vertical@),
                0,
            )[largest(horizontal@) - 1 - y],
{
    proof {
        lemma_largest_bounds(horizontal@);
        lemma_largest_bounds(vertical@);
        assert(largest(vertical@) + largest(horizontal@) + 1 <= (largest(vertical@) + 1) * (largest(horizontal@) + 1)) by (nonlinear_arith)
            requires
                largest(vertical@) >= 0,
                largest(horizontal@) >= 0,
        ;
    }
    let width = largest_of(vertical);
    let top = largest_of(horizontal);
    fit_grid(horizontal, vertical, width, top, cost)
}

/// Whether `d1 + c1` is at most `d2 + c2`.
fn closer(d1: u128, c1: u64, d2: u128, c2: u64) -> (b: bool)
    ensures
        b == (d1 + c1 <= d2 + c2),
{
    if d1 <= d2 {
        let gap = d2 - d1;
        c1 as u128 <= gap || c1 as u128 - gap <= c2 as u128
    } else {
        let gap = d1 - d2;
        gap <= c2 as u128 && c1 as u128 <= c2 as u128 - gap
    }
}

/// The largest value is never below zero and is at most the largest weight.
pub proof fn lemma_largest_bounds(s: Seq<i64>)
    ensures
        0 <= largest(s) <= i64::MAX,
    decreases s.len(),
{
    if s.len() > 0 {
        lemma_largest_bounds(s.drop_last());
    }
}

/// The column at which a staircase of `moves` from `(0, top)` ends; a move
/// is a step right where it is `true` and a step down where it is `false`.
pub open spec fn end_x(moves: Seq<bool>) -> int
    decreases moves.len(),
{
    if moves.len() == 0 {
        0
    } else if moves.last() {
        end_x(moves.drop_last()) + 1
    } else {
        end_x(moves.drop_last())
    }
}

/// The row at which a staircase of `moves` from `(0, top)` ends.
pub open spec fn end_y(top: int, moves: Seq<bool>) -> int
    decreases moves.len(),
{
    if moves.len() == 0 {
        top
    } else if moves.last() {
        end_y(top, moves.drop_last())
    } else {
        end_y(top, moves.drop_last()) - 1
    }
}

/// The cost of the staircase of `moves` from `(0, top)`: the sum of the
/// costs of its steps.
pub open spec fn path_cost<M, F: Fn(M, i64) -> u64>(cost: F, horizontal: Seq<M>, vertical: Seq<M>, top: int, moves: Seq<bool>) -> int
    decreases moves.len(),
{
    if moves.len() == 0 {
        0
    } else {
        let before = moves.drop_last();
        path_cost(cost, horizontal, vertical, top, before) + if moves.last() {
            edge_right(cost, horizontal, end_x(before), end_y(top, before))
        } else {
            edge_down(cost, vertical, end_x(before), end_y(top, before))
        }
    }
}

/// The moves of the best staircase to `(x, y)`.
pub open spec fn best_path<M, F: Fn(M, i64) -> u64>(cost: F, horizontal: Seq<M>, vertical: Seq<M>, top: int, x: int, y: int) -> Seq<bool>
    decreases x + (top - y),
    when 0 <= x && 0 <= y <= top
{
    if x == 0 && y == top {
        Seq::empty()
    } else if by_right(cost, horizontal, vertical, top, x, y) {
        best_path(cost, horizontal, vertical, top, x - 1, y).push(true)
    } else {
        best_path(cost, horizontal, vertical, top, x, y + 1).push(false)
    }
}

/// No staircase to a point costs less than the least cost to it.
pub proof fn lemma_dist_is_least<M, F: Fn(M, i64) -> u64>(cost: F, horizontal: Seq<M>, vertical: Seq<M>, top: int, moves: Seq<bool>)
    requires
        0 <= end_y(top, moves),
    ensures
        0 <= end_x(moves),
        end_y(top, moves) <= top,
        dist(cost, horizontal, vertical, top, end_x(moves), end_y(top, moves)) <= path_cost(cost, horizontal, vertical, top, moves),
    decreases moves.len(),
{
    if moves.len() > 0 {
        let before = moves.drop_last();
        lemma_end_y_falls(top, before);
        lemma_dist_is_least(cost, horizontal, vertical, top, before);
    }
}

/// A staircase never ends above the row from which it starts.
proof fn lemma_end_y_falls(top: int, moves: Seq<bool>)
    ensures
        end_y(top, moves) <= top,
        0 <= end_x(moves),
    decreases moves.len(),
{
    if moves.len() > 0 {
        lemma_end_y_falls(top, moves.drop_last());
    }
}

/// The best staircase to a point ends there and costs the least cost to it.
pub proof fn lemma_best_path<M, F: Fn(M, i64) -> u64>(cost: F, horizontal: Seq<M>, vertical: Seq<M>, top: int, x: int, y: int)
    requires
        0 <= x,
        0 <= y <= top,
    ensures
        end_x(best_path(cost, horizontal, vertical, top, x, y)) == x,
        end_y(top, best_path(cost, horizontal, vertical, top, x, y)) == y,
        path_cost(cost, horizontal, vertical, top, best_path(cost, horizontal, vertical, top, x, y)) == dist(
            cost,
            horizontal,
            vertical,
            top,
            x,
            y,
        ),
    decreases x + (top - y),
{
    if x == 0 && y == top {
    } else if by_right(cost, horizontal, vertical, top, x, y) {
        let before = best_path(cost, horizontal, vertical, top, x - 1, y);
        lemma_best_path(cost, horizontal, vertical, top, x - 1, y);
        assert(before.push(true).drop_last() =~= before);
    } else {
        let before = best_path(cost, horizontal, vertical, top, x, y + 1);
        lemma_best_path(cost, horizontal, vertical, top, x, y + 1);
        assert(before.push(false).drop_last() =~= before);
    }
}

/// The cost of steps right at the heights `rights`, one in each column
/// from the first.
pub open spec fn cost_right<M, F: Fn(M, i64) -> u64>(cost: F, horizontal: Seq<M>, rights: Seq<int>) -> int
    decreases rights.len(),
{
    if rights.len() == 0 {
        0
    } else {
        cost_right(cost, horizontal, rights.drop_last()) + edge_right(cost, horizontal, rights.len() - 1, rights.last())
    }
}

/// The cost of steps down in the columns `downs`, one through each row
/// from the topmost.
pub open spec fn cost_down<M, F: Fn(M, i64) -> u64>(cost: F, vertical: Seq<M>, top: int, downs: Seq<int>) -> int
    decreases downs.len(),
{
    if downs.len() == 0 {
        0
    } else {
        cost_down(cost, vertical, top, downs.drop_last()) + edge_down(cost, vertical, downs.last(), top - (downs.len() - 1))
    }
}

/// The steps of the fit to a point cost, together, the least cost to it.
pub proof fn lemma_fit_cost<M, F: Fn(M, i64) -> u64>(cost: F, horizontal: Seq<M>, vertical: Seq<M>, top: int, x: int, y: int)
    requires
        0 <= x,
        0 <= y <= top,
    ensures
        cost_right(cost, horizontal, fit_right(cost, horizontal, vertical, top, x, y)) + cost_down(
            cost,
            vertical,
            top,
            fit_down(cost, horizontal, vertical, top, x, y),
        ) == dist(cost, horizontal, vertical, top, x, y),
    decreases x + (top - y),
{
    if x == 0 && y == top {
    } else if by_right(cost, horizontal, vertical, top, x, y) {
        let before = fit_right(cost, horizontal, vertical, top, x - 1, y);
        lemma_fit_cost(cost, horizontal, vertical, top, x - 1, y);
        lemma_fit_lengths(cost, horizontal, vertical, top, x - 1, y);
        assert(before.push(y).drop_last() =~= before);
    } else {
        let before = fit_down(cost, horizontal, vertical, top, x, y + 1);
        lemma_fit_cost(cost, horizontal, vertical, top, x, y + 1);
        lemma_fit_lengths(cost, horizontal, vertical, top, x, y + 1);
        assert(before.push(x).drop_last() =~= before);
    }
}

/// The fit is a staircase of least cost: its steps cost no more than the
/// steps of any staircase from `(0, top)` to `(width, 0)`.
pub proof fn lemma_fit_is_least<M, F: Fn(M, i64) -> u64>(cost: F, horizontal: Seq<M>, vertical: Seq<M>, top: int, width: int, moves: Seq<bool>)
    requires
        0 <= top,
        end_x(moves) == width,
        end_y(top, moves) == 0,
    ensures
        cost_right(cost, horizontal, fit_right(cost, horizontal, vertical, top, width, 0)) + cost_down(
            cost,
            vertical,
            top,
            fit_down(cost, horizontal, vertical, top, width, 0),
        ) <= path_cost(cost, horizontal, vertical, top, moves),
{
    lemma_dist_is_least(cost, horizontal, vertical, top, moves);
    lemma_fit_cost(cost, horizontal, vertical, top, width, 0);
}

} // verus!
