use std::hash::Hasher;
use wpinq::dataset::{negate, Dataset};
use wpinq::fingerprint::fnv_hash;
use wpinq::merge_sort::{consolidate, MergeSorter};
use wpinq::noise::{laplace, sign};
use wpinq::operators::flat_map::{divide, flat_map};
use wpinq::operators::join::{join, join_helper, JoinState};
use wpinq::operators::measure::{Measurement, MeasurementState};
use wpinq::operators::min_max::{min_max, MinMaxState};
use wpinq::operators::shave::{floor_div_rem, shave, ShaveState};

#[test]
fn shave_twenty_five_by_ten() {
    let mut state = ShaveState::new();
    let up = state.update(7, 25, 10);
    assert_eq!(up, vec![((7, 0), 10), ((7, 1), 10), ((7, 2), 5)]);
    let down = state.update(7, -25, 10);
    assert_eq!(down, vec![((7, 2), -5), ((7, 1), -10), ((7, 0), -10)]);
    let again = state.update(7, 3, 10);
    assert_eq!(again, vec![((7, 0), 3)]);
}

#[test]
fn shave_whole_cells() {
    let mut state = ShaveState::new();
    let slices = state.update(1, 40, 10);
    assert_eq!(slices, vec![((1, 0), 10), ((1, 1), 10), ((1, 2), 10), ((1, 3), 10)]);
}

#[test]
fn shave_conserves_weight() {
    let mut state = ShaveState::new();
    let mut sum = 0;
    for delta in [17i64, -4, 30, -43, 9] {
        let slices = state.update(3, delta, 7);
        let part: i64 = slices.iter().map(|s| s.1).sum();
        assert_eq!(part, delta);
        for s in slices.iter() {
            if delta > 0 {
                assert!(0 < s.1 && s.1 <= 7);
            } else {
                assert!(-7 <= s.1 && s.1 < 0);
            }
        }
        sum += part;
    }
    assert_eq!(sum, 9);
}

#[test]
fn shave_below_zero_rounds_down() {
    let mut state = ShaveState::new();
    let slices = state.update(5, -13, 10);
    assert_eq!(slices, vec![((5, -1), -10), ((5, -2), -3)]);
    let back = state.update(5, 13, 10);
    assert_eq!(back, vec![((5, -2), 3), ((5, -1), 10)]);
}

#[test]
fn shave_keeps_records_apart() {
    let mut state = ShaveState::new();
    assert_eq!(state.update(1, 12, 10), vec![((1, 0), 10), ((1, 1), 2)]);
    assert_eq!(state.update(2, 5, 10), vec![((2, 0), 5)]);
    assert_eq!(state.update(1, 1, 10), vec![((1, 1), 1)]);
}

#[test]
fn floor_division_of_negatives() {
    assert_eq!(floor_div_rem(-1, 10), (-1, 9));
    assert_eq!(floor_div_rem(-10, 10), (-1, 0));
    assert_eq!(floor_div_rem(-11, 10), (-2, 9));
    assert_eq!(floor_div_rem(25, 10), (2, 5));
    assert_eq!(floor_div_rem(0, 3), (0, 0));
    assert_eq!(floor_div_rem(i64::MIN, 1), (i64::MIN, 0));
}

#[test]
fn join_normalisation() {
    let mut out = Vec::new();
    join_helper(&[(1, 3)], &[(2, 5)], &mut out);
    assert_eq!(out, vec![((1, 2), 1)]);
}

#[test]
fn join_with_empty_second_side() {
    let mut out = Vec::new();
    join_helper(&[(1, 3), (4, -2)], &[], &mut out);
    assert!(out.is_empty());
    let mut state = JoinState::new();
    assert!(state.update_first(9, 1, 3).is_empty());
    assert!(state.update_first(9, 4, -2).is_empty());
}

#[test]
fn join_rounds_toward_zero() {
    let mut out = Vec::new();
    join_helper(&[(1, -1), (2, -1)], &[(3, 1)], &mut out);
    assert_eq!(out, vec![((1, 3), 0), ((2, 3), 0)]);
    let mut out = Vec::new();
    join_helper(&[(1, -4)], &[(3, 4)], &mut out);
    assert_eq!(out, vec![((1, 3), -2)]);
    let mut out = Vec::new();
    join_helper(&[(1, -5)], &[(3, 3)], &mut out);
    assert_eq!(out, vec![((1, 3), -1)]);
}

#[test]
fn join_mass_is_bounded_by_either_side() {
    let l1 = [(1u64, 7i64), (2, -3), (5, 11)];
    let l2 = [(1u64, 2i64), (9, 6)];
    let mut out = Vec::new();
    join_helper(&l1, &l2, &mut out);
    let a: i64 = l1.iter().map(|x| x.1.abs()).sum();
    let b: i64 = l2.iter().map(|x| x.1.abs()).sum();
    let m: i64 = out.iter().map(|x| x.1.abs()).sum();
    assert!(m <= a.min(b));
    assert_eq!(out, vec![((1, 1), 0), ((1, 9), 1), ((2, 1), 0), ((2, 9), 0), ((5, 1), 0), ((5, 9), 2)]);
}

#[test]
fn join_updates_emit_differences() {
    let mut state = JoinState::new();
    assert!(state.update_first(1, 10, 3).is_empty());
    let out = state.update_second(1, 20, 5);
    assert_eq!(out, vec![((10, 20), 1)]);
    let out = state.update_second(1, 20, 4);
    // weights 3 and 9, mass 12: 27 / 12 = 2, up from 1
    assert_eq!(out, vec![((10, 20), 1)]);
    let out = state.update_first(1, 10, -3);
    assert_eq!(out, vec![((10, 20), -2)]);
    let out = state.update_first(2, 10, 3);
    assert!(out.is_empty());
}

#[test]
fn min_max_convergence() {
    let mut state = MinMaxState::new();
    assert_eq!(state.update_first(4, 3), (None, Some(3)));
    assert_eq!(state.update_second(4, 5), (Some(3), Some(2)));
}

#[test]
fn min_max_changes_add_up() {
    let mut state = MinMaxState::new();
    let mut min_sum = 0;
    let mut max_sum = 0;
    let mut first = 0;
    let mut second = 0;
    let updates = [(true, 5i64), (false, 8), (true, -9), (false, -8), (true, 4), (false, 0)];
    for (side, delta) in updates {
        let (lo, hi) = if side {
            first += delta;
            state.update_first(1, delta)
        } else {
            second += delta;
            state.update_second(1, delta)
        };
        assert_ne!(lo, Some(0));
        assert_ne!(hi, Some(0));
        min_sum += lo.unwrap_or(0);
        max_sum += hi.unwrap_or(0);
        assert_eq!(min_sum, first.min(second));
        assert_eq!(max_sum, first.max(second));
    }
    assert_eq!(min_sum + max_sum, first + second);
}

#[test]
fn measurement_error() {
    let mut state = MeasurementState::new();
    let mut total = 0i64;
    state.update_truth(1, 100, 7, &mut total);
    assert_eq!(total, 107);
    assert_eq!(state.observe(1, 999), 107);
    assert_eq!(total, 107);
    state.update_synth(1, 107, 999, &mut total);
    assert_eq!(total, 0);
    state.update_synth(1, -107, 999, &mut total);
    assert_eq!(total, 107);
}

#[test]
fn observation_is_idempotent() {
    let mut measurement = Measurement { shared: MeasurementState::new() };
    let mut total = 0i64;
    let first = measurement.observe(3, -12);
    assert_eq!(first, -12);
    let second = measurement.observe(3, 40);
    assert_eq!(second, -12);
    measurement.shared.update_synth(3, 5, 0, &mut total);
    assert_eq!(measurement.observe(3, 1), -12);
    assert_eq!(total, 17);
    measurement.shared.update_truth(3, 2, 0, &mut total);
    assert_eq!(measurement.observe(3, 1), -10);
    assert_eq!(total, 15);
}

#[test]
fn observation_leaves_the_error_alone() {
    let mut state = MeasurementState::new();
    let mut total = 0i64;
    state.update_truth(1, 10, 3, &mut total);
    assert_eq!(total, 13);
    assert_eq!(state.observe(2, 7), 7);
    assert_eq!(state.observe(1, 99), 13);
    let seen = state.get(2).unwrap();
    assert_eq!((seen.truth, seen.synth, seen.noise, seen.counted), (0, 0, 7, false));
    // the first update to reach the observed record brings in all of its error
    state.update_synth(2, 4, 99, &mut total);
    assert_eq!(total, 13 + 3);
    assert!(state.get(2).unwrap().counted);
    state.update_synth(2, 3, 99, &mut total);
    assert_eq!(total, 13);
    assert_eq!(state.observe(2, 99), 7);
}

#[test]
fn error_is_zero_when_synth_matches() {
    let mut state = MeasurementState::new();
    let mut total = 0i64;
    state.update_truth(1, 10, 3, &mut total);
    state.update_truth(2, -4, -1, &mut total);
    state.update_synth(1, 13, 0, &mut total);
    state.update_synth(2, -5, 0, &mut total);
    assert_eq!(total, 0);
}

#[test]
fn two_measurements_share_a_total() {
    let mut one = MeasurementState::new();
    let mut two = MeasurementState::new();
    let mut total = 0i64;
    one.update_truth(1, 10, 1, &mut total);
    two.update_synth(1, 4, -2, &mut total);
    assert_eq!(total, 11 + 6);
}

#[test]
fn flat_map_one_to_three() {
    let out = flat_map(vec![(1u64, 10i64)], &|d: u64| vec![d + 1, d + 2, d + 3]);
    assert_eq!(out, vec![(2, 3), (3, 3), (4, 3)]);
    let sum: i64 = out.iter().map(|x| x.1).sum();
    assert_eq!(sum, 9);
}

#[test]
fn flat_map_without_results() {
    let out = flat_map(vec![(1u64, 10i64), (2, 4)], &|d: u64| if d == 1 { Vec::<u64>::new() } else { vec![d, d] });
    assert_eq!(out, vec![(2, 2), (2, 2)]);
    assert!(divide(Vec::<u8>::new(), 5).is_empty());
}

#[test]
fn divide_rounds_toward_zero() {
    assert_eq!(divide(vec!['a', 'b', 'c'], -10), vec![('a', -3), ('b', -3), ('c', -3)]);
    assert_eq!(divide(vec![0u8], i64::MIN), vec![(0u8, i64::MIN)]);
    assert_eq!(divide(vec![0u8, 1], i64::MIN), vec![(0u8, i64::MIN / 2), (1, i64::MIN / 2)]);
    assert_eq!(divide(vec![0u8, 1], 1), vec![(0u8, 0), (1, 0)]);
}

#[test]
fn negate_turns_weights() {
    assert_eq!(negate(vec![(1u8, 3i64), (2, -4), (3, 0)]), vec![(1u8, -3i64), (2, 4), (3, 0)]);
}

#[test]
fn filter_twice_is_filter_once() {
    let data = Dataset::from(vec![(1u64, 2i64), (2, 3), (3, -1), (4, 5)], vec![(2u64, 1i64), (5, 1)]);
    let once = data.filter(|d: &u64| *d % 2 == 0);
    assert_eq!(once.truth, vec![(2, 3), (4, 5)]);
    assert_eq!(once.synth, vec![(2, 1)]);
    let twice = once.filter(|d: &u64| *d % 2 == 0);
    assert_eq!(twice.truth, vec![(2, 3), (4, 5)]);
    assert_eq!(twice.synth, vec![(2, 1)]);
}

#[test]
fn map_composes() {
    let a = Dataset::from(vec![(1u64, 2i64), (2, 3)], vec![(7u64, -1i64)]);
    let b = Dataset::from(vec![(1u64, 2i64), (2, 3)], vec![(7u64, -1i64)]);
    let stepwise = a.map(|d: u64| d + 1).map(|d: u64| d * 10);
    let direct = b.map(|d: u64| (d + 1) * 10);
    assert_eq!(stepwise.truth, vec![(20, 2), (30, 3)]);
    assert_eq!(stepwise.truth, direct.truth);
    assert_eq!(stepwise.synth, direct.synth);
}

#[test]
fn concat_and_except() {
    let a = || Dataset::from(vec![(1u64, 2i64)], vec![(9u64, 1i64)]);
    let b = || Dataset::from(vec![(1u64, 5i64), (2, -1)], Vec::new());
    let left = a().concat(a().except(b()));
    let right = a().concat(a()).except(b());
    assert_eq!(left.truth, vec![(1, 2), (1, 2), (1, -5), (2, 1)]);
    assert_eq!(left.truth, right.truth);
    assert_eq!(left.synth, right.synth);
}

#[test]
fn shave_drains_a_sorter_in_order() {
    let mut sorter = MergeSorter::new();
    sorter.push(&mut vec![(9u64, 12i64), (2, 3)]);
    sorter.push(&mut vec![(9u64, -1i64), (4, 5), (4, -5)]);
    let mut state = ShaveState::new();
    let out = state.drain(&mut sorter, 10);
    assert_eq!(out, vec![((2, 0), 3), ((9, 0), 10), ((9, 1), 1)]);
    assert_eq!(state.get(9), 11);
    assert_eq!(state.get(2), 3);
    assert_eq!(state.get(4), 0);
    let again = state.drain(&mut sorter, 10);
    assert!(again.is_empty());
}

#[test]
fn shave_of_a_collection() {
    let out = shave(vec![(1u64, 7i64), (3, 25), (1, -7), (2, -4)], 10);
    assert_eq!(out, vec![((2, -1), -4), ((3, 0), 10), ((3, 1), 10), ((3, 2), 5)]);
    let data = Dataset::from(vec![(1u64, 25i64)], vec![(1u64, 5i64), (1, 5)]);
    let shaved = data.shave(10);
    assert_eq!(shaved.truth, vec![((1, 0), 10), ((1, 1), 10), ((1, 2), 5)]);
    assert_eq!(shaved.synth, vec![((1, 0), 10)]);
}

#[test]
fn min_max_of_batches() {
    let mut state = MinMaxState::new();
    let (mins, maxs) = state.update_first_batch(&vec![(1, 3), (2, -2), (1, 1)]);
    assert_eq!(mins, vec![(2, -2)]);
    assert_eq!(maxs, vec![(1, 3), (1, 1)]);
    let (mins, maxs) = state.update_second_batch(&vec![(1, 5), (2, -3), (3, 0)]);
    assert_eq!(mins, vec![(1, 4), (2, -1)]);
    assert_eq!(maxs, vec![(1, 1), (2, -2)]);
    assert_eq!(state.get(1), (4, 5));
    assert_eq!(state.get(2), (-2, -3));
    assert_eq!(state.get(3), (0, 0));
}

#[test]
fn min_max_of_collections() {
    let (mins, maxs) = min_max(&vec![(1, 3), (2, 4)], &vec![(1, 5), (3, 2), (2, -1)]);
    let weight = |batch: &Vec<(u64, i64)>, d: u64| -> i64 { batch.iter().filter(|x| x.0 == d).map(|x| x.1).sum() };
    assert_eq!(weight(&mins, 1), 3);
    assert_eq!(weight(&maxs, 1), 5);
    assert_eq!(weight(&mins, 2), -1);
    assert_eq!(weight(&maxs, 2), 4);
    assert_eq!(weight(&mins, 3), 0);
    assert_eq!(weight(&maxs, 3), 2);
    let a = Dataset::from(vec![(1u64, 3i64)], vec![(1u64, 1i64)]);
    let b = Dataset::from(vec![(1u64, 5i64)], Vec::new());
    let (lo, hi) = a.min_max(b);
    assert_eq!(lo.truth, vec![(1, 3)]);
    assert_eq!(hi.truth, vec![(1, 3), (1, 2)]);
    assert!(lo.synth.is_empty());
    assert_eq!(hi.synth, vec![(1, 1)]);
}

#[test]
fn dataset_flat_map_divides_weights() {
    let data = Dataset::from(vec![(1u64, 10i64)], vec![(2u64, -7i64)]);
    let out = data.flat_map(|d: u64| vec![d, d + 10, d + 20]);
    assert_eq!(out.truth, vec![(1, 3), (11, 3), (21, 3)]);
    assert_eq!(out.synth, vec![(2, -2), (12, -2), (22, -2)]);
}

#[test]
fn join_reports_the_mass_of_a_key() {
    let mut state = JoinState::new();
    assert_eq!(state.mass_of_key(1), 0);
    state.update_first(1, 10, 3);
    state.update_second(1, 20, -5);
    state.update_first(1, 11, 2);
    state.update_first(2, 10, 40);
    assert_eq!(state.mass_of_key(1), 10);
    assert_eq!(state.mass_of_key(2), 40);
}

#[test]
fn measurement_state_can_be_read() {
    let mut state = MeasurementState::new();
    let mut total = 0i64;
    assert!(state.get(1).is_none());
    state.update_synth(1, 4, -3, &mut total);
    let held = state.get(1).unwrap();
    assert_eq!((held.datum, held.synth, held.truth, held.noise, held.counted), (1, 4, 0, -3, true));
    assert_eq!(total, 7);
    assert!(state.get(2).is_none());
}

#[test]
fn fingerprint_is_fnv_of_the_low_bytes_first() {
    assert_eq!(fnv_hash(0), 0xa8c7f832281a39c5);
    assert_eq!(fnv_hash(1), 0x89cd31291d2aefa4);
    let mut hasher = fnv::FnvHasher::default();
    hasher.write(&0x0102030405060708u64.to_le_bytes());
    assert_eq!(fnv_hash(0x0102030405060708), hasher.finish());
    assert_ne!(fnv_hash(7), 7);
}

#[test]
fn noise_keeps_its_magnitude() {
    assert_eq!(sign(12, true), 12);
    assert_eq!(sign(12, false), -12);
    assert_eq!(sign(-5, false), 5);
    let mut seen_plus = false;
    let mut seen_minus = false;
    for _ in 0..200 {
        let noise = laplace(-1000);
        assert!(noise == 1000 || noise == -1000);
        seen_plus |= noise == 1000;
        seen_minus |= noise == -1000;
    }
    assert!(seen_plus && seen_minus);
    assert_eq!(laplace(0), 0);
}

#[test]
fn join_of_batches() {
    let mut state = JoinState::new();
    let out = state.update_first_batch(&vec![((1, 10), 3), ((2, 10), 4)]);
    assert!(out.is_empty());
    let out = state.update_second_batch(&vec![((1, 20), 5), ((3, 20), 1), ((1, 20), 4)]);
    assert_eq!(out, vec![((1, (10, 20)), 1), ((1, (10, 20)), 1)]);
    let out = state.update_first_batch(&vec![((1, 10), -3)]);
    assert_eq!(out, vec![((1, (10, 20)), -2)]);
}

#[test]
fn join_of_collections() {
    let a = vec![((1u64, 10u64), 3i64), ((2, 10), 6), ((2, 11), 6)];
    let b = vec![((1u64, 20u64), 5i64), ((2, 20), 12), ((3, 20), 1)];
    let out = join(&a, &b);
    let weight = |k: u64, p: (u64, u64)| -> i64 { out.iter().filter(|x| x.0 == (k, p)).map(|x| x.1).sum() };
    assert_eq!(weight(1, (10, 20)), 1);
    assert_eq!(weight(2, (10, 20)), 3);
    assert_eq!(weight(2, (11, 20)), 3);
    assert_eq!(weight(3, (10, 20)), 0);
    let total: i64 = out.iter().map(|x| x.1).sum();
    assert_eq!(total, 7);
    let data = Dataset::from(a, Vec::new()).join(Dataset::from(b, vec![((1, 1), 1)]));
    let joined: i64 = data.truth.iter().map(|x| x.1).sum();
    assert_eq!(joined, 7);
    assert!(data.synth.is_empty());
}

#[test]
fn stateless_operators_do_not_add_mass() {
    let mass = |batch: &Vec<(u64, i64)>| -> i64 { batch.iter().map(|x| x.1.abs()).sum() };
    let change = vec![(1u64, 4i64), (2, -3), (3, 2), (2, 3)];
    let base = vec![(1u64, 10i64), (5, 1)];
    let with_change: Vec<(u64, i64)> = base.iter().chain(change.iter()).cloned().collect();

    let mapped = Dataset::from(with_change.clone(), Vec::new()).map(|d: u64| d / 2).truth;
    let mapped_base = Dataset::from(base.clone(), Vec::new()).map(|d: u64| d / 2).truth;
    let mapped_change = Dataset::from(change.clone(), Vec::new()).map(|d: u64| d / 2).truth;
    assert_eq!(mapped, [mapped_base, mapped_change.clone()].concat());
    assert_eq!(mass(&mapped_change), 12);

    let kept = Dataset::from(with_change.clone(), Vec::new()).filter(|d: &u64| *d != 2).truth;
    let kept_base = Dataset::from(base.clone(), Vec::new()).filter(|d: &u64| *d != 2).truth;
    let kept_change = Dataset::from(change.clone(), Vec::new()).filter(|d: &u64| *d != 2).truth;
    assert_eq!(kept, [kept_base, kept_change.clone()].concat());
    assert_eq!(mass(&kept_change), 6);

    assert_eq!(mass(&negate(change.clone())), 12);
    let spread = flat_map(change.clone(), &|d: u64| vec![d, d + 1, d + 2]);
    assert_eq!(mass(&spread), 3 + 3 + 0 + 3);
    assert!(mass(&spread) <= 12);
    let sliced: i64 = shave(change, 3).iter().map(|x| x.1.abs()).sum();
    assert_eq!(sliced, 6);
}

#[test]
fn shave_fills_the_cells_from_below() {
    let mut state = ShaveState::new();
    let mut cells = [0i64; 5];
    let mut weight = 0i64;
    for delta in [25i64, -18, 31, -38, 14] {
        for ((_, index), change) in state.update(9, delta, 10) {
            cells[index as usize] += change;
        }
        weight += delta;
        for (index, cell) in cells.iter().enumerate() {
            assert_eq!(*cell, (weight - 10 * index as i64).clamp(0, 10));
        }
    }
    assert_eq!(cells, [10, 4, 0, 0, 0]);
}

#[test]
fn images_are_no_further_apart_than_their_collections() {
    let size = |batch: &Vec<(u64, i64)>| -> i64 {
        let mut list = batch.clone();
        consolidate(&mut list);
        list.iter().map(|x| x.1.abs()).sum()
    };
    let distance = |x: &Vec<(u64, i64)>, y: &Vec<(u64, i64)>| -> i64 { size(&[x.clone(), negate(y.clone())].concat()) };
    let x = vec![(1u64, 3i64), (2, -3), (3, 5), (4, 1)];
    let y = vec![(3u64, 2i64), (4, 1), (6, 2)];
    assert_eq!(distance(&x, &y), 3 + 3 + 3 + 0 + 2);

    let image = |b: &Vec<(u64, i64)>| Dataset::from(b.clone(), Vec::new()).map(|d: u64| d / 3).truth;
    // the records 1 and 2 fall together and cancel
    assert_eq!(distance(&image(&x), &image(&y)), 0 + 3 + 2);
    assert!(distance(&image(&x), &image(&y)) <= distance(&x, &y));

    let kept = |b: &Vec<(u64, i64)>| Dataset::from(b.clone(), Vec::new()).filter(|d: &u64| *d >= 3).truth;
    assert_eq!(distance(&kept(&x), &kept(&y)), 3 + 0 + 2);

    let other = vec![(1u64, 7i64), (6, -2)];
    let sum = |b: &Vec<(u64, i64)>| Dataset::from(b.clone(), Vec::new()).concat(Dataset::from(other.clone(), Vec::new())).truth;
    let rest = |b: &Vec<(u64, i64)>| Dataset::from(other.clone(), Vec::new()).except(Dataset::from(b.clone(), Vec::new())).truth;
    assert_eq!(distance(&sum(&x), &sum(&y)), 11);
    assert_eq!(distance(&rest(&x), &rest(&y)), 11);
}
