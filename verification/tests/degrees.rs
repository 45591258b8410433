use wpinq::analyses::degrees::{fit_cdf_seq, fit_grid};

fn distance(x: i64, y: i64) -> u64 {
    x.abs_diff(y)
}

#[test]
fn test_fit1() {
    let h = vec![10, 4, 2, 1, 1];
    let v = vec![5, 3, 2, 2, 1, 1, 1, 1, 1, 1];

    let hi = h.iter().map(|&x| x as i64).collect::<Vec<_>>();
    let vi = v.iter().map(|&x| x as i64).collect::<Vec<_>>();

    let (hn, vn) = fit_cdf_seq(&hi[..], &vi[..], distance);

    assert_eq!(h, hn);
    assert_eq!(v, vn);
}

#[test]
fn fit_of_singletons() {
    let (h, v) = fit_cdf_seq(&[0], &[0], distance);
    assert_eq!(h, vec![0]);
    assert_eq!(v, vec![0]);
}

#[test]
fn fit_repairs_a_disturbed_measurement() {
    // the exact pair is ([3, 1, 1], [3, 1, 1]); one count of each is off by one
    let (h, v) = fit_cdf_seq(&[3, 2, 1], &[3, 1, 0], |x: i64, y: i64| x.abs_diff(y) * x.abs_diff(y));
    assert_eq!(h.len(), 3);
    assert_eq!(v.len(), 3);
    // a staircase: heights fall along the columns, columns fall along the rows
    assert!(h.windows(2).all(|w| w[0] >= w[1]));
    assert!(v.windows(2).all(|w| w[0] >= w[1]));
    // each is the transpose of the other
    for (y, &x) in v.iter().enumerate() {
        assert_eq!(h.iter().filter(|&&height| height > y).count(), x);
    }
    let cost: u64 = h.iter().zip([3i64, 2, 1]).map(|(&a, e)| e.abs_diff(a as i64).pow(2)).sum::<u64>()
        + v.iter().zip([3i64, 1, 0]).map(|(&a, e)| e.abs_diff(a as i64).pow(2)).sum::<u64>();
    assert_eq!(cost, 2);
}

#[test]
fn fit_prefers_the_step_right_on_ties() {
    // every staircase on this grid costs nothing
    let (h, v) = fit_cdf_seq(&[1], &[1], |_x: i64, _y: i64| 0);
    assert_eq!(h, vec![0]);
    assert_eq!(v, vec![0]);
}

#[test]
fn fit_pads_beyond_the_grid_with_zero() {
    let (h, v) = fit_cdf_seq(&[2, 1, 0, 0], &[2, 1, 0], distance);
    assert_eq!(h, vec![2, 1, 0, 0]);
    assert_eq!(v, vec![2, 1, 0]);
}

#[test]
fn fit_of_measurements_that_are_not_counts() {
    // halves as measurements, with the grid laid out by the caller
    let h = [2.5f64, 1.5, 0.5];
    let v = [2.5f64, 1.5, 0.5];
    let cost = |expected: f64, actual: i64| ((expected - actual as f64).abs() * 4.0).round() as u64;
    let (hn, vn) = fit_grid(&h, &v, 3, 3, cost);
    assert_eq!(hn.len(), 3);
    assert_eq!(vn.len(), 3);
    let paid: u64 = hn.iter().zip(h).map(|(&a, e)| cost(e, a as i64)).sum::<u64>() + vn.iter().zip(v).map(|(&a, e)| cost(e, a as i64)).sum::<u64>();
    assert_eq!(paid, 12);
    assert!(hn.windows(2).all(|w| w[0] >= w[1]));
    for (y, &x) in vn.iter().enumerate() {
        assert_eq!(hn.iter().filter(|&&height| height > y).count(), x);
    }
}
