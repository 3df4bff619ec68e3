use std::cmp::Ordering;
use sunny_db::statistics::{Average, MinMaxOfSeries, SampleArith, TrapezoidalIntegral};
use sunny_db::timeseries::TimeSeries;

/// A one-field floating-point sample.
#[derive(Copy, Clone, PartialEq, Debug)]
struct Scalar(f64);

impl SampleArith for Scalar {
    fn plus(self, other: Self) -> Self {
        Scalar(self.0 + other.0)
    }

    fn minus(self, other: Self) -> Self {
        Scalar(self.0 - other.0)
    }

    fn scale_ms(self, span_ms: u64) -> Self {
        Scalar(self.0 * (span_ms as f64))
    }

    fn half(self) -> Self {
        Scalar(self.0 * 0.5)
    }

    fn div_ms(self, span_ms: u64) -> Self {
        Scalar(self.0 / (span_ms as f64))
    }
}

fn cmp_scalar(a: &Scalar, b: &Scalar) -> Ordering {
    a.0.partial_cmp(&b.0).unwrap()
}

fn f_nl(x: f64) -> f64 {
    2.0 * x - x * x
}

fn f_nl_integrated(x: f64) -> f64 {
    x * x - x * x * x / 3.0
}

#[test]
fn test_statistics() {
    let times: Vec<u64> = vec![0, 10, 20, 30, 40];

    // simplest case: linear with slope 1
    let mut ts = TimeSeries::<Scalar>::new(10);
    for i in 0..times.len() {
        ts.insert_value_at_time(times[i], Scalar(i as f64));
    }
    let integral = ts.integrate().unwrap();
    assert_eq!(
        integral.0,
        ((times[times.len() - 1] - times[0]) as f64)
            * ts.get_current_values().last().unwrap().1.0
            * 0.5
    );

    let m = ts.max_by(cmp_scalar).unwrap();
    assert_eq!(m.0, (times.len() - 1) as f64);

    // linear with slope != 1 and offset != 0
    let times: Vec<u64> = (2..100).collect();
    let mut ts = TimeSeries::<Scalar>::new(times.len());
    let k = 0.23;
    for i in 0..times.len() {
        ts.insert_value_at_time(times[i], Scalar(k * times[i] as f64));
    }

    let integral = ts.integrate().unwrap();
    let d = integral.0
        - ((ts.get_current_values().last().unwrap().1.0
            + ts.get_current_values().first().unwrap().1.0)
            * ((times[times.len() - 1] - times[0]) as f64))
            / 2.0;
    let d_abs = if d < 0.0 { -d } else { d };
    assert!(d_abs < 0.0001);

    // non-linear case with offset == 0
    let times: Vec<u64> = (0..100).collect();

    let mut ts = TimeSeries::<Scalar>::new(times.len());
    for i in 0..times.len() {
        ts.insert_value_at_time(times[i], Scalar(f_nl(times[i] as f64)));
    }

    let integral = ts.integrate().unwrap();
    let definite_integral =
        f_nl_integrated(times[times.len() - 1] as f64) - f_nl_integrated(times[0] as f64);

    // difference, but normalized to the total value since that's pretty
    // large and the approximation may not be that good
    let d = (integral.0 - definite_integral) / integral.0;
    let d_abs = if d < 0.0 { -d } else { d };
    assert!(d_abs < 0.0001);

    assert_eq!(ts.max_by(cmp_scalar).unwrap().0, 1.0);

    assert_eq!(
        ts.min_by(cmp_scalar).unwrap(),
        ts.get_current_values().last().unwrap().1
    );

    // test the average
    let avg1 = ts.average().unwrap();
    let avg2 = integral.0 / (times[times.len() - 1] - times[0]) as f64;
    let d = avg1.0 - avg2;
    let d_abs = if d < 0.0 { -d } else { d };
    assert!(d_abs < 0.0001);
}

#[test]
fn integrate_needs_two_entries() {
    let mut ts = TimeSeries::<Scalar>::new(4);
    assert!(ts.integrate().is_none());
    assert!(ts.average().is_none());
    ts.insert_value_at_time(100, Scalar(5.0));
    assert!(ts.integrate().is_none());
    assert!(ts.average().is_none());
    ts.insert_value_at_time(200, Scalar(5.0));
    // constant 5.0 over 100 ms: the trapezoid gives 500.0 exactly
    assert_eq!(ts.integrate().unwrap().0, 500.0);
    assert_eq!(ts.average().unwrap().0, 5.0);
}

#[test]
fn extrema_of_empty_series() {
    let ts = TimeSeries::<Scalar>::empty();
    assert!(ts.max_by(cmp_scalar).is_none());
    assert!(ts.min_by(cmp_scalar).is_none());
}

#[test]
fn min_max_pick_among_values() {
    let mut ts = TimeSeries::<Scalar>::new(4);
    ts.insert_value_at_time(1, Scalar(3.0));
    ts.insert_value_at_time(2, Scalar(-1.5));
    ts.insert_value_at_time(3, Scalar(7.25));
    ts.insert_value_at_time(4, Scalar(0.0));
    assert_eq!(ts.max_by(cmp_scalar).unwrap().0, 7.25);
    assert_eq!(ts.min_by(cmp_scalar).unwrap().0, -1.5);
}
