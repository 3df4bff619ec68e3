//! Statistics over a time series: trapezoidal integration, averaging, and
//! extrema under a caller-supplied comparator.

use vstd::prelude::*;
use std::cmp::Ordering;
use crate::timeseries::TimeSeries;

verus! {

/// The arithmetic a sample type must offer to be integrated or averaged:
/// addition, subtraction, and scaling by a time span in milliseconds.  The
/// spec-level operations name whatever the implementor computes; the
/// executable methods must return exactly that.
pub trait SampleArith: Sized + Copy {
    /// The sum of two samples.
    open spec fn spec_plus(self, other: Self) -> Self {
        vstd::pervasive::arbitrary()
    }

    /// The difference of two samples.
    open spec fn spec_minus(self, other: Self) -> Self {
        vstd::pervasive::arbitrary()
    }

    /// The sample scaled by a millisecond span.
    open spec fn spec_scale_ms(self, span_ms: u64) -> Self {
        vstd::pervasive::arbitrary()
    }

    /// Half of the sample.
    open spec fn spec_half(self) -> Self {
        vstd::pervasive::arbitrary()
    }

    /// The sample divided by a millisecond span.
    open spec fn spec_div_ms(self, span_ms: u64) -> Self {
        vstd::pervasive::arbitrary()
    }

    fn plus(self, other: Self) -> (r: Self)
        ensures
            r == self.spec_plus(other),
    ;

    fn minus(self, other: Self) -> (r: Self)
        ensures
            r == self.spec_minus(other),
    ;

    fn scale_ms(self, span_ms: u64) -> (r: Self)
        ensures
            r == self.spec_scale_ms(span_ms),
    ;

    fn half(self) -> (r: Self)
        ensures
            r == self.spec_half(),
    ;

    fn div_ms(self, span_ms: u64) -> (r: Self)
        ensures
            r == self.spec_div_ms(span_ms),
    ;
}

/// One trapezoid: the sum of two adjacent samples, scaled by the time span
/// between them.
pub open spec fn spec_trapezoid_term<T: SampleArith>(a: (u64, T), b: (u64, T)) -> T {
    (b.1.spec_plus(a.1)).spec_scale_ms((b.0 - a.0) as u64)
}

/// The left-to-right sum of all trapezoid terms of a series of at least two
/// entries (not yet halved).
pub open spec fn spec_trapezoid_sum<T: SampleArith>(s: Seq<(u64, T)>) -> T
    recommends
        s.len() >= 2,
    decreases s.len(),
{
    if s.len() <= 2 {
        spec_trapezoid_term(s[0], s[1])
    } else {
        spec_trapezoid_sum(s.drop_last()).spec_plus(
            spec_trapezoid_term(s[s.len() - 2], s[s.len() - 1]),
        )
    }
}

/// The composite trapezoidal integral of a series: half the summed terms,
/// or `None` for a series of fewer than two entries.
pub open spec fn spec_integral<T: SampleArith>(s: Seq<(u64, T)>) -> Option<T> {
    if s.len() < 2 {
        None
    } else {
        Some(spec_trapezoid_sum(s).spec_half())
    }
}

/// Composite trapezoidal integration over possibly irregular intervals.
pub trait TrapezoidalIntegral<T: SampleArith> {
    spec fn ti_view(&self) -> Seq<(u64, T)>;

    spec fn ti_wf(&self) -> bool;

    /// `0.5 * sum of (f_i + f_{i+1}) * (t_{i+1} - t_i)` over all adjacent
    /// entries; `None` when fewer than two entries exist.
    fn integrate(&self) -> (r: Option<T>)
        requires
            self.ti_wf(),
        ensures
            r == spec_integral(self.ti_view()),
    ;
}

impl<T: SampleArith> TrapezoidalIntegral<T> for TimeSeries<T> {
    open spec fn ti_view(&self) -> Seq<(u64, T)> {
        self@
    }

    open spec fn ti_wf(&self) -> bool {
        self.wf()
    }

    fn integrate(&self) -> (r: Option<T>) {
        if self.len() < 2 {
            return None;
        }
        proof {
            self.lemma_wf_implies_sorted();
        }
        let n = self.len();
        let (t_0, f_0) = self.entry(0);
        let (t_1, f_1) = self.entry(1);
        let mut s = (f_1.plus(f_0)).scale_ms(t_1 - t_0);
        proof {
            assert(self@.take(2)[0] == self@[0] && self@.take(2)[1] == self@[1]);
            assert(s == spec_trapezoid_sum(self@.take(2)));
        }
        let mut i: usize = 1;
        while i < n - 1
            invariant
                self.wf(),
                n == self@.len(),
                2 <= n,
                1 <= i <= n - 1,
                s == spec_trapezoid_sum(self@.take(i + 1)),
            decreases n - 1 - i,
        {
            let (t_i, f_i) = self.entry(i);
            let (t_ip1, f_ip1) = self.entry(i + 1);
            proof {
                self.lemma_wf_implies_sorted();
                assert(self@[i as int].0 <= self@[i + 1].0);
            }
            s = s.plus((f_ip1.plus(f_i)).scale_ms(t_ip1 - t_i));
            proof {
                let taken = self@.take(i + 2);
                assert(taken.drop_last() =~= self@.take(i + 1));
                assert(taken[taken.len() - 2] == self@[i as int]);
                assert(taken[taken.len() - 1] == self@[i + 1]);
                assert(s == spec_trapezoid_sum(taken));
            }
            i += 1;
        }
        proof {
            assert(self@.take(n as int) =~= self@);
        }
        Some(s.half())
    }
}

/// `le` is a total order: reflexive, transitive, total.
pub open spec fn spec_total_le_order<T>(le: spec_fn(T, T) -> bool) -> bool {
    &&& forall|a: T| #[trigger] le(a, a)
    &&& forall|a: T, b: T, c: T|
        #![trigger le(a, b), le(b, c)]
        le(a, b) && le(b, c) ==> le(a, c)
    &&& forall|a: T, b: T| #![trigger le(a, b)] le(a, b) || le(b, a)
}

/// Every verdict the comparator can return agrees with the order `le`.
pub open spec fn spec_cmp_respects<T, F: Fn(&T, &T) -> Ordering>(
    f: F,
    le: spec_fn(T, T) -> bool,
) -> bool {
    forall|x: &T, y: &T, o: Ordering|
        #[trigger] call_ensures(f, (x, y), o) ==> (match o {
            Ordering::Less => le(*x, *y) && !le(*y, *x),
            Ordering::Equal => le(*x, *y) && le(*y, *x),
            Ordering::Greater => le(*y, *x) && !le(*x, *y),
        })
}

/// `m` is at or below every sample of `s`.
pub open spec fn spec_at_most_all<T>(le: spec_fn(T, T) -> bool, m: T, s: Seq<(u64, T)>) -> bool {
    forall|j: int| 0 <= j < s.len() ==> le(m, (#[trigger] s[j]).1)
}

/// `m` is at or above every sample of `s`.
pub open spec fn spec_at_least_all<T>(le: spec_fn(T, T) -> bool, m: T, s: Seq<(u64, T)>) -> bool {
    forall|j: int| 0 <= j < s.len() ==> le((#[trigger] s[j]).1, m)
}

/// Minimum and maximum of a series' samples under a caller-supplied total
/// order, for sample types with no natural one.
pub trait MinMaxOfSeries<T> {
    spec fn mm_view(&self) -> Seq<(u64, T)>;

    /// A minimal sample under the comparator.  `None` iff the series is
    /// empty; the result is one of the samples, and for every total order
    /// the comparator's verdicts agree with, it is at or below every
    /// sample.
    fn min_by<F: Fn(&T, &T) -> Ordering>(&self, f: F) -> (r: Option<T>)
        requires
            forall|a: &T, b: &T| #[trigger] call_requires(f, (a, b)),
        ensures
            r is Some <==> self.mm_view().len() > 0,
            r matches Some(m) ==> exists|i: int|
                0 <= i < self.mm_view().len() && #[trigger] self.mm_view()[i].1 == m,
            r matches Some(m) ==> forall|le: spec_fn(T, T) -> bool|
                #[trigger] spec_cmp_respects(f, le) && spec_total_le_order(le)
                    ==> spec_at_most_all(le, m, self.mm_view()),
    ;

    /// A maximal sample under the comparator.  `None` iff the series is
    /// empty; the result is one of the samples, and for every total order
    /// the comparator's verdicts agree with, it is at or above every
    /// sample.
    fn max_by<F: Fn(&T, &T) -> Ordering>(&self, f: F) -> (r: Option<T>)
        requires
            forall|a: &T, b: &T| #[trigger] call_requires(f, (a, b)),
        ensures
            r is Some <==> self.mm_view().len() > 0,
            r matches Some(m) ==> exists|i: int|
                0 <= i < self.mm_view().len() && #[trigger] self.mm_view()[i].1 == m,
            r matches Some(m) ==> forall|le: spec_fn(T, T) -> bool|
                #[trigger] spec_cmp_respects(f, le) && spec_total_le_order(le)
                    ==> spec_at_least_all(le, m, self.mm_view()),
    ;
}

impl<T: Copy> MinMaxOfSeries<T> for TimeSeries<T> {
    open spec fn mm_view(&self) -> Seq<(u64, T)> {
        self@
    }

    fn min_by<F: Fn(&T, &T) -> Ordering>(&self, f: F) -> (r: Option<T>) {
        if self.len() == 0 {
            return None;
        }
        let mut best = self.entry(0).1;
        proof {
            assert forall|le: spec_fn(T, T) -> bool|
                #[trigger] spec_cmp_respects(f, le) && spec_total_le_order(
                    le,
                ) implies spec_at_most_all(le, best, self@.take(1)) by {
                assert(le(best, best));
            }
        }
        let mut i: usize = 1;
        while i < self.len()
            invariant
                self@.len() > 0,
                1 <= i <= self@.len(),
                forall|a: &T, b: &T| #[trigger] call_requires(f, (a, b)),
                exists|j: int| 0 <= j < self@.len() && (#[trigger] self@[j]).1 == best,
                forall|le: spec_fn(T, T) -> bool|
                    #[trigger] spec_cmp_respects(f, le) && spec_total_le_order(le)
                        ==> spec_at_most_all(le, best, self@.take(i as int)),
            decreases self@.len() - i,
        {
            let ghost prev = best;
            let cand = self.entry(i).1;
            let ord = f(&cand, &best);
            if matches!(ord, Ordering::Less) {
                best = cand;
                proof {
                    assert(self@[i as int].1 == best);
                }
            }
            proof {
                assert forall|le: spec_fn(T, T) -> bool|
                    #[trigger] spec_cmp_respects(f, le) && spec_total_le_order(
                        le,
                    ) implies spec_at_most_all(le, best, self@.take(i + 1)) by {
                    assert(call_ensures(f, (&cand, &prev), ord));
                    assert(le(best, prev) && le(best, cand)) by {
                        assert(le(best, best));
                        if matches!(ord, Ordering::Less) {
                            assert(le(cand, prev));
                        } else {
                            assert(le(prev, cand));
                        }
                    }
                    assert forall|j: int| 0 <= j < i + 1 implies le(
                        best,
                        (#[trigger] self@.take(i + 1)[j]).1,
                    ) by {
                        assert(self@.take(i + 1)[j] == self@[j]);
                        if j < i {
                            assert(self@.take(i as int)[j] == self@[j]);
                            assert(le(prev, self@[j].1));
                        } else {
                            assert(self@[j].1 == cand);
                        }
                    }
                }
            }
            i += 1;
        }
        proof {
            assert(self@.take(self@.len() as int) =~= self@);
        }
        Some(best)
    }

    fn max_by<F: Fn(&T, &T) -> Ordering>(&self, f: F) -> (r: Option<T>) {
        if self.len() == 0 {
            return None;
        }
        let mut best = self.entry(0).1;
        proof {
            assert forall|le: spec_fn(T, T) -> bool|
                #[trigger] spec_cmp_respects(f, le) && spec_total_le_order(
                    le,
                ) implies spec_at_least_all(le, best, self@.take(1)) by {
                assert(le(best, best));
            }
        }
        let mut i: usize = 1;
        while i < self.len()
            invariant
                self@.len() > 0,
                1 <= i <= self@.len(),
                forall|a: &T, b: &T| #[trigger] call_requires(f, (a, b)),
                exists|j: int| 0 <= j < self@.len() && (#[trigger] self@[j]).1 == best,
                forall|le: spec_fn(T, T) -> bool|
                    #[trigger] spec_cmp_respects(f, le) && spec_total_le_order(le)
                        ==> spec_at_least_all(le, best, self@.take(i as int)),
            decreases self@.len() - i,
        {
            let ghost prev = best;
            let cand = self.entry(i).1;
            let ord = f(&best, &cand);
            if !matches!(ord, Ordering::Greater) {
                best = cand;
                proof {
                    assert(self@[i as int].1 == best);
                }
            }
            proof {
                assert forall|le: spec_fn(T, T) -> bool|
                    #[trigger] spec_cmp_respects(f, le) && spec_total_le_order(
                        le,
                    ) implies spec_at_least_all(le, best, self@.take(i + 1)) by {
                    assert(call_ensures(f, (&prev, &cand), ord));
                    assert(le(prev, best) && le(cand, best)) by {
                        assert(le(best, best));
                        if matches!(ord, Ordering::Greater) {
                            assert(le(cand, prev));
                        } else {
                            assert(le(prev, cand));
                        }
                    }
                    assert forall|j: int| 0 <= j < i + 1 implies le(
                        (#[trigger] self@.take(i + 1)[j]).1,
                        best,
                    ) by {
                        assert(self@.take(i + 1)[j] == self@[j]);
                        if j < i {
                            assert(self@.take(i as int)[j] == self@[j]);
                            assert(le(self@[j].1, prev));
                        } else {
                            assert(self@[j].1 == cand);
                        }
                    }
                }
            }
            i += 1;
        }
        proof {
            assert(self@.take(self@.len() as int) =~= self@);
        }
        Some(best)
    }
}

/// The time-weighted average of a series: its integral divided by the span
/// between its first and last timestamp.
pub trait Average<T: SampleArith> {
    spec fn avg_view(&self) -> Seq<(u64, T)>;

    spec fn avg_wf(&self) -> bool;

    /// `integrate() / (end - start)`; `None` exactly where the integral is
    /// `None`.
    fn average(&self) -> (r: Option<T>)
        requires
            self.avg_wf(),
        ensures
            r == (match spec_integral(self.avg_view()) {
                None => None::<T>,
                Some(v) => Some(
                    v.spec_div_ms(
                        (self.avg_view()[self.avg_view().len() - 1].0
                            - self.avg_view()[0].0) as u64,
                    ),
                ),
            }),
    ;
}

impl<T: SampleArith> Average<T> for TimeSeries<T> {
    open spec fn avg_view(&self) -> Seq<(u64, T)> {
        self@
    }

    open spec fn avg_wf(&self) -> bool {
        self.wf()
    }

    fn average(&self) -> (r: Option<T>) {
        let a = match self.get_start_time() {
            Some(a) => a,
            None => {
                return None;
            },
        };
        let b = match self.get_end_time() {
            Some(b) => b,
            None => {
                return None;
            },
        };
        let integral = match self.integrate() {
            Some(v) => v,
            None => {
                return None;
            },
        };
        proof {
            self.lemma_wf_implies_sorted();
        }
        Some(integral.div_ms(b - a))
    }
}

/// Short-hand composite trait for every statistic at once.
pub trait Statistics<T: SampleArith>:
    TrapezoidalIntegral<T> + MinMaxOfSeries<T> + Average<T> {

}

impl<T: SampleArith> Statistics<T> for TimeSeries<T> {

}

} // verus!
