//! The ordered in-memory time series: a time-ascending sequence of
//! `(timestamp, sample)` pairs with cached first and last timestamp.

use vstd::prelude::*;

verus! {

/// A time-ascending sequence of `(timestamp, sample)` entries.  Timestamps
/// are milliseconds since the unix epoch; equal timestamps are permitted and
/// keep their relative insertion order.
#[derive(Debug, PartialEq)]
pub struct TimeSeries<T> {
    init_size: usize,
    data: Vec<(u64, T)>,
    start_time: Option<u64>,
    end_time: Option<u64>,
}

/// Anything that can report the current time as unix milliseconds.
pub trait UnixTimestamp {
    fn timestamp(&self) -> u64;
}

#[verifier::external_type_specification]
#[verifier::external_body]
pub struct ExSystemTime(std::time::SystemTime);

impl UnixTimestamp for std::time::SystemTime {
    fn timestamp(&self) -> u64 {
        system_time_millis(self)
    }
}

/// Relies on `SystemTime::duration_since` and `Duration::as_millis`: the
/// span from the unix epoch to `t`, in milliseconds.  A reading before the
/// epoch reports zero.  Nothing is promised of the value.
#[verifier::external_body]
fn system_time_millis(t: &std::time::SystemTime) -> u64 {
    match t.duration_since(std::time::UNIX_EPOCH) {
        Ok(d) => d.as_millis() as u64,
        Err(_) => 0,
    }
}

/// Relies on `SystemTime::now`: the current wall-clock reading.  Nothing is
/// promised of the value.
#[verifier::external_body]
pub(crate) fn system_time_now() -> std::time::SystemTime {
    std::time::SystemTime::now()
}

/// `s` is ordered by non-decreasing timestamp.
pub open spec fn sorted_by_time<T>(s: Seq<(u64, T)>) -> bool {
    forall|i: int, j: int| 0 <= i <= j < s.len() ==> (#[trigger] s[i]).0 <= (#[trigger] s[j]).0
}

/// How many entries of `s` carry a timestamp at most `t`.  On a sorted
/// sequence these entries form a prefix, so this is also the index where an
/// entry with timestamp `t` would be inserted after all its equals.
pub open spec fn count_le<T>(s: Seq<(u64, T)>, t: u64) -> int
    decreases s.len(),
{
    if s.len() == 0 {
        0
    } else {
        count_le(s.drop_last(), t) + if s.last().0 <= t {
            1int
        } else {
            0int
        }
    }
}

/// `post` is `pre` with `(t, v)` inserted after every entry whose timestamp
/// is at most `t`.
pub open spec fn inserted_at<T>(pre: Seq<(u64, T)>, post: Seq<(u64, T)>, t: u64, v: T) -> bool {
    post == pre.insert(count_le(pre, t), (t, v))
}

/// The lower index of the sub-range that `get_values_in_range` extracts: the
/// count of entries at or before `start` when `start` falls inside the
/// series' time span, clamped to `0` otherwise.
pub open spec fn range_lo<T>(s: Seq<(u64, T)>, start: u64) -> int {
    if s.len() > 0 && s[0].0 <= start && start <= s[s.len() - 1].0 {
        count_le(s, start)
    } else {
        0
    }
}

/// The upper index of the sub-range that `get_values_in_range` extracts: the
/// count of entries at or before `end` when `end` falls inside the series'
/// time span, clamped to the length otherwise.
pub open spec fn range_hi<T>(s: Seq<(u64, T)>, end: u64) -> int {
    if s.len() > 0 && s[0].0 <= end && end <= s[s.len() - 1].0 {
        count_le(s, end)
    } else {
        s.len() as int
    }
}

/// The entries that `get_values_in_range` selects, as a sequence: empty
/// where it reports no data.
pub open spec fn spec_restricted<T>(s: Seq<(u64, T)>, start: u64, end: u64) -> Seq<(u64, T)> {
    if s.len() == 0 || end < s[0].0 {
        Seq::empty()
    } else {
        let lo = range_lo(s, start);
        let hi = range_hi(s, end);
        if lo >= hi {
            Seq::empty()
        } else {
            s.subrange(lo, hi)
        }
    }
}

pub proof fn lemma_count_le_bounds<T>(s: Seq<(u64, T)>, t: u64)
    ensures
        0 <= count_le(s, t) <= s.len(),
    decreases s.len(),
{
    if s.len() > 0 {
        lemma_count_le_bounds(s.drop_last(), t);
    }
}

/// On a sorted sequence the entries with timestamp at most `t` are exactly
/// the prefix of length `count_le(s, t)`.
pub proof fn lemma_count_le_sorted<T>(s: Seq<(u64, T)>, t: u64)
    requires
        sorted_by_time(s),
    ensures
        0 <= count_le(s, t) <= s.len(),
        forall|i: int| 0 <= i < count_le(s, t) ==> (#[trigger] s[i]).0 <= t,
        forall|i: int| count_le(s, t) <= i < s.len() ==> (#[trigger] s[i]).0 > t,
    decreases s.len(),
{
    lemma_count_le_bounds(s, t);
    if s.len() > 0 {
        let d = s.drop_last();
        assert(sorted_by_time(d)) by {
            assert(forall|i: int, j: int|
                0 <= i <= j < d.len() ==> (#[trigger] d[i]).0 <= (#[trigger] d[j]).0) by {
                assert(forall|i: int| 0 <= i < d.len() ==> d[i] == s[i]);
            }
        }
        lemma_count_le_sorted(d, t);
        let c = count_le(d, t);
        if s.last().0 <= t {
            // sorted and the last entry is at most t, so every entry is.
            if c < d.len() {
                assert(d[c] == s[c]);
                assert(s[c].0 <= s[s.len() - 1].0);
                assert(d[c].0 > t);
            }
            assert(c == d.len());
        } else {
            assert forall|i: int| 0 <= i < c implies (#[trigger] s[i]).0 <= t by {
                assert(d[i] == s[i]);
            }
            assert forall|i: int| c <= i < s.len() implies (#[trigger] s[i]).0 > t by {
                if i < s.len() - 1 {
                    assert(d[i] == s[i]);
                }
            }
        }
    }
}

/// The index where every entry before it is at most `t` and every entry from
/// it on is greater is exactly `count_le`.
pub proof fn lemma_count_le_unique<T>(s: Seq<(u64, T)>, t: u64, idx: int)
    requires
        sorted_by_time(s),
        0 <= idx <= s.len(),
        forall|j: int| 0 <= j < idx ==> (#[trigger] s[j]).0 <= t,
        forall|j: int| idx <= j < s.len() ==> (#[trigger] s[j]).0 > t,
    ensures
        idx == count_le(s, t),
{
    lemma_count_le_sorted(s, t);
    let c = count_le(s, t);
    if c < idx {
        assert(s[c].0 <= t);
        assert(s[c].0 > t);
    }
    if idx < c {
        assert(s[idx].0 <= t);
        assert(s[idx].0 > t);
    }
}

/// Range-correctness law: for `start <= end`, the selection that
/// `get_values_in_range` extracts contains only entries stamped within
/// `[start, end]`, and misses none of them.  Two kinds of input are left
/// out, because the selection's lower bound excludes entries stamped exactly
/// `start` and its clamping returns early entries when `start` lies past the
/// data: the law requires that no entry is stamped exactly `start` and that
/// `start` does not exceed the last timestamp.
pub proof fn lemma_range_correct<T>(s: Seq<(u64, T)>, start: u64, end: u64)
    requires
        sorted_by_time(s),
        start <= end,
        forall|i: int| 0 <= i < s.len() ==> (#[trigger] s[i]).0 != start,
        s.len() > 0 ==> start <= s[s.len() - 1].0,
    ensures
        ({
            let sel = spec_restricted(s, start, end);
            &&& forall|i: int| 0 <= i < sel.len() ==> start <= (#[trigger] sel[i]).0 <= end
            &&& forall|i: int|
                0 <= i < s.len() && start <= (#[trigger] s[i]).0 <= end ==> sel.contains(s[i])
        }),
{
    if s.len() > 0 {
        lemma_count_le_sorted(s, start);
        lemma_count_le_sorted(s, end);
        if end < s[0].0 {
            assert forall|i: int| 0 <= i < s.len() implies !(start <= (#[trigger] s[i]).0
                <= end) by {
                assert(s[0].0 <= s[i].0);
            }
        } else {
            let lo = range_lo(s, start);
            let hi = range_hi(s, end);
            assert(lo == count_le(s, start)) by {
                if !(s[0].0 <= start && start <= s[s.len() - 1].0) {
                    // start precedes the data entirely, so no entry is at or
                    // before it
                    if count_le(s, start) > 0 {
                        assert(s[0].0 <= start);
                    }
                }
            }
            assert(hi == count_le(s, end)) by {
                if !(s[0].0 <= end && end <= s[s.len() - 1].0) {
                    // end lies past the data entirely, so every entry is at
                    // or before it
                    if count_le(s, end) < s.len() {
                        assert(s[count_le(s, end)].0 > end);
                        assert(s[count_le(s, end)].0 <= s[s.len() - 1].0);
                    }
                }
            }
            assert(lo <= hi) by {
                if hi < lo {
                    assert(s[hi].0 <= start);
                    assert(s[hi].0 > end);
                }
            }
            let sel = spec_restricted(s, start, end);
            if lo < hi {
                assert(sel == s.subrange(lo, hi));
                assert forall|i: int| 0 <= i < sel.len() implies start <= (#[trigger] sel[i]).0
                    <= end by {
                    assert(sel[i] == s[lo + i]);
                    assert(s[lo + i].0 > start);
                    assert(s[lo + i].0 <= end);
                }
            }
            assert forall|i: int| 0 <= i < s.len() && start <= (#[trigger] s[i]).0
                <= end implies sel.contains(s[i]) by {
                assert(s[i].0 != start);
                if i < lo {
                    assert(s[i].0 <= start);
                }
                assert(i >= lo);
                if i >= hi {
                    assert(s[i].0 > end);
                }
                assert(lo < hi);
                assert(sel == s.subrange(lo, hi));
                assert(sel[i - lo] == s[i]);
            }
        }
    }
}

impl<T> View for TimeSeries<T> {
    type V = Seq<(u64, T)>;

    closed spec fn view(&self) -> Seq<(u64, T)> {
        self.data@
    }
}

impl<T> TimeSeries<T> {
    /// Well-formed: entries sorted by timestamp, cached start/end equal the
    /// first/last timestamp actually present, or both `None` iff empty.
    pub closed spec fn wf(&self) -> bool {
        &&& sorted_by_time(self@)
        &&& (self@.len() == 0 ==> self.start_time is None && self.end_time is None)
        &&& (self@.len() > 0 ==> self.start_time == Some(self@[0].0) && self.end_time == Some(
            self@[self@.len() - 1].0,
        ))
    }

    pub closed spec fn spec_init_size(&self) -> usize {
        self.init_size
    }

    pub closed spec fn spec_start_time(&self) -> Option<u64> {
        self.start_time
    }

    pub closed spec fn spec_end_time(&self) -> Option<u64> {
        self.end_time
    }

    /// Ordering law: a well-formed series is non-decreasing by timestamp.
    pub proof fn lemma_wf_implies_sorted(&self)
        requires
            self.wf(),
        ensures
            sorted_by_time(self@),
            self@.len() == 0 ==> self.spec_start_time() is None && self.spec_end_time() is None,
            self@.len() > 0 ==> self.spec_start_time() == Some(self@[0].0)
                && self.spec_end_time() == Some(self@[self@.len() - 1].0),
    {
    }
}

impl<T: Copy> TimeSeries<T> {
    pub fn new(init_size: usize) -> (r: Self)
        ensures
            r.wf(),
            r@ =~= Seq::<(u64, T)>::empty(),
            r.spec_init_size() == init_size,
    {
        let data = Vec::<(u64, T)>::with_capacity(init_size);
        TimeSeries { init_size, data, start_time: None, end_time: None }
    }

    pub fn empty() -> (r: Self)
        ensures
            r.wf(),
            r@ =~= Seq::<(u64, T)>::empty(),
            r.spec_init_size() == 0,
    {
        TimeSeries::<T>::new(0)
    }

    pub fn len(&self) -> (r: usize)
        ensures
            r == self@.len(),
    {
        self.data.len()
    }

    pub fn is_empty(&self) -> (r: bool)
        requires
            self.wf(),
        ensures
            r == (self@.len() == 0),
    {
        self.start_time.is_none() || self.data.is_empty()
    }

    pub fn get_start_time(&self) -> (r: Option<u64>)
        requires
            self.wf(),
        ensures
            r == self.spec_start_time(),
            r == (if self@.len() == 0 {
                None::<u64>
            } else {
                Some(self@[0].0)
            }),
    {
        self.start_time
    }

    pub fn get_end_time(&self) -> (r: Option<u64>)
        requires
            self.wf(),
        ensures
            r == self.spec_end_time(),
            r == (if self@.len() == 0 {
                None::<u64>
            } else {
                Some(self@[self@.len() - 1].0)
            }),
    {
        self.end_time
    }

    /// All entries in time order, as `(timestamp, sample)` pairs.
    pub fn get_current_values(&self) -> (r: Vec<(u64, T)>)
        ensures
            r@ == self@,
    {
        let mut out: Vec<(u64, T)> = Vec::new();
        let mut i: usize = 0;
        while i < self.data.len()
            invariant
                0 <= i <= self.data.len(),
                out@ =~= self@.take(i as int),
            decreases self.data.len() - i,
        {
            out.push(self.data[i]);
            i += 1;
        }
        proof {
            assert(out@ =~= self@);
        }
        out
    }

    /// All samples in time order, without their timestamps.
    pub fn get_current_values_without_time(&self) -> (r: Vec<T>)
        ensures
            r@ == self@.map_values(|e: (u64, T)| e.1),
    {
        let mut out: Vec<T> = Vec::new();
        let mut i: usize = 0;
        while i < self.data.len()
            invariant
                0 <= i <= self.data.len(),
                out@ =~= self@.take(i as int).map_values(|e: (u64, T)| e.1),
            decreases self.data.len() - i,
        {
            out.push(self.data[i].1);
            proof {
                assert(self@.take(i + 1).map_values(|e: (u64, T)| e.1) =~= self@.take(
                    i as int,
                ).map_values(|e: (u64, T)| e.1).push(self@[i as int].1));
            }
            i += 1;
        }
        proof {
            assert(self@.take(self@.len() as int) =~= self@);
        }
        out
    }

    fn update_start_and_end(&mut self, time: u64)
        ensures
            final(self)@ == old(self)@,
            final(self).spec_init_size() == old(self).spec_init_size(),
            final(self).spec_start_time() == (match old(self).spec_start_time() {
                None => Some(time),
                Some(s) => if s > time {
                    Some(time)
                } else {
                    Some(s)
                },
            }),
            final(self).spec_end_time() == (match old(self).spec_end_time() {
                None => Some(time),
                Some(e) => if e < time {
                    Some(time)
                } else {
                    Some(e)
                },
            }),
    {
        match self.start_time {
            None => self.start_time = Some(time),
            Some(start) => {
                if start > time {
                    self.start_time = Some(time)
                }
            },
        }
        match self.end_time {
            None => self.end_time = Some(time),
            Some(end) => {
                if end < time {
                    self.end_time = Some(time)
                }
            },
        }
    }

    /// One past the last index whose timestamp is at most `time`, or `None`
    /// when `time` lies outside the series' span (or the series is empty).
    fn find_last_index_after_time(&self, time: u64) -> (r: Option<usize>)
        requires
            self.wf(),
        ensures
            (r is None) <==> (self@.len() == 0 || time < self@[0].0 || time > self@[self@.len()
                - 1].0),
            r matches Some(i) ==> i == count_le(self@, time),
    {
        let (st, en) = match (self.start_time, self.end_time) {
            (Some(st), Some(en)) => (st, en),
            _ => {
                return None;
            },
        };
        if time < st || time > en {
            return None;
        }
        let mut i: usize = self.data.len();
        loop
            invariant
                self.wf(),
                0 <= i <= self.data.len(),
                self@.len() > 0,
                self@[0].0 <= time,
                time <= self@[self@.len() - 1].0,
                forall|j: int| i <= j < self@.len() ==> (#[trigger] self@[j]).0 > time,
            decreases i,
        {
            if i == 0 {
                // the first entry is at most `time`, so the scan cannot pass it
                proof {
                    assert(self@[0].0 > time);
                }
                return None;
            }
            if self.data[i - 1].0 <= time {
                proof {
                    self.lemma_wf_implies_sorted();
                    assert forall|j: int| 0 <= j < i implies (#[trigger] self@[j]).0 <= time by {
                        assert(self@[j].0 <= self@[i - 1].0);
                    }
                    lemma_count_le_unique(self@, time, i as int);
                }
                return Some(i);
            }
            i -= 1;
        }
    }

    /// The capacity hint the series was created with (grown by `append`).
    pub(crate) fn init_size_value(&self) -> (r: usize)
        ensures
            r == self.spec_init_size(),
    {
        self.init_size
    }

    /// The entry at position `i`.
    pub(crate) fn entry(&self, i: usize) -> (r: (u64, T))
        requires
            i < self@.len(),
        ensures
            r == self@[i as int],
    {
        self.data[i]
    }

    /// Build a series directly from an already-sorted vector of entries,
    /// deriving the cached bounds from its first and last entry.
    pub(crate) fn from_sorted_vec(init_size: usize, data: Vec<(u64, T)>) -> (r: Self)
        requires
            sorted_by_time(data@),
        ensures
            r.wf(),
            r@ == data@,
            r.spec_init_size() == init_size,
    {
        let n = data.len();
        let (start_time, end_time) = if n == 0 {
            (None, None)
        } else {
            (Some(data[0].0), Some(data[n - 1].0))
        };
        TimeSeries { init_size, data, start_time, end_time }
    }

    /// Insert `value` stamped with the current wall-clock time.
    pub fn insert_value_at_current_time(&mut self, value: T)
        requires
            old(self).wf(),
        ensures
            final(self).wf(),
            final(self)@.len() == old(self)@.len() + 1,
            exists|t: u64| inserted_at(old(self)@, final(self)@, t, value),
            final(self).spec_init_size() == old(self).spec_init_size(),
    {
        let now = system_time_now().timestamp();
        self.insert_value_at_time(now, value);
        proof {
            assert(inserted_at(old(self)@, self@, now, value));
        }
    }

    /// Ordered insertion: the entry lands after every entry whose timestamp
    /// is at most `time`, so equal timestamps keep their insertion order and
    /// the series stays sorted.
    pub fn insert_value_at_time(&mut self, time: u64, value: T)
        requires
            old(self).wf(),
        ensures
            final(self).wf(),
            final(self)@ == old(self)@.insert(count_le(old(self)@, time), (time, value)),
            final(self)@.len() == old(self)@.len() + 1,
            final(self).spec_init_size() == old(self).spec_init_size(),
    {
        proof {
            lemma_count_le_sorted(self@, time);
        }
        let idx: usize = match self.find_last_index_after_time(time) {
            Some(i) => i,
            None => {
                match self.end_time {
                    None => 0,
                    Some(en) => {
                        if time > en {
                            proof {
                                // every timestamp is at most `en`, hence under `time`
                                lemma_count_le_unique(self@, time, self@.len() as int);
                            }
                            self.data.len()
                        } else {
                            proof {
                                // `time` precedes the first entry
                                lemma_count_le_unique(self@, time, 0);
                            }
                            0
                        }
                    },
                }
            },
        };
        proof {
            assert(idx == count_le(self@, time));
        }
        let ghost pre = self@;
        self.data.insert(idx, (time, value));
        self.update_start_and_end(time);
        proof {
            let post = self@;
            assert(post == pre.insert(count_le(pre, time), (time, value)));
            lemma_count_le_sorted(pre, time);
            assert forall|i: int, j: int| 0 <= i <= j < post.len() implies (#[trigger] post[i]).0
                <= (#[trigger] post[j]).0 by {
                let c = idx as int;
                if i < c && j < c {
                } else if i > c && j > c {
                    assert(post[i] == pre[i - 1] && post[j] == pre[j - 1]);
                } else if i < c && j > c {
                    assert(post[i] == pre[i] && post[j] == pre[j - 1]);
                    assert(pre[i].0 <= time);
                    assert(pre[j - 1].0 > time);
                } else if i == c && j > c {
                    assert(post[j] == pre[j - 1]);
                    assert(pre[j - 1].0 > time);
                } else if i < c && j == c {
                    assert(post[i] == pre[i]);
                    assert(pre[i].0 <= time);
                }
            }
            // cached bounds: the new first/last entry is the min/max timestamp
            if idx == 0 {
                assert(post[0] == (time, value));
            } else {
                assert(post[0] == pre[0]);
                assert(pre[0].0 <= time);
            }
            if idx == pre.len() {
                assert(post[post.len() - 1] == (time, value));
                if pre.len() > 0 {
                    assert(pre[pre.len() - 1].0 <= time);
                }
            } else {
                assert(post[post.len() - 1] == pre[pre.len() - 1]);
                assert(pre[pre.len() - 1].0 >= pre[idx as int].0);
                assert(pre[idx as int].0 > time);
            }
        }
    }

    /// Extract the entries between `start_time` and `end_time` as a fresh
    /// series.  The lower bound is exclusive of entries stamped exactly
    /// `start_time` whenever `start_time` falls inside the series' span; the
    /// upper bound is inclusive.  `None` when the series is empty, when the
    /// query ends before the data starts, or when the selection is empty.
    pub fn get_values_in_range(&self, start_time: u64, end_time: u64) -> (r: Option<TimeSeries<T>>)
        requires
            self.wf(),
        ensures
            (r is None) <==> spec_restricted(self@, start_time, end_time).len() == 0,
            r matches Some(ts) ==> ts.wf() && ts@ == spec_restricted(self@, start_time, end_time)
                && ts.spec_init_size() == ts@.len(),
    {
        if self.data.is_empty() {
            return None;
        }
        let st = match self.start_time {
            Some(st) => st,
            None => {
                return None;
            },
        };
        if end_time < st {
            return None;
        }
        proof {
            lemma_count_le_sorted(self@, start_time);
            lemma_count_le_sorted(self@, end_time);
        }
        let start_index: usize = match self.find_last_index_after_time(start_time) {
            Some(i) => i,
            None => 0,
        };
        let end_index: usize = match self.find_last_index_after_time(end_time) {
            Some(i) => i,
            None => self.data.len(),
        };
        proof {
            assert(start_index as int == range_lo(self@, start_time));
            assert(end_index as int == range_hi(self@, end_time));
        }
        if start_index >= end_index {
            return None;
        }
        let mut data: Vec<(u64, T)> = Vec::new();
        let mut i: usize = start_index;
        while i < end_index
            invariant
                start_index <= i <= end_index <= self@.len(),
                data@ =~= self@.subrange(start_index as int, i as int),
            decreases end_index - i,
        {
            data.push(self.data[i]);
            proof {
                assert(self@.subrange(start_index as int, i + 1) =~= self@.subrange(
                    start_index as int,
                    i as int,
                ).push(self@[i as int]));
            }
            i += 1;
        }
        let n = data.len();
        let new_start = data[0].0;
        let new_end = data[n - 1].0;
        let ghost sub = self@.subrange(start_index as int, end_index as int);
        let tts = TimeSeries {
            init_size: n,
            data,
            start_time: Some(new_start),
            end_time: Some(new_end),
        };
        proof {
            assert(tts@ == sub);
            assert forall|a: int, b: int| 0 <= a <= b < sub.len() implies (#[trigger] sub[a]).0
                <= (#[trigger] sub[b]).0 by {
                assert(sub[a] == self@[start_index + a]);
                assert(sub[b] == self@[start_index + b]);
            }
        }
        Some(tts)
    }

    /// Concatenate `t` onto the end of `self`.  The receiver must
    /// chronologically precede the argument: appending a series whose first
    /// timestamp lies before the receiver's last one is excluded.
    pub fn append(&mut self, t: &TimeSeries<T>)
        requires
            old(self).wf(),
            t.wf(),
            old(self)@.len() > 0 && t@.len() > 0 ==> old(self)@[old(self)@.len() - 1].0
                <= t@[0].0,
        ensures
            final(self).wf(),
            final(self)@ == old(self)@ + t@,
            final(self).spec_init_size() == (if t@.len() == 0 {
                old(self).spec_init_size() as int
            } else if old(self).spec_init_size() + t.spec_init_size() <= usize::MAX {
                old(self).spec_init_size() + t.spec_init_size()
            } else {
                usize::MAX as int
            }),
    {
        if t.is_empty() {
            proof {
                assert(final(self)@ =~= old(self)@ + t@);
            }
            return;
        }
        self.end_time = t.end_time;
        if self.data.is_empty() {
            self.start_time = t.start_time;
        }
        self.init_size = if self.init_size <= usize::MAX - t.init_size {
            self.init_size + t.init_size
        } else {
            usize::MAX
        };
        let ghost pre = self.data@;
        let mut i: usize = 0;
        while i < t.data.len()
            invariant
                0 <= i <= t@.len(),
                self.data@ =~= pre + t@.take(i as int),
                self.init_size == (if old(self).spec_init_size() + t.spec_init_size()
                    <= usize::MAX {
                    old(self).spec_init_size() + t.spec_init_size()
                } else {
                    usize::MAX as int
                }),
                self.start_time == (if pre.len() == 0 {
                    t.spec_start_time()
                } else {
                    old(self).spec_start_time()
                }),
                self.end_time == t.spec_end_time(),
            decreases t@.len() - i,
        {
            self.data.push(t.data[i]);
            proof {
                assert(pre + t@.take(i + 1) =~= (pre + t@.take(i as int)).push(t@[i as int]));
            }
            i += 1;
        }
        proof {
            assert(t@.take(t@.len() as int) =~= t@);
            let post = self@;
            assert(post =~= old(self)@ + t@);
            assert forall|a: int, b: int| 0 <= a <= b < post.len() implies (#[trigger] post[a]).0
                <= (#[trigger] post[b]).0 by {
                let n = pre.len();
                if a < n && b < n {
                    assert(post[a] == pre[a] && post[b] == pre[b]);
                } else if a >= n && b >= n {
                    assert(post[a] == t@[a - n] && post[b] == t@[b - n]);
                } else {
                    assert(post[a] == pre[a] && post[b] == t@[b - n]);
                    assert(pre[a].0 <= pre[n - 1].0);
                    assert(t@[0].0 <= t@[b - n].0);
                }
            }
        }
    }
}

} // verus!
