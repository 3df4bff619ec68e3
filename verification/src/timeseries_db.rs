//! The durable layer: one live in-memory buffer, flushed to compressed
//! segment blobs named `<start>-<end>` once it reaches its threshold, and
//! range queries that stitch persisted segments together with the buffer.
//!
//! The store itself holds no file handles: it prepares each segment write
//! as a named byte blob, and answers queries over segment bodies that the
//! caller has loaded.  The caller performs the directory and file traffic.

use vstd::prelude::*;
use vstd::string::StrSliceExecFns;
use vstd::string::StringExecFns;
use crate::codec::{spec_encode_series, zstd_decode_of, SampleCodec};
use crate::decimal::{
    parse_u64_dec, spec_all_digits, spec_dec_str, spec_dec_val, spec_is_digit, u64_to_dec_string,
    lemma_dec_str_val,
};
use crate::timeseries::{count_le, sorted_by_time, spec_restricted, TimeSeries, UnixTimestamp};

verus! {

/// The embedded time-series store: a live buffer plus its flush policy.
pub struct SunnyDB<T> {
    pub time_series: TimeSeries<T>,
    time_series_cache_size: usize,
    data_path: String,
    /// The zstd compression level used for segment blobs.
    compression_level: i32,
    /// Largest buffer length that an orderly shutdown may discard instead
    /// of writing a tiny segment.
    data_loss_threshold: usize,
}

/// One segment blob ready to be persisted: the file name that encodes its
/// time span, and the compressed bytes of its series.
pub struct SegmentWrite {
    pub file_name: String,
    pub bytes: Vec<u8>,
}

/// A fault that a range query refuses to tolerate.
#[derive(Debug, PartialEq, Eq)]
pub enum StoreError {
    /// Two segments chosen for one query are not chronologically disjoint
    /// and ordered: the on-disk data is corrupt or mis-sorted.
    MisorderedSegments,
}

/// The file name of a segment spanning `[a, b]`.
pub open spec fn spec_segment_name(a: u64, b: u64) -> Seq<char> {
    spec_dec_str(a as nat) + seq!['-'] + spec_dec_str(b as nat)
}

/// `s` splits at `i` into two decimal timestamps around one dash.
pub open spec fn spec_split_ok(s: Seq<char>, i: int) -> bool {
    &&& 0 < i < s.len() - 1
    &&& s[i] == '-'
    &&& spec_all_digits(s.take(i))
    &&& spec_all_digits(s.skip(i + 1))
    &&& spec_dec_val(s.take(i)) <= u64::MAX
    &&& spec_dec_val(s.skip(i + 1)) <= u64::MAX
}

/// A segment's canonical name splits at the end of its first number.
pub proof fn lemma_segment_name_parses(a: u64, b: u64)
    ensures
        ({
            let s = spec_segment_name(a, b);
            let i = spec_dec_str(a as nat).len() as int;
            &&& spec_split_ok(s, i)
            &&& spec_dec_val(s.take(i)) == a
            &&& spec_dec_val(s.skip(i + 1)) == b
        }),
{
    lemma_dec_str_val(a as nat);
    lemma_dec_str_val(b as nat);
    let s = spec_segment_name(a, b);
    let p = spec_dec_str(a as nat);
    let q = spec_dec_str(b as nat);
    let i = p.len() as int;
    assert(s.len() == p.len() + 1 + q.len());
    assert(s[i] == '-');
    assert(s.take(i) =~= p);
    assert(s.skip(i + 1) =~= q);
}

impl<T: Copy + SampleCodec> SunnyDB<T> {
    /// The buffer and every cached bound in it are well formed.
    pub open spec fn wf(&self) -> bool {
        self.spec_time_series().wf()
    }

    /// The live buffer, for use in contracts.
    pub closed spec fn spec_time_series(&self) -> TimeSeries<T> {
        self.time_series
    }

    pub closed spec fn spec_cache_size(&self) -> usize {
        self.time_series_cache_size
    }

    pub closed spec fn spec_data_path(&self) -> Seq<char> {
        self.data_path@
    }

    pub closed spec fn spec_compression_level(&self) -> i32 {
        self.compression_level
    }

    pub closed spec fn spec_loss_threshold(&self) -> usize {
        self.data_loss_threshold
    }

    pub fn new(
        time_series_cache_size: usize,
        dir_path: &str,
        compression_level: i32,
        data_loss_threshold: usize,
    ) -> (r: Self)
        ensures
            r.wf(),
            r.spec_time_series()@ =~= Seq::<(u64, T)>::empty(),
            r.spec_time_series().spec_init_size() == time_series_cache_size,
            r.spec_cache_size() == time_series_cache_size,
            r.spec_compression_level() == compression_level,
            r.spec_loss_threshold() == data_loss_threshold,
            r.spec_data_path() == spec_data_dir_path(dir_path@),
    {
        let data_path = data_dir_path(dir_path);
        let time_series = TimeSeries::<T>::new(time_series_cache_size);
        SunnyDB {
            time_series,
            time_series_cache_size,
            data_path,
            compression_level,
            data_loss_threshold,
        }
    }

    /// The directory, relative to the store's root, where segment files
    /// live.
    pub fn get_data_path(&self) -> (r: &str)
        ensures
            r@ == self.spec_data_path(),
    {
        self.data_path.as_str()
    }

    /// Prepare the current buffer as a named segment blob.
    fn export_time_series_segment(&self) -> (w: SegmentWrite)
        requires
            self.wf(),
            self.time_series@.len() > 0,
        ensures
            zstd_decode_of(w.bytes@) == Some(
                spec_encode_series(self.time_series.spec_init_size(), self.time_series@),
            ),
            w.file_name@ == spec_segment_name(
                self.time_series@[0].0,
                self.time_series@[self.time_series@.len() - 1].0,
            ),
    {
        let start = match self.time_series.get_start_time() {
            Some(s) => s,
            None => {
                proof {
                    assert(false);
                }
                0
            },
        };
        let end = match self.time_series.get_end_time() {
            Some(e) => e,
            None => {
                proof {
                    assert(false);
                }
                0
            },
        };
        let file_name = segment_file_name(start, end);
        let bytes = self.time_series.to_compressed_json(self.compression_level);
        SegmentWrite { file_name, bytes }
    }

    /// Insert `value` at the current wall-clock time.  When the buffer
    /// reaches the flush threshold, the whole buffer comes back as exactly
    /// one segment blob to persist, and the buffer is replaced with a fresh
    /// empty one; otherwise nothing is returned and the entry stays
    /// buffered.
    pub fn insert_value_at_current_time(&mut self, value: T) -> (r: Option<SegmentWrite>)
        requires
            old(self).wf(),
        ensures
            final(self).wf(),
            final(self).spec_cache_size() == old(self).spec_cache_size(),
            final(self).spec_loss_threshold() == old(self).spec_loss_threshold(),
            final(self).spec_compression_level() == old(self).spec_compression_level(),
            final(self).spec_data_path() == old(self).spec_data_path(),
            exists|t: u64|
                #[trigger] spec_insert_outcome(*old(self), *final(self), r, t, value),
    {
        self.time_series.insert_value_at_current_time(value);
        let ghost mid = self.time_series@;
        let ghost t_witness = choose|t: u64|
            crate::timeseries::inserted_at(old(self).time_series@, mid, t, value);
        if self.time_series.len() >= self.time_series_cache_size {
            let w = self.export_time_series_segment();
            self.time_series = TimeSeries::<T>::new(self.time_series_cache_size);
            proof {
                assert(spec_insert_outcome(
                    *old(self),
                    *final(self),
                    Some(w),
                    t_witness,
                    value,
                ));
            }
            Some(w)
        } else {
            proof {
                assert(spec_insert_outcome(*old(self), *final(self), None, t_witness, value));
            }
            None
        }
    }

    /// Persist the buffer at shutdown without emptying it — but only when
    /// it holds strictly more entries than the loss threshold.  A smaller
    /// buffer is deliberately discarded so short runs do not clutter the
    /// store with tiny segments.
    pub fn lossy_persist(&self) -> (r: Option<SegmentWrite>)
        requires
            self.wf(),
        ensures
            self.spec_loss_threshold() < self.spec_time_series()@.len() ==> (r matches Some(w)
                && zstd_decode_of(w.bytes@) == Some(
                spec_encode_series(
                    self.spec_time_series().spec_init_size(),
                    self.spec_time_series()@,
                ),
            ) && w.file_name@ == spec_segment_name(
                self.spec_time_series()@[0].0,
                self.spec_time_series()@[self.spec_time_series()@.len() - 1].0,
            )),
            self.spec_loss_threshold() >= self.spec_time_series()@.len() ==> r is None,
    {
        if self.data_loss_threshold < self.time_series.len() {
            Some(self.export_time_series_segment())
        } else {
            None
        }
    }

    /// Locate, among parsed segment spans sorted by start time, the index
    /// range a query could touch.  The first index is the earliest segment
    /// that ends at or after the query's start (a time falling between two
    /// segments is attributed to the later one); the second is the latest
    /// segment that starts at or before the query's end.  Both are `None`
    /// when there are no segments or the query ends before the first one.
    pub fn find_persisted_segment_index(
        &self,
        segments: &Vec<(u64, u64)>,
        start_time: u64,
        end_time: u64,
    ) -> (r: (Option<usize>, Option<usize>))
        ensures
            (segments@.len() == 0 || end_time < segments@[0].0) ==> r == (
                None::<usize>,
                None::<usize>,
            ),
            segments@.len() > 0 && end_time >= segments@[0].0 ==> {
                &&& (match r.0 {
                    Some(i) => 0 <= i < segments@.len() && (#[trigger] segments@[i as int]).1
                        >= start_time && forall|j: int|
                        0 <= j < i ==> (#[trigger] segments@[j]).1 < start_time,
                    None => forall|j: int|
                        0 <= j < segments@.len() ==> (#[trigger] segments@[j]).1 < start_time,
                })
                &&& (match r.1 {
                    Some(i) => 0 <= i < segments@.len() && (#[trigger] segments@[i as int]).0
                        <= end_time && forall|j: int|
                        i < j < segments@.len() ==> (#[trigger] segments@[j]).0 > end_time,
                    None => false,
                })
            },
    {
        if segments.len() == 0 {
            return (None, None);
        }
        if end_time < segments[0].0 {
            return (None, None);
        }
        let n = segments.len();
        let mut start_segment_index: Option<usize> = None;
        let mut i: usize = 0;
        while i < n
            invariant_except_break
                start_segment_index is None,
            invariant
                n == segments@.len(),
                0 <= i <= n,
                forall|j: int| 0 <= j < i ==> (#[trigger] segments@[j]).1 < start_time,
            ensures
                match start_segment_index {
                    None => forall|j: int|
                        0 <= j < n ==> (#[trigger] segments@[j]).1 < start_time,
                    Some(x) => 0 <= x < n && segments@[x as int].1 >= start_time && forall|j: int|
                        0 <= j < x ==> (#[trigger] segments@[j]).1 < start_time,
                },
            decreases n - i,
        {
            if segments[i].1 >= start_time {
                start_segment_index = Some(i);
                break ;
            }
            i += 1;
        }
        let mut end_segment_index: usize = 0;
        let mut j: usize = 1;
        while j < n
            invariant
                n == segments@.len(),
                1 <= j <= n,
                0 <= end_segment_index < j,
                segments@[end_segment_index as int].0 <= end_time,
                forall|k: int|
                    end_segment_index < k < j ==> (#[trigger] segments@[k]).0 > end_time,
            decreases n - j,
        {
            if segments[j].0 <= end_time {
                end_segment_index = j;
            }
            j += 1;
        }
        (start_segment_index, Some(end_segment_index))
    }

    /// Answer a range query over already-decoded segments and the live
    /// buffer, per `spec_merge`: the buffer alone when it covers the
    /// window's start; otherwise every segment restricted to the window and
    /// concatenated in order, with the buffer's overlap appended last.
    /// Contributions that are not chronologically disjoint and ordered are
    /// refused as corrupt rather than silently tolerated.
    pub fn merge_segments_with_buffer(
        &self,
        start_time: u64,
        end_time: u64,
        segments: &Vec<TimeSeries<T>>,
    ) -> (r: Result<Option<TimeSeries<T>>, StoreError>)
        requires
            self.wf(),
            forall|i: int| 0 <= i < segments@.len() ==> (#[trigger] segments@[i]).wf(),
        ensures
            spec_merge_matches(
                self.spec_time_series()@,
                start_time,
                end_time,
                segments@.map_values(|t: TimeSeries<T>| t@),
                r,
            ),
    {
        let ghost buf = self.time_series@;
        let ghost segviews = segments@.map_values(|t: TimeSeries<T>| t@);
        let (s, e) = if start_time <= end_time {
            (start_time, end_time)
        } else {
            (end_time, start_time)
        };
        proof {
            assert(forall|i: int|
                0 <= i < segviews.len() ==> segviews[i] == (#[trigger] segments@[i])@);
        }
        match self.time_series.get_start_time() {
            Some(bs) => {
                if bs <= s {
                    return Ok(self.time_series.get_values_in_range(s, e));
                }
            },
            None => {},
        }
        let n = segments.len();
        let mut merged: Option<TimeSeries<T>> = None;
        let mut i: usize = 0;
        while i < n
            invariant
                self.wf(),
                buf == self.time_series@,
                s == (if start_time <= end_time {
                    start_time
                } else {
                    end_time
                }),
                e == (if start_time <= end_time {
                    end_time
                } else {
                    start_time
                }),
                buf.len() == 0 || buf[0].0 > s,
                forall|k: int| 0 <= k < segments@.len() ==> (#[trigger] segments@[k]).wf(),
                segviews == segments@.map_values(|t: TimeSeries<T>| t@),
                forall|k: int|
                    0 <= k < segviews.len() ==> segviews[k] == (#[trigger] segments@[k])@,
                n == segments@.len(),
                0 <= i <= n,
                spec_restricted_ordered(segviews.take(i as int), s, e),
                match merged {
                    None => spec_concat_restricted(segviews.take(i as int), s, e).len() == 0,
                    Some(m) => m.wf() && m@ == spec_concat_restricted(
                        segviews.take(i as int),
                        s,
                        e,
                    ) && m@.len() > 0,
                },
            decreases n - i,
        {
            let ghost prefix = segviews.take(i as int);
            let ghost prefix1 = segviews.take(i + 1);
            proof {
                assert(prefix1.drop_last() =~= prefix);
                assert(prefix1[prefix1.len() - 1] == segviews[i as int]);
                lemma_concat_restricted_snoc(prefix1, s, e);
            }
            match segments[i].get_values_in_range(s, e) {
                None => {
                    proof {
                        assert(spec_restricted(segviews[i as int], s, e).len() == 0);
                        assert(spec_concat_restricted(prefix1, s, e) =~= spec_concat_restricted(
                            prefix,
                            s,
                            e,
                        ));
                        assert forall|a: int, b: int|
                            #![trigger spec_restricted(prefix1[a], s, e), spec_restricted(prefix1[b], s, e)]
                            0 <= a < b < prefix1.len() && spec_restricted(prefix1[a], s, e).len()
                                > 0 && spec_restricted(prefix1[b], s, e).len()
                                > 0 implies spec_restricted(prefix1[a], s, e).last().0
                            <= spec_restricted(prefix1[b], s, e).first().0 by {
                            assert(prefix1[a] == segviews[a]);
                            assert(prefix1[b] == segviews[b]);
                            if b < i {
                                assert(prefix[a] == segviews[a]);
                                assert(prefix[b] == segviews[b]);
                            } else {
                                assert(spec_restricted(segviews[i as int], s, e).len() == 0);
                            }
                        }
                    }
                },
                Some(part) => {
                    let ghost pview = part@;
                    merged = Some(
                        match merged {
                            None => {
                                proof {
                                    assert forall|a: int|
                                        0 <= a < i implies spec_restricted(
                                        #[trigger] segviews[a],
                                        s,
                                        e,
                                    ).len() == 0 by {
                                        assert(prefix[a] == segviews[a]);
                                        lemma_concat_restricted_empty(prefix, s, e, a);
                                    }
                                    assert(spec_concat_restricted(prefix1, s, e)
                                        =~= spec_restricted(segviews[i as int], s, e));
                                    assert forall|a: int, b: int|
                                        #![trigger spec_restricted(prefix1[a], s, e), spec_restricted(prefix1[b], s, e)]
                                        0 <= a < b < prefix1.len() && spec_restricted(
                                            prefix1[a],
                                            s,
                                            e,
                                        ).len() > 0 && spec_restricted(prefix1[b], s, e).len()
                                            > 0 implies spec_restricted(prefix1[a], s, e).last().0
                                        <= spec_restricted(prefix1[b], s, e).first().0 by {
                                        assert(prefix1[a] == segviews[a]);
                                        assert(spec_restricted(segviews[a], s, e).len() == 0);
                                    }
                                }
                                part
                            },
                            Some(mut m) => {
                                let m_end = match m.get_end_time() {
                                    Some(me) => me,
                                    None => {
                                        proof {
                                            assert(false);
                                        }
                                        0
                                    },
                                };
                                let p_start = match part.get_start_time() {
                                    Some(ps) => ps,
                                    None => {
                                        proof {
                                            assert(false);
                                        }
                                        0
                                    },
                                };
                                if m_end > p_start {
                                    proof {
                                        // the clash is between the last
                                        // contributing segment and this one
                                        lemma_concat_restricted_last(prefix, s, e);
                                        let a = choose|a: int|
                                            0 <= a < prefix.len() && spec_restricted(
                                                #[trigger] prefix[a],
                                                s,
                                                e,
                                            ).len() > 0 && spec_concat_restricted(
                                                prefix,
                                                s,
                                                e,
                                            ).last() == spec_restricted(prefix[a], s, e).last();
                                        assert(prefix[a] == segviews[a]);
                                        assert(spec_restricted(segviews[a], s, e).last().0
                                            == m_end);
                                        assert(spec_restricted(segviews[i as int], s, e).first().0
                                            == p_start);
                                        assert(!spec_restricted_ordered(segviews, s, e));
                                    }
                                    return Err(StoreError::MisorderedSegments);
                                }
                                proof {
                                    let con = spec_concat_restricted(prefix, s, e);
                                    m.lemma_wf_implies_sorted();
                                    assert(m@.last().0 == m_end);
                                    assert(pview[0].0 == p_start);
                                    // orderedness extends: whatever an earlier
                                    // segment contributes sits at or before
                                    // the accumulated end
                                    assert forall|a: int, b: int|
                                        #![trigger spec_restricted(prefix1[a], s, e), spec_restricted(prefix1[b], s, e)]
                                        0 <= a < b < prefix1.len() && spec_restricted(
                                            prefix1[a],
                                            s,
                                            e,
                                        ).len() > 0 && spec_restricted(prefix1[b], s, e).len()
                                            > 0 implies spec_restricted(prefix1[a], s, e).last().0
                                        <= spec_restricted(prefix1[b], s, e).first().0 by {
                                        assert(prefix1[a] == segviews[a]);
                                        assert(prefix1[b] == segviews[b]);
                                        if b < i {
                                            assert(prefix[a] == segviews[a]);
                                            assert(prefix[b] == segviews[b]);
                                        } else {
                                            let pa = spec_restricted(segviews[a], s, e);
                                            assert(prefix[a] == segviews[a]);
                                            lemma_concat_restricted_contains(
                                                prefix,
                                                s,
                                                e,
                                                a,
                                                pa.len() - 1,
                                            );
                                            let idx = choose|idx: int|
                                                0 <= idx < con.len() && con[idx] == pa[pa.len()
                                                    - 1];
                                            assert(con.len() > 0);
                                            assert(con[idx].0 <= con[con.len() - 1].0);
                                            assert(pa.last().0 <= m_end);
                                            assert(spec_restricted(prefix1[b], s, e).first().0
                                                == p_start);
                                        }
                                    }
                                }
                                m.append(&part);
                                m
                            },
                        },
                    );
                    proof {
                        let m2 = merged->Some_0;
                        assert(m2@ == spec_concat_restricted(prefix1, s, e));
                        assert(spec_restricted_ordered(prefix1, s, e));
                    }
                },
            }
            i += 1;
        }
        proof {
            assert(segviews.take(n as int) =~= segviews);
        }
        match self.time_series.get_start_time() {
            Some(bs) => {
                if bs > e {
                    return Ok(merged);
                }
            },
            None => {},
        }
        let buffer_part = self.time_series.get_values_in_range(s, e);
        match (merged, buffer_part) {
            (None, None) => Ok(None),
            (None, Some(b)) => {
                proof {
                    assert(spec_concat_restricted(segviews, s, e) + spec_restricted(buf, s, e)
                        =~= spec_restricted(buf, s, e));
                }
                Ok(Some(b))
            },
            (Some(m), None) => {
                proof {
                    assert(spec_concat_restricted(segviews, s, e) + spec_restricted(buf, s, e)
                        =~= spec_concat_restricted(segviews, s, e));
                }
                Ok(Some(m))
            },
            (Some(mut m), Some(b)) => {
                let m_end = match m.get_end_time() {
                    Some(me) => me,
                    None => {
                        proof {
                            assert(false);
                        }
                        0
                    },
                };
                let b_start = match b.get_start_time() {
                    Some(bs) => bs,
                    None => {
                        proof {
                            assert(false);
                        }
                        0
                    },
                };
                if m_end > b_start {
                    return Err(StoreError::MisorderedSegments);
                }
                m.append(&b);
                Ok(Some(m))
            },
        }
    }
}

/// What one insert does to the store: the entry lands in the buffer in
/// timestamp order; when that fills the buffer to its threshold, the filled
/// buffer comes back as one named segment blob and the buffer is reset.
pub open spec fn spec_insert_outcome<T: Copy + SampleCodec>(
    pre: SunnyDB<T>,
    post: SunnyDB<T>,
    r: Option<SegmentWrite>,
    t: u64,
    value: T,
) -> bool {
    let buf = pre.spec_time_series()@;
    let mid = buf.insert(count_le(buf, t), (t, value));
    if mid.len() >= pre.spec_cache_size() {
        &&& r matches Some(w)
        &&& zstd_decode_of(w.bytes@) == Some(
            spec_encode_series(pre.spec_time_series().spec_init_size(), mid),
        )
        &&& w.file_name@ == spec_segment_name(mid[0].0, mid[mid.len() - 1].0)
        &&& post.spec_time_series()@ == Seq::<(u64, T)>::empty()
        &&& post.spec_time_series().spec_init_size() == pre.spec_cache_size()
    } else {
        &&& r is None
        &&& post.spec_time_series()@ == mid
        &&& post.spec_time_series().spec_init_size() == pre.spec_time_series().spec_init_size()
    }
}

/// The segment directory under the store's root: `<root>/data/`.
pub open spec fn spec_data_dir_path(dir: Seq<char>) -> Seq<char> {
    if dir.len() > 0 && dir.last() == '/' {
        dir + "data/"@
    } else {
        dir + "/data/"@
    }
}

fn data_dir_path(dir_path: &str) -> (r: String)
    ensures
        r@ == spec_data_dir_path(dir_path@),
{
    let n = dir_path.unicode_len();
    let ends_in_slash = n > 0 && dir_path.get_char(n - 1) == '/';
    let mut s = dir_path.to_owned();
    if ends_in_slash {
        s.append("data/");
    } else {
        s.append("/data/");
    }
    s
}

/// The restrictions of all segments to the query window, concatenated in
/// segment order.
pub open spec fn spec_concat_restricted<T>(
    segs: Seq<Seq<(u64, T)>>,
    start: u64,
    end: u64,
) -> Seq<(u64, T)>
    decreases segs.len(),
{
    if segs.len() == 0 {
        Seq::empty()
    } else {
        spec_restricted(segs[0], start, end) + spec_concat_restricted(
            segs.drop_first(),
            start,
            end,
        )
    }
}

/// Every two segments that contribute to the query window are
/// chronologically disjoint and in order.
pub open spec fn spec_restricted_ordered<T>(segs: Seq<Seq<(u64, T)>>, start: u64, end: u64) -> bool {
    forall|i: int, j: int|
        #![trigger spec_restricted(segs[i], start, end), spec_restricted(segs[j], start, end)]
        0 <= i < j < segs.len() && spec_restricted(segs[i], start, end).len() > 0
            && spec_restricted(segs[j], start, end).len() > 0 ==> spec_restricted(
            segs[i],
            start,
            end,
        ).last().0 <= spec_restricted(segs[j], start, end).first().0
}

/// What a range query returns, over the views of the live buffer and the
/// loaded segments: the normalized window; the buffer alone when it already
/// covers the window's start; otherwise the ordered concatenation of every
/// segment's restriction, followed by the buffer's restriction where the
/// buffer overlaps the window.  Misordered contributions are an error; the
/// result is `None` exactly when no entry at all falls in the window.
pub open spec fn spec_merge<T>(
    buf: Seq<(u64, T)>,
    q_start: u64,
    q_end: u64,
    segs: Seq<Seq<(u64, T)>>,
) -> Result<Option<Seq<(u64, T)>>, StoreError> {
    let s = if q_start <= q_end {
        q_start
    } else {
        q_end
    };
    let e = if q_start <= q_end {
        q_end
    } else {
        q_start
    };
    if buf.len() > 0 && buf[0].0 <= s {
        let bsel = spec_restricted(buf, s, e);
        Ok(
            if bsel.len() == 0 {
                None
            } else {
                Some(bsel)
            },
        )
    } else if !spec_restricted_ordered(segs, s, e) {
        Err(StoreError::MisorderedSegments)
    } else {
        let read = spec_concat_restricted(segs, s, e);
        if buf.len() > 0 && buf[0].0 > e {
            Ok(
                if read.len() == 0 {
                    None
                } else {
                    Some(read)
                },
            )
        } else {
            let bsel = spec_restricted(buf, s, e);
            if read.len() > 0 && bsel.len() > 0 && !(read.last().0 <= bsel[0].0) {
                Err(StoreError::MisorderedSegments)
            } else if read.len() == 0 && bsel.len() == 0 {
                Ok(None)
            } else {
                Ok(Some(read + bsel))
            }
        }
    }
}

/// `r` is `spec_merge`'s verdict, carried by executable values.
pub open spec fn spec_merge_matches<T>(
    buf: Seq<(u64, T)>,
    q_start: u64,
    q_end: u64,
    segs: Seq<Seq<(u64, T)>>,
    r: Result<Option<TimeSeries<T>>, StoreError>,
) -> bool {
    match spec_merge(buf, q_start, q_end, segs) {
        Err(err) => r == Err::<Option<TimeSeries<T>>, StoreError>(err),
        Ok(None) => r == Ok::<Option<TimeSeries<T>>, StoreError>(None),
        Ok(Some(v)) => r matches Ok(Some(ts)) && ts.wf() && ts@ == v,
    }
}

proof fn lemma_concat_restricted_snoc<T>(segs: Seq<Seq<(u64, T)>>, start: u64, end: u64)
    requires
        segs.len() > 0,
    ensures
        spec_concat_restricted(segs, start, end) == spec_concat_restricted(
            segs.drop_last(),
            start,
            end,
        ) + spec_restricted(segs[segs.len() - 1], start, end),
    decreases segs.len(),
{
    if segs.len() == 1 {
        assert(segs.drop_last() =~= Seq::<Seq<(u64, T)>>::empty());
        assert(segs.drop_first() =~= Seq::<Seq<(u64, T)>>::empty());
        assert(spec_concat_restricted(segs.drop_last(), start, end) + spec_restricted(
            segs[0],
            start,
            end,
        ) =~= spec_restricted(segs[0], start, end) + spec_concat_restricted(
            segs.drop_first(),
            start,
            end,
        ));
    } else {
        let d = segs.drop_first();
        lemma_concat_restricted_snoc(d, start, end);
        assert(d.drop_last() =~= segs.drop_last().drop_first());
        assert(segs.drop_last()[0] == segs[0]);
        assert(d[d.len() - 1] == segs[segs.len() - 1]);
        assert(spec_concat_restricted(segs.drop_last(), start, end) == spec_restricted(
            segs[0],
            start,
            end,
        ) + spec_concat_restricted(segs.drop_last().drop_first(), start, end));
        assert(spec_restricted(segs[0], start, end) + (spec_concat_restricted(
            d.drop_last(),
            start,
            end,
        ) + spec_restricted(segs[segs.len() - 1], start, end)) =~= (spec_restricted(
            segs[0],
            start,
            end,
        ) + spec_concat_restricted(d.drop_last(), start, end)) + spec_restricted(
            segs[segs.len() - 1],
            start,
            end,
        ));
    }
}

/// A non-empty concatenation ends with the last entry of the last segment
/// that contributes anything.
proof fn lemma_concat_restricted_last<T>(segs: Seq<Seq<(u64, T)>>, start: u64, end: u64)
    requires
        spec_concat_restricted(segs, start, end).len() > 0,
    ensures
        exists|a: int|
            0 <= a < segs.len() && spec_restricted(#[trigger] segs[a], start, end).len() > 0
                && spec_concat_restricted(segs, start, end).last() == spec_restricted(
                segs[a],
                start,
                end,
            ).last(),
    decreases segs.len(),
{
    let first = spec_restricted(segs[0], start, end);
    let rest = spec_concat_restricted(segs.drop_first(), start, end);
    if rest.len() > 0 {
        lemma_concat_restricted_last(segs.drop_first(), start, end);
        let a0 = choose|a: int|
            0 <= a < segs.drop_first().len() && spec_restricted(
                #[trigger] segs.drop_first()[a],
                start,
                end,
            ).len() > 0 && rest.last() == spec_restricted(segs.drop_first()[a], start, end).last();
        assert(segs.drop_first()[a0] == segs[a0 + 1]);
        assert((first + rest).last() == rest.last());
        assert(spec_restricted(segs[a0 + 1], start, end).len() > 0);
    } else {
        assert((first + rest).last() == first.last());
        assert(spec_restricted(segs[0], start, end).len() > 0);
    }
}

/// Every entry of a contributing segment's restriction appears in the
/// concatenation.
proof fn lemma_concat_restricted_contains<T>(
    segs: Seq<Seq<(u64, T)>>,
    start: u64,
    end: u64,
    a: int,
    k: int,
)
    requires
        0 <= a < segs.len(),
        0 <= k < spec_restricted(segs[a], start, end).len(),
    ensures
        spec_concat_restricted(segs, start, end).contains(
            spec_restricted(segs[a], start, end)[k],
        ),
    decreases segs.len(),
{
    let whole = spec_concat_restricted(segs, start, end);
    let first = spec_restricted(segs[0], start, end);
    let rest = spec_concat_restricted(segs.drop_first(), start, end);
    if a == 0 {
        assert(whole[k] == first[k]);
    } else {
        lemma_concat_restricted_contains(segs.drop_first(), start, end, a - 1, k);
        assert(segs.drop_first()[a - 1] == segs[a]);
        let idx = choose|idx: int|
            0 <= idx < rest.len() && rest[idx] == spec_restricted(segs[a], start, end)[k];
        assert(whole[first.len() + idx] == rest[idx]);
    }
}

/// An empty concatenation means no segment contributes anything.
proof fn lemma_concat_restricted_empty<T>(segs: Seq<Seq<(u64, T)>>, start: u64, end: u64, a: int)
    requires
        spec_concat_restricted(segs, start, end).len() == 0,
        0 <= a < segs.len(),
    ensures
        spec_restricted(segs[a], start, end).len() == 0,
    decreases segs.len(),
{
    if a > 0 {
        lemma_concat_restricted_empty(segs.drop_first(), start, end, a - 1);
        assert(segs.drop_first()[a - 1] == segs[a]);
    }
}

/// The segments' entries, concatenated in segment order without any
/// restriction.
pub open spec fn spec_concat_all<T>(segs: Seq<Seq<(u64, T)>>) -> Seq<(u64, T)>
    decreases segs.len(),
{
    if segs.len() == 0 {
        Seq::empty()
    } else {
        segs[0] + spec_concat_all(segs.drop_first())
    }
}

/// The summed length of all segments.
pub open spec fn spec_total_len<T>(segs: Seq<Seq<(u64, T)>>) -> int
    decreases segs.len(),
{
    if segs.len() == 0 {
        0
    } else {
        segs[0].len() + spec_total_len(segs.drop_first())
    }
}

proof fn lemma_concat_all_len<T>(segs: Seq<Seq<(u64, T)>>)
    ensures
        spec_concat_all(segs).len() == spec_total_len(segs),
    decreases segs.len(),
{
    if segs.len() > 0 {
        lemma_concat_all_len(segs.drop_first());
    }
}

proof fn lemma_concat_all_snoc<T>(segs: Seq<Seq<(u64, T)>>)
    requires
        segs.len() > 0,
    ensures
        spec_concat_all(segs) == spec_concat_all(segs.drop_last()) + segs[segs.len() - 1],
    decreases segs.len(),
{
    if segs.len() == 1 {
        assert(segs.drop_last() =~= Seq::<Seq<(u64, T)>>::empty());
        assert(segs.drop_first() =~= Seq::<Seq<(u64, T)>>::empty());
        assert(spec_concat_all(segs.drop_last()) + segs[0] =~= segs[0] + spec_concat_all(
            segs.drop_first(),
        ));
    } else {
        let d = segs.drop_first();
        lemma_concat_all_snoc(d);
        assert(d.drop_last() =~= segs.drop_last().drop_first());
        assert(segs.drop_last()[0] == segs[0]);
        assert(d[d.len() - 1] == segs[segs.len() - 1]);
        assert(segs[0] + (spec_concat_all(d.drop_last()) + segs[segs.len() - 1]) =~= (segs[0]
            + spec_concat_all(d.drop_last())) + segs[segs.len() - 1]);
    }
}

/// Non-empty sorted segments laid end to end, each ending at or before the
/// next one's start, concatenate to one sorted sequence.
proof fn lemma_concat_all_sorted<T>(segs: Seq<Seq<(u64, T)>>, lo: u64)
    requires
        forall|i: int|
            0 <= i < segs.len() ==> sorted_by_time(#[trigger] segs[i]) && segs[i].len() > 0,
        forall|i: int, j: int|
            0 <= i < j < segs.len() ==> (#[trigger] segs[i]).last().0
                <= (#[trigger] segs[j]).first().0,
        forall|i: int| 0 <= i < segs.len() ==> lo <= (#[trigger] segs[i]).first().0,
    ensures
        sorted_by_time(spec_concat_all(segs)),
        forall|k: int|
            0 <= k < spec_concat_all(segs).len() ==> lo <= (#[trigger] spec_concat_all(
                segs,
            )[k]).0,
    decreases segs.len(),
{
    if segs.len() > 0 {
        let first = segs[0];
        let d = segs.drop_first();
        let rest = spec_concat_all(d);
        assert(forall|i: int| 0 <= i < d.len() ==> d[i] == segs[i + 1]);
        lemma_concat_all_sorted(d, first.last().0);
        let whole = spec_concat_all(segs);
        assert(whole == first + rest);
        assert forall|a: int, b: int| 0 <= a <= b < whole.len() implies (#[trigger] whole[a]).0
            <= (#[trigger] whole[b]).0 by {
            let n0 = first.len();
            if a < n0 && b < n0 {
                assert(whole[a] == first[a] && whole[b] == first[b]);
            } else if a >= n0 && b >= n0 {
                assert(whole[a] == rest[a - n0] && whole[b] == rest[b - n0]);
            } else {
                assert(whole[a] == first[a] && whole[b] == rest[b - n0]);
                assert(first[a].0 <= first[n0 - 1].0);
                assert(first.last().0 <= rest[b - n0].0);
            }
        }
        assert forall|k: int| 0 <= k < whole.len() implies lo <= (#[trigger] whole[k]).0 by {
            let n0 = first.len();
            if k < n0 {
                assert(whole[k] == first[k]);
                assert(first[0].0 <= first[k].0);
            } else {
                assert(whole[k] == rest[k - n0]);
                assert(first.last().0 <= rest[k - n0].0);
                assert(first[0].0 <= first.last().0);
            }
        }
    }
}

/// A sorted segment that lies entirely inside the half-open query window
/// `(start, end]` is selected whole.
proof fn lemma_restricted_whole<T>(s: Seq<(u64, T)>, start: u64, end: u64)
    requires
        sorted_by_time(s),
        s.len() > 0,
        forall|k: int| 0 <= k < s.len() ==> start < (#[trigger] s[k]).0 <= end,
    ensures
        spec_restricted(s, start, end) == s,
{
    crate::timeseries::lemma_count_le_sorted(s, start);
    crate::timeseries::lemma_count_le_sorted(s, end);
    assert(s[0].0 <= end);
    assert(crate::timeseries::range_lo(s, start) == 0) by {
        if s[0].0 <= start && start <= s[s.len() - 1].0 {
            if count_le(s, start) > 0 {
                assert(s[0].0 <= start);
                assert(start < s[0].0);
            }
        }
    }
    assert(crate::timeseries::range_hi(s, end) == s.len()) by {
        if s[0].0 <= end && end <= s[s.len() - 1].0 {
            if count_le(s, end) < s.len() {
                assert(s[count_le(s, end)].0 > end);
                assert(s[count_le(s, end)].0 <= end);
            }
        }
    }
    assert(s.subrange(0, s.len() as int) =~= s);
}

/// With every segment selected whole, the restricted concatenation is the
/// plain one.
proof fn lemma_concat_restricted_eq_all<T>(segs: Seq<Seq<(u64, T)>>, start: u64, end: u64)
    requires
        forall|i: int|
            0 <= i < segs.len() ==> spec_restricted(#[trigger] segs[i], start, end) == segs[i],
    ensures
        spec_concat_restricted(segs, start, end) == spec_concat_all(segs),
    decreases segs.len(),
{
    if segs.len() > 0 {
        assert(forall|i: int|
            0 <= i < segs.drop_first().len() ==> (#[trigger] segs.drop_first()[i]) == segs[i
                + 1]);
        lemma_concat_restricted_eq_all(segs.drop_first(), start, end);
    }
}

/// Cross-segment stitching law: when the store's data sits entirely in
/// persisted segments — the live buffer empty, every segment sorted,
/// non-empty, inside the query window `(start, end]`, and chronologically
/// disjoint in order — a range query returns every segment's every entry,
/// concatenated in order: ascending in time, with no entry duplicated or
/// dropped.
pub proof fn lemma_cross_segment_stitching<T: Copy + SampleCodec>(
    buf: Seq<(u64, T)>,
    q_start: u64,
    q_end: u64,
    segs: Seq<Seq<(u64, T)>>,
)
    requires
        buf.len() == 0,
        q_start <= q_end,
        segs.len() > 0,
        forall|i: int|
            0 <= i < segs.len() ==> sorted_by_time(#[trigger] segs[i]) && segs[i].len() > 0,
        forall|i: int, k: int|
            0 <= i < segs.len() && 0 <= k < segs[i].len() ==> q_start < (#[trigger] segs[i][k]).0
                <= q_end,
        forall|i: int, j: int|
            0 <= i < j < segs.len() ==> (#[trigger] segs[i]).last().0
                <= (#[trigger] segs[j]).first().0,
    ensures
        spec_merge(buf, q_start, q_end, segs) == Ok::<Option<Seq<(u64, T)>>, StoreError>(
            Some(spec_concat_all(segs)),
        ),
        sorted_by_time(spec_concat_all(segs)),
        spec_concat_all(segs).len() == spec_total_len(segs),
{
    assert forall|i: int| 0 <= i < segs.len() implies spec_restricted(
        #[trigger] segs[i],
        q_start,
        q_end,
    ) == segs[i] by {
        assert(forall|k: int|
            0 <= k < segs[i].len() ==> q_start < (#[trigger] segs[i][k]).0 <= q_end);
        lemma_restricted_whole(segs[i], q_start, q_end);
    }
    lemma_concat_restricted_eq_all(segs, q_start, q_end);
    lemma_concat_all_len(segs);
    lemma_concat_all_sorted(segs, 0);
    let read = spec_concat_restricted(segs, q_start, q_end);
    assert(read.len() >= segs[0].len() > 0) by {
        lemma_concat_all_len(segs);
        assert(spec_total_len(segs) >= segs[0].len()) by {
            lemma_concat_all_len(segs.drop_first());
            lemma_concat_all_len(segs);
            assert(spec_total_len(segs.drop_first()) == spec_concat_all(
                segs.drop_first(),
            ).len() >= 0);
        }
    }
    assert(spec_restricted(buf, q_start, q_end).len() == 0);
    assert(read + spec_restricted(buf, q_start, q_end) =~= spec_concat_all(segs));
}

/// Merge-with-live-buffer law: a query window spanning persisted segments
/// and the still-open buffer — the buffer non-empty, everything sorted,
/// inside the window, and the segments chronologically before the buffer —
/// returns the segments' entries followed by the buffer's, contiguous and
/// in ascending time order.
pub proof fn lemma_merge_with_live_buffer<T: Copy + SampleCodec>(
    buf: Seq<(u64, T)>,
    q_start: u64,
    q_end: u64,
    segs: Seq<Seq<(u64, T)>>,
)
    requires
        q_start <= q_end,
        segs.len() > 0,
        buf.len() > 0,
        sorted_by_time(buf),
        forall|k: int| 0 <= k < buf.len() ==> q_start < (#[trigger] buf[k]).0 <= q_end,
        forall|i: int|
            0 <= i < segs.len() ==> sorted_by_time(#[trigger] segs[i]) && segs[i].len() > 0,
        forall|i: int, k: int|
            0 <= i < segs.len() && 0 <= k < segs[i].len() ==> q_start < (#[trigger] segs[i][k]).0
                <= q_end,
        forall|i: int, j: int|
            0 <= i < j < segs.len() ==> (#[trigger] segs[i]).last().0
                <= (#[trigger] segs[j]).first().0,
        forall|i: int| 0 <= i < segs.len() ==> (#[trigger] segs[i]).last().0 <= buf[0].0,
    ensures
        spec_merge(buf, q_start, q_end, segs) == Ok::<Option<Seq<(u64, T)>>, StoreError>(
            Some(spec_concat_all(segs) + buf),
        ),
        sorted_by_time(spec_concat_all(segs) + buf),
        (spec_concat_all(segs) + buf).len() == spec_total_len(segs) + buf.len(),
{
    assert forall|i: int| 0 <= i < segs.len() implies spec_restricted(
        #[trigger] segs[i],
        q_start,
        q_end,
    ) == segs[i] by {
        assert(forall|k: int|
            0 <= k < segs[i].len() ==> q_start < (#[trigger] segs[i][k]).0 <= q_end);
        lemma_restricted_whole(segs[i], q_start, q_end);
    }
    lemma_restricted_whole(buf, q_start, q_end);
    lemma_concat_restricted_eq_all(segs, q_start, q_end);
    lemma_concat_all_len(segs);
    let read = spec_concat_restricted(segs, q_start, q_end);
    assert(read.len() >= segs[0].len() > 0) by {
        lemma_concat_all_len(segs.drop_first());
        assert(spec_total_len(segs.drop_first()) == spec_concat_all(segs.drop_first()).len()
            >= 0);
    }
    // the whole concatenation, buffer last, is ordered
    let with_buf = segs.push(buf);
    assert(forall|i: int| 0 <= i < with_buf.len() - 1 ==> with_buf[i] == (#[trigger] segs[i]));
    assert(with_buf[with_buf.len() - 1] == buf);
    lemma_concat_all_sorted(with_buf, 0);
    lemma_concat_all_snoc(with_buf);
    assert(with_buf.drop_last() =~= segs);
    assert(read.last().0 <= buf[0].0) by {
        lemma_concat_restricted_last(segs, q_start, q_end);
        let a = choose|a: int|
            0 <= a < segs.len() && spec_restricted(#[trigger] segs[a], q_start, q_end).len() > 0
                && read.last() == spec_restricted(segs[a], q_start, q_end).last();
        assert(spec_restricted(segs[a], q_start, q_end) == segs[a]);
    }
    assert(q_start < buf[0].0);
}

/// `b` is the compressed framing of some sorted series.
pub open spec fn spec_is_series_blob<T: Copy + SampleCodec>(b: Seq<u8>) -> bool {
    exists|init: usize, s: Seq<(u64, T)>|
        sorted_by_time(s) && zstd_decode_of(b) == Some(#[trigger] spec_encode_series(init, s))
}

/// `ts` is what `b` decodes to under `from_compressed_json`'s contract.
pub open spec fn spec_decodes_to<T: Copy + SampleCodec>(b: Seq<u8>, ts: TimeSeries<T>) -> bool {
    ts.wf() && zstd_decode_of(b) == Some(spec_encode_series(ts.spec_init_size(), ts@))
}

/// `segs` is what the bodies decode to, in order: each body that is the
/// compressed framing of a sorted series contributes that series, and every
/// other body is skipped.
pub open spec fn spec_decoded_list<T: Copy + SampleCodec>(
    bodies: Seq<Seq<u8>>,
    segs: Seq<TimeSeries<T>>,
) -> bool
    decreases bodies.len(),
{
    if bodies.len() == 0 {
        segs.len() == 0
    } else if spec_is_series_blob::<T>(bodies[0]) {
        segs.len() > 0 && spec_decodes_to(bodies[0], segs[0]) && spec_decoded_list(
            bodies.drop_first(),
            segs.drop_first(),
        )
    } else {
        spec_decoded_list(bodies.drop_first(), segs)
    }
}

proof fn lemma_decoded_list_push<T: Copy + SampleCodec>(
    bodies: Seq<Seq<u8>>,
    segs: Seq<TimeSeries<T>>,
    b: Seq<u8>,
    t: Option<TimeSeries<T>>,
)
    requires
        spec_decoded_list(bodies, segs),
        match t {
            Some(ts) => spec_decodes_to(b, ts),
            None => !spec_is_series_blob::<T>(b),
        },
    ensures
        match t {
            Some(ts) => spec_decoded_list(bodies.push(b), segs.push(ts)),
            None => spec_decoded_list(bodies.push(b), segs),
        },
    decreases bodies.len(),
{
    match t {
        Some(ts) => {
            ts.lemma_wf_implies_sorted();
            assert(spec_is_series_blob::<T>(b)) by {
                assert(sorted_by_time(ts@) && zstd_decode_of(b) == Some(
                    spec_encode_series(ts.spec_init_size(), ts@),
                ));
            }
        },
        None => {},
    }
    if bodies.len() == 0 {
        let bodies1 = bodies.push(b);
        assert(bodies1[0] == b);
        assert(bodies1.drop_first() =~= Seq::<Seq<u8>>::empty());
        match t {
            Some(ts) => {
                assert(segs.push(ts)[0] == ts);
                assert(segs.push(ts).drop_first() =~= Seq::<TimeSeries<T>>::empty());
                assert(spec_decoded_list(bodies1.drop_first(), segs.push(ts).drop_first()));
            },
            None => {
                assert(spec_decoded_list(bodies1.drop_first(), segs));
            },
        }
    } else {
        let bodies1 = bodies.push(b);
        assert(bodies1[0] == bodies[0]);
        assert(bodies1.drop_first() =~= bodies.drop_first().push(b));
        if spec_is_series_blob::<T>(bodies[0]) {
            lemma_decoded_list_push(bodies.drop_first(), segs.drop_first(), b, t);
            match t {
                Some(ts) => {
                    assert(segs.push(ts)[0] == segs[0]);
                    assert(segs.push(ts).drop_first() =~= segs.drop_first().push(ts));
                },
                None => {},
            }
        } else {
            lemma_decoded_list_push(bodies.drop_first(), segs, b, t);
        }
    }
}

impl<T: Copy + SampleCodec> SunnyDB<T> {
    /// What a query over loaded segment bodies returns: the bodies decode —
    /// in order, skipping any that is not a persisted series — and the
    /// decoded segments merge with the live buffer per `spec_merge`.
    pub open spec fn spec_query_outcome(
        self,
        q_start: u64,
        q_end: u64,
        bodies: Seq<Seq<u8>>,
        r: Result<Option<TimeSeries<T>>, StoreError>,
    ) -> bool {
        exists|segs: Seq<TimeSeries<T>>|
            {
                &&& #[trigger] spec_decoded_list(bodies, segs)
                &&& spec_merge_matches(
                    self.spec_time_series()@,
                    q_start,
                    q_end,
                    segs.map_values(|t: TimeSeries<T>| t@),
                    r,
                )
            }
    }

    /// Answer a range query: decode the loaded segment bodies (skipping any
    /// that is not a persisted series), restrict each to the window, and
    /// merge them with the live buffer.  `Ok(None)` means no entry falls in
    /// the window; a misordered pair of contributions is refused as
    /// corrupt.
    pub fn get_values_in_range(
        &self,
        start_time: u64,
        end_time: u64,
        segment_bodies: &Vec<Vec<u8>>,
    ) -> (r: Result<Option<TimeSeries<T>>, StoreError>)
        requires
            self.wf(),
        ensures
            self.spec_query_outcome(
                start_time,
                end_time,
                segment_bodies@.map_values(|b: Vec<u8>| b@),
                r,
            ),
    {
        let ghost bodyviews = segment_bodies@.map_values(|b: Vec<u8>| b@);
        let mut segs: Vec<TimeSeries<T>> = Vec::new();
        let mut i: usize = 0;
        proof {
            assert(bodyviews.take(0) =~= Seq::<Seq<u8>>::empty());
            assert(forall|k: int|
                0 <= k < bodyviews.len() ==> bodyviews[k] == (#[trigger] segment_bodies@[k])@);
        }
        while i < segment_bodies.len()
            invariant
                self.wf(),
                bodyviews == segment_bodies@.map_values(|b: Vec<u8>| b@),
                forall|k: int|
                    0 <= k < bodyviews.len() ==> bodyviews[k] == (#[trigger] segment_bodies@[k])@,
                0 <= i <= segment_bodies@.len(),
                spec_decoded_list(bodyviews.take(i as int), segs@),
                forall|k: int| 0 <= k < segs@.len() ==> (#[trigger] segs@[k]).wf(),
            decreases segment_bodies@.len() - i,
        {
            let ghost pre_segs = segs@;
            let body = segment_bodies[i].as_slice();
            match TimeSeries::<T>::from_compressed_json(body) {
                Some(ts) => {
                    proof {
                        lemma_decoded_list_push(
                            bodyviews.take(i as int),
                            pre_segs,
                            bodyviews[i as int],
                            Some(ts),
                        );
                    }
                    segs.push(ts);
                },
                None => {
                    proof {
                        assert(!spec_is_series_blob::<T>(bodyviews[i as int])) by {
                            if spec_is_series_blob::<T>(bodyviews[i as int]) {
                                let (init2, s2) = choose|init2: usize, s2: Seq<(u64, T)>|
                                    sorted_by_time(s2) && zstd_decode_of(bodyviews[i as int])
                                        == Some(#[trigger] spec_encode_series(init2, s2));
                                assert(false);
                            }
                        }
                        lemma_decoded_list_push(
                            bodyviews.take(i as int),
                            pre_segs,
                            bodyviews[i as int],
                            None,
                        );
                    }
                },
            }
            proof {
                assert(bodyviews.take(i + 1) =~= bodyviews.take(i as int).push(
                    bodyviews[i as int],
                ));
            }
            i += 1;
        }
        proof {
            assert(bodyviews.take(segment_bodies@.len() as int) =~= bodyviews);
        }
        let r = self.merge_segments_with_buffer(start_time, end_time, &segs);
        proof {
            assert(spec_decoded_list(bodyviews, segs@) && spec_merge_matches(
                self.spec_time_series()@,
                start_time,
                end_time,
                segs@.map_values(|t: TimeSeries<T>| t@),
                r,
            ));
        }
        r
    }

    /// The query that `get_all_values` answers: everything from time zero
    /// to some end — the buffer's last timestamp whenever the buffer is
    /// non-empty.
    pub open spec fn spec_all_values_outcome(
        self,
        bodies: Seq<Seq<u8>>,
        r: Result<Option<TimeSeries<T>>, StoreError>,
    ) -> bool {
        exists|e2: u64|
            #[trigger] self.spec_query_outcome(0, e2, bodies, r) && (
            self.spec_time_series()@.len() > 0 ==> e2 == self.spec_time_series()@[
                self.spec_time_series()@.len() - 1].0)
    }

    /// Every value the store can see: a query from time zero to the
    /// buffer's end — or to the current wall-clock time when the buffer is
    /// empty.
    pub fn get_all_values(&self, segment_bodies: &Vec<Vec<u8>>) -> (r: Result<
        Option<TimeSeries<T>>,
        StoreError,
    >)
        requires
            self.wf(),
        ensures
            self.spec_all_values_outcome(segment_bodies@.map_values(|b: Vec<u8>| b@), r),
    {
        let end_time = match self.time_series.get_end_time() {
            Some(e) => e,
            None => crate::timeseries::system_time_now().timestamp(),
        };
        let r = self.get_values_in_range(0, end_time, segment_bodies);
        proof {
            assert(self.spec_query_outcome(
                0,
                end_time,
                segment_bodies@.map_values(|b: Vec<u8>| b@),
                r,
            ));
        }
        r
    }
}

/// Render the file name of a segment spanning `[a, b]`.
pub fn segment_file_name(a: u64, b: u64) -> (r: String)
    ensures
        r@ == spec_segment_name(a, b),
{
    let mut s = u64_to_dec_string(a);
    s.append("-");
    let second = u64_to_dec_string(b);
    s.append(second.as_str());
    proof {
        reveal_strlit("-");
        assert("-"@ =~= seq!['-']);
        assert(s@ =~= spec_segment_name(a, b));
    }
    s
}

/// Parse a file name of the form `<start>-<end>`, both decimal.  Anything
/// else — no dash, more than one dash, an empty side, a non-digit, a value
/// over `u64::MAX` — is not a segment name and yields `None`.
pub fn parse_filename_to_times(file_name: &str) -> (r: Option<(u64, u64)>)
    ensures
        forall|i: int|
            #[trigger] spec_split_ok(file_name@, i) ==> r == Some(
                (
                    spec_dec_val(file_name@.take(i)) as u64,
                    spec_dec_val(file_name@.skip(i + 1)) as u64,
                ),
            ),
        r is Some ==> exists|i: int| #[trigger] spec_split_ok(file_name@, i),
{
    let s = file_name;
    let n = s.unicode_len();
    let mut dash_idx: usize = 0;
    let mut dash2_idx: usize = 0;
    let mut dash_count: usize = 0;
    let mut i: usize = 0;
    while i < n
        invariant
            n == s@.len(),
            0 <= i <= n,
            dash_count <= i,
            dash_count == 0 ==> forall|j: int| 0 <= j < i ==> (#[trigger] s@[j]) != '-',
            dash_count > 0 ==> 0 <= dash_idx < i && s@[dash_idx as int] == '-',
            dash_count == 1 ==> forall|j: int|
                0 <= j < i && j != dash_idx ==> (#[trigger] s@[j]) != '-',
            dash_count >= 2 ==> dash_idx < dash2_idx < i && s@[dash2_idx as int] == '-',
        decreases n - i,
    {
        if s.get_char(i) == '-' {
            if dash_count == 0 {
                dash_idx = i;
            } else if dash_count == 1 {
                dash2_idx = i;
            }
            dash_count += 1;
        }
        i += 1;
    }
    if dash_count != 1 {
        proof {
            assert forall|i2: int| !(#[trigger] spec_split_ok(s@, i2)) by {
                if spec_split_ok(s@, i2) {
                    // every other position is a digit, so `i2` is the only
                    // dash in the string
                    assert forall|j: int| 0 <= j < s@.len() && j != i2 implies (
                    #[trigger] s@[j]) != '-' by {
                        if j < i2 {
                            assert(s@.take(i2)[j] == s@[j]);
                            assert(spec_is_digit(s@[j]));
                        } else {
                            assert(s@.skip(i2 + 1)[j - i2 - 1] == s@[j]);
                            assert(spec_is_digit(s@[j]));
                        }
                        assert(('-' as int) == 45);
                    }
                    if dash_count == 0 {
                        assert(s@[i2] != '-');
                    } else {
                        assert(dash_idx as int == i2 && dash2_idx as int == i2);
                    }
                }
            }
        }
        return None;
    }
    proof {
        // with exactly one dash, only a split at that dash can be valid
        assert forall|i2: int| #[trigger] spec_split_ok(s@, i2) implies i2 == dash_idx as int by {
            if i2 != dash_idx as int {
                if (dash_idx as int) < i2 {
                    assert(s@.take(i2)[dash_idx as int] == s@[dash_idx as int]);
                    assert(spec_is_digit(s@[dash_idx as int]));
                } else {
                    assert(s@.skip(i2 + 1)[dash_idx as int - i2 - 1] == s@[dash_idx as int]);
                    assert(spec_is_digit(s@[dash_idx as int]));
                }
                assert(('-' as int) == 45);
                assert(s@[dash_idx as int] != '-');
            }
        }
    }
    if dash_idx == 0 || dash_idx >= n - 1 {
        return None;
    }
    let first = s.substring_char(0, dash_idx);
    let second = s.substring_char(dash_idx + 1, n);
    proof {
        assert(first@ == s@.take(dash_idx as int));
        assert(second@ == s@.skip(dash_idx as int + 1));
    }
    let start_timestamp = match parse_u64_dec(first) {
        Some(v) => v,
        None => {
            return None;
        },
    };
    let end_timestamp = match parse_u64_dec(second) {
        Some(v) => v,
        None => {
            return None;
        },
    };
    proof {
        assert(spec_split_ok(s@, dash_idx as int));
    }
    Some((start_timestamp, end_timestamp))
}

} // verus!
