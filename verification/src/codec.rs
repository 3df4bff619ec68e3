//! Binary encoding of a series and its compressed persisted form.
//!
//! A series is framed as: the capacity hint (8 bytes little endian), the
//! entry count (8 bytes), then one frame per entry — timestamp (8 bytes),
//! sample length (8 bytes), sample bytes.  The framed bytes are then run
//! through zstd stream compression.

use vstd::prelude::*;
use vstd::bytes::{
    lemma_auto_spec_u64_to_from_le_bytes, spec_u64_from_le_bytes, spec_u64_to_le_bytes,
    u64_from_le_bytes, u64_to_le_bytes,
};
use vstd::slice::slice_subrange;
use crate::timeseries::{sorted_by_time, TimeSeries};

verus! {

/// The sample-type contract for persistence: a sample maps to a byte string
/// and back, exactly.  Implementors promise that `sample_from_bytes` returns
/// `Some(s)` on exactly the byte strings that `sample_to_bytes` produces for
/// `s`, so that decoding inverts encoding bit for bit.
pub trait SampleCodec: Sized + Copy {
    /// The byte string that this sample serializes to.  Implementors
    /// override this; the default stands for nothing.
    open spec fn byte_view(&self) -> Seq<u8> {
        vstd::pervasive::arbitrary()
    }

    fn sample_to_bytes(&self) -> (r: Vec<u8>)
        ensures
            r@ == self.byte_view(),
    ;

    fn sample_from_bytes(bytes: &[u8]) -> (r: Option<Self>)
        ensures
            forall|s: Self| bytes@ == #[trigger] s.byte_view() ==> r == Some(s),
            r matches Some(s) ==> bytes@ == s.byte_view(),
    ;
}

impl SampleCodec for u64 {
    open spec fn byte_view(&self) -> Seq<u8> {
        spec_u64_to_le_bytes(*self)
    }

    fn sample_to_bytes(&self) -> (r: Vec<u8>) {
        u64_to_le_bytes(*self)
    }

    fn sample_from_bytes(bytes: &[u8]) -> (r: Option<Self>) {
        proof {
            lemma_auto_spec_u64_to_from_le_bytes();
        }
        if bytes.len() != 8 {
            proof {
                assert forall|s: u64| bytes@ != #[trigger] s.byte_view() by {
                    assert(s.byte_view().len() == 8);
                }
            }
            return None;
        }
        Some(u64_from_le_bytes(bytes))
    }
}

/// The frame of one entry: timestamp, sample length, sample bytes.
pub open spec fn spec_encode_entry<T: SampleCodec>(e: (u64, T)) -> Seq<u8> {
    spec_u64_to_le_bytes(e.0) + spec_u64_to_le_bytes(e.1.byte_view().len() as u64)
        + e.1.byte_view()
}

/// The concatenated frames of a sequence of entries, first entry first.
pub open spec fn spec_encode_entries<T: SampleCodec>(s: Seq<(u64, T)>) -> Seq<u8>
    decreases s.len(),
{
    if s.len() == 0 {
        Seq::empty()
    } else {
        spec_encode_entry(s[0]) + spec_encode_entries(s.drop_first())
    }
}

/// The full uncompressed framing of a series: capacity hint, entry count,
/// entry frames.
pub open spec fn spec_encode_series<T: SampleCodec>(init_size: usize, s: Seq<(u64, T)>) -> Seq<
    u8,
> {
    spec_u64_to_le_bytes(init_size as u64) + spec_u64_to_le_bytes(s.len() as u64)
        + spec_encode_entries(s)
}

proof fn lemma_encode_entries_snoc<T: SampleCodec>(s: Seq<(u64, T)>)
    requires
        s.len() > 0,
    ensures
        spec_encode_entries(s) == spec_encode_entries(s.drop_last()) + spec_encode_entry(
            s[s.len() - 1],
        ),
    decreases s.len(),
{
    if s.len() == 1 {
        assert(s.drop_last() =~= Seq::<(u64, T)>::empty());
        assert(s.drop_first() =~= Seq::<(u64, T)>::empty());
        assert(spec_encode_entries(s.drop_last()) + spec_encode_entry(s[0]) =~= spec_encode_entry(
            s[0],
        ) + spec_encode_entries(s.drop_first()));
    } else {
        let d = s.drop_first();
        lemma_encode_entries_snoc(d);
        assert(d.drop_last() =~= s.drop_last().drop_first());
        assert(s.drop_last()[0] == s[0]);
        assert(d[d.len() - 1] == s[s.len() - 1]);
        assert(spec_encode_entries(s.drop_last()) == spec_encode_entry(s[0])
            + spec_encode_entries(s.drop_last().drop_first()));
        assert(spec_encode_entry(s[0]) + (spec_encode_entries(d.drop_last())
            + spec_encode_entry(s[s.len() - 1])) =~= (spec_encode_entry(s[0])
            + spec_encode_entries(d.drop_last())) + spec_encode_entry(s[s.len() - 1]));
    }
}

proof fn lemma_encode_entries_len<T: SampleCodec>(s: Seq<(u64, T)>)
    ensures
        spec_encode_entries(s).len() >= 16 * s.len(),
    decreases s.len(),
{
    lemma_auto_spec_u64_to_from_le_bytes();
    if s.len() > 0 {
        lemma_encode_entries_len(s.drop_first());
    }
}

/// Split a series framing into its three parts.
proof fn lemma_series_decompose<T: SampleCodec>(b: Seq<u8>, init_size: usize, s: Seq<(u64, T)>)
    requires
        b == spec_encode_series(init_size, s),
    ensures
        b.len() >= 16,
        b.subrange(0, 8) == spec_u64_to_le_bytes(init_size as u64),
        b.subrange(8, 16) == spec_u64_to_le_bytes(s.len() as u64),
        b.skip(16) == spec_encode_entries(s),
{
    lemma_auto_spec_u64_to_from_le_bytes();
    assert(b.subrange(0, 8) =~= spec_u64_to_le_bytes(init_size as u64));
    assert(b.subrange(8, 16) =~= spec_u64_to_le_bytes(s.len() as u64));
    assert(b.skip(16) =~= spec_encode_entries(s));
}

/// Split the byte string at an entry frame's front into the frame's three
/// fields and the rest.
proof fn lemma_frame_decompose<T: SampleCodec>(b: Seq<u8>, pos: int, e: (u64, T), rest: Seq<u8>)
    requires
        0 <= pos <= b.len(),
        b.skip(pos) == spec_encode_entry(e) + rest,
    ensures
        pos + 16 + e.1.byte_view().len() <= b.len(),
        b.subrange(pos, pos + 8) == spec_u64_to_le_bytes(e.0),
        b.subrange(pos + 8, pos + 16) == spec_u64_to_le_bytes(e.1.byte_view().len() as u64),
        b.subrange(pos + 16, pos + 16 + e.1.byte_view().len()) == e.1.byte_view(),
        b.skip(pos + 16 + e.1.byte_view().len()) == rest,
{
    lemma_auto_spec_u64_to_from_le_bytes();
    let x = spec_u64_to_le_bytes(e.0);
    let y = spec_u64_to_le_bytes(e.1.byte_view().len() as u64);
    let z = e.1.byte_view();
    let u = b.skip(pos);
    assert(x.len() == 8 && y.len() == 8);
    assert(u.len() == b.len() - pos);
    assert(u.len() == 16 + z.len() + rest.len());
    assert(forall|j: int| 0 <= j < u.len() ==> u[j] == b[pos + j]);
    assert forall|j: int| 0 <= j < u.len() implies u[j] == (if j < 8 {
        x[j]
    } else if j < 16 {
        y[j - 8]
    } else if j < 16 + z.len() {
        z[j - 16]
    } else {
        rest[j - 16 - z.len()]
    }) by {
        assert(u == ((x + y) + z) + rest);
        assert(u[j] == (((x + y) + z) + rest)[j]);
    }
    assert forall|j: int| 0 <= j < 8 implies b.subrange(pos, pos + 8)[j] == x[j] by {
        assert(u[j] == x[j]);
        assert(b[pos + j] == u[j]);
    }
    assert(b.subrange(pos, pos + 8) =~= x);
    assert forall|j: int| 0 <= j < 8 implies b.subrange(pos + 8, pos + 16)[j] == y[j] by {
        assert(u[8 + j] == y[j]);
        assert(b[pos + 8 + j] == u[8 + j]);
    }
    assert(b.subrange(pos + 8, pos + 16) =~= y);
    assert forall|j: int| 0 <= j < z.len() implies b.subrange(pos + 16, pos + 16 + z.len())[j]
        == z[j] by {
        assert(u[16 + j] == z[j]);
        assert(b[pos + 16 + j] == u[16 + j]);
    }
    assert(b.subrange(pos + 16, pos + 16 + z.len()) =~= z);
    assert forall|j: int| 0 <= j < rest.len() implies b.skip(pos + 16 + z.len())[j] == rest[j] by {
        assert(u[16 + z.len() + j] == rest[j]);
        assert(b[pos + 16 + z.len() + j] == u[16 + z.len() + j]);
    }
    assert(b.skip(pos + 16 + z.len()) =~= rest);
}

/// At position `pos`, the unparsed remainder of a series framing starts
/// with the frame of the `k`-th entry.
proof fn lemma_parse_step<T: SampleCodec>(b: Seq<u8>, pos: int, k: int, s2: Seq<(u64, T)>)
    requires
        0 <= pos <= b.len(),
        0 <= k < s2.len(),
        b.skip(pos) == spec_encode_entries(s2.skip(k)),
    ensures
        pos + 16 + s2[k].1.byte_view().len() <= b.len(),
        b.subrange(pos, pos + 8) == spec_u64_to_le_bytes(s2[k].0),
        b.subrange(pos + 8, pos + 16) == spec_u64_to_le_bytes(s2[k].1.byte_view().len() as u64),
        b.subrange(pos + 16, pos + 16 + s2[k].1.byte_view().len()) == s2[k].1.byte_view(),
        b.skip(pos + 16 + s2[k].1.byte_view().len()) == spec_encode_entries(s2.skip(k + 1)),
{
    let u = s2.skip(k);
    assert(u.len() == s2.len() - k > 0);
    assert(u[0] == s2[k]);
    assert(u.drop_first() =~= s2.skip(k + 1));
    assert(spec_encode_entries(u) == spec_encode_entry(s2[k]) + spec_encode_entries(
        s2.skip(k + 1),
    ));
    lemma_frame_decompose(b, pos, s2[k], spec_encode_entries(s2.skip(k + 1)));
}

pub uninterp spec fn zstd_decode_of(b: Seq<u8>) -> Option<Seq<u8>>;

/// Relies on `zstd::stream::encode_all`: compressing an in-memory slice
/// into an in-memory buffer does not fail (zstd clamps the compression
/// level into its valid range, and neither reading from a slice nor writing
/// to a vector can fail), and decompressing the compressed bytes yields the
/// input unchanged (zstd is lossless).
#[verifier::external_body]
fn zstd_compress(bytes: &[u8], level: i32) -> (r: Option<Vec<u8>>)
    ensures
        r is Some,
        r matches Some(c) ==> zstd_decode_of(c@) == Some(bytes@),
{
    zstd::stream::encode_all(bytes, level).ok()
}

/// Relies on `zstd::stream::decode_all`: decompression is a deterministic
/// function of the input bytes alone, and fails exactly where that function
/// is undefined.
#[verifier::external_body]
fn zstd_decompress(bytes: &[u8]) -> (r: Option<Vec<u8>>)
    ensures
        r matches Some(v) ==> zstd_decode_of(bytes@) == Some(v@),
        r is None ==> zstd_decode_of(bytes@) is None,
{
    zstd::stream::decode_all(bytes).ok()
}

impl<T: Copy + SampleCodec> TimeSeries<T> {
    /// The uncompressed framing of this series.
    fn encode_series(&self) -> (r: Vec<u8>)
        ensures
            r@ == spec_encode_series(self.spec_init_size(), self@),
    {
        proof {
            lemma_auto_spec_u64_to_from_le_bytes();
        }
        let mut out: Vec<u8> = u64_to_le_bytes(self.init_size_value() as u64);
        let mut count_bytes = u64_to_le_bytes(self.len() as u64);
        out.append(&mut count_bytes);
        proof {
            assert(out@ =~= spec_u64_to_le_bytes(self.spec_init_size() as u64)
                + spec_u64_to_le_bytes(self@.len() as u64));
            assert(self@.take(0) =~= Seq::<(u64, T)>::empty());
        }
        let n = self.len();
        let mut i: usize = 0;
        while i < n
            invariant
                n == self@.len(),
                0 <= i <= n,
                out@ == spec_u64_to_le_bytes(self.spec_init_size() as u64)
                    + spec_u64_to_le_bytes(self@.len() as u64) + spec_encode_entries(
                    self@.take(i as int),
                ),
            decreases n - i,
        {
            let (t, v) = self.entry(i);
            let mut time_bytes = u64_to_le_bytes(t);
            let sample_bytes = v.sample_to_bytes();
            let mut len_bytes = u64_to_le_bytes(sample_bytes.len() as u64);
            let mut payload = sample_bytes;
            let ghost pre = out@;
            out.append(&mut time_bytes);
            out.append(&mut len_bytes);
            out.append(&mut payload);
            proof {
                lemma_auto_spec_u64_to_from_le_bytes();
                let taken = self@.take(i + 1);
                assert(taken.drop_last() =~= self@.take(i as int));
                assert(taken[taken.len() - 1] == self@[i as int]);
                lemma_encode_entries_snoc(taken);
                assert(out@ =~= pre + spec_encode_entry(self@[i as int]));
                assert(out@ =~= spec_u64_to_le_bytes(self.spec_init_size() as u64)
                    + spec_u64_to_le_bytes(self@.len() as u64) + spec_encode_entries(taken));
            }
            i += 1;
        }
        proof {
            assert(self@.take(n as int) =~= self@);
        }
        out
    }

    /// Parse an uncompressed framing back into a series.  Returns `None` on
    /// anything that is not exactly the framing of a sorted series.
    fn decode_series(bytes: &[u8]) -> (r: Option<TimeSeries<T>>)
        ensures
            r matches Some(ts) ==> ts.wf() && bytes@ == spec_encode_series(
                ts.spec_init_size(),
                ts@,
            ),
            forall|init2: usize, s2: Seq<(u64, T)>|
                sorted_by_time(s2) && bytes@ == #[trigger] spec_encode_series(init2, s2) ==> (
                r matches Some(ts) && ts.spec_init_size() == init2 && ts@ == s2),
    {
        proof {
            lemma_auto_spec_u64_to_from_le_bytes();
        }
        if bytes.len() < 16 {
            proof {
                assert forall|init2: usize, s2: Seq<(u64, T)>|
                    sorted_by_time(s2) && bytes@ == #[trigger] spec_encode_series(
                        init2,
                        s2,
                    ) implies false by {
                    lemma_series_decompose(bytes@, init2, s2);
                }
            }
            return None;
        }
        let init_u64 = u64_from_le_bytes(slice_subrange(bytes, 0, 8));
        let count_u64 = u64_from_le_bytes(slice_subrange(bytes, 8, 16));
        proof {
            assert forall|init2: usize, s2: Seq<(u64, T)>|
                sorted_by_time(s2) && bytes@ == #[trigger] spec_encode_series(
                    init2,
                    s2,
                ) implies init_u64 == init2 as u64 && count_u64 == s2.len() as u64 && s2.len()
                * 16 <= bytes@.len() by {
                lemma_series_decompose(bytes@, init2, s2);
                lemma_encode_entries_len(s2);
            }
        }
        if init_u64 > usize::MAX as u64 || count_u64 > (usize::MAX / 16) as u64 {
            // no framing of a real vector can carry such a header
            proof {
                assert forall|init2: usize, s2: Seq<(u64, T)>|
                    sorted_by_time(s2) && bytes@ == #[trigger] spec_encode_series(
                        init2,
                        s2,
                    ) implies false by {
                    lemma_series_decompose(bytes@, init2, s2);
                    lemma_encode_entries_len(s2);
                }
            }
            return None;
        }
        let init_size = init_u64 as usize;
        let n = count_u64 as usize;
        let mut out: Vec<(u64, T)> = Vec::new();
        let mut pos: usize = 16;
        let mut k: usize = 0;
        proof {
            assert(spec_u64_to_le_bytes(spec_u64_from_le_bytes(bytes@.subrange(0, 8)))
                == bytes@.subrange(0, 8));
            assert(spec_u64_to_le_bytes(spec_u64_from_le_bytes(bytes@.subrange(8, 16)))
                == bytes@.subrange(8, 16));
            assert(bytes@.subrange(16, 16) =~= Seq::<u8>::empty());
            assert(bytes@.subrange(16, 16) == spec_encode_entries(out@));
            assert forall|init2: usize, s2: Seq<(u64, T)>|
                sorted_by_time(s2) && bytes@ == #[trigger] spec_encode_series(
                    init2,
                    s2,
                ) implies s2.len() == n && init2 as u64 == init_u64 && out@ == s2.take(0)
                && bytes@.skip(16) == spec_encode_entries(s2.skip(0)) by {
                lemma_series_decompose(bytes@, init2, s2);
                lemma_encode_entries_len(s2);
                assert(16 * s2.len() <= bytes@.len());
                assert(s2.len() <= usize::MAX / 16);
                assert(s2.len() as u64 == count_u64);
                assert(s2.len() == n);
                assert(out@ =~= s2.take(0));
                assert(s2.skip(0) =~= s2);
            }
        }
        while k < n
            invariant
                0 <= k <= n,
                n <= usize::MAX / 16,
                16 <= pos <= bytes@.len(),
                out@.len() == k,
                sorted_by_time(out@),
                // soundness: everything consumed so far is the framing of `out`
                bytes@.subrange(16, pos as int) == spec_encode_entries(out@),
                bytes@.subrange(0, 8) == spec_u64_to_le_bytes(init_u64),
                bytes@.subrange(8, 16) == spec_u64_to_le_bytes(count_u64),
                // completeness: any sorted series framed as `bytes` agrees
                // with what has been parsed so far
                forall|init2: usize, s2: Seq<(u64, T)>|
                    sorted_by_time(s2) && bytes@ == #[trigger] spec_encode_series(init2, s2)
                        ==> s2.len() == n && init2 as u64 == init_u64 && out@ == s2.take(k as int)
                        && bytes@.skip(pos as int) == spec_encode_entries(s2.skip(k as int)),
            decreases n - k,
        {
            let remaining = bytes.len() - pos;
            if remaining < 16 {
                proof {
                    assert forall|init2: usize, s2: Seq<(u64, T)>|
                        sorted_by_time(s2) && bytes@ == #[trigger] spec_encode_series(
                            init2,
                            s2,
                        ) implies false by {
                        lemma_encode_entries_len(s2.skip(k as int));
                        assert(s2.skip(k as int).len() == s2.len() - k >= 1);
                        assert(bytes@.skip(pos as int).len() == bytes@.len() - pos);
                    }
                }
                return None;
            }
            let t = u64_from_le_bytes(slice_subrange(bytes, pos, pos + 8));
            let len_u64 = u64_from_le_bytes(slice_subrange(bytes, pos + 8, pos + 16));
            proof {
                lemma_auto_spec_u64_to_from_le_bytes();
                assert forall|init2: usize, s2: Seq<(u64, T)>|
                    sorted_by_time(s2) && bytes@ == #[trigger] spec_encode_series(
                        init2,
                        s2,
                    ) implies {
                    &&& t == s2[k as int].0
                    &&& len_u64 == s2[k as int].1.byte_view().len() as u64
                    &&& s2[k as int].1.byte_view().len() <= bytes@.len() - pos - 16
                } by {
                    lemma_parse_step(bytes@, pos as int, k as int, s2);
                    let bv = s2[k as int].1.byte_view();
                    assert(pos + 16 + bv.len() <= bytes@.len());
                    assert(bv.len() <= bytes@.len() - pos - 16);
                    assert(spec_u64_from_le_bytes(spec_u64_to_le_bytes(s2[k as int].0))
                        == s2[k as int].0);
                    assert(spec_u64_from_le_bytes(spec_u64_to_le_bytes(bv.len() as u64))
                        == bv.len() as u64);
                }
            }
            if len_u64 > (remaining - 16) as u64 {
                return None;
            }
            let sample_len = len_u64 as usize;
            proof {
                assert(sample_len as u64 == len_u64);
            }
            let payload = slice_subrange(bytes, pos + 16, pos + 16 + sample_len);
            let v = match T::sample_from_bytes(payload) {
                Some(v) => v,
                None => {
                    proof {
                        assert forall|init2: usize, s2: Seq<(u64, T)>|
                            sorted_by_time(s2) && bytes@ == #[trigger] spec_encode_series(
                                init2,
                                s2,
                            ) implies false by {
                            lemma_parse_step(bytes@, pos as int, k as int, s2);
                            let bv = s2[k as int].1.byte_view();
                            assert(bv.len() as u64 == len_u64);
                            assert(bv.len() == sample_len);
                            assert(payload@ == bv);
                        }
                    }
                    return None;
                },
            };
            if k > 0 {
                let prev = out[k - 1].0;
                if t < prev {
                    proof {
                        assert forall|init2: usize, s2: Seq<(u64, T)>|
                            sorted_by_time(s2) && bytes@ == #[trigger] spec_encode_series(
                                init2,
                                s2,
                            ) implies false by {
                            assert(out@ == s2.take(k as int));
                            assert(out@[k - 1] == s2.take(k as int)[k - 1]);
                            assert(s2.take(k as int)[k - 1] == s2[k - 1]);
                            assert(s2[k - 1].0 <= s2[k as int].0);
                            assert(t == s2[k as int].0);
                        }
                    }
                    return None;
                }
            }
            let ghost pre_out = out@;
            let ghost pre_pos = pos as int;
            out.push((t, v));
            pos = pos + 16 + sample_len;
            k = k + 1;
            proof {
                lemma_auto_spec_u64_to_from_le_bytes();
                // the parsed frame round-trips: its bytes are the framing of (t, v)
                assert(bytes@.subrange(pre_pos, pre_pos + 8) =~= spec_u64_to_le_bytes(t)) by {
                    assert(spec_u64_from_le_bytes(bytes@.subrange(pre_pos, pre_pos + 8)) == t);
                }
                assert(bytes@.subrange(pre_pos + 8, pre_pos + 16) =~= spec_u64_to_le_bytes(
                    len_u64,
                )) by {
                    assert(spec_u64_from_le_bytes(bytes@.subrange(pre_pos + 8, pre_pos + 16))
                        == len_u64);
                }
                assert(v.byte_view() == bytes@.subrange(pre_pos + 16, pre_pos + 16 + sample_len));
                assert(v.byte_view().len() as u64 == len_u64);
                assert(spec_encode_entry((t, v)) =~= bytes@.subrange(pre_pos, pos as int));
                assert(out@ == pre_out.push((t, v)));
                assert(out@.drop_last() =~= pre_out);
                lemma_encode_entries_snoc(out@);
                assert(bytes@.subrange(16, pos as int) =~= bytes@.subrange(16, pre_pos)
                    + bytes@.subrange(pre_pos, pos as int));
                assert(bytes@.subrange(16, pos as int) == spec_encode_entries(out@));
                // sortedness of the extended prefix
                assert forall|a: int, b: int| 0 <= a <= b < out@.len() implies (
                #[trigger] out@[a]).0 <= (#[trigger] out@[b]).0 by {
                    if b < out@.len() - 1 {
                        assert(out@[a] == pre_out[a] && out@[b] == pre_out[b]);
                    } else if a < out@.len() - 1 {
                        assert(out@[a] == pre_out[a]);
                        assert(pre_out[a].0 <= pre_out[pre_out.len() - 1].0);
                    }
                }
                // completeness carries to the longer prefix
                assert forall|init2: usize, s2: Seq<(u64, T)>|
                    sorted_by_time(s2) && bytes@ == #[trigger] spec_encode_series(
                        init2,
                        s2,
                    ) implies out@ == s2.take(k as int) && bytes@.skip(pos as int)
                    == spec_encode_entries(s2.skip(k as int)) by {
                    lemma_parse_step(bytes@, pre_pos, k - 1, s2);
                    let bv = s2[k - 1].1.byte_view();
                    assert(bv.len() as u64 == len_u64);
                    assert(bv.len() == sample_len);
                    assert(payload@ == bv);
                    assert(v == s2[k - 1].1);
                    assert(t == s2[k - 1].0);
                    assert(pre_out == s2.take(k - 1));
                    assert(out@ =~= s2.take(k as int));
                    assert(pos as int == pre_pos + 16 + bv.len());
                }
            }
        }
        if pos != bytes.len() {
            proof {
                assert forall|init2: usize, s2: Seq<(u64, T)>|
                    sorted_by_time(s2) && bytes@ == #[trigger] spec_encode_series(
                        init2,
                        s2,
                    ) implies false by {
                    assert(s2.skip(n as int) =~= Seq::<(u64, T)>::empty());
                    assert(bytes@.skip(pos as int).len() == 0);
                }
            }
            return None;
        }
        let ts = TimeSeries::<T>::from_sorted_vec(init_size, out);
        proof {
            // soundness: the bytes are exactly the framing of the result
            lemma_auto_spec_u64_to_from_le_bytes();
            assert(init_size as u64 == init_u64);
            assert(ts@.len() as u64 == count_u64);
            assert(bytes@ =~= bytes@.subrange(0, 8) + bytes@.subrange(8, 16) + bytes@.subrange(
                16,
                pos as int,
            ));
            assert(bytes@ == spec_encode_series(ts.spec_init_size(), ts@));
            assert forall|init2: usize, s2: Seq<(u64, T)>|
                sorted_by_time(s2) && bytes@ == #[trigger] spec_encode_series(
                    init2,
                    s2,
                ) implies ts.spec_init_size() == init2 && ts@ == s2 by {
                assert(s2.take(n as int) =~= s2);
                assert(init2 as u64 == init_u64);
            }
        }
        Some(ts)
    }

    /// Frame the series and compress the framing at `level`.  The result
    /// decompresses to exactly the framing.
    pub fn to_compressed_json(&self, level: i32) -> (r: Vec<u8>)
        ensures
            zstd_decode_of(r@) == Some(spec_encode_series(self.spec_init_size(), self@)),
    {
        let encoded = self.encode_series();
        match zstd_compress(encoded.as_slice(), level) {
            Some(v) => v,
            None => {
                proof {
                    assert(false);
                }
                Vec::new()
            },
        }
    }

    /// Decompress and parse a persisted series.  Round trip: on the output
    /// of `to_compressed_json` for a well-formed series, this returns that
    /// series back, entry for entry, bit for bit.
    pub fn from_compressed_json(compressed_json_bytes: &[u8]) -> (r: Option<TimeSeries<T>>)
        ensures
            r matches Some(ts) ==> ts.wf() && zstd_decode_of(compressed_json_bytes@) == Some(
                spec_encode_series(ts.spec_init_size(), ts@),
            ),
            forall|init2: usize, s2: Seq<(u64, T)>|
                sorted_by_time(s2) && zstd_decode_of(compressed_json_bytes@) == Some(
                    #[trigger] spec_encode_series(init2, s2),
                ) ==> (r matches Some(ts) && ts.spec_init_size() == init2 && ts@ == s2),
    {
        let decompressed = match zstd_decompress(compressed_json_bytes) {
            Some(v) => v,
            None => {
                return None;
            },
        };
        TimeSeries::<T>::decode_series(decompressed.as_slice())
    }
}

/// Round-trip law: the framing of a well-formed series admits, under the
/// contract of `from_compressed_json`, only the series itself as the decode
/// result — same entries, same capacity hint, and, both being well formed,
/// the same cached bounds.
pub proof fn lemma_round_trip<T: SampleCodec>(ts: TimeSeries<T>, r: Option<TimeSeries<T>>)
    requires
        ts.wf(),
        forall|init2: usize, s2: Seq<(u64, T)>|
            sorted_by_time(s2) && spec_encode_series(ts.spec_init_size(), ts@)
                == #[trigger] spec_encode_series(init2, s2) ==> (r matches Some(t2)
                && t2.spec_init_size() == init2 && t2@ == s2 && t2.wf()),
    ensures
        r matches Some(t2) && t2@ == ts@ && t2.spec_init_size() == ts.spec_init_size()
            && t2.spec_start_time() == ts.spec_start_time() && t2.spec_end_time()
            == ts.spec_end_time(),
{
    ts.lemma_wf_implies_sorted();
    assert(sorted_by_time(ts@) && spec_encode_series(ts.spec_init_size(), ts@)
        == spec_encode_series(ts.spec_init_size(), ts@));
    let t2 = r->Some_0;
    t2.lemma_wf_implies_sorted();
}

} // verus!
