use sunny_db::timeseries::TimeSeries;

fn times_of(ts: &TimeSeries<u64>) -> Vec<u64> {
    ts.get_current_values().iter().map(|e| e.0).collect()
}

#[test]
fn new_series_is_empty() {
    let ts = TimeSeries::<u64>::new(16);
    assert!(ts.is_empty());
    assert_eq!(ts.len(), 0);
    assert_eq!(ts.get_start_time(), None);
    assert_eq!(ts.get_end_time(), None);
    assert!(ts.get_current_values().is_empty());
}

#[test]
fn ordering_kept_under_any_insert_order() {
    // ordering: after every insert, the values are non-decreasing in time
    let stamps: Vec<u64> = vec![50, 10, 30, 30, 20, 60, 5, 30, 50, 1];
    let mut ts = TimeSeries::<u64>::new(4);
    for (i, t) in stamps.iter().enumerate() {
        ts.insert_value_at_time(*t, i as u64);
        let seen = times_of(&ts);
        for w in seen.windows(2) {
            assert!(w[0] <= w[1]);
        }
        assert_eq!(ts.len(), i + 1);
        assert_eq!(ts.get_start_time(), Some(*seen.first().unwrap()));
        assert_eq!(ts.get_end_time(), Some(*seen.last().unwrap()));
    }
}

#[test]
fn equal_timestamps_keep_insertion_order() {
    let mut ts = TimeSeries::<u64>::new(4);
    ts.insert_value_at_time(30, 0);
    ts.insert_value_at_time(30, 1);
    ts.insert_value_at_time(10, 2);
    ts.insert_value_at_time(30, 3);
    let values = ts.get_current_values();
    assert_eq!(values, vec![(10, 2), (30, 0), (30, 1), (30, 3)]);
    assert_eq!(ts.get_current_values_without_time(), vec![2, 0, 1, 3]);
}

#[test]
fn insert_at_current_time_grows_series() {
    let mut ts = TimeSeries::<u64>::new(4);
    ts.insert_value_at_current_time(7);
    ts.insert_value_at_current_time(8);
    assert_eq!(ts.len(), 2);
    assert!(ts.get_start_time().is_some());
    assert!(ts.get_end_time().is_some());
    assert_eq!(ts.get_current_values_without_time(), vec![7, 8]);
}

#[test]
fn range_inside_span() {
    let mut ts = TimeSeries::<u64>::new(4);
    for (i, t) in [10u64, 20, 30, 40].iter().enumerate() {
        ts.insert_value_at_time(*t, i as u64);
    }
    // both bounds inside: the lower bound is exclusive of an exact match,
    // the upper bound inclusive
    let sub = ts.get_values_in_range(15, 35).unwrap();
    assert_eq!(times_of(&sub), vec![20, 30]);
    assert_eq!(sub.get_start_time(), Some(20));
    assert_eq!(sub.get_end_time(), Some(30));

    // an entry stamped exactly at the lower bound is excluded
    let sub = ts.get_values_in_range(10, 40).unwrap();
    assert_eq!(times_of(&sub), vec![20, 30, 40]);

    // a lower bound before the data clamps to the first entry
    let sub = ts.get_values_in_range(0, 40).unwrap();
    assert_eq!(times_of(&sub), vec![10, 20, 30, 40]);
}

#[test]
fn range_misses() {
    let mut ts = TimeSeries::<u64>::new(4);
    for (i, t) in [10u64, 20, 30, 40].iter().enumerate() {
        ts.insert_value_at_time(*t, i as u64);
    }
    // ends before the data starts
    assert!(ts.get_values_in_range(0, 5).is_none());
    // empty selection strictly between entries
    assert!(ts.get_values_in_range(21, 29).is_none());
    // empty series has nothing
    let empty = TimeSeries::<u64>::empty();
    assert!(empty.get_values_in_range(0, 100).is_none());
}

#[test]
fn range_clamps_when_start_lies_past_the_data() {
    // the lower bound clamps to the first entry whenever `start` falls
    // outside the series' span, even past its end
    let mut ts = TimeSeries::<u64>::new(4);
    for (i, t) in [10u64, 20, 30].iter().enumerate() {
        ts.insert_value_at_time(*t, i as u64);
    }
    let sub = ts.get_values_in_range(45, 50).unwrap();
    assert_eq!(times_of(&sub), vec![10, 20, 30]);
}

#[test]
fn append_concatenates_in_order() {
    let mut a = TimeSeries::<u64>::new(2);
    a.insert_value_at_time(1, 10);
    a.insert_value_at_time(2, 11);
    let mut b = TimeSeries::<u64>::new(2);
    b.insert_value_at_time(3, 12);
    b.insert_value_at_time(4, 13);
    a.append(&b);
    assert_eq!(
        a.get_current_values(),
        vec![(1, 10), (2, 11), (3, 12), (4, 13)]
    );
    assert_eq!(a.get_start_time(), Some(1));
    assert_eq!(a.get_end_time(), Some(4));
}

#[test]
fn append_empty_is_a_no_op() {
    let mut a = TimeSeries::<u64>::new(2);
    a.insert_value_at_time(5, 1);
    let b = TimeSeries::<u64>::empty();
    a.append(&b);
    assert_eq!(a.get_current_values(), vec![(5, 1)]);
}

#[test]
fn append_onto_empty_adopts_the_argument() {
    let mut a = TimeSeries::<u64>::empty();
    let mut b = TimeSeries::<u64>::new(2);
    b.insert_value_at_time(7, 3);
    b.insert_value_at_time(9, 4);
    a.append(&b);
    assert_eq!(a.get_current_values(), vec![(7, 3), (9, 4)]);
    assert_eq!(a.get_start_time(), Some(7));
    assert_eq!(a.get_end_time(), Some(9));
}

#[test]
fn round_trip_exact() {
    // round trip: decoding an encoded series gives the series back exactly
    let mut ts = TimeSeries::<u64>::new(8);
    for (i, t) in [100u64, 200, 200, 3_000_000_000_000].iter().enumerate() {
        ts.insert_value_at_time(*t, u64::MAX - i as u64);
    }
    let bytes = ts.to_compressed_json(3);
    let back = TimeSeries::<u64>::from_compressed_json(&bytes).unwrap();
    assert_eq!(back, ts);
}

#[test]
fn round_trip_of_single_entry() {
    let mut ts = TimeSeries::<u64>::new(1);
    ts.insert_value_at_time(42, 7);
    let bytes = ts.to_compressed_json(1);
    let back = TimeSeries::<u64>::from_compressed_json(&bytes).unwrap();
    assert_eq!(back, ts);
}

#[test]
fn round_trip_of_empty_series() {
    let ts = TimeSeries::<u64>::new(0);
    let bytes = ts.to_compressed_json(3);
    let back = TimeSeries::<u64>::from_compressed_json(&bytes).unwrap();
    assert_eq!(back, ts);
}

#[test]
fn compressed_output_is_really_compressed() {
    // the blob is a zstd frame, not the raw framing: raw bytes do not decode
    let mut ts = TimeSeries::<u64>::new(2);
    ts.insert_value_at_time(1, 2);
    let bytes = ts.to_compressed_json(3);
    assert!(TimeSeries::<u64>::from_compressed_json(&[0u8; 64]).is_none());
    assert!(TimeSeries::<u64>::from_compressed_json(&[]).is_none());
    // truncating the frame breaks it
    assert!(TimeSeries::<u64>::from_compressed_json(&bytes[..bytes.len() - 1]).is_none());
}
