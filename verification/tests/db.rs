use sunny_db::timeseries::TimeSeries;
use sunny_db::timeseries_db::{
    parse_filename_to_times, segment_file_name, StoreError, SunnyDB,
};

#[test]
fn data_path_gets_data_suffix() {
    let db = SunnyDB::<u64>::new(4, "/tmp/sunny-home", 3, 0);
    assert_eq!(db.get_data_path(), "/tmp/sunny-home/data/");
    let db = SunnyDB::<u64>::new(4, "/tmp/sunny-home/", 3, 0);
    assert_eq!(db.get_data_path(), "/tmp/sunny-home/data/");
}

#[test]
fn flush_at_threshold_writes_exactly_one_segment() {
    // flush trigger: inserting exactly the threshold produces exactly one
    // segment blob and an empty buffer immediately after
    let mut db = SunnyDB::<u64>::new(5, "/tmp/sunny", 3, 0);
    let mut writes = Vec::new();
    for v in 0u64..5 {
        let w = db.insert_value_at_current_time(v);
        if v < 4 {
            assert!(w.is_none());
            assert_eq!(db.time_series.len(), (v + 1) as usize);
        } else {
            writes.extend(w);
        }
    }
    assert_eq!(writes.len(), 1);
    assert!(db.time_series.is_empty());

    // the blob decodes back to the five buffered values, and its name
    // carries the span they cover
    let seg = TimeSeries::<u64>::from_compressed_json(&writes[0].bytes).unwrap();
    assert_eq!(seg.get_current_values_without_time(), vec![0, 1, 2, 3, 4]);
    let (a, b) = parse_filename_to_times(&writes[0].file_name).unwrap();
    assert_eq!(Some(a), seg.get_start_time());
    assert_eq!(Some(b), seg.get_end_time());
}

#[test]
fn lossy_persist_respects_the_loss_threshold() {
    // loss threshold: a buffer of at most `loss_threshold` entries is
    // discarded without a write; a larger one is written, unchanged
    let mut db = SunnyDB::<u64>::new(100, "/tmp/sunny", 3, 3);
    for v in 0u64..3 {
        assert!(db.insert_value_at_current_time(v).is_none());
    }
    assert!(db.lossy_persist().is_none());
    assert_eq!(db.time_series.len(), 3);

    assert!(db.insert_value_at_current_time(3).is_none());
    let w = db.lossy_persist().unwrap();
    // the buffer is kept, not emptied
    assert_eq!(db.time_series.len(), 4);
    let seg = TimeSeries::<u64>::from_compressed_json(&w.bytes).unwrap();
    assert_eq!(seg.get_current_values_without_time(), vec![0, 1, 2, 3]);
}

#[test]
fn stitching_across_segments_returns_everything_in_order() {
    // cross-segment stitching: three segments of four samples each, read
    // over the whole time axis, give all twelve samples in ascending order
    let mut db = SunnyDB::<u64>::new(4, "/tmp/sunny", 3, 0);
    let mut bodies: Vec<Vec<u8>> = Vec::new();
    for v in 0u64..12 {
        if let Some(w) = db.insert_value_at_current_time(v) {
            bodies.push(w.bytes);
        }
    }
    assert_eq!(bodies.len(), 3);
    assert!(db.time_series.is_empty());

    let merged = db.get_values_in_range(0, u64::MAX, &bodies).unwrap().unwrap();
    assert_eq!(merged.len(), 12);
    assert_eq!(
        merged.get_current_values_without_time(),
        (0u64..12).collect::<Vec<u64>>()
    );
    let stamps: Vec<u64> = merged.get_current_values().iter().map(|e| e.0).collect();
    for w in stamps.windows(2) {
        assert!(w[0] <= w[1]);
    }
}

#[test]
fn query_merges_segment_and_live_buffer() {
    // merge with live buffer: a query spanning a persisted segment and the
    // still-open buffer returns both, contiguous and ordered
    let mut db = SunnyDB::<u64>::new(4, "/tmp/sunny", 3, 0);
    let mut bodies: Vec<Vec<u8>> = Vec::new();
    for v in 0u64..7 {
        if let Some(w) = db.insert_value_at_current_time(v) {
            bodies.push(w.bytes);
        }
    }
    assert_eq!(bodies.len(), 1);
    assert_eq!(db.time_series.len(), 3);

    let merged = db.get_values_in_range(0, u64::MAX, &bodies).unwrap().unwrap();
    assert_eq!(
        merged.get_current_values_without_time(),
        (0u64..7).collect::<Vec<u64>>()
    );

    let all = db.get_all_values(&bodies).unwrap().unwrap();
    assert_eq!(
        all.get_current_values_without_time(),
        (0u64..7).collect::<Vec<u64>>()
    );
}

#[test]
fn buffer_covering_query_skips_segments() {
    // when the buffer already covers the window's start, persisted data is
    // not consulted at all
    let mut db = SunnyDB::<u64>::new(4, "/tmp/sunny", 3, 0);
    let mut bodies: Vec<Vec<u8>> = Vec::new();
    for v in 0u64..6 {
        if let Some(w) = db.insert_value_at_current_time(v) {
            bodies.push(w.bytes);
        }
    }
    // a window that starts at or after the buffer's start is answered from
    // the buffer alone; the segment's four values are not consulted
    let r = db
        .get_values_in_range(u64::MAX - 1, u64::MAX, &bodies)
        .unwrap()
        .unwrap();
    assert_eq!(r.get_current_values_without_time(), vec![4, 5]);
}

#[test]
fn undecodable_segment_bodies_are_skipped() {
    let mut db = SunnyDB::<u64>::new(2, "/tmp/sunny", 3, 0);
    let mut bodies: Vec<Vec<u8>> = Vec::new();
    for v in 0u64..2 {
        if let Some(w) = db.insert_value_at_current_time(v) {
            bodies.push(w.bytes);
        }
    }
    assert_eq!(bodies.len(), 1);
    bodies.insert(0, vec![1, 2, 3, 4]);
    bodies.push(Vec::new());

    let merged = db.get_values_in_range(0, u64::MAX, &bodies).unwrap().unwrap();
    assert_eq!(merged.get_current_values_without_time(), vec![0, 1]);
}

#[test]
fn misordered_segments_are_refused() {
    let mut late = TimeSeries::<u64>::new(2);
    late.insert_value_at_time(100, 1);
    late.insert_value_at_time(110, 2);
    let mut early = TimeSeries::<u64>::new(2);
    early.insert_value_at_time(50, 3);
    early.insert_value_at_time(60, 4);

    let bodies = vec![late.to_compressed_json(3), early.to_compressed_json(3)];
    let db = SunnyDB::<u64>::new(10, "/tmp/sunny", 3, 0);
    let r = db.get_values_in_range(0, 1000, &bodies);
    assert_eq!(r, Err(StoreError::MisorderedSegments));
}

#[test]
fn query_of_empty_store_is_no_data() {
    let db = SunnyDB::<u64>::new(10, "/tmp/sunny", 3, 0);
    let none: Vec<Vec<u8>> = Vec::new();
    assert_eq!(db.get_values_in_range(0, u64::MAX, &none), Ok(None));
    assert_eq!(db.get_all_values(&none), Ok(None));
}

#[test]
fn swapped_query_bounds_are_normalized() {
    let db = SunnyDB::<u64>::new(10, "/tmp/sunny", 3, 0);
    let mut seg = TimeSeries::<u64>::new(2);
    seg.insert_value_at_time(10, 1);
    seg.insert_value_at_time(20, 2);
    let bodies = vec![seg.to_compressed_json(3)];
    let forward = db.get_values_in_range(5, 25, &bodies).unwrap().unwrap();
    let swapped = db.get_values_in_range(25, 5, &bodies).unwrap().unwrap();
    assert_eq!(forward, swapped);
    assert_eq!(forward.get_current_values_without_time(), vec![1, 2]);
}

#[test]
fn find_persisted_segment_index_selects_the_touched_range() {
    let db = SunnyDB::<u64>::new(10, "/tmp/sunny", 3, 0);
    let segments: Vec<(u64, u64)> = vec![(0, 10), (20, 30), (40, 50)];

    // a window between two segments is attributed to the later one
    assert_eq!(
        db.find_persisted_segment_index(&segments, 15, 60),
        (Some(1), Some(2))
    );
    // a window inside one segment picks exactly it
    assert_eq!(
        db.find_persisted_segment_index(&segments, 5, 8),
        (Some(0), Some(0))
    );
    // a window past every segment has no lower candidate
    assert_eq!(
        db.find_persisted_segment_index(&segments, 60, 70),
        (None, Some(2))
    );
    // a window touching the very first start picks that segment
    assert_eq!(
        db.find_persisted_segment_index(&segments, 0, 0),
        (Some(0), Some(0))
    );
    // a window ending before the first segment finds nothing
    let late_segments: Vec<(u64, u64)> = vec![(10, 20), (30, 40)];
    assert_eq!(
        db.find_persisted_segment_index(&late_segments, 0, 5),
        (None, None)
    );
    let none: Vec<(u64, u64)> = Vec::new();
    assert_eq!(db.find_persisted_segment_index(&none, 0, 100), (None, None));
}

#[test]
fn segment_names_render_and_parse() {
    let name = segment_file_name(1717113600000, 1717154113550);
    assert_eq!(name, "1717113600000-1717154113550");
    assert_eq!(
        parse_filename_to_times(&name),
        Some((1717113600000, 1717154113550))
    );

    assert_eq!(parse_filename_to_times("123-456"), Some((123, 456)));
    assert_eq!(parse_filename_to_times("000123-456"), Some((123, 456)));
    assert_eq!(parse_filename_to_times("abc-1"), None);
    assert_eq!(parse_filename_to_times("12-34-56"), None);
    assert_eq!(parse_filename_to_times("-12"), None);
    assert_eq!(parse_filename_to_times("12-"), None);
    assert_eq!(parse_filename_to_times("1234"), None);
    assert_eq!(parse_filename_to_times(""), None);
    assert_eq!(parse_filename_to_times(".permission-check.tiny.db"), None);
    // a value over u64::MAX is not a timestamp
    assert_eq!(parse_filename_to_times("99999999999999999999999999-1"), None);
    assert_eq!(
        parse_filename_to_times("18446744073709551615-0"),
        Some((u64::MAX, 0))
    );
}

#[test]
fn read_in_range_test() {
    // the six window positions, over one persisted segment spanning
    // [1717113600000, 1717154113550] and an empty live buffer
    let db = SunnyDB::<u64>::new(200, "./tests/db-test", 2, 20);
    let mut seg = TimeSeries::<u64>::new(200);
    let seg_start: u64 = 1717113600000;
    let seg_end: u64 = 1717154113550;
    let step = (seg_end - seg_start) / 100;
    let mut t = seg_start;
    let mut v: u64 = 0;
    while t <= seg_end {
        seg.insert_value_at_time(t, v);
        t += step;
        v += 1;
    }
    let bodies = vec![seg.to_compressed_json(2)];

    // case 1: start time in series, end time larger than max time
    let start_time = 1717113600000;
    let end_time = 1718113600000;
    let read_values = db.get_values_in_range(start_time, end_time, &bodies).unwrap().unwrap();
    assert!(read_values.get_start_time().unwrap() >= start_time);
    assert!(read_values.get_end_time().unwrap() <= end_time);

    // case 2: start time lower than min in series, end time in series
    let start_time = 1617113600000;
    let end_time = 1717113600000;
    let read_values = db.get_values_in_range(start_time, end_time, &bodies).unwrap().unwrap();
    assert!(read_values.get_start_time().unwrap() >= start_time);
    assert!(read_values.get_end_time().unwrap() <= end_time);

    // case 3: start time in series, end time in series
    let start_time = 1717113600000;
    let end_time = 1717154113550 - 20;
    let read_values = db.get_values_in_range(start_time, end_time, &bodies).unwrap().unwrap();
    assert!(read_values.get_start_time().unwrap() >= start_time);
    assert!(read_values.get_end_time().unwrap() <= end_time);

    // case 4: start time & end time lower than series: explicit no data
    let start_time = 1617113600000;
    let end_time = 1617154113550;
    assert!(db.get_values_in_range(start_time, end_time, &bodies).unwrap().is_none());

    // case 5: start time & end time above series: the lower bound clamps
    // to the first entry whenever it falls outside the data's span, so the
    // whole segment comes back
    let start_time = 1817113600000;
    let end_time = 1817154113550;
    let read_values = db.get_values_in_range(start_time, end_time, &bodies).unwrap().unwrap();
    assert_eq!(read_values.len(), seg.len());

    // case 6: start time below & end time above series
    let start_time = 1617113600000;
    let end_time = 1817154113550;
    let read_values = db.get_values_in_range(start_time, end_time, &bodies).unwrap().unwrap();
    assert!(!read_values.is_empty());
    assert!(read_values.get_start_time().unwrap() >= start_time);
    assert!(read_values.get_end_time().unwrap() <= end_time);
}
