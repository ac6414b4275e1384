use test_analytics::error::TestAnalyticsError;
use test_analytics::format::TestAnalytics;
use test_analytics::position::get_position_info;
use test_analytics::records::TestData;
use test_analytics::testrun::{Outcome, Testrun};
use test_analytics::validated_string::{ValidatedString, ValidatedStringError};
use test_analytics::writer::TestAnalyticsWriter;

fn add(a: u32, b: u32) -> u32 {
    (f32::from_bits(a) + f32::from_bits(b)).to_bits()
}

fn secs(x: f32) -> u32 {
    x.to_bits()
}

fn vs(s: &str) -> ValidatedString {
    ValidatedString::from_string(s.to_string()).unwrap()
}

fn run(suite: &str, name: &str, duration: f32, outcome: Outcome) -> Testrun {
    Testrun {
        name: vs(name),
        classname: ValidatedString::default(),
        duration: Some(secs(duration)),
        outcome,
        testsuite: vs(suite),
        failure_message: None,
        filename: None,
        build_url: None,
        computed_name: ValidatedString::default(),
    }
}

fn flags(list: &[&str]) -> Vec<String> {
    list.iter().map(|s| s.to_string()).collect()
}

fn round_trip(w: TestAnalyticsWriter) -> TestAnalytics {
    let bytes = w.serialize();
    TestAnalytics::parse(&bytes).unwrap()
}

fn s1_writer() -> TestAnalyticsWriter {
    let mut w = TestAnalyticsWriter::new(7);
    let session = w.start_session(100, &flags(&[]));
    session.insert(&mut w, &run("s", "t", 0.5, Outcome::Pass), &add);
    session.insert(&mut w, &run("s", "t", 0.5, Outcome::Pass), &add);
    session.insert(&mut w, &run("s", "t", 0.5, Outcome::Failure), &add);
    w
}

fn s2_writer() -> TestAnalyticsWriter {
    let mut w = s1_writer();
    let session = w.start_session(102, &flags(&[]));
    session.insert(&mut w, &run("s", "t", 0.2, Outcome::Pass), &add);
    w
}

fn single_writer(ts: u32, passes: u32, fails: u32) -> TestAnalyticsWriter {
    let mut w = TestAnalyticsWriter::new(7);
    let session = w.start_session(ts, &flags(&[]));
    for _ in 0..passes {
        session.insert(&mut w, &run("s", "n", 1.0, Outcome::Pass), &add);
    }
    for _ in 0..fails {
        session.insert(&mut w, &run("s", "n", 1.0, Outcome::Failure), &add);
    }
    w
}

#[test]
fn first_day_counts() {
    let w = s1_writer();
    assert_eq!(w.num_tests(), 1);
    let b = w.get_bucket(0, 0);
    assert_eq!(b.total_pass_count, 2);
    assert_eq!(b.total_fail_count, 1);
    assert_eq!(b.total_skip_count, 0);
    assert_eq!(f32::from_bits(b.total_duration), 1.5);
    assert_eq!(b.last_timestamp, 100);
    assert_eq!(f32::from_bits(b.last_duration), 0.5);
}

#[test]
fn later_day_shifts_ring() {
    let w = s2_writer();
    assert_eq!(w.timestamp(), 102);
    let b0 = w.get_bucket(0, 0);
    assert_eq!(b0.total_pass_count, 1);
    assert_eq!(b0.total_fail_count, 0);
    assert_eq!(f32::from_bits(b0.total_duration), 0.2);
    assert_eq!(b0.last_timestamp, 102);
    assert_eq!(f32::from_bits(b0.last_duration), 0.2);
    assert_eq!(w.get_bucket(0, 1), TestData::empty());
    let b2 = w.get_bucket(0, 2);
    assert_eq!(b2.total_pass_count, 2);
    assert_eq!(b2.total_fail_count, 1);
    assert_eq!(f32::from_bits(b2.total_duration), 1.5);
    assert_eq!(b2.last_timestamp, 100);
    assert_eq!(f32::from_bits(b2.last_duration), 0.5);
}

#[test]
fn rewrite_after_parse_keeps_recent_days() {
    let view = round_trip(s2_writer());
    let mut w = TestAnalyticsWriter::from_existing_format(&view).unwrap();
    assert_eq!(w.rewrite(2, 103, Some(0)), Ok(true));
    assert_eq!(w.num_tests(), 1);
    assert_eq!(w.num_days(), 2);
    let b0 = w.get_bucket(0, 0);
    assert_eq!(b0.total_pass_count, 1);
    assert_eq!(b0.last_timestamp, 102);
    assert_eq!(w.get_bucket(0, 1), TestData::empty());
}

#[test]
fn merge_aligns_days() {
    let a = round_trip(single_writer(100, 5, 0));
    let b = round_trip(single_writer(103, 0, 2));
    let w = TestAnalyticsWriter::merge(&a, &b, &add).unwrap();
    assert_eq!(w.timestamp(), 103);
    assert_eq!(w.num_tests(), 1);
    let b0 = w.get_bucket(0, 0);
    assert_eq!(b0.total_fail_count, 2);
    assert_eq!(b0.total_pass_count, 0);
    assert_eq!(b0.last_timestamp, 103);
    let b3 = w.get_bucket(0, 3);
    assert_eq!(b3.total_pass_count, 5);
    assert_eq!(b3.last_timestamp, 100);
}

#[test]
fn rewrite_drops_expired() {
    let mut w = single_writer(100, 1, 0);
    assert_eq!(w.rewrite(7, 200, None), Ok(true));
    assert_eq!(w.num_tests(), 0);
    assert_eq!(w.timestamp(), 200);
}

#[test]
fn rewrite_without_garbage_is_noop() {
    let mut w = single_writer(100, 3, 1);
    let before = w.get_bucket(0, 0);
    assert_eq!(w.rewrite(7, 101, None), Ok(false));
    assert_eq!(w.num_tests(), 1);
    assert_eq!(w.num_days(), 7);
    assert_eq!(w.get_bucket(0, 0), before);
}

#[test]
fn serialize_parse_round_trip() {
    let w = s2_writer();
    let bytes = w.serialize();
    let view = TestAnalytics::parse(&bytes).unwrap();
    assert_eq!(view.header.num_days, 7);
    assert_eq!(view.header.num_tests, 1);
    assert_eq!(view.header.timestamp, 102);
    assert_eq!(view.testdata.len(), 7);
    assert_eq!(view.testdata[0].total_pass_count, 1);
    assert_eq!(view.testdata[2].total_pass_count, 2);
    let w2 = TestAnalyticsWriter::from_existing_format(&view).unwrap();
    assert_eq!(w2.serialize(), bytes);
}

#[test]
fn artifact_layout() {
    let bytes = TestAnalyticsWriter::new(3).serialize();
    assert_eq!(&bytes[0..4], b"_TA_");
    assert_eq!(&bytes[4..8], &1u32.to_le_bytes());
    assert_eq!(&bytes[12..16], &3u32.to_le_bytes());
    assert_eq!(&bytes[16..20], &0u32.to_le_bytes());
    assert_eq!(&bytes[20..24], &4u32.to_le_bytes());
    assert_eq!(bytes.len(), 28 + 4);
}

#[test]
fn parse_rejects_bad_input() {
    assert_eq!(TestAnalytics::parse(&[0u8; 10]).err(), Some(TestAnalyticsError::InvalidFormat));
    let mut bytes = s1_writer().serialize();
    bytes[0] = b'X';
    assert_eq!(TestAnalytics::parse(&bytes).err(), Some(TestAnalyticsError::InvalidFormat));
    let mut bytes = s1_writer().serialize();
    bytes[4] = 9;
    assert_eq!(TestAnalytics::parse(&bytes).err(), Some(TestAnalyticsError::InvalidFormat));
    let mut bytes = s1_writer().serialize();
    bytes.push(0);
    assert_eq!(TestAnalytics::parse(&bytes).err(), Some(TestAnalyticsError::InvalidFormat));
}

#[test]
fn bad_string_reference_is_reported() {
    let mut bytes = s1_writer().serialize();
    // the suite offset of the only test
    bytes[28..32].copy_from_slice(&1000u32.to_le_bytes());
    let view = TestAnalytics::parse(&bytes).unwrap();
    assert_eq!(
        TestAnalyticsWriter::from_existing_format(&view).err(),
        Some(TestAnalyticsError::InvalidStringReference)
    );
}

#[test]
fn bad_flag_set_reference_is_reported() {
    let mut bytes = s1_writer().serialize();
    bytes[36..40].copy_from_slice(&77u32.to_le_bytes());
    let view = TestAnalytics::parse(&bytes).unwrap();
    assert_eq!(
        TestAnalyticsWriter::from_existing_format(&view).err(),
        Some(TestAnalyticsError::InvalidFlagSetReference)
    );
}

#[test]
fn merge_with_empty_is_identity() {
    let w = s2_writer();
    let bytes = w.serialize();
    let a = TestAnalytics::parse(&bytes).unwrap();
    let e = round_trip(TestAnalyticsWriter::new(7));
    let m = TestAnalyticsWriter::merge(&a, &e, &add).unwrap();
    assert_eq!(m.serialize(), bytes);
}

#[test]
fn merge_counts_commute() {
    let a = round_trip(single_writer(100, 5, 1));
    let b = round_trip(single_writer(101, 2, 3));
    let ab = TestAnalyticsWriter::merge(&a, &b, &add).unwrap();
    let ba = TestAnalyticsWriter::merge(&b, &a, &add).unwrap();
    for k in 0..7 {
        let x = ab.get_bucket(0, k);
        let y = ba.get_bucket(0, k);
        assert_eq!(x.total_pass_count, y.total_pass_count);
        assert_eq!(x.total_fail_count, y.total_fail_count);
        assert_eq!(x.total_skip_count, y.total_skip_count);
        assert_eq!(f32::from_bits(x.total_duration), f32::from_bits(y.total_duration));
    }
    assert_eq!(ab.get_bucket(0, 0).total_pass_count, 2);
    assert_eq!(ab.get_bucket(0, 1).total_pass_count, 5);
}

#[test]
fn rewrite_growing_keeps_counts() {
    let mut w = s2_writer();
    assert_eq!(w.rewrite(9, 102, Some(0)), Ok(true));
    assert_eq!(w.num_days(), 9);
    assert_eq!(w.get_bucket(0, 0).total_pass_count, 1);
    assert_eq!(w.get_bucket(0, 2).total_pass_count, 2);
    assert_eq!(w.get_bucket(0, 2).last_timestamp, 100);
    assert_eq!(w.get_bucket(0, 8), TestData::empty());
}

#[test]
fn flag_sets_are_canonical() {
    let mut w = TestAnalyticsWriter::new(3);
    let s1 = w.start_session(5, &flags(&["b", "a"]));
    s1.insert(&mut w, &run("s", "t", 1.0, Outcome::Pass), &add);
    let s2 = w.start_session(5, &flags(&["a", "b", "a"]));
    s2.insert(&mut w, &run("s", "t", 1.0, Outcome::Skip), &add);
    let s3 = w.start_session(5, &flags(&["c"]));
    s3.insert(&mut w, &run("s", "t", 1.0, Outcome::Error), &add);
    assert_eq!(w.num_tests(), 2);
    let b = w.get_bucket(0, 0);
    assert_eq!(b.total_pass_count, 1);
    assert_eq!(b.total_skip_count, 1);
    assert_eq!(w.get_bucket(1, 0).total_fail_count, 1);
}

#[test]
fn distinct_names_are_distinct_tests() {
    let mut w = TestAnalyticsWriter::new(2);
    let s = w.start_session(1, &flags(&[]));
    s.insert(&mut w, &run("s", "a", 1.0, Outcome::Pass), &add);
    s.insert(&mut w, &run("s", "b", 1.0, Outcome::Pass), &add);
    s.insert(&mut w, &run("s2", "a", 1.0, Outcome::Pass), &add);
    assert_eq!(w.num_tests(), 3);
}

#[test]
fn validated_string_bounds() {
    let ok = ValidatedString::from_string("x".repeat(1000)).unwrap();
    assert_eq!(ok.as_str().len(), 1000);
    match ValidatedString::from_string("x".repeat(1001)) {
        Err(ValidatedStringError::StringTooLong(s)) => assert_eq!(s.len(), 1001),
        Ok(_) => panic!("accepted a long string"),
    }
}

#[test]
fn position_of_offsets() {
    let input = b"ab\ncd\n\nef";
    assert_eq!(get_position_info(input, 0), (1, 1));
    assert_eq!(get_position_info(input, 4), (2, 2));
    assert_eq!(get_position_info(input, 7), (4, 1));
    assert_eq!(get_position_info(input, 100), (4, 94));
}

#[test]
fn merge_adds_new_tests_and_flags() {
    let mut wa = TestAnalyticsWriter::new(4);
    let sa = wa.start_session(10, &flags(&["linux"]));
    sa.insert(&mut wa, &run("suite", "alpha", 1.0, Outcome::Pass), &add);
    let mut wb = TestAnalyticsWriter::new(4);
    let sb = wb.start_session(10, &flags(&["windows", "py3"]));
    sb.insert(&mut wb, &run("suite", "beta", 2.0, Outcome::Skip), &add);
    sb.insert(&mut wb, &run("suite", "alpha", 2.0, Outcome::Failure), &add);
    let a = round_trip(wa);
    let b = round_trip(wb);
    let m = TestAnalyticsWriter::merge(&a, &b, &add).unwrap();
    // b has more tests, so it is taken over and a is added in
    assert_eq!(m.num_tests(), 3);
    assert_eq!(m.get_bucket(0, 0).total_skip_count, 1);
    assert_eq!(m.get_bucket(1, 0).total_fail_count, 1);
    assert_eq!(m.get_bucket(2, 0).total_pass_count, 1);
    assert_eq!(f32::from_bits(m.get_bucket(2, 0).total_duration), 1.0);
    let bytes = m.serialize();
    let text = String::from_utf8_lossy(&bytes);
    assert!(text.contains("alpha") && text.contains("beta") && text.contains("linux"));
}

#[test]
fn merge_reports_bad_smaller_references() {
    let a = round_trip(single_writer(100, 2, 0));
    let mut bytes = single_writer(100, 1, 0).serialize();
    bytes[28..32].copy_from_slice(&500u32.to_le_bytes());
    let bad_string = TestAnalytics::parse(&bytes).unwrap();
    assert_eq!(
        TestAnalyticsWriter::merge(&a, &bad_string, &add).err(),
        Some(TestAnalyticsError::InvalidStringReference)
    );
    let mut bytes = single_writer(100, 1, 0).serialize();
    bytes[36..40].copy_from_slice(&9u32.to_le_bytes());
    let bad_flags = TestAnalytics::parse(&bytes).unwrap();
    assert_eq!(
        TestAnalyticsWriter::merge(&a, &bad_flags, &add).err(),
        Some(TestAnalyticsError::InvalidFlagSetReference)
    );
}

#[test]
fn repeated_runs_reuse_the_test() {
    let mut w = TestAnalyticsWriter::new(3);
    let s = w.start_session(4, &flags(&["x", "y"]));
    s.insert(&mut w, &run("s", "t", 1.0, Outcome::Pass), &add);
    let s2 = w.start_session(4, &flags(&["y", "x"]));
    s2.insert(&mut w, &run("s", "t", 1.0, Outcome::Pass), &add);
    assert_eq!(w.num_tests(), 1);
    assert_eq!(w.get_bucket(0, 0).total_pass_count, 2);
}

#[test]
fn rewrite_keeps_one_test_under_two_flag_sets() {
    let mut w = TestAnalyticsWriter::new(3);
    let s1 = w.start_session(10, &flags(&["a"]));
    s1.insert(&mut w, &run("s", "t", 1.0, Outcome::Pass), &add);
    let s2 = w.start_session(10, &flags(&["b"]));
    s2.insert(&mut w, &run("s", "t", 1.0, Outcome::Failure), &add);
    assert_eq!(w.rewrite(5, 10, Some(0)), Ok(true));
    assert_eq!(w.num_tests(), 2);
    assert_eq!(w.get_bucket(0, 0).total_pass_count, 1);
    assert_eq!(w.get_bucket(1, 0).total_fail_count, 1);
}

#[test]
fn merging_a_view_with_itself_doubles_counts() {
    let a = round_trip(s2_writer());
    let m = TestAnalyticsWriter::merge(&a, &a, &add).unwrap();
    assert_eq!(m.num_tests(), 1);
    assert_eq!(m.get_bucket(0, 0).total_pass_count, 2);
    assert_eq!(m.get_bucket(0, 2).total_pass_count, 4);
    assert_eq!(m.get_bucket(0, 2).total_fail_count, 2);
    assert_eq!(m.get_bucket(0, 2).last_timestamp, 100);
}
