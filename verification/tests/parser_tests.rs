use hue_scheduler::h;
use hue_scheduler::time_range_parser::{TimeRange, TimeRangeParser};

#[test]
fn time_range_parser_test_extract_time_range() {
    let parser = TimeRangeParser::new();
    let etr = |v: &str| parser.extract_time_range(v);

    assert_eq!(etr("10h-20h"), Some((h(10), h(20))));
    assert_eq!(etr("12:23h-20:59h"), Some((h(12) + 23, h(20) + 59)));
    assert_eq!(etr("0:01h-0:00h"), Some((1, 0)));
    assert_eq!(etr("0:00h-0:00h"), Some((0, 0)));
    assert_eq!(etr("0:1h-0:0h"), None);
    assert_eq!(etr("10h-20:60h"), None);

    assert_eq!(etr("6AM-6PM"), Some((h(6), h(18))));
    assert_eq!(etr("12AM-12PM"), Some((h(0), h(12))));
    assert_eq!(etr("12:59AM-12:59PM"), Some((h(0) + 59, h(12) + 59)));
    assert_eq!(etr("2:30PM-1:55PM"), Some((h(14) + 30, h(13) + 55)));
    assert_eq!(etr("13PM-6PM"), None);
    assert_eq!(etr("3AM-16:15h"), Some((h(3), h(16) + 15)));
}

#[test]
fn test_matches_time_range() {
    let parser = TimeRangeParser::new();
    let mtr = |r: &TimeRange, v: u32| parser.matches_time_range(&r, v);

    assert!(mtr(&(h(10), h(20)), h(12)));
    assert!(mtr(&(h(10), h(20)), h(19)));
    assert!(!mtr(&(h(10), h(20)), h(20)));
    assert!(mtr(&(h(12), h(6)), h(20)));
    assert!(!mtr(&(h(12), h(6)), h(8)));
    assert!(!mtr(&(h(12), h(6)), h(8)));
    assert!(mtr(&(h(12), h(6)), h(12)));
    assert!(mtr(&(h(12), h(6)), h(18)));
    assert!(!mtr(&(h(12), h(6)), h(6)));
    assert!(mtr(&(h(12), h(6)), h(4)));
    assert!(mtr(&(h(20), h(12)), h(21)));
    assert!(mtr(&(h(20), h(12)), h(10)));
    assert!(!mtr(&(h(20), h(12)), h(13)));
}

#[test]
fn test_time_ranges() {
    let parser = TimeRangeParser::new();
    let etrs = |v: &str| parser.extract_time_ranges(v);

    assert_eq!(etrs("Test"), vec![]);
    assert_eq!(etrs("Test (10h-20h)"), vec![(h(10), h(20))]);

    assert_eq!(
        etrs("Test (10h-20h, 12h-14h)"),
        vec![(h(10), h(20)), (h(12), h(14))]
    );

    assert_eq!(
        etrs("Test (10h-20h, 12h-14h, 16h-18h)"),
        vec![(h(10), h(20)), (h(12), h(14)), (h(16), h(18))]
    );
}

#[test]
fn test_time_range_with_variables() {
    let mut parser = TimeRangeParser::new();

    parser.define_variables(vec![
        ("sunrise".to_string(), h(6)),
        ("sunset".to_string(), h(20)),
    ]);

    let etr = |v: &str| parser.extract_time_range(v);

    assert_eq!(etr("sunrise-sunset"), Some((h(6), h(20))));
    assert_eq!(etr("sunrise-20h"), Some((h(6), h(20))));
    assert_eq!(etr("18:23h-sunset"), Some((h(18) + 23, h(20))));
    assert_eq!(etr("18:23h-15h"), Some((h(18) + 23, h(15))));
}

#[test]
fn test_parse_labels() {
    let parser = TimeRangeParser::new();

    assert_eq!(parser.extract_time_ranges("(10h-20h)"), vec![(600, 1200)]);
    assert_eq!(
        parser.extract_time_ranges("(12:23h-20:59h)"),
        vec![(743, 1259)]
    );
    assert_eq!(parser.extract_time_ranges("(0:1h-0:0h)"), vec![]);
    assert_eq!(parser.extract_time_ranges("(13PM-6PM)"), vec![]);
    assert_eq!(parser.extract_time_ranges("(6AM-6PM)"), vec![(360, 1080)]);

    let mut parser = TimeRangeParser::new();
    parser.define_variables(vec![
        ("sunrise".to_string(), 360),
        ("sunset".to_string(), 1200),
    ]);
    assert_eq!(
        parser.extract_time_ranges("(sunrise-sunset)"),
        vec![(360, 1200)]
    );
}

#[test]
fn test_half_open_matching() {
    let parser = TimeRangeParser::new();

    assert!(parser.matches_time_range(&(600, 1200), 1199));
    assert!(!parser.matches_time_range(&(600, 1200), 1200));
    assert!(parser.matches_time_range(&(600, 1200), 600));

    // A wrapping range spans midnight: the start is inside, the end and
    // anything just before the start are not.
    assert!(!parser.matches_time_range(&(1200, 360), 360));
    assert!(parser.matches_time_range(&(1200, 360), 0));
    assert!(parser.matches_time_range(&(1200, 360), 1200));
    assert!(parser.matches_time_range(&(1200, 360), 1439));
    assert!(!parser.matches_time_range(&(1200, 360), 1199));

    // A zero-width range covers nothing.
    assert!(!parser.matches_time_range(&(600, 600), 600));
    assert!(!parser.matches_time_range(&(600, 600), 0));
}

#[test]
fn test_end_of_day_literal() {
    let parser = TimeRangeParser::new();

    // An hour of 24 stands for the end of the day, with zero minutes only.
    assert_eq!(parser.extract_time_range("22h-24h"), Some((1320, 1440)));
    assert_eq!(parser.extract_time_range("22h-24:00h"), Some((1320, 1440)));
    assert_eq!(parser.extract_time_range("22h-24:30h"), None);
    assert_eq!(parser.extract_time_range("25h-26h"), None);
}

#[test]
fn test_every_group_contributes() {
    let parser = TimeRangeParser::new();

    assert_eq!(
        parser.extract_time_ranges("Morning (6h-9h) and evening (18h-23h)"),
        vec![(360, 540), (1080, 1380)]
    );
}

#[test]
fn test_skipped_segments_are_counted() {
    let parser = TimeRangeParser::new();

    assert_eq!(
        parser.extract_time_ranges_counted("Test (10h-20h, nope, 12h-14h)"),
        (vec![(600, 1200), (720, 840)], 1)
    );
    assert_eq!(parser.extract_time_ranges_counted("Test"), (vec![], 0));
    assert_eq!(parser.extract_time_ranges_counted("Test ()"), (vec![], 1));
    assert_eq!(
        parser.extract_time_ranges_counted("(10h-25h, 26h-27h)"),
        (vec![], 2)
    );
}

#[test]
fn test_literal_beats_variable_of_same_name() {
    let mut parser = TimeRangeParser::new();
    parser.define_variables(vec![("25h".to_string(), 90)]);

    // A string shaped like a literal never falls back to the table.
    assert_eq!(parser.extract_time_range("25h-6h"), None);

    let mut parser = TimeRangeParser::new();
    parser.define_variables(vec![("dawn".to_string(), 350), ("dawn".to_string(), 370)]);

    // The latest definition of a name wins.
    assert_eq!(parser.extract_time_range("dawn-12h"), Some((370, 720)));
}
