use log_timeline::clock::{parse_timestamp, ParsedTime, ANCHOR_SECS};
use log_timeline::duration::{parse_duration, read_component, Reading};
use log_timeline::events::{classify_line, collect_events, FailureKind, Rules};
use log_timeline::lanes::{pack_lanes, Event};
use log_timeline::patterns::{Pattern, PatternSet};
use log_timeline::timeline::build_timeline;

const SEC: i128 = 1_000_000_000;
const FORMAT: &str = "%Y-%m-%d %H:%M:%S";
// 2020-01-01T00:00:00 in seconds since the Unix epoch.
const BASE: i128 = 1_577_836_800;

fn rules(colors: &[&str]) -> Rules {
    Rules {
        durations: vec![
            Pattern::new(r"took (?P<s>[0-9.]+)s".to_string()).ok().unwrap(),
            Pattern::new(r"ran (?P<h>\d+)h(?P<m>\d+)m".to_string()).ok().unwrap(),
        ],
        timestamp: Pattern::new(r"^\[([^\]]*)\]".to_string()).ok().unwrap(),
        format: FORMAT.to_string(),
        colors: PatternSet::new(colors.iter().map(|c| c.to_string()).collect()).ok().unwrap(),
    }
}

fn lines(ls: &[&str]) -> Vec<Vec<u8>> {
    ls.iter().map(|l| l.as_bytes().to_vec()).collect()
}

fn ev(start: i128, end: i128, color: usize) -> Event {
    Event { start, end, message: Vec::new(), color, lane: 0 }
}

#[test]
fn duration_from_all_components() {
    let d = parse_duration(Some(b"1"), Some(b"30"), Some(b"1.5"));
    assert_eq!(d, 5_401_500_000_000);
}

#[test]
fn duration_missing_components_count_zero() {
    assert_eq!(parse_duration(None, None, Some(b"2")), 2_000_000_000);
    assert_eq!(parse_duration(None, Some(b"2"), None), 120_000_000_000);
    assert_eq!(parse_duration(None, None, None), 0);
}

#[test]
fn duration_non_numeric_counts_zero() {
    assert_eq!(parse_duration(Some(b"x"), None, Some(b"3")), 3_000_000_000);
    assert_eq!(parse_duration(None, None, Some(b"1.2.3")), 0);
    assert_eq!(read_component(Some(b".")), Reading::Finite(0, 0));
    assert_eq!(parse_duration(None, None, Some(b"1e")), 0);
    assert_eq!(parse_duration(None, None, Some(b"e5")), 0);
    assert_eq!(parse_duration(None, None, Some(b".e1")), 0);
    assert_eq!(parse_duration(None, None, Some(b"1e5x")), 0);
}

#[test]
fn duration_rounds_half_away_from_zero() {
    assert_eq!(parse_duration(None, None, Some(b"0.0000000005")), 1);
    assert_eq!(parse_duration(None, None, Some(b"-0.0000000005")), -1);
    assert_eq!(parse_duration(None, None, Some(b"0.0000000004")), 0);
    assert_eq!(parse_duration(None, None, Some(b"+.25")), 250_000_000);
}

#[test]
fn duration_saturates() {
    assert_eq!(parse_duration(Some(b"999999999999"), None, None), i64::MAX);
    assert_eq!(parse_duration(Some(b"-999999999999"), None, None), i64::MIN);
}

#[test]
fn component_in_attoseconds() {
    assert_eq!(read_component(Some(b"1.5")), Reading::Finite(1, 500_000_000_000_000_000));
    assert_eq!(read_component(Some(b"-2")), Reading::Finite(-2, 0));
    assert_eq!(read_component(Some(b"1e3")), Reading::Finite(1000, 0));
    assert_eq!(read_component(Some(b"0.0000000000000000015")), Reading::Finite(0, 2));
    assert_eq!(read_component(Some(b"0.0000000000000000014")), Reading::Finite(0, 1));
    assert_eq!(read_component(Some(b"1e300")), Reading::Finite(10_000_000_000_000_000_000_000_000_000_000_000, 0));
    assert_eq!(read_component(Some(b"-InFinity")), Reading::NegInf);
    assert_eq!(read_component(Some(b"NaN")), Reading::NaN);
    assert_eq!(read_component(None), Reading::Finite(0, 0));
}

#[test]
fn duration_exponent_forms() {
    assert_eq!(parse_duration(None, None, Some(b"1e3")), 1_000_000_000_000);
    assert_eq!(parse_duration(None, None, Some(b"2.5E-1")), 250_000_000);
    assert_eq!(parse_duration(None, Some(b"1e+1"), None), 600_000_000_000);
    assert_eq!(parse_duration(None, None, Some(b"1e-400")), 0);
    assert_eq!(parse_duration(None, None, Some(b"1e300")), i64::MAX);
    assert_eq!(parse_duration(None, None, Some(b"-1e300")), i64::MIN);
    assert_eq!(parse_duration(None, None, Some(b"1e99999999999999999999999999999999999")), i64::MAX);
}

#[test]
fn duration_long_numerals() {
    assert_eq!(parse_duration(None, None, Some(b"0000000000001")), 1_000_000_000);
    assert_eq!(parse_duration(None, None, Some(b"1.5000000000000000000")), 1_500_000_000);
    assert_eq!(parse_duration(None, None, Some(b"0.99999999999999999999999")), 1_000_000_000);
}

#[test]
fn duration_opposite_signs_sum_exactly() {
    // 1e17 hours is 3.6e20 s, outweighed by -1e21 s.
    assert_eq!(parse_duration(Some(b"1e17"), None, Some(b"-1e21")), i64::MIN);
    assert_eq!(parse_duration(Some(b"-1e17"), None, Some(b"1e21")), i64::MAX);
    // Huge parts that cancel leave the small remainder.
    assert_eq!(parse_duration(Some(b"1e17"), Some(b"1"), Some(b"-3.6e20")), 60_000_000_000);
    assert_eq!(parse_duration(Some(b"1"), None, Some(b"-3600.5")), -500_000_000);
    assert_eq!(parse_duration(Some(b"1"), None, Some(b"-3601.5")), -1_500_000_000);
    assert_eq!(read_component(Some(b"1e17")), Reading::Finite(100_000_000_000_000_000, 0));
}

#[test]
fn duration_infinities_and_nan() {
    assert_eq!(parse_duration(None, None, Some(b"inf")), i64::MAX);
    assert_eq!(parse_duration(Some(b"-infinity"), None, Some(b"5")), i64::MIN);
    assert_eq!(parse_duration(Some(b"inf"), None, Some(b"-inf")), 0);
    assert_eq!(parse_duration(Some(b"nan"), None, Some(b"5")), 0);
}

#[test]
fn timestamp_full_and_time_of_day() {
    match parse_timestamp("2020-01-01 00:00:10", FORMAT) {
        ParsedTime::DateTime(t) => assert_eq!(t, (BASE + 10) * SEC),
        _ => panic!("expected a date and time"),
    }
    match parse_timestamp("00:01:10", "%H:%M:%S") {
        ParsedTime::TimeOfDay(t) => assert_eq!(t, (ANCHOR_SECS as i128 + 70) * SEC),
        _ => panic!("expected a time of day"),
    }
    assert!(matches!(parse_timestamp("nonsense", FORMAT), ParsedTime::Unparsed));
}

#[test]
fn pattern_errors_are_reported() {
    let e = Pattern::new("(".to_string()).err().unwrap();
    assert_eq!(e.pattern, "(");
    assert!(PatternSet::new(vec!["ok".to_string(), "[".to_string()]).is_err());
}

#[test]
fn pattern_groups_and_sets() {
    let p = Pattern::new(r"ran (?P<h>\d+)h(?P<m>\d+)m".to_string()).ok().unwrap();
    let (h, m, s) = p.hms(b"job ran 2h5m").unwrap();
    assert_eq!(h, Some(b"2".to_vec()));
    assert_eq!(m, Some(b"5".to_vec()));
    assert_eq!(s, None);
    assert!(p.hms(b"nothing").is_none());
    let t = Pattern::new(r"^\[([^\]]*)\]".to_string()).ok().unwrap();
    assert_eq!(t.first_group(b"[abc] x"), Some(Some("abc".to_string())));
    let set = PatternSet::new(vec!["b".to_string(), "a".to_string(), "ab".to_string()]).ok().unwrap();
    assert_eq!(set.first_match(b"xaby"), Some(0));
    assert_eq!(set.first_match(b"xay"), Some(1));
    assert_eq!(set.first_match(b"z"), None);
}

#[test]
fn first_duration_rule_wins() {
    let r = rules(&["."]);
    let e = classify_line(&r, b"[2020-01-01 00:01:00] ran 0h1m took 3s").ok().unwrap().unwrap();
    assert_eq!(e.end, (BASE + 60) * SEC);
    assert_eq!(e.start, (BASE + 57) * SEC);
}

#[test]
fn short_events_are_dropped() {
    let r = rules(&["."]);
    assert!(classify_line(&r, b"[2020-01-01 00:00:10] took 0.5s").ok().unwrap().is_none());
    let c = collect_events(
        &r,
        &lines(&["[2020-01-01 00:00:10] took 0.999s", "[2020-01-01 00:00:10] took 1s"]),
    )
    .ok()
    .unwrap();
    assert_eq!(c.events.len(), 1);
    assert_eq!(c.events[0].end - c.events[0].start, SEC);
}

#[test]
fn global_span_is_min_start_max_end() {
    let r = rules(&["."]);
    let c = collect_events(
        &r,
        &lines(&[
            "[2020-01-01 00:00:10] took 5s",
            "[2020-01-01 00:00:30] took 2s",
            "[2020-01-01 00:00:12] took 11s",
        ]),
    )
    .ok()
    .unwrap();
    assert_eq!(c.span, Some(((BASE + 1) * SEC, (BASE + 30) * SEC)));
    for e in &c.events {
        assert!(e.end >= e.start);
    }
    let none = collect_events(&r, &lines(&["no duration here"])).ok().unwrap();
    assert_eq!(none.span, None);
}

#[test]
fn lane_reuse_within_tolerance() {
    let mut evs = vec![ev(0, 10 * SEC, 0), ev(9 * SEC + SEC / 2, 12 * SEC, 0), ev(10 * SEC, 20 * SEC, 0)];
    let layout = pack_lanes(&mut evs, &vec![0]);
    assert_eq!(evs[0].lane, 0);
    assert_eq!(evs[1].lane, 0);
    // The lane now remembers 12 s, which lies 2 s after the third start.
    assert_eq!(evs[2].lane, 1);
    assert_eq!(layout.total, 2);
}

#[test]
fn lanes_are_dense_and_grouped() {
    let mut evs = vec![
        ev(0, 10 * SEC, 1),
        ev(0, 10 * SEC, 0),
        ev(0, 9 * SEC, 2),
        ev(20 * SEC, 30 * SEC, 1),
    ];
    let layout = pack_lanes(&mut evs, &vec![5, 2, 5]);
    assert_eq!(layout.group_ids, vec![2, 5]);
    assert_eq!(layout.slots, vec![1, 0, 1]);
    assert_eq!(layout.counts, vec![1, 2]);
    assert_eq!(layout.bases, vec![0, 1]);
    assert_eq!(layout.total, 3);
    let mut used: Vec<usize> = evs.iter().map(|e| e.lane).collect();
    used.sort();
    used.dedup();
    assert_eq!(used, vec![0, 1, 2]);
}

#[test]
fn sorted_by_start_then_longest_first() {
    let mut evs = vec![ev(5 * SEC, 6 * SEC, 0), ev(0, 2 * SEC, 0), ev(0, 3 * SEC, 0)];
    pack_lanes(&mut evs, &vec![0]);
    let order: Vec<(i128, i128)> = evs.iter().map(|e| (e.start, e.end)).collect();
    assert_eq!(order, vec![(0, 3 * SEC), (0, 2 * SEC), (5 * SEC, 6 * SEC)]);
    assert_eq!(evs[0].lane, 0);
    assert_eq!(evs[1].lane, 1);
    assert_eq!(evs[2].lane, 0);
}

#[test]
fn scenario_sequential_events_share_a_lane() {
    let r = rules(&["."]);
    let t = build_timeline(
        &r,
        &vec![0],
        &lines(&["[2020-01-01 00:00:10] took 5s", "[2020-01-01 00:00:22] took 2s"]),
    )
    .ok()
    .unwrap();
    assert_eq!(t.events.len(), 2);
    assert_eq!(t.events[0].start, (BASE + 5) * SEC);
    assert_eq!(t.events[1].start, (BASE + 20) * SEC);
    assert_eq!(t.events[0].lane, 0);
    assert_eq!(t.events[1].lane, 0);
    assert_eq!(t.layout.total, 1);
    assert_eq!(t.global_duration_secs(), 17);
    assert_eq!(t.top_secs(1), 15);
    assert_eq!(t.height_secs(0), 5);
}

#[test]
fn scenario_small_overlap_shares_lane() {
    let r = rules(&["."]);
    let t = build_timeline(
        &r,
        &vec![0],
        &lines(&[
            "[2020-01-01 00:00:10] took 5s",
            "[2020-01-01 00:00:14] took 4.5s",
            "[2020-01-01 00:00:14] took 1.5s",
        ]),
    )
    .ok()
    .unwrap();
    assert_eq!(t.events.len(), 3);
    assert_eq!(t.events[0].lane, 0);
    assert_eq!(t.events[1].start, (BASE + 9) * SEC + SEC / 2);
    assert_eq!(t.events[1].lane, 0);
    // Lane 0 now remembers 14 s: the event from 12.5 s opens a new lane.
    assert_eq!(t.events[2].lane, 1);
    assert_eq!(t.layout.total, 2);
}

#[test]
fn scenario_no_color_is_fatal() {
    let r = rules(&["compile"]);
    let e = build_timeline(
        &r,
        &vec![0],
        &lines(&["[2020-01-01 00:00:10] compile took 5s", "[2020-01-01 00:00:20] link took 5s"]),
    )
    .err()
    .unwrap();
    assert_eq!(e.kind, FailureKind::NoColor);
    assert_eq!(e.line, b"[2020-01-01 00:00:20] link took 5s".to_vec());
}

#[test]
fn scenario_missing_timestamp_is_skipped() {
    let r = rules(&["."]);
    let t = build_timeline(
        &r,
        &vec![0],
        &lines(&["no stamp took 5s", "[2020-01-01 00:00:10] took 5s"]),
    )
    .ok()
    .unwrap();
    assert_eq!(t.events.len(), 1);
    assert_eq!(t.events[0].end, (BASE + 10) * SEC);
}

#[test]
fn unparsable_timestamp_is_fatal() {
    let r = rules(&["."]);
    let e = collect_events(&r, &lines(&["[yesterday] took 5s"])).err().unwrap();
    assert_eq!(e.kind, FailureKind::Timestamp);
    assert_eq!(e.line, b"[yesterday] took 5s".to_vec());
}

#[test]
fn scenario_two_groups_three_lanes_each() {
    let r = rules(&["compile", "link"]);
    let t = build_timeline(
        &r,
        &vec![0, 1],
        &lines(&[
            "[2020-01-01 00:00:10] compile took 10s",
            "[2020-01-01 00:00:10] compile took 9s",
            "[2020-01-01 00:00:10] compile took 8s",
            "[2020-01-01 00:00:10] link took 7s",
            "[2020-01-01 00:00:10] link took 6s",
            "[2020-01-01 00:00:10] link took 5s",
        ]),
    )
    .ok()
    .unwrap();
    assert_eq!(t.layout.total, 6);
    assert_eq!(t.layout.bases, vec![0, 3]);
    for e in &t.events {
        if e.color == 0 {
            assert!(e.lane < 3);
        } else {
            assert!(3 <= e.lane && e.lane < 6);
        }
    }
    let mut used: Vec<usize> = t.events.iter().map(|e| e.lane).collect();
    used.sort();
    assert_eq!(used, vec![0, 1, 2, 3, 4, 5]);
}
