//! Classification of log lines into events, and the time range they span.
use vstd::prelude::*;
use crate::clock::{parse_timestamp, parsed_instant, parsed_time_spec, INSTANT_LIMIT};
use crate::duration::{duration_spec, opt_view, parse_duration};
use crate::lanes::{event_times_ok, fields, Event, CUTOFF_NANOS, TIME_LIMIT};
use crate::patterns::{first_group_text, hms_groups, opt_bytes, set_matches, Pattern, PatternSet};

verus! {

/// The patterns that classify lines: the duration rules in priority order,
/// the timestamp rule with its format, and the color rules in priority order.
pub struct Rules {
    pub durations: Vec<Pattern>,
    pub timestamp: Pattern,
    pub format: String,
    pub colors: PatternSet,
}

/// Why a run stops.
#[derive(Clone, Copy, PartialEq, Eq, Structural, Debug)]
pub enum FailureKind {
    /// The timestamp rule matched, but its text reads as no timestamp.
    Timestamp,
    /// A line that is an event matches no color rule.
    NoColor,
}

/// A fatal condition, with the line that caused it.
pub struct RunError {
    pub kind: FailureKind,
    pub line: Vec<u8>,
}

/// The texts of the duration rules.
pub open spec fn duration_texts(rules: Rules) -> Seq<Seq<char>> {
    rules.durations@.map_values(|p: Pattern| p.text())
}

/// The groups of the first duration rule, from `k` on, that matches `line`.
pub open spec fn first_hms(
    durs: Seq<Seq<char>>,
    line: Seq<u8>,
    k: int,
) -> Option<(Option<Seq<u8>>, Option<Seq<u8>>, Option<Seq<u8>>)>
    decreases durs.len() - k,
{
    if k < 0 || k >= durs.len() {
        None
    } else {
        match hms_groups(durs[k], line) {
            Some(t) => Some(t),
            None => first_hms(durs, line, k + 1),
        }
    }
}

/// The lowest index in a set of indices.
pub open spec fn lowest(s: Set<usize>) -> Option<usize> {
    if s.is_empty() {
        None
    } else {
        Some(choose|i: usize| s.contains(i) && forall|j: usize| j < i ==> !s.contains(j))
    }
}

/// What becomes of one line: skipped, an event (start, end, category), or a
/// fatal error.
#[verifier::opaque]
pub open spec fn line_outcome(rules: Rules, line: Seq<u8>) -> Result<Option<(int, int, usize)>, FailureKind> {
    match first_hms(duration_texts(rules), line, 0) {
        None => Ok(None),
        Some((h, m, s)) => {
            let d = duration_spec(h, m, s);
            if d < CUTOFF_NANOS {
                Ok(None)
            } else {
                match first_group_text(rules.timestamp.text(), line) {
                    None => Ok(None),
                    Some(None) => Err(FailureKind::Timestamp),
                    Some(Some(text)) => match parsed_instant(parsed_time_spec(text, rules.format@)) {
                        None => Err(FailureKind::Timestamp),
                        Some(end) => match lowest(set_matches(rules.colors.texts(), line)) {
                            None => Err(FailureKind::NoColor),
                            Some(c) => Ok(Some((end - d, end, c))),
                        },
                    },
                }
            }
        },
    }
}

proof fn lemma_lowest(s: Set<usize>, i: usize)
    requires
        s.contains(i),
        forall|j: usize| j < i ==> !s.contains(j),
    ensures
        lowest(s) == Some(i),
{
    let k = choose|k: usize| s.contains(k) && forall|j: usize| j < k ==> !s.contains(j);
    assert(s.contains(k) && forall|j: usize| j < k ==> !s.contains(j));
    assert(k == i);
}

/// The event of a line, or why the line is skipped or fatal.
pub fn classify_line(rules: &Rules, line: &[u8]) -> (r: Result<Option<Event>, FailureKind>)
    ensures
        match r {
            Ok(None) => line_outcome(*rules, line@) == Ok::<Option<(int, int, usize)>, FailureKind>(None),
            Ok(Some(e)) => line_outcome(*rules, line@) == Ok::<Option<(int, int, usize)>, FailureKind>(
                Some((e.start as int, e.end as int, e.color)),
            ) && e.message@ == line@ && e.lane == 0 && e.end - e.start >= CUTOFF_NANOS
                && -TIME_LIMIT < e.start,
            Err(k) => line_outcome(*rules, line@) == Err::<Option<(int, int, usize)>, FailureKind>(k),
        },
        r matches Ok(Some(e)) ==> e.end < INSTANT_LIMIT && e.color
            < rules.colors.texts().len(),
{
    reveal(line_outcome);
    let ghost durs = duration_texts(*rules);
    let mut k: usize = 0;
    let mut found: Option<(Option<Vec<u8>>, Option<Vec<u8>>, Option<Vec<u8>>)> = None;
    while k < rules.durations.len()
        invariant_except_break
            found is None,
        invariant
            k <= rules.durations@.len(),
            durs == duration_texts(*rules),
            durs.len() == rules.durations@.len(),
            found is None ==> first_hms(durs, line@, 0) == first_hms(durs, line@, k as int),
            found matches Some(t) ==> first_hms(durs, line@, 0) == Some(
                (opt_bytes(t.0), opt_bytes(t.1), opt_bytes(t.2)),
            ),
        ensures
            found is None ==> k >= rules.durations@.len(),
        decreases rules.durations.len() - k,
    {
        assert(durs[k as int] == rules.durations@[k as int].text());
        let got = rules.durations[k].hms(line);
        assert(first_hms(durs, line@, k as int) == match hms_groups(durs[k as int], line@) {
            Some(t) => Some(t),
            None => first_hms(durs, line@, k + 1),
        });
        match got {
            Some(t) => {
                assert(hms_groups(durs[k as int], line@) == Some((opt_bytes(t.0), opt_bytes(t.1), opt_bytes(t.2))));
                assert(first_hms(durs, line@, k as int) == Some((opt_bytes(t.0), opt_bytes(t.1), opt_bytes(t.2))));
                found = Some(t);
                break;
            },
            None => {},
        }
        k = k + 1;
    }
    let (h, m, s) = match found {
        None => {
            return Ok(None);
        },
        Some(t) => t,
    };
    let d = parse_duration(slice_of(&h), slice_of(&m), slice_of(&s));
    if d < CUTOFF_NANOS {
        return Ok(None);
    }
    let text = match rules.timestamp.first_group(line) {
        None => {
            return Ok(None);
        },
        Some(None) => {
            return Err(FailureKind::Timestamp);
        },
        Some(Some(t)) => t,
    };
    let end = match parse_timestamp(text.as_str(), rules.format.as_str()) {
        crate::clock::ParsedTime::DateTime(t) => t,
        crate::clock::ParsedTime::TimeOfDay(t) => t,
        crate::clock::ParsedTime::Unparsed => {
            return Err(FailureKind::Timestamp);
        },
    };
    let color = match rules.colors.first_match(line) {
        None => {
            return Err(FailureKind::NoColor);
        },
        Some(c) => c,
    };
    proof {
        lemma_lowest(set_matches(rules.colors.texts(), line@), color);
    }
    Ok(Some(Event { start: end - d as i128, end, message: copy_bytes(line), color, lane: 0 }))
}

fn copy_bytes(b: &[u8]) -> (r: Vec<u8>)
    ensures
        r@ == b@,
{
    let mut r: Vec<u8> = Vec::new();
    let mut i: usize = 0;
    while i < b.len()
        invariant
            i <= b@.len(),
            r@ == b@.take(i as int),
        decreases b.len() - i,
    {
        r.push(b[i]);
        i = i + 1;
        assert(r@ =~= b@.take(i as int));
    }
    assert(b@.take(b@.len() as int) =~= b@);
    r
}

fn slice_of(o: &Option<Vec<u8>>) -> (r: Option<&[u8]>)
    ensures
        opt_view(r) == opt_bytes(*o),
{
    match o {
        Some(v) => Some(v.as_slice()),
        None => None,
    }
}


/// The lines as byte strings.
pub open spec fn line_views(lines: Seq<Vec<u8>>) -> Seq<Seq<u8>> {
    lines.map_values(|l: Vec<u8>| l@)
}

/// What the first `n` lines yield: the events (start, end, category, line) in
/// order, or the first fatal error with the index of its line.
pub open spec fn run_spec(rules: Rules, lines: Seq<Seq<u8>>, n: nat) -> Result<
    Seq<(int, int, usize, Seq<u8>)>,
    (FailureKind, int),
>
    decreases n,
{
    if n == 0 || n > lines.len() {
        Ok(Seq::empty())
    } else {
        match run_spec(rules, lines, (n - 1) as nat) {
            Err(e) => Err(e),
            Ok(acc) => match line_outcome(rules, lines[n - 1]) {
                Ok(None) => Ok(acc),
                Ok(Some((s, e, c))) => Ok(acc.push((s, e, c, lines[n - 1]))),
                Err(k) => Err((k, n - 1)),
            },
        }
    }
}

/// `span` holds the earliest start and the latest end of `evs`, and is absent
/// exactly where there are no events.
pub open spec fn spans(evs: Seq<Event>, span: Option<(i128, i128)>) -> bool {
    match span {
        None => evs.len() == 0,
        Some((a, b)) => {
            &&& evs.len() > 0
            &&& forall|i: int| 0 <= i < evs.len() ==> a <= #[trigger] evs[i].start && evs[i].end <= b
            &&& exists|i: int| 0 <= i < evs.len() && #[trigger] evs[i].start == a
            &&& exists|i: int| 0 <= i < evs.len() && #[trigger] evs[i].end == b
        },
    }
}

/// The accepted events of a log, in the order of their lines, with the range
/// of time they span.
pub struct Collected {
    pub events: Vec<Event>,
    pub span: Option<(i128, i128)>,
}

/// Classifies every line, keeps the events, and tracks the earliest start and
/// the latest end among them; stops at the first fatal line.
pub fn collect_events(rules: &Rules, lines: &Vec<Vec<u8>>) -> (r: Result<Collected, RunError>)
    ensures
        match r {
            Ok(c) => {
                &&& run_spec(*rules, line_views(lines@), lines@.len()) == Ok::<
                    Seq<(int, int, usize, Seq<u8>)>,
                    (FailureKind, int),
                >(c.events@.map_values(|e: Event| fields(e)))
                &&& spans(c.events@, c.span)
                &&& forall|i: int|
                    0 <= i < c.events@.len() ==> {
                        &&& event_times_ok(#[trigger] c.events@[i])
                        &&& c.events@[i].end - c.events@[i].start >= CUTOFF_NANOS
                        &&& c.events@[i].color < rules.colors.texts().len()
                        &&& c.events@[i].lane == 0
                    }
            },
            Err(e) => exists|i: int|
                0 <= i < lines@.len() && run_spec(*rules, line_views(lines@), lines@.len()) == Err::<
                    Seq<(int, int, usize, Seq<u8>)>,
                    (FailureKind, int),
                >((e.kind, i)) && e.line@ == lines@[i]@,
        },
{
    let ghost lv = line_views(lines@);
    let mut events: Vec<Event> = Vec::new();
    let mut span: Option<(i128, i128)> = None;
    let mut i: usize = 0;
    assert(events@.map_values(|e: Event| fields(e)) =~= Seq::<(int, int, usize, Seq<u8>)>::empty());
    while i < lines.len()
        invariant
            i <= lines@.len(),
            lv == line_views(lines@),
            lv.len() == lines@.len(),
            run_spec(*rules, lv, i as nat) == Ok::<Seq<(int, int, usize, Seq<u8>)>, (FailureKind, int)>(
                events@.map_values(|e: Event| fields(e)),
            ),
            spans(events@, span),
            forall|t: int|
                0 <= t < events@.len() ==> {
                    &&& event_times_ok(#[trigger] events@[t])
                    &&& events@[t].end - events@[t].start >= CUTOFF_NANOS
                    &&& events@[t].color < rules.colors.texts().len()
                    &&& events@[t].lane == 0
                },
        decreases lines.len() - i,
    {
        assert(lv[i as int] == lines@[i as int]@);
        match classify_line(rules, lines[i].as_slice()) {
            Err(kind) => {
                let line = copy_bytes(lines[i].as_slice());
                assert(run_spec(*rules, lv, (i + 1) as nat) == Err::<Seq<(int, int, usize, Seq<u8>)>, (FailureKind, int)>((kind, i as int)));
                proof {
                    lemma_run_spec_err_stays(*rules, lv, (i + 1) as nat, lv.len());
                }
                assert(0 <= i < lines@.len() && run_spec(*rules, line_views(lines@), lines@.len()) == Err::<
                    Seq<(int, int, usize, Seq<u8>)>,
                    (FailureKind, int),
                >((kind, i as int)) && line@ == lines@[i as int]@);
                return Err(RunError { kind, line });
            },
            Ok(None) => {},
            Ok(Some(e)) => {
                let ghost old_events = events@;
                let ghost old_span = span;
                let (s, t) = (e.start, e.end);
                span = match span {
                    None => Some((s, t)),
                    Some((a, b)) => Some((if s < a { s } else { a }, if t > b { t } else { b })),
                };
                events.push(e);
                assert(events@.map_values(|e: Event| fields(e)) =~= old_events.map_values(
                    |e: Event| fields(e),
                ).push(fields(e)));
                proof {
                    lemma_span_push(old_events, old_span, events@, span);
                }
            },
        }
        i = i + 1;
    }
    Ok(Collected { events, span })
}

proof fn lemma_span_push(old_events: Seq<Event>, old_span: Option<(i128, i128)>, events: Seq<Event>, span: Option<(i128, i128)>)
    requires
        spans(old_events, old_span),
        events.len() == old_events.len() + 1,
        forall|x: int| 0 <= x < old_events.len() ==> events[x] == old_events[x],
        span == match old_span {
            None => Some((events.last().start, events.last().end)),
            Some((a, b)) => Some(
                (
                    if events.last().start < a { events.last().start } else { a },
                    if events.last().end > b { events.last().end } else { b },
                ),
            ),
        },
        events.last().start <= events.last().end,
    ensures
        spans(events, span),
{
    let n = events.len() - 1;
    let s = events[n].start;
    let t = events[n].end;
    let (a, b) = span.unwrap();
    match old_span {
        None => {
            assert(events[n].start == a);
            assert(events[n].end == b);
        },
        Some((a0, b0)) => {
            if s < a0 {
                assert(events[n].start == a);
            } else {
                let w = choose|w: int| 0 <= w < old_events.len() && #[trigger] old_events[w].start == a0;
                assert(events[w].start == a);
            }
            if t > b0 {
                assert(events[n].end == b);
            } else {
                let w = choose|w: int| 0 <= w < old_events.len() && #[trigger] old_events[w].end == b0;
                assert(events[w].end == b);
            }
            assert forall|x: int| 0 <= x < events.len() implies a <= #[trigger] events[x].start && events[x].end
                <= b by {
                if x < n {
                    assert(old_events[x] == events[x]);
                    assert(a0 <= old_events[x].start && old_events[x].end <= b0);
                }
            }
        },
    }
}

/// The duration of a line: that of its first matching duration rule.
pub open spec fn line_duration(rules: Rules, line: Seq<u8>) -> int {
    match first_hms(duration_texts(rules), line, 0) {
        Some((h, m, s)) => duration_spec(h, m, s),
        None => 0,
    }
}

proof fn lemma_outcome_duration(rules: Rules, line: Seq<u8>)
    ensures
        line_outcome(rules, line) matches Ok(Some((st, en, c))) ==> en - st == line_duration(rules, line)
            && en - st >= CUTOFF_NANOS,
{
    reveal(line_outcome);
}

/// Every event of a run comes from its own line and lasts exactly that
/// line's duration, which is at least the cutoff: a line whose first
/// matching duration rule gives less yields no event.
pub proof fn lemma_run_durations(rules: Rules, lines: Seq<Seq<u8>>, n: nat)
    ensures
        run_spec(rules, lines, n) matches Ok(recs) ==> forall|k: int|
            0 <= k < recs.len() ==> {
                &&& #[trigger] recs[k].1 - recs[k].0 == line_duration(rules, recs[k].3)
                &&& recs[k].1 - recs[k].0 >= CUTOFF_NANOS
                &&& recs[k].0 <= recs[k].1
                &&& exists|i: int| 0 <= i < n && i < lines.len() && lines[i] == recs[k].3
            },
    decreases n,
{
    if n > 0 && n <= lines.len() {
        lemma_run_durations(rules, lines, (n - 1) as nat);
        lemma_outcome_duration(rules, lines[n - 1]);
        match run_spec(rules, lines, (n - 1) as nat) {
            Ok(acc) => {
                match line_outcome(rules, lines[n - 1]) {
                    Ok(Some((st, en, c))) => {
                        let recs = acc.push((st, en, c, lines[n - 1]));
                        assert forall|k: int| 0 <= k < recs.len() implies {
                            &&& #[trigger] recs[k].1 - recs[k].0 == line_duration(rules, recs[k].3)
                            &&& recs[k].1 - recs[k].0 >= CUTOFF_NANOS
                            &&& recs[k].0 <= recs[k].1
                            &&& exists|i: int| 0 <= i < n && i < lines.len() && lines[i] == recs[k].3
                        } by {
                            if k < acc.len() {
                                assert(recs[k] == acc[k]);
                                assert(acc[k].1 - acc[k].0 == line_duration(rules, acc[k].3));
                                let i = choose|i: int| 0 <= i < n - 1 && i < lines.len() && lines[i] == acc[k].3;
                                assert(0 <= i < n && lines[i] == recs[k].3);
                            } else {
                                assert(recs[k] == (st, en, c, lines[n - 1]));
                                assert(0 <= n - 1 < n && lines[n - 1] == recs[k].3);
                            }
                        }
                    },
                    _ => {},
                }
            },
            Err(_) => {},
        }
    }
}

proof fn lemma_run_spec_err_stays(rules: Rules, lines: Seq<Seq<u8>>, m: nat, n: nat)
    requires
        1 <= m <= n <= lines.len(),
        run_spec(rules, lines, m) is Err,
    ensures
        run_spec(rules, lines, n) == run_spec(rules, lines, m),
    decreases n,
{
    if n > m {
        lemma_run_spec_err_stays(rules, lines, m, (n - 1) as nat);
    }
}

} // verus!
