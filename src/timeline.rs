//! The whole computation: from the lines of a log to events placed in lanes,
//! with the time range and the number of lanes that a chart needs.
use vstd::prelude::*;
use crate::events::{collect_events, line_views, run_spec, spans, FailureKind, RunError, Rules};
use crate::lanes::{
    drawn_from, event_times_ok, field_multiset, fields, has_fields, lanes_before, local_lane, pack_lanes, pools_after,
    slots_of_groups, sorted_by_start, Event, LaneLayout, CUTOFF_NANOS,
};

verus! {

/// The events of a log in chart order, each with its global lane, the time
/// range they span (absent where there are none), and where each group's
/// lanes lie.
pub struct Timeline {
    pub events: Vec<Event>,
    pub span: Option<(i128, i128)>,
    pub layout: LaneLayout,
}

/// Whole seconds in `nanos` nanoseconds, truncated toward zero.
pub open spec fn whole_secs(nanos: int) -> int {
    if nanos >= 0 {
        nanos / 1_000_000_000
    } else {
        -((-nanos) / 1_000_000_000)
    }
}

proof fn lemma_spans_drawn(a: Seq<Event>, b: Seq<Event>, span: Option<(i128, i128)>)
    requires
        drawn_from(a, b),
        drawn_from(b, a),
        spans(b, span),
    ensures
        spans(a, span),
{
    match span {
        None => {
            if a.len() > 0 {
                assert(has_fields(fields(a[0]), b));
            }
        },
        Some((lo, hi)) => {
            assert(has_fields(fields(b[0]), a));
            assert forall|i: int| 0 <= i < a.len() implies lo <= #[trigger] a[i].start && a[i].end <= hi by {
                assert(has_fields(fields(a[i]), b));
                let j = choose|j: int| 0 <= j < b.len() && #[trigger] fields(b[j]) == fields(a[i]);
                assert(lo <= b[j].start && b[j].end <= hi);
            }
            let w = choose|w: int| 0 <= w < b.len() && #[trigger] b[w].start == lo;
            assert(has_fields(fields(b[w]), a));
            let x = choose|x: int| 0 <= x < a.len() && #[trigger] fields(a[x]) == fields(b[w]);
            assert(a[x].start == lo);
            let w2 = choose|w: int| 0 <= w < b.len() && #[trigger] b[w].end == hi;
            assert(has_fields(fields(b[w2]), a));
            let x2 = choose|x: int| 0 <= x < a.len() && #[trigger] fields(a[x]) == fields(b[w2]);
            assert(a[x2].end == hi);
        },
    }
}

/// Turns the lines of a log into a timeline: classifies each line, stops at
/// the first fatal one, and packs the events into lanes. `groups` gives the
/// group id of each color rule.
pub fn build_timeline(rules: &Rules, groups: &Vec<usize>, lines: &Vec<Vec<u8>>) -> (r: Result<Timeline, RunError>)
    requires
        groups@.len() == rules.colors.texts().len(),
    ensures
        match r {
            Err(e) => exists|i: int|
                0 <= i < lines@.len() && run_spec(*rules, line_views(lines@), lines@.len()) == Err::<
                    Seq<(int, int, usize, Seq<u8>)>,
                    (FailureKind, int),
                >((e.kind, i)) && e.line@ == lines@[i]@,
            Ok(t) => {
                &&& run_spec(*rules, line_views(lines@), lines@.len()) matches Ok(recs)
                    && recs.to_multiset() == field_multiset(t.events@)
                &&& spans(t.events@, t.span)
                &&& sorted_by_start(t.events@)
                &&& forall|i: int|
                    0 <= i < t.events@.len() ==> #[trigger] t.events@[i].end - t.events@[i].start >= CUTOFF_NANOS
                        && event_times_ok(t.events@[i]) && t.events@[i].color < rules.colors.texts().len()
                &&& slots_of_groups(groups@, t.layout.group_ids@, t.layout.slots@)
                &&& t.layout.counts@.len() == t.layout.group_ids@.len()
                &&& t.layout.bases@.len() == t.layout.group_ids@.len()
                &&& forall|j: int|
                    0 <= j < t.layout.counts@.len() ==> t.layout.counts@[j] == pools_after(
                        t.events@,
                        t.layout.slots@,
                        t.layout.group_ids@.len(),
                        t.events@.len(),
                    )[j].len()
                &&& forall|j: int|
                    0 <= j < t.layout.bases@.len() ==> t.layout.bases@[j] == lanes_before(t.layout.counts@, j)
                &&& t.layout.total == lanes_before(t.layout.counts@, t.layout.counts@.len() as int)
                &&& forall|i: int|
                    0 <= i < t.events@.len() ==> #[trigger] t.events@[i].lane
                        == t.layout.bases@[t.layout.slots@[t.events@[i].color as int] as int]
                        + local_lane(t.events@, t.layout.slots@, t.layout.group_ids@.len(), i)
            },
        },
{
    let collected = collect_events(rules, lines)?;
    let mut events = collected.events;
    let span = collected.span;
    let ghost before = events@;
    let layout = pack_lanes(&mut events, groups);
    proof {
        lemma_spans_drawn(events@, before, span);
        assert forall|i: int| 0 <= i < events@.len() implies #[trigger] events@[i].end - events@[i].start
            >= CUTOFF_NANOS && event_times_ok(events@[i]) && events@[i].color < rules.colors.texts().len() by {
            assert(has_fields(fields(events@[i]), before));
            let j = choose|j: int| 0 <= j < before.len() && #[trigger] fields(before[j]) == fields(events@[i]);
            assert(event_times_ok(before[j]));
        }
    }
    Ok(Timeline { events, span, layout })
}

impl Timeline {
    /// The time the events span, in whole seconds; zero where there are none.
    pub fn global_duration_secs(&self) -> (r: i128)
        requires
            spans(self.events@, self.span),
            forall|i: int| 0 <= i < self.events@.len() ==> crate::lanes::event_times_ok(#[trigger] self.events@[i]),
        ensures
            r == match self.span {
                None => 0,
                Some((a, b)) => whole_secs(b - a),
            },
    {
        match self.span {
            None => 0,
            Some((a, b)) => {
                assert(crate::lanes::event_times_ok(self.events@[0]));
                (b - a) / 1_000_000_000
            },
        }
    }

    /// Whole seconds from the start of the span to the start of the event at
    /// `i`.
    pub fn top_secs(&self, i: usize) -> (r: i128)
        requires
            i < self.events@.len(),
            spans(self.events@, self.span),
            forall|j: int| 0 <= j < self.events@.len() ==> crate::lanes::event_times_ok(#[trigger] self.events@[j]),
        ensures
            self.span matches Some((a, b)) && r == whole_secs(self.events@[i as int].start - a),
    {
        let (a, _) = self.span.unwrap();
        proof {
            let w = choose|w: int| 0 <= w < self.events@.len() && #[trigger] self.events@[w].start == a;
            assert(crate::lanes::event_times_ok(self.events@[w]));
            assert(crate::lanes::event_times_ok(self.events@[i as int]));
        }
        (self.events[i].start - a) / 1_000_000_000
    }

    /// The duration of the event at `i`, in whole seconds.
    pub fn height_secs(&self, i: usize) -> (r: i128)
        requires
            i < self.events@.len(),
            crate::lanes::event_times_ok(self.events@[i as int]),
        ensures
            r == whole_secs(self.events@[i as int].end - self.events@[i as int].start),
    {
        (self.events[i].end - self.events[i].start) / 1_000_000_000
    }
}

} // verus!
