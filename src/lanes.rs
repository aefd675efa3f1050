//! Greedy lane packing, per group of categories, and the global numbering of
//! the lanes.
use vstd::multiset::Multiset;
use vstd::prelude::*;

verus! {

/// The shortest duration that is charted, and the overlap that two events of
/// one lane may have, in nanoseconds.
pub const CUTOFF_NANOS: i64 = 1_000_000_000;

/// Bound on the instants that an event may hold, in nanoseconds either side
/// of the Unix epoch; every instant that the calendar can parse lies within.
pub const TIME_LIMIT: i128 = 1_000_000_000_000_000_000_000_000_000_000;

/// An event whose instants lie within bounds, and which does not end before
/// it starts.
pub open spec fn event_times_ok(e: Event) -> bool {
    -TIME_LIMIT <= e.start <= e.end <= TIME_LIMIT
}

/// One chartable interval: its start and end in nanoseconds since the Unix
/// epoch, the raw log line, its category (an index into the color rules) and
/// its lane.
pub struct Event {
    pub start: i128,
    pub end: i128,
    pub message: Vec<u8>,
    pub color: usize,
    pub lane: usize,
}

/// Two events that agree in everything but their lane.
pub open spec fn same_but_lane(a: Event, b: Event) -> bool {
    &&& a.start == b.start
    &&& a.end == b.end
    &&& a.message@ == b.message@
    &&& a.color == b.color
}

/// The first lane, from `k` on, whose remembered end lies less than the cutoff
/// after `start`; the number of lanes where there is none.
pub open spec fn first_fit_from(pool: Seq<i128>, start: int, k: int) -> int
    decreases pool.len() - k,
{
    if k >= pool.len() {
        pool.len() as int
    } else if pool[k] - start < CUTOFF_NANOS as int {
        k
    } else {
        first_fit_from(pool, start, k + 1)
    }
}

/// The lane of a pool that an event starting at `start` takes.
pub open spec fn first_fit(pool: Seq<i128>, start: int) -> int {
    first_fit_from(pool, start, 0)
}

/// A pool after an event has taken its lane: the lane remembers the event's
/// end, overwriting what it held; a new lane is appended where none fit.
pub open spec fn place(pool: Seq<i128>, start: int, end: i128) -> Seq<i128> {
    let k = first_fit(pool, start);
    if k < pool.len() {
        pool.update(k, end)
    } else {
        pool.push(end)
    }
}

/// Every event names a category, and every category a slot.
pub open spec fn slots_valid(evs: Seq<Event>, slot: Seq<usize>, nslots: nat) -> bool {
    &&& forall|i: int| 0 <= i < evs.len() ==> event_times_ok(#[trigger] evs[i])
    &&& forall|i: int| 0 <= i < evs.len() ==> evs[i].color < slot.len()
    &&& forall|c: int| 0 <= c < slot.len() ==> slot[c] < nslots
}

/// The lane pools of all slots once the first `n` events are placed.
pub open spec fn pools_after(evs: Seq<Event>, slot: Seq<usize>, nslots: nat, n: nat) -> Seq<Seq<i128>>
    decreases n,
{
    if n == 0 || n > evs.len() {
        Seq::new(nslots, |j: int| Seq::<i128>::empty())
    } else {
        let p = pools_after(evs, slot, nslots, (n - 1) as nat);
        let e = evs[n - 1];
        let s = slot[e.color as int] as int;
        p.update(s, place(p[s], e.start as int, e.end))
    }
}

/// The lane, within its slot, that the event at `i` takes.
pub open spec fn local_lane(evs: Seq<Event>, slot: Seq<usize>, nslots: nat, i: int) -> int {
    let s = slot[evs[i].color as int] as int;
    first_fit(pools_after(evs, slot, nslots, i as nat)[s], evs[i].start as int)
}

proof fn lemma_first_fit_from_bounds(pool: Seq<i128>, start: int, k: int)
    requires
        0 <= k <= pool.len(),
    ensures
        k <= first_fit_from(pool, start, k) <= pool.len(),
        first_fit_from(pool, start, k) < pool.len() ==> pool[first_fit_from(pool, start, k)] - start
            < CUTOFF_NANOS as int,
        forall|j: int| k <= j < first_fit_from(pool, start, k) ==> pool[j] - start >= CUTOFF_NANOS as int,
    decreases pool.len() - k,
{
    if k < pool.len() && pool[k] - start >= CUTOFF_NANOS as int {
        lemma_first_fit_from_bounds(pool, start, k + 1);
    }
}

proof fn lemma_pools_len(evs: Seq<Event>, slot: Seq<usize>, nslots: nat, n: nat)
    requires
        slots_valid(evs, slot, nslots),
        n <= evs.len(),
    ensures
        pools_after(evs, slot, nslots, n).len() == nslots,
    decreases n,
{
    if n > 0 {
        lemma_pools_len(evs, slot, nslots, (n - 1) as nat);
    }
}

/// Gives each event, in order, its lane within its slot, and returns the lane
/// pools (the remembered end of each lane) of every slot.
fn assign_local_lanes(events: &mut Vec<Event>, slot: &Vec<usize>, nslots: usize) -> (pools: Vec<Vec<i128>>)
    requires
        slots_valid(old(events)@, slot@, nslots as nat),
    ensures
        final(events)@.len() == old(events)@.len(),
        forall|i: int| 0 <= i < old(events)@.len() ==> same_but_lane(#[trigger] final(events)@[i], old(events)@[i]),
        forall|i: int| 0 <= i < old(events)@.len() ==> final(events)@[i].lane == local_lane(old(events)@, slot@, nslots as nat, i),
        pools@.len() == nslots,
        forall|j: int| 0 <= j < nslots ==> pools@[j]@ == pools_after(old(events)@, slot@, nslots as nat, old(events)@.len())[j],
{
    let ghost evs = old(events)@;
    let mut pools: Vec<Vec<i128>> = Vec::new();
    let mut j: usize = 0;
    while j < nslots
        invariant
            j <= nslots,
            pools@.len() == j,
            forall|t: int| 0 <= t < j ==> pools@[t]@ == Seq::<i128>::empty(),
        decreases nslots - j,
    {
        pools.push(Vec::new());
        j = j + 1;
    }
    let n = events.len();
    let mut i: usize = 0;
    while i < n
        invariant
            slots_valid(evs, slot@, nslots as nat),
            n == evs.len(),
            i <= n,
            events@.len() == n,
            forall|t: int| 0 <= t < n ==> same_but_lane(#[trigger] events@[t], evs[t]),
            forall|t: int| 0 <= t < i ==> events@[t].lane == local_lane(evs, slot@, nslots as nat, t),
            pools@.len() == nslots,
            forall|t: int| 0 <= t < nslots ==> pools@[t]@ == pools_after(evs, slot@, nslots as nat, i as nat)[t],
        decreases n - i,
    {
        proof {
            lemma_pools_len(evs, slot@, nslots as nat, i as nat);
        }
        assert(event_times_ok(evs[i as int]));
        let start = events[i].start;
        let end = events[i].end;
        let s = slot[events[i].color];
        let ghost pool = pools@[s as int]@;
        let len = pools[s].len();
        let mut k: usize = 0;
        while k < len && !(pools[s][k] < start + CUTOFF_NANOS as i128)
            invariant
                0 <= s < pools@.len(),
                -TIME_LIMIT <= start <= TIME_LIMIT,
                pools@[s as int]@ == pool,
                len == pool.len(),
                k <= len,
                first_fit_from(pool, start as int, k as int) == first_fit(pool, start as int),
            decreases len - k,
        {
            k = k + 1;
        }
        proof {
            lemma_first_fit_from_bounds(pool, start as int, k as int);
        }
        let lanes = &mut pools[s];
        if k < len {
            lanes.set(k, end);
        } else {
            lanes.push(end);
        }
        assert(pools@[s as int]@ == place(pool, start as int, end));
        let e = &mut events[i];
        e.lane = k;
        i = i + 1;
    }
    pools
}


/// The number of lanes of the slots before `j`.
pub open spec fn lanes_before(counts: Seq<usize>, j: int) -> int
    decreases j,
{
    if j <= 0 || j > counts.len() {
        0
    } else {
        lanes_before(counts, j - 1) + counts[j - 1]
    }
}

/// The number of lanes of the pools before `j`.
pub open spec fn pool_lanes_before(pools: Seq<Seq<i128>>, j: int) -> int
    decreases j,
{
    if j <= 0 || j > pools.len() {
        0
    } else {
        pool_lanes_before(pools, j - 1) + pools[j - 1].len()
    }
}

proof fn lemma_pool_lanes_update(pools: Seq<Seq<i128>>, s: int, q: Seq<i128>, j: int)
    requires
        0 <= s < pools.len(),
        0 <= j <= pools.len(),
    ensures
        pool_lanes_before(pools.update(s, q), j) == pool_lanes_before(pools, j) + if s < j {
            q.len() - pools[s].len()
        } else {
            0
        },
    decreases j,
{
    if j > 0 {
        lemma_pool_lanes_update(pools, s, q, j - 1);
    }
}

proof fn lemma_pool_lanes_nonneg(pools: Seq<Seq<i128>>, j: int)
    requires
        0 <= j <= pools.len(),
    ensures
        pool_lanes_before(pools, j) >= 0,
    decreases j,
{
    if j > 0 {
        lemma_pool_lanes_nonneg(pools, j - 1);
    }
}

proof fn lemma_place_len(pool: Seq<i128>, start: int, end: i128)
    ensures
        pool.len() <= place(pool, start, end).len() <= pool.len() + 1,
        first_fit(pool, start) < place(pool, start, end).len(),
        forall|k: int| 0 <= k < place(pool, start, end).len() && k != first_fit(pool, start) ==> k < pool.len()
            && #[trigger] place(pool, start, end)[k] == pool[k],
{
    lemma_first_fit_from_bounds(pool, start, 0);
}

/// Each event adds at most one lane: after `n` events there are at most `n`.
proof fn lemma_lanes_at_most_events(evs: Seq<Event>, slot: Seq<usize>, nslots: nat, n: nat)
    requires
        slots_valid(evs, slot, nslots),
        n <= evs.len(),
    ensures
        pool_lanes_before(pools_after(evs, slot, nslots, n), nslots as int) <= n,
    decreases n,
{
    lemma_pools_len(evs, slot, nslots, n);
    if n == 0 {
        lemma_pool_lanes_zero(nslots, nslots as int);
    } else {
        let p = pools_after(evs, slot, nslots, (n - 1) as nat);
        let e = evs[n - 1];
        let s = slot[e.color as int] as int;
        lemma_pools_len(evs, slot, nslots, (n - 1) as nat);
        lemma_lanes_at_most_events(evs, slot, nslots, (n - 1) as nat);
        lemma_place_len(p[s], e.start as int, e.end);
        lemma_pool_lanes_update(p, s, place(p[s], e.start as int, e.end), nslots as int);
    }
}

proof fn lemma_pool_lanes_zero(nslots: nat, j: int)
    requires
        0 <= j <= nslots,
    ensures
        pool_lanes_before(Seq::new(nslots, |t: int| Seq::<i128>::empty()), j) == 0,
    decreases j,
{
    if j > 0 {
        lemma_pool_lanes_zero(nslots, j - 1);
    }
}

/// The slot of each category: `ids` lists the distinct group ids in ascending
/// order, and each category's slot is the position of its group id there.
pub open spec fn slots_of_groups(group_of: Seq<usize>, ids: Seq<usize>, slot: Seq<usize>) -> bool {
    &&& forall|a: int, b: int| 0 <= a < b < ids.len() ==> ids[a] < ids[b]
    &&& forall|j: int| 0 <= j < ids.len() ==> group_of.contains(#[trigger] ids[j])
    &&& slot.len() == group_of.len()
    &&& forall|c: int| 0 <= c < slot.len() ==> slot[c] < ids.len() && ids[#[trigger] slot[c] as int] == group_of[c]
}

/// Lists the distinct group ids in ascending order, and gives the position of
/// each category's group id among them.
fn group_slots(group_of: &Vec<usize>) -> (r: (Vec<usize>, Vec<usize>))
    ensures
        slots_of_groups(group_of@, r.0@, r.1@),
{
    let mut ids: Vec<usize> = Vec::new();
    let mut c: usize = 0;
    while c < group_of.len()
        invariant
            c <= group_of.len(),
            forall|a: int, b: int| 0 <= a < b < ids@.len() ==> ids@[a] < ids@[b],
            forall|j: int| 0 <= j < ids@.len() ==> group_of@.subrange(0, c as int).contains(#[trigger] ids@[j]),
            forall|t: int| 0 <= t < c ==> ids@.contains(#[trigger] group_of@[t]),
        decreases group_of.len() - c,
    {
        let g = group_of[c];
        let mut p: usize = 0;
        while p < ids.len() && ids[p] < g
            invariant
                p <= ids.len(),
                forall|t: int| 0 <= t < p ==> ids@[t] < g,
            decreases ids.len() - p,
        {
            p = p + 1;
        }
        let ghost before = ids@;
        if p == ids.len() || ids[p] != g {
            ids.insert(p, g);
            assert(ids@[p as int] == g);
            assert forall|j: int| 0 <= j < ids@.len() implies group_of@.subrange(0, c + 1).contains(
                #[trigger] ids@[j],
            ) by {
                if j == p {
                    assert(group_of@.subrange(0, c + 1)[c as int] == g);
                } else {
                    let jj = if j < p { j } else { j - 1 };
                    assert(ids@[j] == before[jj]);
                    let w = choose|w: int| 0 <= w < c && group_of@.subrange(0, c as int)[w] == before[jj];
                    assert(group_of@.subrange(0, c + 1)[w] == before[jj]);
                }
            }
            assert forall|t: int| 0 <= t < c + 1 implies ids@.contains(#[trigger] group_of@[t]) by {
                if t == c {
                    assert(ids@[p as int] == g);
                } else {
                    let w = choose|w: int| 0 <= w < before.len() && before[w] == group_of@[t];
                    if w < p {
                        assert(ids@[w] == group_of@[t]);
                    } else {
                        assert(ids@[w + 1] == group_of@[t]);
                    }
                }
            }
        } else {
            assert forall|j: int| 0 <= j < ids@.len() implies group_of@.subrange(0, c + 1).contains(
                #[trigger] ids@[j],
            ) by {
                let w = choose|w: int| 0 <= w < c && group_of@.subrange(0, c as int)[w] == ids@[j];
                assert(group_of@.subrange(0, c + 1)[w] == ids@[j]);
            }
            assert(ids@[p as int] == group_of@[c as int]);
        }
        c = c + 1;
    }
    assert(group_of@.subrange(0, group_of@.len() as int) == group_of@);
    let mut slot: Vec<usize> = Vec::new();
    let mut c: usize = 0;
    while c < group_of.len()
        invariant
            c <= group_of.len(),
            slot@.len() == c,
            forall|t: int| 0 <= t < group_of@.len() ==> ids@.contains(#[trigger] group_of@[t]),
            forall|t: int| 0 <= t < c ==> slot@[t] < ids@.len() && ids@[#[trigger] slot@[t] as int] == group_of@[t],
        decreases group_of.len() - c,
    {
        let g = group_of[c];
        assert(ids@.contains(group_of@[c as int]));
        let mut p: usize = 0;
        while ids[p] != g
            invariant
                p < ids.len(),
                ids@.contains(g),
                forall|t: int| 0 <= t < p ==> ids@[t] != g,
            decreases ids.len() - p,
        {
            p = p + 1;
            if p == ids.len() {
                assert(false);
            }
        }
        slot.push(p);
        c = c + 1;
    }
    (ids, slot)
}


/// What is kept of an event but its lane: start, end, category and line.
pub open spec fn fields(e: Event) -> (int, int, usize, Seq<u8>) {
    (e.start as int, e.end as int, e.color, e.message@)
}

/// Some event of `b` has the fields `x`.
pub open spec fn has_fields(x: (int, int, usize, Seq<u8>), b: Seq<Event>) -> bool {
    exists|j: int| 0 <= j < b.len() && #[trigger] fields(b[j]) == x
}

/// Each event of `a` agrees, lanes aside, with some event of `b`.
pub open spec fn drawn_from(a: Seq<Event>, b: Seq<Event>) -> bool {
    forall|i: int| 0 <= i < a.len() ==> has_fields(#[trigger] fields(a[i]), b)
}

/// The events as a multiset, lanes aside.
pub open spec fn field_multiset(evs: Seq<Event>) -> Multiset<(int, int, usize, Seq<u8>)> {
    evs.map_values(|e: Event| fields(e)).to_multiset()
}

/// Ascending by start; among equal starts, the one that ends last first.
pub open spec fn sorted_by_start(evs: Seq<Event>) -> bool {
    forall|a: int, b: int|
        0 <= a < b < evs.len() ==> evs[a].start < evs[b].start || (evs[a].start == evs[b].start
            && evs[a].end >= evs[b].end)
}

/// Relies on slice::sort_unstable_by_key: it only reorders the events, and
/// leaves their keys (start, then end reversed) in ascending order.
#[verifier::external_body]
fn sort_by_start(v: &mut Vec<Event>)
    ensures
        final(v)@.len() == old(v)@.len(),
        field_multiset(final(v)@) == field_multiset(old(v)@),
        sorted_by_start(final(v)@),
        drawn_from(final(v)@, old(v)@),
        drawn_from(old(v)@, final(v)@),
{
    v.sort_unstable_by_key(|e| (e.start, std::cmp::Reverse(e.end)));
}

/// Where the lanes of the groups lie: the group ids in ascending order, the
/// position of each category's group among them, the number of lanes and the
/// first global lane of each group, and the number of lanes in all.
pub struct LaneLayout {
    pub group_ids: Vec<usize>,
    pub slots: Vec<usize>,
    pub counts: Vec<usize>,
    pub bases: Vec<usize>,
    pub total: usize,
}

proof fn lemma_pools_ignore_lane(a: Seq<Event>, b: Seq<Event>, slot: Seq<usize>, nslots: nat, n: nat)
    requires
        a.len() == b.len(),
        forall|i: int| 0 <= i < a.len() ==> same_but_lane(#[trigger] a[i], b[i]),
    ensures
        pools_after(a, slot, nslots, n) == pools_after(b, slot, nslots, n),
    decreases n,
{
    if n > 0 && n <= a.len() {
        lemma_pools_ignore_lane(a, b, slot, nslots, (n - 1) as nat);
        assert(same_but_lane(a[n - 1], b[n - 1]));
    }
}

proof fn lemma_pool_lanes_mono(pools: Seq<Seq<i128>>, a: int, b: int)
    requires
        0 <= a <= b <= pools.len(),
    ensures
        pool_lanes_before(pools, a) <= pool_lanes_before(pools, b),
    decreases b,
{
    if a < b {
        lemma_pool_lanes_mono(pools, a, b - 1);
    }
}

/// Pools only grow: a lane once opened stays.
proof fn lemma_pools_grow(evs: Seq<Event>, slot: Seq<usize>, nslots: nat, m: nat, n: nat, j: int)
    requires
        slots_valid(evs, slot, nslots),
        m <= n <= evs.len(),
        0 <= j < nslots,
    ensures
        pools_after(evs, slot, nslots, m)[j].len() <= pools_after(evs, slot, nslots, n)[j].len(),
    decreases n,
{
    if m < n {
        lemma_pools_grow(evs, slot, nslots, m, (n - 1) as nat, j);
        lemma_pools_len(evs, slot, nslots, (n - 1) as nat);
        let p = pools_after(evs, slot, nslots, (n - 1) as nat);
        let e = evs[n - 1];
        lemma_place_len(p[slot[e.color as int] as int], e.start as int, e.end);
    }
}

/// The lane that an event takes lies below its slot's final number of lanes.
proof fn lemma_local_lane_below(evs: Seq<Event>, slot: Seq<usize>, nslots: nat, i: int)
    requires
        slots_valid(evs, slot, nslots),
        0 <= i < evs.len(),
    ensures
        0 <= local_lane(evs, slot, nslots, i) < pools_after(evs, slot, nslots, evs.len())[slot[evs[i].color as int] as int].len(),
{
    let s = slot[evs[i].color as int] as int;
    lemma_pools_len(evs, slot, nslots, i as nat);
    let p = pools_after(evs, slot, nslots, i as nat);
    lemma_place_len(p[s], evs[i].start as int, evs[i].end);
    lemma_first_fit_from_bounds(p[s], evs[i].start as int, 0);
    lemma_pools_grow(evs, slot, nslots, (i + 1) as nat, evs.len(), s);
}

/// Sorts the events by start (the longest first among equal starts), gives
/// each the first lane of its group that it fits, and numbers the lanes of all
/// groups in one range, group after group in ascending order of group id.
pub fn pack_lanes(events: &mut Vec<Event>, group_of: &Vec<usize>) -> (layout: LaneLayout)
    requires
        forall|i: int|
            0 <= i < old(events)@.len() ==> event_times_ok(#[trigger] old(events)@[i]) && old(events)@[i].color
                < group_of@.len(),
    ensures
        final(events)@.len() == old(events)@.len(),
        field_multiset(final(events)@) == field_multiset(old(events)@),
        drawn_from(final(events)@, old(events)@),
        drawn_from(old(events)@, final(events)@),
        sorted_by_start(final(events)@),
        slots_of_groups(group_of@, layout.group_ids@, layout.slots@),
        layout.counts@.len() == layout.group_ids@.len(),
        layout.bases@.len() == layout.group_ids@.len(),
        forall|j: int|
            0 <= j < layout.counts@.len() ==> layout.counts@[j] == pools_after(
                final(events)@,
                layout.slots@,
                layout.group_ids@.len(),
                final(events)@.len(),
            )[j].len(),
        forall|j: int| 0 <= j < layout.bases@.len() ==> layout.bases@[j] == lanes_before(layout.counts@, j),
        layout.total == lanes_before(layout.counts@, layout.counts@.len() as int),
        forall|i: int|
            0 <= i < final(events)@.len() ==> #[trigger] final(events)@[i].lane
                == layout.bases@[layout.slots@[final(events)@[i].color as int] as int]
                + local_lane(final(events)@, layout.slots@, layout.group_ids@.len(), i),
{
    sort_by_start(events);
    let ghost sorted = events@;
    assert forall|i: int| 0 <= i < sorted.len() implies event_times_ok(#[trigger] sorted[i]) && sorted[i].color
        < group_of@.len() by {
        assert(has_fields(fields(sorted[i]), old(events)@));
        let j = choose|j: int| 0 <= j < old(events)@.len() && #[trigger] fields(old(events)@[j]) == fields(sorted[i]);
        assert(event_times_ok(old(events)@[j]));
    }
    let (ids, slots) = group_slots(group_of);
    let nslots = ids.len();
    let pools = assign_local_lanes(events, &slots, nslots);
    let ghost assigned = events@;
    let ghost pspec = pools_after(sorted, slots@, nslots as nat, sorted.len());
    proof {
        lemma_pools_len(sorted, slots@, nslots as nat, sorted.len());
        lemma_lanes_at_most_events(sorted, slots@, nslots as nat, sorted.len());
        lemma_pool_lanes_nonneg(pspec, 0);
    }
    let n = events.len();
    let mut counts: Vec<usize> = Vec::new();
    let mut bases: Vec<usize> = Vec::new();
    let mut total: usize = 0;
    let mut j: usize = 0;
    while j < nslots
        invariant
            j <= nslots,
            nslots == ids@.len(),
            pools@.len() == nslots,
            pspec.len() == nslots,
            forall|t: int| 0 <= t < nslots ==> pools@[t]@ == pspec[t],
            pool_lanes_before(pspec, nslots as int) <= sorted.len(),
            sorted.len() == n,
            counts@.len() == j,
            bases@.len() == j,
            forall|t: int| 0 <= t < j ==> counts@[t] == pspec[t].len(),
            forall|t: int| 0 <= t < j ==> bases@[t] == lanes_before(counts@, t),
            total == lanes_before(counts@, j as int),
            total == pool_lanes_before(pspec, j as int),
        decreases nslots - j,
    {
        proof {
            lemma_pool_lanes_mono(pspec, j + 1, nslots as int);
        }
        let c = pools[j].len();
        let ghost old_counts = counts@;
        bases.push(total);
        counts.push(c);
        assert(counts@.subrange(0, j as int) =~= old_counts);
        assert forall|t: int| 0 <= t <= j implies lanes_before(counts@, t) == lanes_before(old_counts, t) by {
            lemma_lanes_before_prefix(counts@, j as int + 1, t);
        }
        total = total + c;
        j = j + 1;
        assert(bases@[j - 1] == lanes_before(counts@, j - 1));
    }
    proof {
        lemma_pools_ignore_lane(assigned, sorted, slots@, nslots as nat, sorted.len());
    }
    let mut i: usize = 0;
    while i < n
        invariant
            n == events@.len(),
            n == sorted.len(),
            i <= n,
            slots_valid(sorted, slots@, nslots as nat),
            pspec == pools_after(sorted, slots@, nslots as nat, sorted.len()),
            pspec.len() == nslots,
            counts@.len() == nslots,
            bases@.len() == nslots,
            forall|t: int| 0 <= t < nslots ==> counts@[t] == pspec[t].len(),
            forall|t: int| 0 <= t < nslots ==> bases@[t] == lanes_before(counts@, t),
            total == lanes_before(counts@, nslots as int),
            forall|t: int| 0 <= t < n ==> same_but_lane(#[trigger] events@[t], sorted[t]),
            forall|t: int| i <= t < n ==> #[trigger] events@[t].lane == local_lane(sorted, slots@, nslots as nat, t),
            forall|t: int|
                0 <= t < i ==> #[trigger] events@[t].lane == bases@[slots@[sorted[t].color as int] as int]
                    + local_lane(sorted, slots@, nslots as nat, t),
        decreases n - i,
    {
        let s = slots[events[i].color];
        proof {
            lemma_local_lane_below(sorted, slots@, nslots as nat, i as int);
            lemma_lanes_before_mono(counts@, s as int + 1, nslots as int);
        }
        let e = &mut events[i];
        e.lane = bases[s] + e.lane;
        i = i + 1;
    }
    proof {
        lemma_pools_ignore_lane(events@, sorted, slots@, nslots as nat, sorted.len());
        assert forall|t: int| 0 <= t < n implies local_lane(events@, slots@, nslots as nat, t) == local_lane(
            sorted,
            slots@,
            nslots as nat,
            t,
        ) by {
            lemma_pools_ignore_lane(events@, sorted, slots@, nslots as nat, t as nat);
            assert(same_but_lane(events@[t], sorted[t]));
        }
        lemma_relabelled(events@, sorted, old(events)@);
    }
    LaneLayout { group_ids: ids, slots, counts, bases, total }
}

proof fn lemma_relabelled(a: Seq<Event>, sorted: Seq<Event>, orig: Seq<Event>)
    requires
        a.len() == sorted.len(),
        forall|t: int| 0 <= t < a.len() ==> same_but_lane(#[trigger] a[t], sorted[t]),
        drawn_from(sorted, orig),
        drawn_from(orig, sorted),
    ensures
        field_multiset(a) == field_multiset(sorted),
        drawn_from(a, orig),
        drawn_from(orig, a),
{
    assert forall|t: int| 0 <= t < a.len() implies fields(#[trigger] a[t]) == fields(sorted[t]) by {
        assert(same_but_lane(a[t], sorted[t]));
    }
    assert(a.map_values(|e: Event| fields(e)) =~= sorted.map_values(|e: Event| fields(e)));
    assert forall|t: int| 0 <= t < a.len() implies has_fields(#[trigger] fields(a[t]), orig) by {
        assert(fields(a[t]) == fields(sorted[t]));
        assert(has_fields(fields(sorted[t]), orig));
    }
    assert forall|j: int| 0 <= j < orig.len() implies has_fields(#[trigger] fields(orig[j]), a) by {
        assert(has_fields(fields(orig[j]), sorted));
        let t = choose|t: int| 0 <= t < sorted.len() && #[trigger] fields(sorted[t]) == fields(orig[j]);
        assert(fields(a[t]) == fields(sorted[t]));
    }
}

proof fn lemma_lanes_before_prefix(counts: Seq<usize>, m: int, t: int)
    requires
        0 <= t < m <= counts.len(),
    ensures
        lanes_before(counts, t) == lanes_before(counts.subrange(0, m - 1), t),
    decreases t,
{
    if t > 0 {
        lemma_lanes_before_prefix(counts, m, t - 1);
    }
}

proof fn lemma_lanes_before_mono(counts: Seq<usize>, a: int, b: int)
    requires
        0 <= a <= b <= counts.len(),
    ensures
        lanes_before(counts, a) <= lanes_before(counts, b),
    decreases b,
{
    if a < b {
        lemma_lanes_before_mono(counts, a, b - 1);
    }
}


/// An event takes a lane whose remembered end lies less than the cutoff after
/// the event's start, and every lane of its group before that one ends the
/// cutoff or more after it; where no lane fits, it opens the next. The lane it
/// takes then remembers its end.
pub proof fn lemma_lane_tolerance(evs: Seq<Event>, slot: Seq<usize>, nslots: nat, i: int)
    requires
        slots_valid(evs, slot, nslots),
        0 <= i < evs.len(),
    ensures
        ({
            let s = slot[evs[i].color as int] as int;
            let pool = pools_after(evs, slot, nslots, i as nat)[s];
            let k = local_lane(evs, slot, nslots, i);
            &&& 0 <= k <= pool.len()
            &&& k < pool.len() ==> pool[k] - evs[i].start < CUTOFF_NANOS as int
            &&& forall|j: int| 0 <= j < k ==> pool[j] - evs[i].start >= CUTOFF_NANOS as int
            &&& pools_after(evs, slot, nslots, (i + 1) as nat)[s][k] == evs[i].end
        }),
{
    let s = slot[evs[i].color as int] as int;
    lemma_pools_len(evs, slot, nslots, i as nat);
    let pool = pools_after(evs, slot, nslots, i as nat)[s];
    lemma_first_fit_from_bounds(pool, evs[i].start as int, 0);
}

/// What a lane remembers: the end of the last event placed in it.
pub open spec fn last_in_lane(evs: Seq<Event>, slot: Seq<usize>, nslots: nat, n: nat, s: int, k: int, t: int) -> bool {
    &&& 0 <= t < n
    &&& slot[evs[t].color as int] == s
    &&& local_lane(evs, slot, nslots, t) == k
    &&& forall|u: int| t < u < n && slot[evs[u].color as int] == s ==> #[trigger] local_lane(evs, slot, nslots, u) != k
}

/// Each lane remembers the end of the last event that took it: the end that
/// a later event of the group is measured against is that event's end.
pub proof fn lemma_lane_remembers_last(evs: Seq<Event>, slot: Seq<usize>, nslots: nat, n: nat, s: int, k: int)
    requires
        slots_valid(evs, slot, nslots),
        n <= evs.len(),
        0 <= s < nslots,
        0 <= k < pools_after(evs, slot, nslots, n)[s].len(),
    ensures
        exists|t: int|
            last_in_lane(evs, slot, nslots, n, s, k, t) && pools_after(evs, slot, nslots, n)[s][k] == #[trigger] evs[t].end,
    decreases n,
{
    lemma_pools_len(evs, slot, nslots, n);
    if n == 0 {
        assert(pools_after(evs, slot, nslots, 0)[s].len() == 0);
    } else {
        lemma_pools_len(evs, slot, nslots, (n - 1) as nat);
        let p = pools_after(evs, slot, nslots, (n - 1) as nat);
        let e = evs[n - 1];
        let se = slot[e.color as int] as int;
        lemma_place_len(p[se], e.start as int, e.end);
        lemma_first_fit_from_bounds(p[se], e.start as int, 0);
        if se == s && local_lane(evs, slot, nslots, n - 1) == k {
            assert(last_in_lane(evs, slot, nslots, n, s, k, n - 1));
        } else {
            assert(pools_after(evs, slot, nslots, n)[s][k] == p[s][k]);
            lemma_lane_remembers_last(evs, slot, nslots, (n - 1) as nat, s, k);
            let t = choose|t: int|
                last_in_lane(evs, slot, nslots, (n - 1) as nat, s, k, t) && p[s][k] == #[trigger] evs[t].end;
            assert(last_in_lane(evs, slot, nslots, n, s, k, t));
        }
    }
}

/// Every lane of a group, once all events are placed, holds some event.
proof fn lemma_lanes_used(evs: Seq<Event>, slot: Seq<usize>, nslots: nat, n: nat, j: int, k: int)
    requires
        slots_valid(evs, slot, nslots),
        n <= evs.len(),
        0 <= j < nslots,
        0 <= k < pools_after(evs, slot, nslots, n)[j].len(),
    ensures
        exists|i: int| 0 <= i < n && slot[evs[i].color as int] == j && local_lane(evs, slot, nslots, i) == k,
    decreases n,
{
    lemma_pools_len(evs, slot, nslots, n);
    if n > 0 {
        lemma_pools_len(evs, slot, nslots, (n - 1) as nat);
        let p = pools_after(evs, slot, nslots, (n - 1) as nat);
        let e = evs[n - 1];
        let s = slot[e.color as int] as int;
        lemma_place_len(p[s], e.start as int, e.end);
        lemma_first_fit_from_bounds(p[s], e.start as int, 0);
        if j == s && k >= p[s].len() {
            assert(local_lane(evs, slot, nslots, n - 1) == k);
        } else {
            lemma_lanes_used(evs, slot, nslots, (n - 1) as nat, j, k);
            let i = choose|i: int| 0 <= i < n - 1 && slot[evs[i].color as int] == j && local_lane(evs, slot, nslots, i) == k;
            assert(0 <= i < n && slot[evs[i].color as int] == j && local_lane(evs, slot, nslots, i) == k);
        }
    }
}

proof fn lemma_find_group_of_lane(counts: Seq<usize>, m: int, l: int)
    requires
        0 <= m <= counts.len(),
        0 <= l < lanes_before(counts, m),
    ensures
        exists|j: int| 0 <= j < m && #[trigger] lanes_before(counts, j) <= l < lanes_before(counts, j + 1),
    decreases m,
{
    if l >= lanes_before(counts, m - 1) {
        assert(lanes_before(counts, m - 1) <= l < lanes_before(counts, m));
    } else {
        lemma_find_group_of_lane(counts, m - 1, l);
        let j = choose|j: int| 0 <= j < m - 1 && #[trigger] lanes_before(counts, j) <= l < lanes_before(counts, j + 1);
        assert(0 <= j < m && lanes_before(counts, j) <= l < lanes_before(counts, j + 1));
    }
}

/// The global lane of the event at `i`: its group's first lane plus its lane
/// within the group.
pub open spec fn global_lane(evs: Seq<Event>, slot: Seq<usize>, nslots: nat, counts: Seq<usize>, i: int) -> int {
    lanes_before(counts, slot[evs[i].color as int] as int) + local_lane(evs, slot, nslots, i)
}

/// Some event has global lane `l`.
pub open spec fn lane_taken(evs: Seq<Event>, slot: Seq<usize>, nslots: nat, counts: Seq<usize>, l: int) -> bool {
    exists|i: int| 0 <= i < evs.len() && #[trigger] global_lane(evs, slot, nslots, counts, i) == l
}

/// Lane numbers are dense and each group's are contiguous: an event's global
/// lane lies between its group's first lane and the next group's first lane,
/// and every lane below the total is taken by some event.
pub proof fn lemma_lanes_dense(evs: Seq<Event>, slot: Seq<usize>, nslots: nat, counts: Seq<usize>)
    requires
        slots_valid(evs, slot, nslots),
        counts.len() == nslots,
        forall|j: int| 0 <= j < nslots ==> counts[j] == pools_after(evs, slot, nslots, evs.len())[j].len(),
    ensures
        forall|i: int|
            0 <= i < evs.len() ==> lanes_before(counts, slot[evs[i].color as int] as int)
                <= #[trigger] global_lane(evs, slot, nslots, counts, i)
                < lanes_before(counts, slot[evs[i].color as int] + 1),
        forall|l: int| 0 <= l < lanes_before(counts, nslots as int) ==> #[trigger] lane_taken(evs, slot, nslots, counts, l),
{
    assert forall|i: int| 0 <= i < evs.len() implies lanes_before(counts, slot[evs[i].color as int] as int)
        <= #[trigger] global_lane(evs, slot, nslots, counts, i) < lanes_before(counts, slot[evs[i].color as int] + 1) by {
        lemma_local_lane_below(evs, slot, nslots, i);
    }
    assert forall|l: int| 0 <= l < lanes_before(counts, nslots as int) implies #[trigger] lane_taken(
        evs,
        slot,
        nslots,
        counts,
        l,
    ) by {
        lemma_find_group_of_lane(counts, nslots as int, l);
        let j = choose|j: int| 0 <= j < nslots && #[trigger] lanes_before(counts, j) <= l < lanes_before(counts, j + 1);
        lemma_lanes_used(evs, slot, nslots, evs.len(), j, l - lanes_before(counts, j));
        let i = choose|i: int|
            0 <= i < evs.len() && slot[evs[i].color as int] == j && local_lane(evs, slot, nslots, i) == l
                - lanes_before(counts, j);
        assert(global_lane(evs, slot, nslots, counts, i) == l);
    }
}


/// Some event has lane `l`.
pub open spec fn lane_used(evs: Seq<Event>, l: int) -> bool {
    exists|i: int| 0 <= i < evs.len() && #[trigger] evs[i].lane == l
}

/// Over the events as `pack_lanes` leaves them: each event's lane lies in its
/// group's range `[bases[s], bases[s] + counts[s])`, every lane below the
/// total is taken, and the lane within the group is the first whose
/// remembered end lies less than the cutoff after the event's start (every
/// earlier lane of the group ends the cutoff or more after it), or a new one.
pub proof fn lemma_packed_lanes(
    evs: Seq<Event>,
    slots: Seq<usize>,
    nslots: nat,
    counts: Seq<usize>,
    bases: Seq<usize>,
    total: int,
)
    requires
        slots_valid(evs, slots, nslots),
        counts.len() == nslots,
        bases.len() == nslots,
        forall|j: int| 0 <= j < nslots ==> counts[j] == pools_after(evs, slots, nslots, evs.len())[j].len(),
        forall|j: int| 0 <= j < nslots ==> bases[j] == lanes_before(counts, j),
        total == lanes_before(counts, nslots as int),
        forall|i: int|
            0 <= i < evs.len() ==> #[trigger] evs[i].lane == bases[slots[evs[i].color as int] as int]
                + local_lane(evs, slots, nslots, i),
    ensures
        forall|i: int|
            0 <= i < evs.len() ==> bases[slots[evs[i].color as int] as int] <= #[trigger] evs[i].lane
                < bases[slots[evs[i].color as int] as int] + counts[slots[evs[i].color as int] as int],
        forall|l: int| 0 <= l < total ==> #[trigger] lane_used(evs, l),
        forall|i: int|
            0 <= i < evs.len() ==> {
                let s = slots[evs[i].color as int] as int;
                let pool = pools_after(evs, slots, nslots, i as nat)[s];
                let k = #[trigger] evs[i].lane - bases[s];
                &&& k <= pool.len()
                &&& k < pool.len() ==> pool[k] - evs[i].start < CUTOFF_NANOS as int
                &&& forall|j: int| 0 <= j < k ==> pool[j] - evs[i].start >= CUTOFF_NANOS as int
            },
{
    lemma_lanes_dense(evs, slots, nslots, counts);
    assert forall|i: int| 0 <= i < evs.len() implies bases[slots[evs[i].color as int] as int] <= #[trigger] evs[i].lane
        < bases[slots[evs[i].color as int] as int] + counts[slots[evs[i].color as int] as int] by {
        let s = slots[evs[i].color as int] as int;
        assert(global_lane(evs, slots, nslots, counts, i) == evs[i].lane);
        assert(lanes_before(counts, s + 1) == lanes_before(counts, s) + counts[s]);
    }
    assert forall|l: int| 0 <= l < total implies #[trigger] lane_used(evs, l) by {
        assert(lane_taken(evs, slots, nslots, counts, l));
        let i = choose|i: int| 0 <= i < evs.len() && #[trigger] global_lane(evs, slots, nslots, counts, i) == l;
        assert(evs[i].lane == l);
    }
    assert forall|i: int| 0 <= i < evs.len() implies {
        let s = slots[evs[i].color as int] as int;
        let pool = pools_after(evs, slots, nslots, i as nat)[s];
        let k = #[trigger] evs[i].lane - bases[s];
        &&& k <= pool.len()
        &&& k < pool.len() ==> pool[k] - evs[i].start < CUTOFF_NANOS as int
        &&& forall|j: int| 0 <= j < k ==> pool[j] - evs[i].start >= CUTOFF_NANOS as int
    } by {
        lemma_lane_tolerance(evs, slots, nslots, i);
    }
}

} // verus!
