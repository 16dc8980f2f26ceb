use vstd::prelude::*;

use crate::buffer::{is_run, restrict_window, window_bounds, written, Sample};
use crate::config::Config;
use crate::sink::{changes_state, events_after_request, next_state, PipelineEvent, Sink, SinkId, SinkState};

verus! {

/// Tells a player which samples to play: `amount` samples of sink `sink_id`
/// from `offset`, copied into `samples`.
pub struct TimelineRead {
    pub sink_id: SinkId,
    pub offset: usize,
    pub amount: usize,
    pub samples: Vec<Sample>,
}

/// Tells the loader to load sink `sink_id` from `offset` on.
#[derive(PartialEq, Eq, Structural, Clone, Copy, Debug)]
pub struct TimelinePreload {
    pub sink_id: SinkId,
    pub offset: usize,
}

/// A planned read: the index of the sink, the offset, the amount.
pub type ReadStep = (int, int, int);

/// Where a walk of `advance` ends: the reads, the indices of the sinks that
/// were played to their end and are dropped, and the new offset.
pub struct Walk {
    pub reads: Seq<ReadStep>,
    pub removed: Set<int>,
    pub offset: int,
}

pub open spec fn min(a: int, b: int) -> int {
    if a < b {
        a
    } else {
        b
    }
}

/// Whether `advance` moves past sink `s` after taking `take` samples at
/// `cursor`: it will get no more samples and has none left.
pub open spec fn moves_on(s: Sink, cursor: int, take: int) -> bool {
    let v = s.void_distance(cursor);
    !s.spec_state().spec_is_loadable() && v.is_end && v.distance - take == 0
}

/// The walk of `advance` over sinks `ss` from index `i`, with the cursor at
/// `cursor` in the first playable sink, `remaining` samples to go, and the
/// timeline's offset at `offset`.
pub open spec fn walk(ss: Seq<Sink>, i: int, cursor: int, remaining: int, offset: int) -> Walk
    decreases ss.len() - i,
{
    if i < 0 || i >= ss.len() || remaining <= 0 {
        Walk { reads: Seq::empty(), removed: Set::empty(), offset }
    } else if !ss[i].spec_state().spec_is_playable() {
        walk(ss, i + 1, cursor, remaining, offset)
    } else {
        let take = min(ss[i].void_distance(cursor).distance as int, remaining);
        let reads = if take > 0 {
            seq![(i, cursor, take)]
        } else {
            Seq::empty()
        };
        let after = if take > 0 {
            cursor + take
        } else {
            offset
        };
        if !moves_on(ss[i], cursor, take) {
            Walk { reads, removed: Set::empty(), offset: after }
        } else {
            let rest = walk(ss, i + 1, 0, remaining - take, 0);
            Walk { reads: reads + rest.reads, removed: rest.removed.insert(i), offset: rest.offset }
        }
    }
}

/// Whether the walk from index `i` ends short of `remaining`: some playable
/// sink it reached had fewer samples than still wanted and could not be moved
/// past, or no playable sink was left.
pub open spec fn ends_short(ss: Seq<Sink>, i: int, cursor: int, remaining: int) -> bool
    decreases ss.len() - i,
{
    if remaining <= 0 {
        false
    } else if i < 0 || i >= ss.len() {
        true
    } else if !ss[i].spec_state().spec_is_playable() {
        ends_short(ss, i + 1, cursor, remaining)
    } else {
        let take = min(ss[i].void_distance(cursor).distance as int, remaining);
        if !moves_on(ss[i], cursor, take) {
            take < remaining
        } else {
            ends_short(ss, i + 1, 0, remaining - take)
        }
    }
}

/// The total amount of a list of reads.
pub open spec fn sum_amounts(reads: Seq<ReadStep>) -> int
    decreases reads.len(),
{
    if reads.len() == 0 {
        0
    } else {
        sum_amounts(reads.drop_last()) + reads.last().2
    }
}

/// The sinks of `ss` below index `n` that are not in `removed`, in order.
pub open spec fn kept(ss: Seq<Sink>, removed: Set<int>, n: int) -> Seq<Sink>
    decreases n,
{
    if n <= 0 {
        Seq::empty()
    } else if removed.contains(n - 1) {
        kept(ss, removed, n - 1)
    } else {
        kept(ss, removed, n - 1).push(ss[n - 1])
    }
}

/// The preloads planned over sinks `ss` from index `i`, with the cursor at
/// `offset` in sink `i`, `budget` samples left to plan, below `threshold`.
/// Each entry is the index of a sink and the offset to load from.
pub open spec fn preload_plan(ss: Seq<Sink>, i: int, offset: int, budget: int, threshold: int) -> Seq<(int, int)>
    decreases ss.len() - i,
{
    if i < 0 || i >= ss.len() {
        Seq::empty()
    } else {
        let v = ss[i].void_distance(offset);
        if v.distance >= threshold || budget <= 0 {
            Seq::empty()
        } else if ss[i].spec_state().spec_is_loadable() {
            let e = ss[i].spec_distance_from_end(offset) as int;
            seq![(i, offset + v.distance)] + preload_plan(ss, i + 1, 0, budget - min(e, budget), threshold)
        } else {
            preload_plan(ss, i + 1, 0, budget, threshold)
        }
    }
}

proof fn lemma_sum_append(a: Seq<ReadStep>, b: Seq<ReadStep>)
    ensures
        sum_amounts(a + b) == sum_amounts(a) + sum_amounts(b),
    decreases b.len(),
{
    if b.len() == 0 {
        assert(a + b =~= a);
    } else {
        lemma_sum_append(a, b.drop_last());
        assert((a + b).drop_last() =~= a + b.drop_last());
    }
}

proof fn lemma_run_within(s: Sink, offset: int)
    requires
        s.wf(),
        offset >= 0,
    ensures
        is_run(s@, offset, s.void_distance(offset).distance as int),
        s.void_distance(offset).distance == 0 || offset + s.void_distance(offset).distance <= s.spec_cap(),
{
    s.lemma_bounded();
    lemma_run_exists(s, offset);
    let d = choose|d: int| is_run(s@, offset, d);
    if d > 0 {
        assert(s@.contains_key(offset + d - 1));
    }
}

proof fn lemma_run_exists(s: Sink, offset: int)
    requires
        s.wf(),
        offset >= 0,
    ensures
        exists|d: int| is_run(s@, offset, d),
{
    s.lemma_bounded();
    let n = if offset >= s.spec_cap() { 0 } else { s.spec_cap() - offset };
    lemma_first_gap(s@, offset, 0, n);
}

/// Somewhere in `[offset + from, offset + to]` the first position not held
/// after a held stretch is found.
proof fn lemma_first_gap(m: Map<int, Sample>, offset: int, from: int, to: int)
    requires
        0 <= from <= to,
        !m.contains_key(offset + to),
        forall|j: int| offset <= j < offset + from ==> #[trigger] m.contains_key(j),
    ensures
        exists|d: int| is_run(m, offset, d),
    decreases to - from,
{
    if !m.contains_key(offset + from) {
        assert(is_run(m, offset, from));
    } else {
        assert forall|j: int| offset <= j < offset + from + 1 implies #[trigger] m.contains_key(j) by {
            if j < offset + from {
            }
        }
        lemma_first_gap(m, offset, from + 1, to);
    }
}

/// No advance plays more than was asked for; it plays less only where a sink
/// it reached had too few samples and could not be moved past, or where no
/// playable sink was left.
pub proof fn lemma_advance_amount(ss: Seq<Sink>, i: int, cursor: int, remaining: int, offset: int)
    requires
        forall|k: int| 0 <= k < ss.len() ==> (#[trigger] ss[k]).wf(),
        cursor >= 0,
        remaining >= 0,
    ensures
        sum_amounts(walk(ss, i, cursor, remaining, offset).reads) <= remaining,
        sum_amounts(walk(ss, i, cursor, remaining, offset).reads) < remaining <==> ends_short(
            ss,
            i,
            cursor,
            remaining,
        ),
    decreases ss.len() - i,
{
    if i < 0 || i >= ss.len() || remaining <= 0 {
    } else if !ss[i].spec_state().spec_is_playable() {
        lemma_advance_amount(ss, i + 1, cursor, remaining, offset);
    } else {
        let take = min(ss[i].void_distance(cursor).distance as int, remaining);
        let reads = if take > 0 {
            seq![(i, cursor, take)]
        } else {
            Seq::<ReadStep>::empty()
        };
        assert(sum_amounts(reads) == take) by {
            if take > 0 {
                assert(reads.drop_last() =~= Seq::<ReadStep>::empty());
                assert(sum_amounts(reads.drop_last()) == 0);
                assert(reads.last() == (i, cursor, take));
            } else {
                assert(reads.len() == 0);
            }
        }
        if moves_on(ss[i], cursor, take) {
            lemma_advance_amount(ss, i + 1, 0, remaining - take, 0);
            lemma_sum_append(reads, walk(ss, i + 1, 0, remaining - take, 0).reads);
        }
    }
}

/// The total offset after a series of advances is the sum of all the amounts
/// they returned, where each advance adds what it returned.
pub proof fn lemma_total_offset(totals: Seq<int>, returned: Seq<Seq<ReadStep>>)
    requires
        totals.len() == returned.len() + 1,
        totals[0] == 0,
        forall|k: int| 0 <= k < returned.len() ==> #[trigger] totals[k + 1] == totals[k] + sum_amounts(returned[k]),
    ensures
        totals.last() == sum_amounts(returned.fold_left(Seq::<ReadStep>::empty(), |acc: Seq<ReadStep>, r: Seq<ReadStep>| acc + r)),
    decreases returned.len(),
{
    let f = |acc: Seq<ReadStep>, r: Seq<ReadStep>| acc + r;
    if returned.len() == 0 {
        assert(sum_amounts(Seq::<ReadStep>::empty()) == 0);
    } else {
        let p = returned.drop_last();
        let tp = totals.drop_last();
        assert forall|k: int| 0 <= k < p.len() implies #[trigger] tp[k + 1] == tp[k] + sum_amounts(p[k]) by {
            assert(totals[k + 1] == totals[k] + sum_amounts(returned[k]));
        }
        lemma_total_offset(tp, p);
        lemma_sum_append(p.fold_left(Seq::<ReadStep>::empty(), f), returned.last());
        assert(totals[returned.len() as int] == totals[returned.len() - 1] + sum_amounts(returned[returned.len() - 1]));
    }
}

/// `now` is `before` after a request to move to `requested`, with the event
/// that the request publishes.
pub open spec fn requested_state(now: Sink, before: Sink, requested: SinkState) -> bool {
    &&& now.wf()
    &&& now.spec_id() == before.spec_id()
    &&& now@ == before@
    &&& now.spec_expected_length() == before.spec_expected_length()
    &&& now.spec_state() == next_state(before.spec_state(), requested)
    &&& now.pending_events() == events_after_request(
        before.pending_events(),
        before.spec_id(),
        before.spec_state(),
        requested,
    )
}

/// `now` is `before` after a request to become `Active`.
pub open spec fn activated(now: Sink, before: Sink) -> bool {
    requested_state(now, before, SinkState::Active)
}

/// `now` is `before` after a request to become `Idle`.
pub open spec fn deactivated(now: Sink, before: Sink) -> bool {
    requested_state(now, before, SinkState::Idle)
}

/// Whether a sink of `ss` has id `id`.
pub open spec fn has_id(ss: Seq<Sink>, id: SinkId) -> bool {
    exists|k: int| 0 <= k < ss.len() && (#[trigger] ss[k]).spec_id() == id
}

/// The index of the sink of `v` with id `id`, if any.
fn index_of_id(v: &Vec<Sink>, id: SinkId) -> (r: Option<usize>)
    ensures
        match r {
            Some(j) => j < v@.len() && v@[j as int].spec_id() == id,
            None => !has_id(v@, id),
        },
{
    let mut k: usize = 0;
    while k < v.len()
        invariant
            k <= v@.len(),
            forall|x: int| 0 <= x < k ==> (#[trigger] v@[x]).spec_id() != id,
        decreases v@.len() - k,
    {
        if v[k].id() == id {
            return Some(k);
        }
        k = k + 1;
    }
    None
}

/// Whether any sink of `v` has id `id`.
fn contains_id(v: &Vec<Sink>, id: SinkId) -> (r: bool)
    ensures
        r == has_id(v@, id),
{
    let mut k: usize = 0;
    while k < v.len()
        invariant
            k <= v@.len(),
            forall|x: int| 0 <= x < k ==> (#[trigger] v@[x]).spec_id() != id,
        decreases v@.len() - k,
    {
        if v[k].id() == id {
            return true;
        }
        k = k + 1;
    }
    false
}

/// Read `r` carries out step `step` over sinks `ss`, with the samples stored there.
pub open spec fn read_matches(r: TimelineRead, step: ReadStep, ss: Seq<Sink>) -> bool {
    &&& 0 <= step.0 < ss.len()
    &&& r.sink_id == ss[step.0].spec_id()
    &&& r.offset == step.1
    &&& r.amount == step.2
    &&& r.samples@.len() == step.2
    &&& forall|j: int| 0 <= j < step.2 ==> #[trigger] r.samples@[j] == ss[step.0]@[step.1 + j]
}

/// Preload `p` names the sink and offset of planned entry `entry` over sinks `ss`.
pub open spec fn preload_matches(p: TimelinePreload, entry: (int, int), ss: Seq<Sink>) -> bool {
    &&& 0 <= entry.0 < ss.len()
    &&& p.sink_id == ss[entry.0].spec_id()
    &&& p.offset == entry.1
}

/// No two sinks of `ss` share an id.
pub open spec fn distinct_ids(ss: Seq<Sink>) -> bool {
    forall|a: int, b: int| 0 <= a < b < ss.len() ==> (#[trigger] ss[a]).spec_id() != (#[trigger] ss[b]).spec_id()
}

/// The events that sink `s` holds once it has been asked to become `Idle`.
pub open spec fn events_after_deactivation(s: Sink) -> Seq<PipelineEvent> {
    if changes_state(s.spec_state(), SinkState::Idle) {
        s.pending_events().push(PipelineEvent::SinkStateUpdate { sink_id: s.spec_id(), new_state: SinkState::Idle })
    } else {
        s.pending_events()
    }
}

/// The events of the sinks of `ss` below index `n` that are in `removed`,
/// after their deactivation, in order.
pub open spec fn removed_events(ss: Seq<Sink>, removed: Set<int>, n: int) -> Seq<PipelineEvent>
    decreases n,
{
    if n <= 0 {
        Seq::empty()
    } else if removed.contains(n - 1) {
        removed_events(ss, removed, n - 1) + events_after_deactivation(ss[n - 1])
    } else {
        removed_events(ss, removed, n - 1)
    }
}

/// The pending events of the sinks of `ss` below index `n`, in order.
pub open spec fn queued_events(ss: Seq<Sink>, n: int) -> Seq<PipelineEvent>
    decreases n,
{
    if n <= 0 {
        Seq::empty()
    } else {
        queued_events(ss, n - 1) + ss[n - 1].pending_events()
    }
}

/// `now` is `before` with its pending events handed out.
pub open spec fn drained(now: Sink, before: Sink) -> bool {
    &&& now.wf() == before.wf()
    &&& now.spec_id() == before.spec_id()
    &&& now@ == before@
    &&& now.spec_expected_length() == before.spec_expected_length()
    &&& now.spec_state() == before.spec_state()
    &&& now.pending_events().len() == 0
}

/// The sinks kept by a walk have distinct ids when the walked ones do.
proof fn lemma_kept_distinct(ss: Seq<Sink>, removed: Set<int>, n: int)
    requires
        distinct_ids(ss),
        0 <= n <= ss.len(),
    ensures
        distinct_ids(kept(ss, removed, n)),
        forall|a: int| 0 <= a < kept(ss, removed, n).len() ==> exists|x: int| 0 <= x < n && #[trigger] kept(ss, removed, n)[a] == ss[x],
    decreases n,
{
    if n > 0 {
        lemma_kept_distinct(ss, removed, n - 1);
        let p = kept(ss, removed, n - 1);
        if !removed.contains(n - 1) {
            let q = p.push(ss[n - 1]);
            assert forall|a: int| 0 <= a < q.len() implies exists|x: int| 0 <= x < n && #[trigger] q[a] == ss[x] by {
                if a < p.len() {
                    assert(q[a] == p[a]);
                    let x = choose|x: int| 0 <= x < n - 1 && #[trigger] p[a] == ss[x];
                    assert(0 <= x < n && q[a] == ss[x]);
                } else {
                    assert(q[a] == ss[n - 1]);
                }
            }
            assert forall|a: int, b: int| 0 <= a < b < q.len() implies (#[trigger] q[a]).spec_id() != (#[trigger] q[b]).spec_id() by {
                if b < p.len() {
                    assert(q[a] == p[a] && q[b] == p[b]);
                } else {
                    assert(q[a] == p[a]);
                    let x = choose|x: int| 0 <= x < n - 1 && #[trigger] p[a] == ss[x];
                    assert(ss[x].spec_id() != ss[n - 1].spec_id());
                }
            }
        }
    }
}

proof fn lemma_walk_removed_from(ss: Seq<Sink>, i: int, cursor: int, remaining: int, offset: int)
    ensures
        forall|k: int| #[trigger] walk(ss, i, cursor, remaining, offset).removed.contains(k) ==> k >= i,
    decreases ss.len() - i,
{
    let w = walk(ss, i, cursor, remaining, offset);
    if i < 0 || i >= ss.len() || remaining <= 0 {
        assert(w.removed == Set::<int>::empty());
    } else if !ss[i].spec_state().spec_is_playable() {
        lemma_walk_removed_from(ss, i + 1, cursor, remaining, offset);
        assert(w == walk(ss, i + 1, cursor, remaining, offset));
    } else {
        let take = min(ss[i].void_distance(cursor).distance as int, remaining);
        if moves_on(ss[i], cursor, take) {
            lemma_walk_removed_from(ss, i + 1, 0, remaining - take, 0);
            let rest = walk(ss, i + 1, 0, remaining - take, 0);
            assert(w.removed == rest.removed.insert(i));
            assert forall|k: int| #[trigger] w.removed.contains(k) implies k >= i by {
                if k != i {
                    assert(rest.removed.contains(k));
                }
            }
        } else {
            assert(w.removed == Set::<int>::empty());
        }
    }
}

/// Two timelines with the same sinks, offset and settings plan the same
/// preloads: without a write or an advance in between, asking again gives
/// the same answer.
pub proof fn lemma_preload_repeatable(a: Timeline, b: Timeline)
    requires
        a.spec_sinks() == b.spec_sinks(),
        a.spec_offset() == b.spec_offset(),
        a.spec_config() == b.spec_config(),
    ensures
        a.planned_preloads() == b.planned_preloads(),
{
}

/// The timeline: a queue of sinks whose head is playing, with the playback
/// offset in the head and the total number of samples played.
pub struct Timeline {
    config: Config,
    sinks: Vec<Sink>,
    offset: usize,
    total_offset: usize,
    events: Vec<PipelineEvent>,
}

impl Timeline {
    pub closed spec fn wf(&self) -> bool {
        &&& forall|k: int| 0 <= k < self.sinks@.len() ==> (#[trigger] self.sinks@[k]).wf()
        &&& distinct_ids(self.sinks@)
    }

    /// A valid timeline holds valid sinks with distinct ids.
    pub proof fn lemma_wf_sinks(&self)
        requires
            self.wf(),
        ensures
            forall|k: int| 0 <= k < self.spec_sinks().len() ==> (#[trigger] self.spec_sinks()[k]).wf(),
            distinct_ids(self.spec_sinks()),
            self.spec_offset() >= 0,
    {
    }

    pub closed spec fn spec_sinks(&self) -> Seq<Sink> {
        self.sinks@
    }

    pub closed spec fn spec_offset(&self) -> int {
        self.offset as int
    }

    pub closed spec fn spec_total_offset(&self) -> int {
        self.total_offset as int
    }

    pub closed spec fn spec_config(&self) -> Config {
        self.config
    }

    /// Events of sinks that have left the timeline, not yet taken.
    pub closed spec fn pending_events(&self) -> Seq<PipelineEvent> {
        self.events@
    }

    /// The preloads that `preload` plans for this timeline.
    pub open spec fn planned_preloads(&self) -> Seq<(int, int)> {
        let t = self.spec_config().spec_preload_threshold_in_samples();
        preload_plan(self.spec_sinks(), 0, self.spec_offset(), t, t)
    }

    /// An empty timeline.
    pub fn new(config: Config) -> (r: Self)
        ensures
            r.wf(),
            r.spec_config() == config,
            r.spec_sinks().len() == 0,
            r.spec_offset() == 0,
            r.spec_total_offset() == 0,
            r.pending_events().len() == 0,
    {
        Timeline { config, sinks: Vec::new(), offset: 0, total_offset: 0, events: Vec::new() }
    }

    /// Puts `sinks` in the queue and hands back the sinks that were queued
    /// before, position for position. A sink is known by its id:
    /// - a queued sink whose id is among `sinks` stays queued, unchanged, with
    ///   its state and samples, and publishes nothing; the sink of that id
    ///   passed in is handed back in its place;
    /// - a queued sink whose id is not among `sinks` leaves, deactivated;
    /// - a sink of `sinks` whose id was not queued joins, activated.
    /// The offset is kept when the head keeps its id, and goes back to 0 when
    /// the head changes.
    pub fn set_sinks(&mut self, sinks: Vec<Sink>) -> (previous: Vec<Sink>)
        requires
            old(self).wf(),
            forall|k: int| 0 <= k < sinks@.len() ==> (#[trigger] sinks@[k]).wf(),
            distinct_ids(sinks@),
        ensures
            final(self).wf(),
            final(self).spec_config() == old(self).spec_config(),
            final(self).spec_offset() == if old(self).spec_sinks().len() > 0 && sinks@.len() > 0
                && old(self).spec_sinks()[0].spec_id() == sinks@[0].spec_id() {
                old(self).spec_offset()
            } else {
                0
            },
            final(self).spec_total_offset() == old(self).spec_total_offset(),
            final(self).pending_events() == old(self).pending_events(),
            final(self).spec_sinks().len() == sinks@.len(),
            previous@.len() == old(self).spec_sinks().len(),
            forall|k: int, x: int|
                0 <= k < sinks@.len() && 0 <= x < old(self).spec_sinks().len()
                    && (#[trigger] old(self).spec_sinks()[x]).spec_id() == (#[trigger] sinks@[k]).spec_id()
                    ==> final(self).spec_sinks()[k] == old(self).spec_sinks()[x] && previous@[x] == sinks@[k],
            forall|k: int| 0 <= k < sinks@.len() && !has_id(old(self).spec_sinks(), sinks@[k].spec_id())
                ==> activated(#[trigger] final(self).spec_sinks()[k], sinks@[k]),
            forall|x: int| 0 <= x < previous@.len() && !has_id(sinks@, old(self).spec_sinks()[x].spec_id())
                ==> deactivated(#[trigger] previous@[x], old(self).spec_sinks()[x]),
    {
        let same_head = self.sinks.len() > 0 && sinks.len() > 0 && self.sinks[0].id() == sinks[0].id();
        let mut previous: Vec<Sink> = Vec::new();
        std::mem::swap(&mut previous, &mut self.sinks);
        let ghost before = previous@;
        let ghost given = sinks@;
        let mut incoming = sinks;
        let mut k: usize = 0;
        while k < previous.len()
            invariant
                previous@.len() == before.len(),
                incoming@.len() == given.len(),
                k <= before.len(),
                distinct_ids(before),
                distinct_ids(given),
                forall|x: int| 0 <= x < before.len() ==> (#[trigger] before[x]).wf(),
                forall|j: int| 0 <= j < given.len() ==> (#[trigger] given[j]).wf(),
                forall|x: int| 0 <= x < before.len() ==> (#[trigger] previous@[x]).spec_id() == before[x].spec_id(),
                forall|j: int| 0 <= j < given.len() ==> (#[trigger] incoming@[j]).spec_id() == given[j].spec_id(),
                forall|x: int, j: int| 0 <= x < k && 0 <= j < given.len()
                    && (#[trigger] before[x]).spec_id() == (#[trigger] given[j]).spec_id()
                    ==> previous@[x] == given[j] && incoming@[j] == before[x],
                forall|x: int| 0 <= x < k && !has_id(given, before[x].spec_id()) ==> deactivated(#[trigger] previous@[x], before[x]),
                forall|x: int| k <= x < before.len() ==> #[trigger] previous@[x] == before[x],
                forall|j: int| 0 <= j < given.len() && !has_id(before.subrange(0, k as int), given[j].spec_id())
                    ==> #[trigger] incoming@[j] == given[j],
            decreases before.len() - k,
        {
            let id = previous[k].id();
            match index_of_id(&incoming, id) {
                Some(j) => {
                    proof {
                        assert(incoming@[j as int].spec_id() == given[j as int].spec_id());
                        if has_id(before.subrange(0, k as int), given[j as int].spec_id()) {
                            let x = choose|x: int| 0 <= x < k && (#[trigger] before.subrange(0, k as int)[x]).spec_id() == given[j as int].spec_id();
                            assert(before.subrange(0, k as int)[x] == before[x]);
                            assert(before[x].spec_id() == before[k as int].spec_id());
                        }
                        assert(incoming@[j as int] == given[j as int]);
                    }
                    let a = previous.remove(k);
                    let b = incoming.remove(j);
                    previous.insert(k, b);
                    incoming.insert(j, a);
                },
                None => {
                    let mut s = previous.remove(k);
                    s.deactivate();
                    previous.insert(k, s);
                    proof {
                        assert forall|j: int| 0 <= j < given.len() implies (#[trigger] given[j]).spec_id() != before[k as int].spec_id() by {
                            assert(incoming@[j].spec_id() == given[j].spec_id());
                        }
                    }
                },
            }
            proof {
                let s0 = before.subrange(0, k as int);
                let s1 = before.subrange(0, k + 1);
                assert forall|j: int| 0 <= j < given.len() && !has_id(s1, given[j].spec_id()) implies #[trigger] incoming@[j] == given[j] by {
                    if has_id(s0, given[j].spec_id()) {
                        let x = choose|x: int| 0 <= x < k && (#[trigger] s0[x]).spec_id() == given[j].spec_id();
                        assert(s1[x] == s0[x]);
                    }
                    assert(s1[k as int] == before[k as int]);
                }
                assert forall|x: int| 0 <= x < k + 1 && !has_id(given, before[x].spec_id()) implies deactivated(#[trigger] previous@[x], before[x]) by {
                    if x == k {
                    }
                }
                assert forall|x: int, j: int| 0 <= x < k + 1 && 0 <= j < given.len()
                    && (#[trigger] before[x]).spec_id() == (#[trigger] given[j]).spec_id()
                    implies previous@[x] == given[j] && incoming@[j] == before[x] by {
                    if x < k {
                    } else {
                        assert(has_id(given, before[x].spec_id()));
                    }
                }
            }
            k = k + 1;
        }
        proof {
            assert(before.subrange(0, before.len() as int) == before);
            assert forall|id: SinkId| #[trigger] has_id(previous@, id) == has_id(before, id) by {
                if has_id(previous@, id) {
                    let j = choose|j: int| 0 <= j < previous@.len() && (#[trigger] previous@[j]).spec_id() == id;
                    assert(before[j].spec_id() == id);
                }
                if has_id(before, id) {
                    let j = choose|j: int| 0 <= j < before.len() && (#[trigger] before[j]).spec_id() == id;
                    assert(previous@[j].spec_id() == id);
                }
            }
        }
        let ghost middle = incoming@;
        let mut k: usize = 0;
        while k < incoming.len()
            invariant
                incoming@.len() == given.len(),
                middle.len() == given.len(),
                k <= given.len(),
                forall|id: SinkId| #[trigger] has_id(previous@, id) == has_id(before, id),
                forall|j: int| 0 <= j < given.len() ==> (#[trigger] middle[j]).spec_id() == given[j].spec_id(),
                forall|j: int| 0 <= j < given.len() && !has_id(before, given[j].spec_id()) ==> #[trigger] middle[j] == given[j],
                forall|j: int| 0 <= j < k && !has_id(before, given[j].spec_id()) ==> activated(#[trigger] incoming@[j], given[j]),
                forall|j: int| 0 <= j < k && has_id(before, given[j].spec_id()) ==> #[trigger] incoming@[j] == middle[j],
                forall|j: int| k <= j < given.len() ==> #[trigger] incoming@[j] == middle[j],
                forall|j: int| 0 <= j < given.len() ==> (#[trigger] given[j]).wf(),
            decreases given.len() - k,
        {
            if !contains_id(&previous, incoming[k].id()) {
                let mut s = incoming.remove(k);
                s.activate();
                incoming.insert(k, s);
            }
            k = k + 1;
        }
        proof {
            assert forall|j: int| 0 <= j < given.len() implies (#[trigger] incoming@[j]).wf() && incoming@[j].spec_id() == given[j].spec_id() by {
                if !has_id(before, given[j].spec_id()) {
                    assert(activated(incoming@[j], given[j]));
                } else {
                    let x = choose|x: int| 0 <= x < before.len() && (#[trigger] before[x]).spec_id() == given[j].spec_id();
                    assert(incoming@[j] == middle[j]);
                    assert(middle[j] == before[x]);
                }
            }
            assert forall|a: int, b: int| 0 <= a < b < incoming@.len() implies (#[trigger] incoming@[a]).spec_id() != (#[trigger] incoming@[b]).spec_id() by {
                assert(incoming@[a].spec_id() == given[a].spec_id() && incoming@[b].spec_id() == given[b].spec_id());
            }
            assert forall|j: int, x: int|
                0 <= j < given.len() && 0 <= x < before.len()
                    && (#[trigger] before[x]).spec_id() == (#[trigger] given[j]).spec_id()
                    implies incoming@[j] == before[x] && previous@[x] == given[j] by {
                assert(has_id(before, given[j].spec_id()));
            }
        }
        self.sinks = incoming;
        if !same_head {
            self.offset = 0;
        }
        previous
    }

    /// Plays up to `amount` samples from the head of the queue on, moving
    /// past sinks that are played to their end, and returns the reads in
    /// playback order. A short or empty result means that the sinks reached
    /// hold no more samples yet, or that the queue ran out.
    pub fn advance(&mut self, amount: usize) -> (r: Vec<TimelineRead>)
        requires
            old(self).wf(),
            old(self).spec_total_offset() + amount <= usize::MAX,
        ensures
            ({
                let ss = old(self).spec_sinks();
                let w = walk(ss, 0, old(self).spec_offset(), amount as int, old(self).spec_offset());
                &&& final(self).wf()
                &&& final(self).spec_config() == old(self).spec_config()
                &&& r@.len() == w.reads.len()
                &&& forall|k: int| 0 <= k < r@.len() ==> read_matches(#[trigger] r@[k], w.reads[k], ss)
                &&& final(self).spec_offset() == w.offset
                &&& final(self).spec_total_offset() == old(self).spec_total_offset() + sum_amounts(w.reads)
                &&& sum_amounts(w.reads) <= amount
                &&& (sum_amounts(w.reads) < amount <==> ends_short(ss, 0, old(self).spec_offset(), amount as int))
                &&& final(self).spec_sinks() == kept(ss, w.removed, ss.len() as int)
                &&& final(self).pending_events() == old(self).pending_events() + removed_events(ss, w.removed, ss.len() as int)
            }),
    {
        let ghost ss = self.sinks@;
        let ghost off0 = self.offset as int;
        let ghost w = walk(ss, 0, off0, amount as int, off0);
        let n = self.sinks.len();
        let mut reads: Vec<TimelineRead> = Vec::new();
        let ghost mut steps: Seq<ReadStep> = Seq::empty();
        let ghost mut removed: Set<int> = Set::empty();
        let mut remove: Vec<bool> = Vec::new();
        let mut i: usize = 0;
        let mut cursor = self.offset;
        let mut remaining = amount;
        let mut off = self.offset;
        let mut stopped = false;
        proof {
            lemma_advance_amount(ss, 0, off0, amount as int, off0);
            lemma_walk_removed_from(ss, 0, off0, amount as int, off0);
            assert(Seq::<ReadStep>::empty() + w.reads =~= w.reads);
            assert(Set::<int>::empty().union(w.removed) =~= w.removed);
        }
        while i < n && remaining > 0 && !stopped
            invariant
                self.wf(),
                self.sinks@ == ss,
                n == ss.len(),
                i <= n,
                remaining <= amount,
                remove@.len() == i,
                forall|k: int| 0 <= k < i ==> #[trigger] remove@[k] == removed.contains(k),
                forall|k: int| #[trigger] removed.contains(k) ==> 0 <= k < i,
                reads@.len() == steps.len(),
                forall|k: int| 0 <= k < reads@.len() ==> read_matches(#[trigger] reads@[k], steps[k], ss),
                sum_amounts(steps) == amount - remaining,
                !stopped ==> w == (Walk {
                    reads: steps + walk(ss, i as int, cursor as int, remaining as int, off as int).reads,
                    removed: removed.union(walk(ss, i as int, cursor as int, remaining as int, off as int).removed),
                    offset: walk(ss, i as int, cursor as int, remaining as int, off as int).offset,
                }),
                stopped ==> w == (Walk { reads: steps, removed, offset: off as int }),
                forall|k: int| #[trigger] walk(ss, i as int, cursor as int, remaining as int, off as int).removed.contains(k) ==> k >= i,
            decreases n - i,
        {
            proof {
                lemma_walk_removed_from(ss, i as int, cursor as int, remaining as int, off as int);
            }
            if !self.sinks[i].is_playable() {
                remove.push(false);
                i = i + 1;
                proof {
                    lemma_walk_removed_from(ss, i as int, cursor as int, remaining as int, off as int);
                }
            } else {
                let v = self.sinks[i].distance_from_void(cursor);
                let take = if v.distance < remaining { v.distance } else { remaining };
                let ghost old_steps = steps;
                let ghost old_rem = remaining as int;
                let ghost old_off = off as int;
                let ghost old_cursor = cursor as int;
                let ghost step_reads = if take > 0 { seq![(i as int, cursor as int, take as int)] } else { Seq::<ReadStep>::empty() };
                proof {
                    lemma_run_within(ss[i as int], cursor as int);
                }
                if take > 0 {
                    let mut buf: Vec<Sample> = vec![0u32; take];
                    self.sinks[i].read(cursor, &mut buf);
                    let read = TimelineRead { sink_id: self.sinks[i].id(), offset: cursor, amount: take, samples: buf };
                    reads.push(read);
                    proof {
                        assert(steps.push((i as int, cursor as int, take as int)).drop_last() == steps);
                        steps = steps.push((i as int, cursor as int, take as int));
                        assert(read_matches(reads@[reads@.len() - 1], steps[steps.len() - 1], ss));
                    }
                    remaining = remaining - take;
                    off = cursor + take;
                }
                let move_on = !self.sinks[i].is_loadable() && v.is_end && v.distance - take == 0;
                proof {
                    assert(steps =~= old_steps + step_reads);
                    assert(move_on == moves_on(ss[i as int], old_cursor, take as int));
                    lemma_walk_removed_from(ss, i + 1, 0, old_rem - take, 0);
                }
                cursor = 0;
                if !move_on {
                    remove.push(false);
                    stopped = true;
                    proof {
                        assert(removed.union(Set::<int>::empty()) =~= removed);
                    }
                } else {
                    remove.push(true);
                    proof {
                        let rest = walk(ss, i + 1, 0, old_rem - take, 0);
                        assert(old_steps + (step_reads + rest.reads) =~= steps + rest.reads);
                        assert(removed.union(rest.removed.insert(i as int)) =~= removed.insert(i as int).union(rest.removed));
                        removed = removed.insert(i as int);
                    }
                    off = 0;
                }
                i = i + 1;
                proof {
                    lemma_walk_removed_from(ss, i as int, cursor as int, remaining as int, off as int);
                }
            }
        }
        proof {
            if !stopped {
                assert(removed.union(Set::<int>::empty()) =~= removed);
                assert(steps + Seq::<ReadStep>::empty() =~= steps);
            }
            assert forall|k: int| 0 <= k < n implies #[trigger] w.removed.contains(k) == (k < remove@.len() && remove@[k]) by {
                if k < i {
                    assert(remove@[k] == removed.contains(k));
                }
            }
        }
        self.total_offset = self.total_offset + (amount - remaining);
        self.offset = off;
        // Drop the sinks played to their end.
        let mut rest: Vec<Sink> = Vec::new();
        std::mem::swap(&mut rest, &mut self.sinks);
        let mut j: usize = 0;
        while j < n
            invariant
                n == ss.len(),
                j <= n,
                rest@ == ss.subrange(j as int, n as int),
                self.sinks@ == kept(ss, w.removed, j as int),
                self.events@ == old(self).events@ + removed_events(ss, w.removed, j as int),
                distinct_ids(ss),
                self.total_offset == old(self).total_offset + (amount - remaining),
                self.offset == off,
                self.config == old(self).config,
                forall|k: int| 0 <= k < self.sinks@.len() ==> (#[trigger] self.sinks@[k]).wf(),
                forall|k: int| 0 <= k < ss.len() ==> (#[trigger] ss[k]).wf(),
                forall|k: int| 0 <= k < n ==> #[trigger] w.removed.contains(k) == (k < remove@.len() && remove@[k]),
            decreases n - j,
        {
            let mut s = rest.remove(0);
            proof {
                assert(s == ss[j as int]);
                assert(rest@ =~= ss.subrange(j + 1, n as int));
            }
            let drop_it = if j < remove.len() { remove[j] } else { false };
            if drop_it {
                s.deactivate();
                let mut ev = s.take_events();
                self.events.append(&mut ev);
                proof {
                    assert(ev@.len() == 0);
                    assert(self.events@ =~= old(self).events@ + removed_events(ss, w.removed, j + 1));
                }
            } else {
                self.sinks.push(s);
            }
            j = j + 1;
        }
        proof {
            assert(w.reads == steps);
            assert(w.offset == off);
            lemma_kept_distinct(ss, w.removed, n as int);
            assert(self.wf());
            assert(reads@.len() == w.reads.len());
            assert(forall|k: int| 0 <= k < reads@.len() ==> read_matches(#[trigger] reads@[k], w.reads[k], ss));
            assert(self.spec_total_offset() == old(self).spec_total_offset() + sum_amounts(w.reads));
            assert(self.spec_sinks() == kept(ss, w.removed, ss.len() as int));
            lemma_kept_distinct(ss, w.removed, n as int);
        }
        reads
    }

    /// Which sinks to load next, and from where: from the head on, each
    /// loadable sink whose stored run at the cursor is below the preload
    /// threshold, until the planned amount reaches the threshold.
    pub fn preload(&self) -> (r: Vec<TimelinePreload>)
        requires
            self.wf(),
        ensures
            r@.len() == self.planned_preloads().len(),
            forall|k: int| 0 <= k < r@.len() ==> preload_matches(#[trigger] r@[k], self.planned_preloads()[k], self.spec_sinks()),
    {
        let ghost ss = self.sinks@;
        let threshold = self.config.preload_threshold_in_samples();
        let ghost plan = self.planned_preloads();
        let n = self.sinks.len();
        let mut result: Vec<TimelinePreload> = Vec::new();
        let ghost mut acc: Seq<(int, int)> = Seq::empty();
        let mut budget = threshold;
        let mut offset = self.offset;
        let mut i: usize = 0;
        let mut done = false;
        proof {
            assert(acc + plan =~= plan);
        }
        while i < n && !done
            invariant
                self.wf(),
                self.sinks@ == ss,
                n == ss.len(),
                i <= n,
                plan == self.planned_preloads(),
                threshold == self.spec_config().spec_preload_threshold_in_samples(),
                result@.len() == acc.len(),
                forall|k: int| 0 <= k < result@.len() ==> preload_matches(#[trigger] result@[k], acc[k], ss),
                !done ==> plan == acc + preload_plan(ss, i as int, offset as int, budget as int, threshold as int),
                done ==> plan == acc,
            decreases n - i,
        {
            let v = self.sinks[i].distance_from_void(offset);
            let to_end = self.sinks[i].distance_from_end(offset);
            proof {
                lemma_run_within(ss[i as int], offset as int);
            }
            if v.distance >= threshold || budget == 0 {
                done = true;
                proof {
                    assert(acc + Seq::<(int, int)>::empty() =~= acc);
                }
            } else {
                let ghost rest_before = preload_plan(ss, i as int, offset as int, budget as int, threshold as int);
                if self.sinks[i].is_loadable() {
                    let planned = if to_end < budget { to_end } else { budget };
                    result.push(TimelinePreload { sink_id: self.sinks[i].id(), offset: offset + v.distance });
                    proof {
                        let step = (i as int, offset + v.distance);
                        assert(acc.push(step) + preload_plan(ss, i + 1, 0, budget - planned, threshold as int) =~= acc + rest_before);
                        acc = acc.push(step);
                    }
                    budget = budget - planned;
                }
                offset = 0;
            }
            i = i + 1;
        }
        proof {
            if !done {
                assert(acc + Seq::<(int, int)>::empty() =~= acc);
            }
        }
        result
    }

    /// Frees the samples of the head sink that lie far from the offset,
    /// keeping four preload sizes on each side, aligned to whole frames.
    pub fn clear_superflous(&mut self)
        requires
            old(self).wf(),
        ensures
            final(self).wf(),
            final(self).spec_config() == old(self).spec_config(),
            final(self).spec_offset() == old(self).spec_offset(),
            final(self).spec_total_offset() == old(self).spec_total_offset(),
            final(self).spec_sinks().len() == old(self).spec_sinks().len(),
            forall|k: int| 1 <= k < old(self).spec_sinks().len() ==> #[trigger] final(self).spec_sinks()[k] == old(self).spec_sinks()[k],
            old(self).spec_sinks().len() > 0 ==> ({
                let size = old(self).spec_config().spec_preload_size_in_samples();
                let window = if size * 4 > usize::MAX { usize::MAX as int } else { size * 4 };
                let (lo, hi) = window_bounds(old(self).spec_offset(), window, old(self).spec_config().channel_count as int);
                let (now, before) = (final(self).spec_sinks()[0], old(self).spec_sinks()[0]);
                &&& now@ == restrict_window(before@, lo, hi)
                &&& now.spec_id() == before.spec_id()
                &&& now.spec_state() == before.spec_state()
                &&& now.spec_expected_length() == before.spec_expected_length()
                &&& now.pending_events() == before.pending_events()
            }),
            final(self).pending_events() == old(self).pending_events(),
    {
        if self.sinks.len() > 0 {
            let size = self.config.preload_size_in_samples();
            let window = if size > usize::MAX / 4 { usize::MAX } else { size * 4 };
            let channels = self.config.channel_count as usize;
            let mut head = self.sinks.remove(0);
            head.clear_outside(self.offset, window, channels);
            self.sinks.insert(0, head);
            proof {
                assert forall|k: int| 0 <= k < self.sinks@.len() implies (#[trigger] self.sinks@[k]).wf() by {
                    if k > 0 {
                        assert(self.sinks@[k] == old(self).sinks@[k]);
                    }
                }
            }
        }
    }

    /// Moves the cursor back to the start of the head sink.
    pub fn reset(&mut self)
        requires
            old(self).wf(),
        ensures
            final(self).wf(),
            final(self).spec_offset() == 0,
            final(self).spec_sinks() == old(self).spec_sinks(),
            final(self).pending_events() == old(self).pending_events(),
            final(self).spec_total_offset() == old(self).spec_total_offset(),
            final(self).spec_config() == old(self).spec_config(),
    {
        self.offset = 0;
    }

    /// Moves the cursor to `offset` in the head sink, or to the end of the
    /// head sink where `offset` lies past it.
    pub fn set_offset(&mut self, offset: usize)
        requires
            old(self).wf(),
        ensures
            final(self).wf(),
            final(self).spec_offset() == if old(self).spec_sinks().len() > 0 && offset > old(self).spec_sinks()[0].spec_cap() {
                old(self).spec_sinks()[0].spec_cap() as int
            } else {
                offset as int
            },
            final(self).spec_sinks() == old(self).spec_sinks(),
            final(self).spec_total_offset() == old(self).spec_total_offset(),
            final(self).spec_config() == old(self).spec_config(),
            final(self).pending_events() == old(self).pending_events(),
    {
        let mut target = offset;
        if self.sinks.len() > 0 {
            let end = match self.sinks[0].expected_length() {
                Some(n) => n,
                None => usize::MAX,
            };
            if target > end {
                target = end;
            }
        }
        self.offset = target;
    }

    /// The offset in the head sink.
    pub fn current_offset(&self) -> (r: usize)
        ensures
            r == self.spec_offset(),
    {
        self.offset
    }

    /// How many samples have been played since the timeline was made.
    pub fn total_offset(&self) -> (r: usize)
        ensures
            r == self.spec_total_offset(),
    {
        self.total_offset
    }

    /// Whether no sink is queued.
    pub fn is_empty(&self) -> (r: bool)
        ensures
            r == (self.spec_sinks().len() == 0),
    {
        self.sinks.len() == 0
    }

    /// The number of queued sinks.
    pub fn len(&self) -> (r: usize)
        ensures
            r == self.spec_sinks().len(),
    {
        self.sinks.len()
    }

    /// The position of the first queued sink with id `id`.
    pub fn position(&self, id: SinkId) -> (r: Option<usize>)
        ensures
            match r {
                Some(k) => k < self.spec_sinks().len() && self.spec_sinks()[k as int].spec_id() == id
                    && forall|x: int| 0 <= x < k ==> (#[trigger] self.spec_sinks()[x]).spec_id() != id,
                None => forall|x: int| 0 <= x < self.spec_sinks().len() ==> (#[trigger] self.spec_sinks()[x]).spec_id() != id,
            },
    {
        let mut k: usize = 0;
        while k < self.sinks.len()
            invariant
                k <= self.sinks@.len(),
                forall|x: int| 0 <= x < k ==> (#[trigger] self.sinks@[x]).spec_id() != id,
            decreases self.sinks@.len() - k,
        {
            if self.sinks[k].id() == id {
                return Some(k);
            }
            k = k + 1;
        }
        None
    }

    /// Writes `samples` at `offset` into the queued sink at `index`.
    pub fn write_sink(&mut self, index: usize, offset: usize, samples: &[Sample])
        requires
            old(self).wf(),
            index < old(self).spec_sinks().len(),
        ensures
            final(self).wf(),
            final(self).spec_offset() == old(self).spec_offset(),
            final(self).spec_total_offset() == old(self).spec_total_offset(),
            final(self).spec_config() == old(self).spec_config(),
            final(self).spec_sinks().len() == old(self).spec_sinks().len(),
            forall|k: int| 0 <= k < old(self).spec_sinks().len() && k != index ==> #[trigger] final(self).spec_sinks()[k] == old(self).spec_sinks()[k],
            ({
                let (now, before) = (final(self).spec_sinks()[index as int], old(self).spec_sinks()[index as int]);
                &&& now@ == before@.union_prefer_right(written(offset as int, samples@, before.spec_cap() as int))
                &&& now.spec_id() == before.spec_id()
                &&& now.spec_state() == before.spec_state()
                &&& now.spec_expected_length() == before.spec_expected_length()
                &&& now.pending_events() == before.pending_events()
            }),
            final(self).pending_events() == old(self).pending_events(),
    {
        let mut s = self.sinks.remove(index);
        s.write(offset, samples);
        self.sinks.insert(index, s);
        proof {
            assert forall|k: int| 0 <= k < self.sinks@.len() implies (#[trigger] self.sinks@[k]).wf() by {
                if k != index {
                    assert(self.sinks@[k] == old(self).sinks@[k]);
                }
            }
        }
    }

    /// Asks the queued sink at `index` to move to `state`.
    pub fn set_sink_state(&mut self, index: usize, state: SinkState)
        requires
            old(self).wf(),
            index < old(self).spec_sinks().len(),
        ensures
            final(self).wf(),
            final(self).spec_offset() == old(self).spec_offset(),
            final(self).spec_total_offset() == old(self).spec_total_offset(),
            final(self).spec_config() == old(self).spec_config(),
            final(self).spec_sinks().len() == old(self).spec_sinks().len(),
            forall|k: int| 0 <= k < old(self).spec_sinks().len() && k != index ==> #[trigger] final(self).spec_sinks()[k] == old(self).spec_sinks()[k],
            ({
                let (now, before) = (final(self).spec_sinks()[index as int], old(self).spec_sinks()[index as int]);
                &&& requested_state(now, before, state)
            }),
            final(self).pending_events() == old(self).pending_events(),
    {
        let mut s = self.sinks.remove(index);
        s.set_state(state);
        self.sinks.insert(index, s);
        proof {
            assert forall|k: int| 0 <= k < self.sinks@.len() implies (#[trigger] self.sinks@[k]).wf() by {
                if k != index {
                    assert(self.sinks@[k] == old(self).sinks@[k]);
                }
            }
        }
    }

    /// Takes the queued sink at `index` out of the queue, to load into it.
    pub fn take_sink(&mut self, index: usize) -> (r: Sink)
        requires
            old(self).wf(),
            index < old(self).spec_sinks().len(),
        ensures
            final(self).wf(),
            r.wf(),
            r == old(self).spec_sinks()[index as int],
            final(self).spec_sinks() == old(self).spec_sinks().remove(index as int),
            final(self).pending_events() == old(self).pending_events(),
            final(self).spec_offset() == old(self).spec_offset(),
            final(self).spec_total_offset() == old(self).spec_total_offset(),
            final(self).spec_config() == old(self).spec_config(),
    {
        let r = self.sinks.remove(index);
        proof {
            assert forall|k: int| 0 <= k < self.sinks@.len() implies (#[trigger] self.sinks@[k]).wf() by {
                if k < index {
                    assert(self.sinks@[k] == old(self).sinks@[k]);
                } else {
                    assert(self.sinks@[k] == old(self).sinks@[k + 1]);
                }
            }
        }
        r
    }

    /// Puts `sink` back into the queue at `index`.
    pub fn put_sink(&mut self, index: usize, sink: Sink)
        requires
            old(self).wf(),
            sink.wf(),
            index <= old(self).spec_sinks().len(),
            forall|k: int| 0 <= k < old(self).spec_sinks().len() ==> (#[trigger] old(self).spec_sinks()[k]).spec_id() != sink.spec_id(),
        ensures
            final(self).wf(),
            final(self).spec_sinks() == old(self).spec_sinks().insert(index as int, sink),
            final(self).pending_events() == old(self).pending_events(),
            final(self).spec_offset() == old(self).spec_offset(),
            final(self).spec_total_offset() == old(self).spec_total_offset(),
            final(self).spec_config() == old(self).spec_config(),
    {
        self.sinks.insert(index, sink);
        proof {
            let o = old(self).sinks@;
            assert forall|k: int| 0 <= k < self.sinks@.len() implies (#[trigger] self.sinks@[k]).wf() && (k < index ==> self.sinks@[k] == o[k]) && (k > index ==> self.sinks@[k] == o[k - 1]) by {
                if k < index {
                    assert(self.sinks@[k] == o[k]);
                } else if k > index {
                    assert(self.sinks@[k] == o[k - 1]);
                }
            }
            assert forall|a: int, b: int| 0 <= a < b < self.sinks@.len() implies (#[trigger] self.sinks@[a]).spec_id() != (#[trigger] self.sinks@[b]).spec_id() by {
                if a < index && b < index {
                } else if a < index && b == index {
                    assert(o[a].spec_id() != sink.spec_id());
                } else if a < index {
                    assert(o[a].spec_id() != o[b - 1].spec_id());
                } else if a == index {
                    assert(o[b - 1].spec_id() != sink.spec_id());
                } else {
                    assert(o[a - 1].spec_id() != o[b - 1].spec_id());
                }
            }
        }
    }

    /// Hands out every event not yet taken: those of sinks that have left
    /// the queue, then those of the queued sinks, head first.
    pub fn take_events(&mut self) -> (r: Vec<PipelineEvent>)
        requires
            old(self).wf(),
        ensures
            r@ == old(self).pending_events() + queued_events(old(self).spec_sinks(), old(self).spec_sinks().len() as int),
            final(self).pending_events().len() == 0,
            final(self).wf(),
            final(self).spec_sinks().len() == old(self).spec_sinks().len(),
            forall|k: int| 0 <= k < old(self).spec_sinks().len() ==> drained(#[trigger] final(self).spec_sinks()[k], old(self).spec_sinks()[k]),
            final(self).spec_offset() == old(self).spec_offset(),
            final(self).spec_total_offset() == old(self).spec_total_offset(),
            final(self).spec_config() == old(self).spec_config(),
    {
        let mut r: Vec<PipelineEvent> = Vec::new();
        std::mem::swap(&mut r, &mut self.events);
        let ghost before = self.sinks@;
        let ghost taken = r@;
        let n = self.sinks.len();
        let mut k: usize = 0;
        while k < n
            invariant
                n == before.len(),
                k <= n,
                self.sinks@.len() == n,
                self.events@.len() == 0,
                self.offset == old(self).offset,
                self.total_offset == old(self).total_offset,
                self.config == old(self).config,
                taken == old(self).events@,
                r@ == taken + queued_events(before, k as int),
                forall|x: int| 0 <= x < k ==> drained(#[trigger] self.sinks@[x], before[x]),
                forall|x: int| k <= x < n ==> #[trigger] self.sinks@[x] == before[x],
                forall|x: int| 0 <= x < n ==> (#[trigger] before[x]).wf(),
                distinct_ids(before),
            decreases n - k,
        {
            let mut s = self.sinks.remove(k);
            let mut ev = s.take_events();
            r.append(&mut ev);
            self.sinks.insert(k, s);
            proof {
                assert(r@ =~= taken + queued_events(before, k + 1));
                assert forall|x: int| 0 <= x < k + 1 implies drained(#[trigger] self.sinks@[x], before[x]) by {
                    if x < k {
                    }
                }
            }
            k = k + 1;
        }
        proof {
            assert forall|x: int| 0 <= x < n implies (#[trigger] self.sinks@[x]).wf() by {
                assert(drained(self.sinks@[x], before[x]));
            }
            assert forall|a: int, b: int| 0 <= a < b < n implies (#[trigger] self.sinks@[a]).spec_id() != (#[trigger] self.sinks@[b]).spec_id() by {
                assert(drained(self.sinks@[a], before[a]) && drained(self.sinks@[b], before[b]));
            }
        }
        r
    }
}

} // verus!
