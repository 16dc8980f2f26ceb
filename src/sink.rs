use vstd::prelude::*;

use crate::buffer::{
    apply_writes, bounds_sorted_apart, is_run, lemma_writes_cover, restrict_window, window_bounds,
    written, written_positions, BufferRead, BufferVoidDistance, MultiRangeBuffer, Sample,
};

verus! {

/// Identifies a sink; two sinks are the same exactly when their ids are.
#[derive(PartialEq, Eq, Structural, Clone, Copy, Debug, Hash)]
pub struct SinkId {
    pub value: u64,
}

/// Hands out sink ids in increasing order.
pub struct SinkIdGenerator {
    next: u64,
}

impl SinkIdGenerator {
    pub closed spec fn next_value(&self) -> u64 {
        self.next
    }

    pub fn new() -> (r: Self)
        ensures
            r.next_value() == 0,
    {
        SinkIdGenerator { next: 0 }
    }

    /// A fresh id, greater than every id handed out before.
    pub fn fresh(&mut self) -> (r: SinkId)
        requires
            old(self).next_value() < u64::MAX,
        ensures
            r.value == old(self).next_value(),
            final(self).next_value() == old(self).next_value() + 1,
    {
        let r = SinkId { value: self.next };
        self.next = self.next + 1;
        r
    }
}

/// The lifecycle of a sink.
#[derive(Debug)]
pub enum SinkState {
    /// Nothing is happening with the sink; it may still be read from.
    Idle,
    /// The sink is in use by a timeline.
    Active,
    /// Samples are being loaded into the sink.
    Loading,
    /// The sink will not receive any more samples.
    Sealed,
    /// Loading failed, for the reason given; the sink is skipped on playback.
    Error(String),
}

impl SinkState {
    /// `Sealed` and `Error` are final: a sink in them never changes state again.
    pub open spec fn is_terminal(&self) -> bool {
        self is Sealed || self is Error
    }

    pub open spec fn spec_is_playable(&self) -> bool {
        self is Active || self is Loading || self is Sealed
    }

    pub open spec fn spec_is_loadable(&self) -> bool {
        !(self is Error || self is Sealed || self is Idle)
    }

    /// A copy of this state.
    pub fn duplicate(&self) -> (r: SinkState)
        ensures
            r == *self,
    {
        match self {
            SinkState::Idle => SinkState::Idle,
            SinkState::Active => SinkState::Active,
            SinkState::Loading => SinkState::Loading,
            SinkState::Sealed => SinkState::Sealed,
            SinkState::Error(reason) => SinkState::Error(reason.clone()),
        }
    }
}

impl Default for SinkState {
    fn default() -> (r: Self)
        ensures
            r is Idle,
    {
        SinkState::Idle
    }
}

impl PartialEq for SinkState {
    fn eq(&self, other: &SinkState) -> (r: bool) {
        match (self, other) {
            (SinkState::Idle, SinkState::Idle) => true,
            (SinkState::Active, SinkState::Active) => true,
            (SinkState::Loading, SinkState::Loading) => true,
            (SinkState::Sealed, SinkState::Sealed) => true,
            (SinkState::Error(a), SinkState::Error(b)) => a.eq(b),
            _ => false,
        }
    }
}

impl vstd::std_specs::cmp::PartialEqSpecImpl for SinkState {
    open spec fn obeys_eq_spec() -> bool {
        true
    }

    open spec fn eq_spec(&self, other: &SinkState) -> bool {
        match (self, other) {
            (SinkState::Error(a), SinkState::Error(b)) => a@ == b@,
            (SinkState::Idle, SinkState::Idle) => true,
            (SinkState::Active, SinkState::Active) => true,
            (SinkState::Loading, SinkState::Loading) => true,
            (SinkState::Sealed, SinkState::Sealed) => true,
            _ => false,
        }
    }
}

/// The state a sink in `current` is in after being asked to move to `requested`.
pub open spec fn next_state(current: SinkState, requested: SinkState) -> SinkState {
    if current.is_terminal() {
        current
    } else {
        requested
    }
}

/// Whether asking a sink in `current` to move to `requested` changes its state.
pub open spec fn changes_state(current: SinkState, requested: SinkState) -> bool {
    !current.is_terminal() && current != requested
}

/// The pending events `events` of sink `id` in state `current` after it was
/// asked to move to `requested`.
pub open spec fn events_after_request(events: Seq<PipelineEvent>, id: SinkId, current: SinkState, requested: SinkState) -> Seq<PipelineEvent> {
    if changes_state(current, requested) {
        events.push(PipelineEvent::SinkStateUpdate { sink_id: id, new_state: requested })
    } else {
        events
    }
}

/// The state after a series of requested transitions.
pub open spec fn after_requests(current: SinkState, requests: Seq<SinkState>) -> SinkState
    decreases requests.len(),
{
    if requests.len() == 0 {
        current
    } else {
        next_state(after_requests(current, requests.drop_last()), requests.last())
    }
}

/// A sink that has become `Sealed` or `Error` stays in that state, whatever
/// transitions are requested afterwards.
pub proof fn lemma_terminal_state_stays(current: SinkState, requests: Seq<SinkState>)
    requires
        current.is_terminal(),
    ensures
        after_requests(current, requests) == current,
    decreases requests.len(),
{
    if requests.len() > 0 {
        lemma_terminal_state_stays(current, requests.drop_last());
    }
}

/// A new sink with expected length `expected_length`, written to by the
/// writes `ws` in order (`Sink::new` gives the empty map, each `Sink::write`
/// one step of `apply_writes`), holds exactly the positions written below its
/// end.
pub proof fn lemma_sink_writes_cover(expected_length: Option<usize>, ws: Seq<(int, Seq<Sample>)>)
    requires
        forall|k: int| 0 <= k < ws.len() ==> (#[trigger] ws[k]).0 >= 0,
    ensures
        apply_writes(Map::empty(), ws, cap_of(expected_length) as int).dom() == written_positions(
            ws,
            cap_of(expected_length) as int,
        ),
{
    lemma_writes_cover(ws, cap_of(expected_length) as int);
}

/// An event published by the pipeline.
#[derive(Debug)]
pub enum PipelineEvent {
    /// A sink moved to a new state.
    SinkStateUpdate { sink_id: SinkId, new_state: SinkState },
    /// A load was asked for a sink that a load already runs for, and dropped.
    LoadRequestDropped { sink_id: SinkId },
}

/// A source of samples for playback: a sparse buffer with a lifecycle.
/// State changes are queued as events until taken with `take_events`.
pub struct Sink {
    id: SinkId,
    buffer: MultiRangeBuffer,
    expected_length: Option<usize>,
    state: SinkState,
    events: Vec<PipelineEvent>,
}

/// The buffer cap of a sink with the given expected length.
pub open spec fn cap_of(expected_length: Option<usize>) -> usize {
    match expected_length {
        Some(n) => n,
        None => usize::MAX,
    }
}

impl Sink {
    pub closed spec fn wf(&self) -> bool {
        &&& self.buffer.wf()
        &&& self.buffer.cap() == cap_of(self.expected_length)
    }

    /// The stored samples, by position.
    pub closed spec fn view(&self) -> Map<int, Sample> {
        self.buffer@
    }

    pub closed spec fn spec_id(&self) -> SinkId {
        self.id
    }

    pub closed spec fn spec_expected_length(&self) -> Option<usize> {
        self.expected_length
    }

    pub closed spec fn spec_state(&self) -> SinkState {
        self.state
    }

    /// The events published and not yet taken.
    pub closed spec fn pending_events(&self) -> Seq<PipelineEvent> {
        self.events@
    }

    pub open spec fn spec_cap(&self) -> usize {
        cap_of(self.spec_expected_length())
    }

    /// The stored run at `offset` and whether it ends where the sink ends.
    pub open spec fn void_distance(&self, offset: int) -> BufferVoidDistance {
        let d = choose|d: int| is_run(self@, offset, d);
        BufferVoidDistance { distance: d as usize, is_end: offset + d == self.spec_cap() }
    }

    pub open spec fn spec_distance_from_end(&self, offset: int) -> usize {
        if offset >= self.spec_cap() {
            0
        } else {
            (self.spec_cap() - offset) as usize
        }
    }

    /// The `[start, end)` bounds of the stored ranges, in order.
    pub closed spec fn range_bounds(&self) -> Seq<(int, int)> {
        self.buffer.range_bounds()
    }

    /// The stored ranges are sorted, apart and below the end of the sink, and
    /// together hold exactly the stored positions.
    pub proof fn lemma_ranges(&self)
        requires
            self.wf(),
        ensures
            bounds_sorted_apart(self.range_bounds(), self.spec_cap() as int),
            forall|i: int| #[trigger] self@.contains_key(i) <==> exists|k: int|
                0 <= k < self.range_bounds().len() && (#[trigger] self.range_bounds()[k]).0 <= i < self.range_bounds()[k].1,
    {
        self.buffer.lemma_ranges();
        let b = self.range_bounds();
        assert forall|i: int| #[trigger] self@.contains_key(i) <==> exists|k: int|
            0 <= k < b.len() && (#[trigger] b[k]).0 <= i < b[k].1 by {
            assert(self.buffer@.contains_key(i) == self@.contains_key(i));
        }
    }

    pub proof fn lemma_bounded(&self)
        requires
            self.wf(),
        ensures
            forall|i: int| #[trigger] self@.contains_key(i) ==> 0 <= i < self.spec_cap(),
    {
        self.buffer.lemma_bounded();
    }

    /// An empty sink in state `Idle`. Without an expected length it is taken
    /// to be a live stream, and may hold samples anywhere.
    pub fn new(id: SinkId, expected_length: Option<usize>) -> (r: Self)
        ensures
            r.wf(),
            r.spec_id() == id,
            r.spec_expected_length() == expected_length,
            r.spec_state() is Idle,
            r@ == Map::<int, Sample>::empty(),
            r.pending_events().len() == 0,
    {
        let cap = match expected_length {
            Some(n) => n,
            None => usize::MAX,
        };
        Sink {
            id,
            buffer: MultiRangeBuffer::new(cap),
            expected_length,
            state: SinkState::Idle,
            events: Vec::new(),
        }
    }

    pub fn read(&self, offset: usize, dst: &mut Vec<Sample>) -> (r: BufferRead)
        requires
            self.wf(),
        ensures
            ({
                let v = self.void_distance(offset as int);
                let n = if v.distance < old(dst)@.len() { v.distance as int } else { old(dst)@.len() as int };
                &&& final(dst)@.len() == old(dst)@.len()
                &&& forall|j: int| 0 <= j < n ==> #[trigger] final(dst)@[j] == self@[offset + j]
                &&& forall|j: int| n <= j < old(dst)@.len() ==> #[trigger] final(dst)@[j] == old(dst)@[j]
                &&& r == (if v.distance == 0 {
                    BufferRead::Empty
                } else if n == old(dst)@.len() {
                    BufferRead::Full(n as usize)
                } else if v.is_end {
                    BufferRead::End(n as usize)
                } else {
                    BufferRead::Partial(n as usize)
                })
            }),
    {
        self.buffer.read(offset, dst)
    }

    /// Stores `samples` at `offset`; what lies past the expected length is dropped.
    pub fn write(&mut self, offset: usize, samples: &[Sample])
        requires
            old(self).wf(),
        ensures
            final(self).wf(),
            final(self).spec_id() == old(self).spec_id(),
            final(self).spec_expected_length() == old(self).spec_expected_length(),
            final(self).spec_state() == old(self).spec_state(),
            final(self).pending_events() == old(self).pending_events(),
            final(self)@ == old(self)@.union_prefer_right(
                written(offset as int, samples@, old(self).spec_cap() as int),
            ),
            bounds_sorted_apart(final(self).range_bounds(), final(self).spec_cap() as int),
    {
        self.buffer.write(offset, samples);
        proof {
            self.buffer.lemma_ranges();
        }
    }

    /// Moves to `state`, publishing the change, unless the sink is already in
    /// it or in a final state.
    pub fn set_state(&mut self, state: SinkState)
        requires
            old(self).wf(),
        ensures
            final(self).wf(),
            final(self).spec_id() == old(self).spec_id(),
            final(self)@ == old(self)@,
            final(self).spec_expected_length() == old(self).spec_expected_length(),
            final(self).spec_state() == next_state(old(self).spec_state(), state),
            final(self).pending_events() == if changes_state(old(self).spec_state(), state) {
                old(self).pending_events().push(
                    PipelineEvent::SinkStateUpdate { sink_id: old(self).spec_id(), new_state: state },
                )
            } else {
                old(self).pending_events()
            },
    {
        let unchanged = match (&self.state, &state) {
            (SinkState::Sealed, _) => true,
            (SinkState::Error(_), _) => true,
            (SinkState::Idle, SinkState::Idle) => true,
            (SinkState::Active, SinkState::Active) => true,
            (SinkState::Loading, SinkState::Loading) => true,
            _ => false,
        };
        if !unchanged {
            self.events.push(
                PipelineEvent::SinkStateUpdate { sink_id: self.id, new_state: state.duplicate() },
            );
            self.state = state;
        }
    }

    pub fn state(&self) -> (r: &SinkState)
        ensures
            *r == self.spec_state(),
    {
        &self.state
    }

    /// Hands out the events published since the last call.
    pub fn take_events(&mut self) -> (r: Vec<PipelineEvent>)
        ensures
            r@ == old(self).pending_events(),
            final(self).pending_events().len() == 0,
            final(self).wf() == old(self).wf(),
            final(self).spec_id() == old(self).spec_id(),
            final(self)@ == old(self)@,
            final(self).spec_expected_length() == old(self).spec_expected_length(),
            final(self).spec_state() == old(self).spec_state(),
    {
        let mut r: Vec<PipelineEvent> = Vec::new();
        std::mem::swap(&mut r, &mut self.events);
        r
    }

    /// How many samples are stored contiguously from `offset`.
    pub fn distance_from_void(&self, offset: usize) -> (r: BufferVoidDistance)
        requires
            self.wf(),
        ensures
            is_run(self@, offset as int, r.distance as int),
            r.is_end == (offset + r.distance == self.spec_cap()),
            r == self.void_distance(offset as int),
    {
        self.buffer.distance_from_void(offset)
    }

    /// How many expected samples are left from `offset`.
    pub fn distance_from_end(&self, offset: usize) -> (r: usize)
        ensures
            r == self.spec_distance_from_end(offset as int),
    {
        let end = match self.expected_length {
            Some(n) => n,
            None => usize::MAX,
        };
        if offset >= end {
            0
        } else {
            end - offset
        }
    }

    /// Drops the samples outside the window around `offset`.
    pub fn clear_outside(&mut self, offset: usize, window: usize, chunk_size: usize)
        requires
            old(self).wf(),
        ensures
            final(self).wf(),
            final(self).spec_id() == old(self).spec_id(),
            final(self).spec_expected_length() == old(self).spec_expected_length(),
            final(self).spec_state() == old(self).spec_state(),
            final(self).pending_events() == old(self).pending_events(),
            ({
                let (lo, hi) = window_bounds(offset as int, window as int, chunk_size as int);
                final(self)@ == restrict_window(old(self)@, lo, hi)
            }),
    {
        self.buffer.retain_window(offset, window, chunk_size)
    }

    /// Marks the sink as no longer in use.
    pub fn deactivate(&mut self)
        requires
            old(self).wf(),
        ensures
            final(self).wf(),
            final(self).spec_id() == old(self).spec_id(),
            final(self)@ == old(self)@,
            final(self).spec_expected_length() == old(self).spec_expected_length(),
            final(self).spec_state() == next_state(old(self).spec_state(), SinkState::Idle),
            final(self).pending_events() == if changes_state(old(self).spec_state(), SinkState::Idle) {
                old(self).pending_events().push(
                    PipelineEvent::SinkStateUpdate { sink_id: old(self).spec_id(), new_state: SinkState::Idle },
                )
            } else {
                old(self).pending_events()
            },
    {
        self.set_state(SinkState::Idle);
    }

    /// Marks the sink as in use.
    pub fn activate(&mut self)
        requires
            old(self).wf(),
        ensures
            final(self).wf(),
            final(self).spec_id() == old(self).spec_id(),
            final(self)@ == old(self)@,
            final(self).spec_expected_length() == old(self).spec_expected_length(),
            final(self).spec_state() == next_state(old(self).spec_state(), SinkState::Active),
            final(self).pending_events() == if changes_state(old(self).spec_state(), SinkState::Active) {
                old(self).pending_events().push(
                    PipelineEvent::SinkStateUpdate { sink_id: old(self).spec_id(), new_state: SinkState::Active },
                )
            } else {
                old(self).pending_events()
            },
    {
        self.set_state(SinkState::Active);
    }

    pub fn id(&self) -> (r: SinkId)
        ensures
            r == self.spec_id(),
    {
        self.id
    }

    pub fn expected_length(&self) -> (r: Option<usize>)
        ensures
            r == self.spec_expected_length(),
    {
        self.expected_length
    }

    /// Whether a timeline plays from this sink: `Active`, `Loading` or `Sealed`.
    pub fn is_playable(&self) -> (r: bool)
        ensures
            r == self.spec_state().spec_is_playable(),
    {
        match self.state {
            SinkState::Active | SinkState::Loading | SinkState::Sealed => true,
            _ => false,
        }
    }

    /// Whether samples may still be loaded into this sink: `Active` or `Loading`.
    pub fn is_loadable(&self) -> (r: bool)
        ensures
            r == self.spec_state().spec_is_loadable(),
    {
        match self.state {
            SinkState::Error(_) | SinkState::Sealed | SinkState::Idle => false,
            _ => true,
        }
    }

    /// Whether the sink may be dropped from memory: `Idle`.
    pub fn is_clearable(&self) -> (r: bool)
        ensures
            r == (self.spec_state() is Idle),
    {
        match self.state {
            SinkState::Idle => true,
            _ => false,
        }
    }
}

} // verus!
