use vstd::prelude::*;

use crate::buffer::{written, Sample};
use crate::config::{capped_samples_for, Config};
use crate::sink::{events_after_request, next_state, PipelineEvent, Sink, SinkId, SinkState};

verus! {

/// How long a loadable source says it is.
#[derive(PartialEq, Eq, Structural, Clone, Copy, Debug)]
pub enum LoaderLength {
    /// A number of encoded bytes.
    Bytes(usize),
    /// A number of samples.
    Samples(usize),
    /// A duration, in milliseconds.
    Millis(u64),
}

/// The expected sample count of a source of the given length, with
/// `bytes_per_sample` encoded bytes per sample. Unknown for a live source,
/// and for a byte length when no sample size is known.
pub open spec fn spec_expected_length(length: Option<LoaderLength>, bytes_per_sample: usize, config: Config) -> Option<usize> {
    match length {
        None => None,
        Some(LoaderLength::Bytes(n)) => if bytes_per_sample == 0 {
            None
        } else {
            Some((n / bytes_per_sample) as usize)
        },
        Some(LoaderLength::Samples(n)) => Some(n),
        Some(LoaderLength::Millis(ms)) => Some(
            capped_samples_for(ms as int, config.sample_rate as int, config.channel_count as int) as usize,
        ),
    }
}

/// The expected sample count of a source, from the length it reports.
pub fn expected_length(length: Option<LoaderLength>, bytes_per_sample: usize, config: &Config) -> (r: Option<usize>)
    ensures
        r == spec_expected_length(length, bytes_per_sample, *config),
{
    match length {
        None => None,
        Some(LoaderLength::Bytes(n)) => if bytes_per_sample == 0 {
            None
        } else {
            Some(n / bytes_per_sample)
        },
        Some(LoaderLength::Samples(n)) => Some(n),
        Some(LoaderLength::Millis(ms)) => {
            let c = Config {
                sample_rate: config.sample_rate,
                channel_count: config.channel_count,
                preload_threshold_in_millis: ms,
                preload_size_in_millis: ms,
            };
            Some(c.preload_threshold_in_samples())
        },
    }
}

/// A new, idle, empty sink for a source of the given length.
pub fn ingest(id: SinkId, length: Option<LoaderLength>, bytes_per_sample: usize, config: &Config) -> (r: Sink)
    ensures
        r.wf(),
        r.spec_id() == id,
        r.spec_expected_length() == spec_expected_length(length, bytes_per_sample, *config),
        r.spec_state() is Idle,
        r@ == Map::<int, Sample>::empty(),
{
    Sink::new(id, expected_length(length, bytes_per_sample, config))
}

/// One load into a sink: where the next samples go and how many are still
/// wanted.
pub struct LoadJob {
    pub sink_id: SinkId,
    pub offset: usize,
    pub remaining: usize,
}

/// The sink after a chunk ends a load: sealed at the source's end, active
/// again once enough was loaded.
pub open spec fn state_after_chunk(current: SinkState, end: bool, remaining: int) -> SinkState {
    if end {
        next_state(current, SinkState::Sealed)
    } else if remaining == 0 {
        next_state(current, SinkState::Active)
    } else {
        current
    }
}

impl LoadJob {
    /// Starts loading `amount` samples into `sink` from `offset`: the sink
    /// moves to `Loading`.
    pub fn start(sink: &mut Sink, offset: usize, amount: usize) -> (r: LoadJob)
        requires
            old(sink).wf(),
        ensures
            final(sink).wf(),
            final(sink).spec_id() == old(sink).spec_id(),
            final(sink)@ == old(sink)@,
            final(sink).spec_expected_length() == old(sink).spec_expected_length(),
            final(sink).spec_state() == next_state(old(sink).spec_state(), SinkState::Loading),
            final(sink).pending_events() == events_after_request(
                old(sink).pending_events(),
                old(sink).spec_id(),
                old(sink).spec_state(),
                SinkState::Loading,
            ),
            r.sink_id == old(sink).spec_id(),
            r.offset == offset,
            r.remaining == amount,
    {
        sink.set_state(SinkState::Loading);
        LoadJob { sink_id: sink.id(), offset, remaining: amount }
    }

    /// Takes one decoded chunk: writes it at the running offset, and says
    /// whether the load is over, because the source ended (the sink is
    /// sealed) or enough was loaded (the sink is active again).
    pub fn on_chunk(&mut self, sink: &mut Sink, samples: &[Sample], end: bool) -> (done: bool)
        requires
            old(sink).wf(),
            old(sink).spec_id() == old(self).sink_id,
        ensures
            final(sink).wf(),
            final(sink).spec_id() == old(sink).spec_id(),
            final(sink).spec_expected_length() == old(sink).spec_expected_length(),
            final(sink)@ == old(sink)@.union_prefer_right(
                written(old(self).offset as int, samples@, old(sink).spec_cap() as int),
            ),
            final(self).sink_id == old(self).sink_id,
            final(self).offset == if old(self).offset + samples@.len() > usize::MAX {
                usize::MAX as int
            } else {
                old(self).offset + samples@.len()
            },
            final(self).remaining == if old(self).remaining < samples@.len() {
                0
            } else {
                old(self).remaining - samples@.len()
            },
            done == (end || final(self).remaining == 0),
            final(sink).spec_state() == state_after_chunk(old(sink).spec_state(), end, final(self).remaining as int),
            final(sink).pending_events() == if end {
                events_after_request(old(sink).pending_events(), old(sink).spec_id(), old(sink).spec_state(), SinkState::Sealed)
            } else if final(self).remaining == 0 {
                events_after_request(old(sink).pending_events(), old(sink).spec_id(), old(sink).spec_state(), SinkState::Active)
            } else {
                old(sink).pending_events()
            },
    {
        sink.write(self.offset, samples);
        let n = samples.len();
        self.offset = if self.offset > usize::MAX - n { usize::MAX } else { self.offset + n };
        self.remaining = if self.remaining < n { 0 } else { self.remaining - n };
        if end {
            sink.set_state(SinkState::Sealed);
            true
        } else if self.remaining == 0 {
            sink.set_state(SinkState::Active);
            true
        } else {
            false
        }
    }

    /// Ends the load on a failure of the source: the sink moves to `Error`.
    pub fn on_error(&self, sink: &mut Sink, reason: String)
        requires
            old(sink).wf(),
        ensures
            final(sink).wf(),
            final(sink).spec_id() == old(sink).spec_id(),
            final(sink)@ == old(sink)@,
            final(sink).spec_expected_length() == old(sink).spec_expected_length(),
            final(sink).spec_state() == next_state(old(sink).spec_state(), SinkState::Error(reason)),
            final(sink).pending_events() == events_after_request(
                old(sink).pending_events(),
                old(sink).spec_id(),
                old(sink).spec_state(),
                SinkState::Error(reason),
            ),
    {
        sink.set_state(SinkState::Error(reason));
    }
}

/// The sinks that a load is running for. A load asked for while one runs for
/// the same sink is dropped, and the drop is published as an event.
pub struct LoadRegistry {
    in_flight: Vec<SinkId>,
    events: Vec<PipelineEvent>,
}

impl LoadRegistry {
    pub closed spec fn view(&self) -> Set<SinkId> {
        self.in_flight@.to_set()
    }

    /// The events published and not yet taken.
    pub closed spec fn pending_events(&self) -> Seq<PipelineEvent> {
        self.events@
    }

    pub fn new() -> (r: Self)
        ensures
            r@ == Set::<SinkId>::empty(),
            r.pending_events().len() == 0,
    {
        let r = LoadRegistry { in_flight: Vec::new(), events: Vec::new() };
        assert(r.in_flight@.to_set() =~= Set::<SinkId>::empty());
        r
    }

    /// Whether a load runs for sink `id`.
    pub fn is_loading(&self, id: SinkId) -> (r: bool)
        ensures
            r == self@.contains(id),
    {
        let mut k: usize = 0;
        while k < self.in_flight.len()
            invariant
                k <= self.in_flight@.len(),
                forall|x: int| 0 <= x < k ==> self.in_flight@[x] != id,
            decreases self.in_flight@.len() - k,
        {
            if self.in_flight[k] == id {
                assert(self.in_flight@.contains(id));
                return true;
            }
            k = k + 1;
        }
        proof {
            if self.in_flight@.contains(id) {
                let x = choose|x: int| 0 <= x < self.in_flight@.len() && self.in_flight@[x] == id;
            }
        }
        false
    }

    /// Accepts a load for sink `id` unless one already runs for it; says
    /// whether it was accepted.
    pub fn request(&mut self, id: SinkId) -> (accepted: bool)
        ensures
            accepted == !old(self)@.contains(id),
            final(self)@ == old(self)@.insert(id),
            final(self).pending_events() == if accepted {
                old(self).pending_events()
            } else {
                old(self).pending_events().push(PipelineEvent::LoadRequestDropped { sink_id: id })
            },
    {
        if self.is_loading(id) {
            proof {
                assert(self@.insert(id) =~= self@);
            }
            self.events.push(PipelineEvent::LoadRequestDropped { sink_id: id });
            false
        } else {
            let ghost before = self.in_flight@;
            self.in_flight.push(id);
            proof {
                assert forall|x: SinkId| #[trigger] self.in_flight@.contains(x) <==> (x == id || before.contains(x)) by {
                    if x == id {
                        assert(self.in_flight@[before.len() as int] == id);
                    }
                    if before.contains(x) {
                        let j = choose|j: int| 0 <= j < before.len() && before[j] == x;
                        assert(self.in_flight@[j] == x);
                    }
                    if self.in_flight@.contains(x) && x != id {
                        let j = choose|j: int| 0 <= j < self.in_flight@.len() && self.in_flight@[j] == x;
                        assert(before[j] == x);
                    }
                }
                assert(self.in_flight@.to_set() =~= before.to_set().insert(id));
            }
            true
        }
    }

    /// Hands out the events published since the last call.
    pub fn take_events(&mut self) -> (r: Vec<PipelineEvent>)
        ensures
            r@ == old(self).pending_events(),
            final(self).pending_events().len() == 0,
            final(self)@ == old(self)@,
    {
        let mut r: Vec<PipelineEvent> = Vec::new();
        std::mem::swap(&mut r, &mut self.events);
        r
    }

    /// Marks the load for sink `id` as over.
    pub fn finish(&mut self, id: SinkId)
        ensures
            final(self)@ == old(self)@.remove(id),
            final(self).pending_events() == old(self).pending_events(),
    {
        let ghost before = self.in_flight@;
        let mut kept: Vec<SinkId> = Vec::new();
        let mut k: usize = 0;
        while k < self.in_flight.len()
            invariant
                self.in_flight@ == before,
                k <= before.len(),
                forall|y: SinkId| #[trigger] kept@.contains(y) <==> (y != id && before.subrange(0, k as int).contains(y)),
            decreases before.len() - k,
        {
            let x = self.in_flight[k];
            let ghost kept_old = kept@;
            if x != id {
                kept.push(x);
            }
            proof {
                let s0 = before.subrange(0, k as int);
                let s1 = before.subrange(0, k + 1);
                assert(s1 =~= s0.push(x));
                assert forall|y: SinkId| #[trigger] kept@.contains(y) <==> (y != id && s1.contains(y)) by {
                    if s1.contains(y) && y != x {
                        let j = choose|j: int| 0 <= j < s1.len() && #[trigger] s1[j] == y;
                        assert(s0[j] == y);
                        assert(kept_old.contains(y) ==> kept@.contains(y)) by {
                            if kept_old.contains(y) {
                                let i = choose|i: int| 0 <= i < kept_old.len() && #[trigger] kept_old[i] == y;
                                assert(kept@[i] == y);
                            }
                        }
                    }
                    if s0.contains(y) {
                        let j = choose|j: int| 0 <= j < s0.len() && #[trigger] s0[j] == y;
                        assert(s1[j] == y);
                    }
                    if y == x {
                        assert(s1[k as int] == x);
                        if x != id {
                            assert(kept@[kept@.len() - 1] == x);
                        }
                    }
                    if kept@.contains(y) {
                        let i = choose|i: int| 0 <= i < kept@.len() && #[trigger] kept@[i] == y;
                        if i < kept_old.len() {
                            assert(kept_old[i] == y);
                        }
                    }
                }
            }
            k = k + 1;
        }
        self.in_flight = kept;
        proof {
            assert(before.subrange(0, before.len() as int) == before);
            assert(self@ =~= before.to_set().remove(id));
        }
    }
}

} // verus!
