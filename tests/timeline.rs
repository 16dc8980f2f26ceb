use turntable::buffer::Sample;
use turntable::config::Config;
use turntable::sink::{PipelineEvent, Sink, SinkIdGenerator, SinkState};
use turntable::timeline::Timeline;

fn samples(values: &[f32]) -> Vec<Sample> {
    values.iter().map(|v| v.to_bits()).collect()
}

fn one_to(n: usize) -> Vec<Sample> {
    (1..=n).map(|v| (v as f32).to_bits()).collect()
}

#[test]
fn test_advancement() {
    let config = Config::default();
    let mut timeline = Timeline::new(config);
    let mut ids = SinkIdGenerator::new();

    // Set up our sinks.
    let first = Sink::new(ids.fresh(), Some(10));
    let second = Sink::new(ids.fresh(), Some(10));
    timeline.set_sinks(vec![first, second]);

    // First is fully loaded.
    timeline.write_sink(0, 0, &samples(&[1., 2., 3., 4., 5., 6., 7., 8., 9., 10.]));
    timeline.set_sink_state(0, SinkState::Sealed);

    // Second has a gap after first range.
    timeline.write_sink(1, 0, &samples(&[1., 2., 3., 4., 5.]));

    let reads = timeline.advance(5);
    assert_eq!(reads.len(), 1, "only one sink needs to be read");
    assert_eq!(reads[0].offset, 0, "we are at the start of the first sink");
    assert_eq!(reads[0].amount, 5, "five samples should be read");

    let reads = timeline.advance(4);
    assert_eq!(reads.len(), 1, "only one sink needs to be read");
    assert_eq!(reads[0].offset, 5, "we are at offset 5 of the first sink");

    let reads = timeline.advance(5);
    assert_eq!(reads.len(), 2, "returns reads for both sinks");
    assert_eq!(reads[0].offset, 9, "offset for first is correct");
    assert_eq!(reads[1].offset, 0, "next should start at the beginning");
    assert_eq!(reads[1].amount, 4, "samples requested is correct");

    // Swallow the last sample from the second sink.
    timeline.advance(1);

    let read = timeline.advance(5);
    assert_eq!(read.len(), 0, "no reads should be returned");
}

#[test]
fn test_preload() {
    let config = Config {
        // Makes the threshold amount in samples 3.
        sample_rate: 1,
        channel_count: 1,
        preload_threshold_in_millis: 3000,
        ..Default::default()
    };
    let mut timeline = Timeline::new(config);
    let mut ids = SinkIdGenerator::new();

    let first = Sink::new(ids.fresh(), Some(10));
    let second = Sink::new(ids.fresh(), Some(10));
    let (first_id, second_id) = (first.id(), second.id());
    timeline.set_sinks(vec![first, second]);

    let preload = timeline.preload();
    assert_eq!(preload[0].sink_id, first_id, "returns the first sink");

    // We have 3 samples ahead, so we shouldn't need to preload anything.
    timeline.write_sink(0, 0, &samples(&[0., 0., 0.]));
    let preload = timeline.preload();
    assert!(preload.is_empty());

    // Advance by 2 samples: one sample is left ahead, so loading resumes
    // where the stored run ends.
    timeline.set_offset(2);
    let preload = timeline.preload();
    assert_eq!(preload[0].offset, 3, "returns the correct offset");

    // Seal the first sink, so we have to preload the second sink.
    timeline.set_sink_state(0, SinkState::Sealed);
    let preload = timeline.preload();
    assert_eq!(preload[0].sink_id, second_id, "returns the second sink");

    // Two sinks below the threshold are both preloaded.
    let first = Sink::new(ids.fresh(), Some(2));
    let second = Sink::new(ids.fresh(), Some(2));
    timeline.reset();
    timeline.set_sinks(vec![first, second]);

    let preload = timeline.preload();
    assert_eq!(preload.len(), 2, "returns two preloads");
}

fn two_sink_timeline(config: Config, a_len: usize, b_len: usize) -> (Timeline, u64, u64) {
    let mut timeline = Timeline::new(config);
    let mut ids = SinkIdGenerator::new();
    let a = Sink::new(ids.fresh(), Some(a_len));
    let b = Sink::new(ids.fresh(), Some(b_len));
    let (ida, idb) = (a.id().value, b.id().value);
    timeline.set_sinks(vec![a, b]);
    (timeline, ida, idb)
}

#[test]
fn two_sink_advancement_reads() {
    let (mut t, a, b) = two_sink_timeline(Config::default(), 10, 10);
    t.write_sink(0, 0, &one_to(10));
    t.set_sink_state(0, SinkState::Sealed);
    t.write_sink(1, 0, &one_to(5));

    let r = t.advance(5);
    assert_eq!(r.len(), 1);
    assert_eq!((r[0].sink_id.value, r[0].offset, r[0].amount), (a, 0, 5));
    assert_eq!(r[0].samples, one_to(5));

    let r = t.advance(4);
    assert_eq!(r.len(), 1);
    assert_eq!((r[0].sink_id.value, r[0].offset, r[0].amount), (a, 5, 4));

    let r = t.advance(5);
    assert_eq!(r.len(), 2);
    assert_eq!((r[0].sink_id.value, r[0].offset, r[0].amount), (a, 9, 1));
    assert_eq!((r[1].sink_id.value, r[1].offset, r[1].amount), (b, 0, 4));
    assert_eq!(r[0].samples, samples(&[10.]));
    assert_eq!(t.len(), 1);

    let r = t.advance(1);
    assert_eq!(r.len(), 1);
    assert_eq!((r[0].sink_id.value, r[0].offset, r[0].amount), (b, 4, 1));

    t.set_sink_state(0, SinkState::Sealed);
    let r = t.advance(5);
    assert_eq!(r.len(), 0);
    assert_eq!(t.total_offset(), 15);
}

#[test]
fn sealed_sink_played_to_end_is_dropped() {
    let (mut t, _a, b) = two_sink_timeline(Config::default(), 10, 5);
    t.write_sink(0, 0, &one_to(10));
    t.set_sink_state(0, SinkState::Sealed);
    t.write_sink(1, 0, &one_to(5));
    t.set_sink_state(1, SinkState::Sealed);
    let r = t.advance(15);
    assert_eq!(r.len(), 2);
    assert_eq!((r[1].sink_id.value, r[1].amount), (b, 5));
    assert!(t.is_empty());
    assert_eq!(t.current_offset(), 0);
    let events = t.take_events();
    assert_eq!(events.len(), 4);
    assert!(matches!(events[0], PipelineEvent::SinkStateUpdate { .. }));
}

fn threshold_config() -> Config {
    Config {
        sample_rate: 1,
        channel_count: 1,
        preload_threshold_in_millis: 3000,
        ..Default::default()
    }
}

#[test]
fn preload_threshold_scenario() {
    let (mut t, a, b) = two_sink_timeline(threshold_config(), 10, 10);
    let p = t.preload();
    assert_eq!(p.len(), 1);
    assert_eq!((p[0].sink_id.value, p[0].offset), (a, 0));

    t.write_sink(0, 0, &samples(&[0., 0., 0.]));
    assert!(t.preload().is_empty());

    t.set_offset(2);
    let p = t.preload();
    assert_eq!(p.len(), 1);
    assert_eq!((p[0].sink_id.value, p[0].offset), (a, 3));

    t.set_sink_state(0, SinkState::Sealed);
    let p = t.preload();
    assert_eq!(p.len(), 1);
    assert_eq!((p[0].sink_id.value, p[0].offset), (b, 0));
}

#[test]
fn both_short_sinks_preloaded() {
    let (t, a, b) = two_sink_timeline(threshold_config(), 2, 2);
    let p = t.preload();
    assert_eq!(p.len(), 2);
    assert_eq!((p[0].sink_id.value, p[0].offset), (a, 0));
    assert_eq!((p[1].sink_id.value, p[1].offset), (b, 0));
}

#[test]
fn preload_twice_gives_same_answer() {
    let (mut t, _, _) = two_sink_timeline(threshold_config(), 10, 10);
    t.write_sink(0, 0, &samples(&[0.]));
    assert_eq!(t.preload(), t.preload());
}

#[test]
fn errored_sink_is_skipped() {
    let (mut t, _a, b) = two_sink_timeline(Config::default(), 10, 10);
    t.set_sink_state(0, SinkState::Error("broken".to_string()));
    t.write_sink(1, 0, &one_to(5));
    let r = t.advance(5);
    assert_eq!(r.len(), 1);
    assert_eq!((r[0].sink_id.value, r[0].offset, r[0].amount), (b, 0, 5));
}

#[test]
fn short_read_keeps_sink() {
    let mut t = Timeline::new(Config::default());
    let mut ids = SinkIdGenerator::new();
    let s = Sink::new(ids.fresh(), Some(100));
    t.set_sinks(vec![s]);
    t.write_sink(0, 0, &one_to(3));
    let r = t.advance(10);
    assert_eq!(r.len(), 1);
    assert_eq!(r[0].amount, 3);
    assert_eq!(t.current_offset(), 3);
    let r = t.advance(10);
    assert_eq!(r.len(), 0);
    assert_eq!(t.len(), 1);
}

#[test]
fn advance_never_exceeds_request() {
    let (mut t, _, _) = two_sink_timeline(Config::default(), 10, 10);
    t.write_sink(0, 0, &one_to(10));
    t.set_sink_state(0, SinkState::Sealed);
    t.write_sink(1, 0, &one_to(10));
    let mut total = 0;
    for n in [3usize, 7, 4, 20] {
        let r = t.advance(n);
        let sum: usize = r.iter().map(|x| x.amount).sum();
        assert!(sum <= n);
        total += sum;
        assert_eq!(t.total_offset(), total);
    }
    assert_eq!(total, 20);
}

#[test]
fn set_sinks_hands_back_deactivated() {
    let mut t = Timeline::new(Config::default());
    let mut ids = SinkIdGenerator::new();
    let s = Sink::new(ids.fresh(), Some(4));
    t.set_sinks(vec![s]);
    let old = t.set_sinks(vec![]);
    assert_eq!(old.len(), 1);
    assert_eq!(*old[0].state(), SinkState::Idle);
}

#[test]
fn clear_superflous_trims_head() {
    let config = Config {
        sample_rate: 1,
        channel_count: 1,
        preload_threshold_in_millis: 3000,
        preload_size_in_millis: 1000,
    };
    let mut t = Timeline::new(config);
    let mut ids = SinkIdGenerator::new();
    let s = Sink::new(ids.fresh(), Some(100));
    t.set_sinks(vec![s]);
    t.write_sink(0, 0, &one_to(100));
    t.set_offset(50);
    t.clear_superflous();
    // window of 4 samples on each side: [46, 54)
    t.set_offset(46);
    let r = t.advance(100);
    assert_eq!(r.len(), 1);
    assert_eq!(r[0].amount, 8);
}

#[test]
fn take_and_put_back_a_sink() {
    let (mut t, a, _) = two_sink_timeline(Config::default(), 10, 10);
    let index = t.position(turntable::sink::SinkId { value: a }).unwrap();
    assert_eq!(index, 0);
    let mut s = t.take_sink(index);
    assert_eq!(t.len(), 1);
    s.write(0, &one_to(4));
    t.put_sink(index, s);
    assert_eq!(t.len(), 2);
    let r = t.advance(4);
    assert_eq!(r.len(), 1);
    assert_eq!(r[0].samples, one_to(4));
    assert_eq!(t.position(turntable::sink::SinkId { value: 99 }), None);
}

#[test]
fn set_offset_stops_at_end_of_head() {
    let (mut t, _, _) = two_sink_timeline(Config::default(), 10, 10);
    t.set_offset(25);
    assert_eq!(t.current_offset(), 10);
    t.set_offset(4);
    assert_eq!(t.current_offset(), 4);
}

#[test]
fn sealed_head_at_its_end_is_moved_past() {
    let (mut t, _a, b) = two_sink_timeline(Config::default(), 10, 10);
    t.write_sink(0, 0, &one_to(10));
    t.set_sink_state(0, SinkState::Sealed);
    t.write_sink(1, 0, &one_to(3));
    t.set_offset(10);
    let r = t.advance(2);
    assert_eq!(r.len(), 1);
    assert_eq!((r[0].sink_id.value, r[0].offset, r[0].amount), (b, 0, 2));
    assert_eq!(t.len(), 1);
}

#[test]
fn events_of_queued_sinks_are_handed_out() {
    let (mut t, a, _) = two_sink_timeline(Config::default(), 10, 10);
    t.set_sink_state(0, SinkState::Error("gone".to_string()));
    let events = t.take_events();
    // the head's activation and error, then the second activation
    assert_eq!(events.len(), 3);
    match &events[1] {
        PipelineEvent::SinkStateUpdate { sink_id, new_state } => {
            assert_eq!(sink_id.value, a);
            assert_eq!(*new_state, SinkState::Error("gone".to_string()));
        }
        other => panic!("unexpected event {other:?}"),
    }
    assert!(t.take_events().is_empty());
}

#[test]
fn set_sinks_keeps_a_sink_in_both_lists() {
    let mut t = Timeline::new(Config::default());
    let mut ids = SinkIdGenerator::new();
    let head = Sink::new(ids.fresh(), Some(10));
    let head_id = head.id();
    t.set_sinks(vec![head]);
    t.set_sink_state(0, SinkState::Loading);
    t.write_sink(0, 0, &one_to(6));
    t.set_offset(3);
    t.take_events();

    // Rewrite the tail behind the loading head.
    let copy = Sink::new(head_id, Some(10));
    let tail = Sink::new(ids.fresh(), Some(10));
    let previous = t.set_sinks(vec![copy, tail]);

    assert_eq!(previous.len(), 1);
    assert_eq!(previous[0].id(), head_id);
    assert_eq!(*previous[0].state(), SinkState::Idle, "the copy passed in comes back as it was");
    assert_eq!(t.current_offset(), 3, "the head kept its id, so the offset stays");
    let r = t.advance(3);
    assert_eq!(r[0].samples, samples(&[4., 5., 6.]), "the queued head keeps its samples");
    let events = t.take_events();
    // only the new tail was activated; the head published nothing
    assert_eq!(events.len(), 1);
    match &events[0] {
        PipelineEvent::SinkStateUpdate { sink_id, new_state } => {
            assert_ne!(*sink_id, head_id);
            assert_eq!(*new_state, SinkState::Active);
        }
        other => panic!("unexpected event {other:?}"),
    }
}

#[test]
fn set_sinks_with_new_head_resets_offset() {
    let (mut t, _, _) = two_sink_timeline(Config::default(), 10, 10);
    t.set_offset(5);
    let mut ids = SinkIdGenerator::new();
    ids.fresh();
    ids.fresh();
    let other = Sink::new(ids.fresh(), Some(10));
    let previous = t.set_sinks(vec![other]);
    assert_eq!(t.current_offset(), 0);
    assert_eq!(previous.len(), 2);
    assert!(previous.iter().all(|s| *s.state() == SinkState::Idle));
}
