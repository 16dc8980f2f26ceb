use turntable::buffer::BufferRead;
use turntable::sink::{PipelineEvent, Sink, SinkIdGenerator, SinkState};

#[test]
fn new_sink_is_idle_and_empty() {
    let mut ids = SinkIdGenerator::new();
    let s = Sink::new(ids.fresh(), Some(10));
    assert_eq!(*s.state(), SinkState::Idle);
    assert!(s.is_clearable());
    assert!(!s.is_playable());
    assert!(!s.is_loadable());
    assert_eq!(s.expected_length(), Some(10));
    assert_eq!(s.distance_from_end(4), 6);
    assert_eq!(s.distance_from_end(12), 0);
}

#[test]
fn live_sink_has_no_end() {
    let mut ids = SinkIdGenerator::new();
    let s = Sink::new(ids.fresh(), None);
    assert_eq!(s.distance_from_end(5), usize::MAX - 5);
}

#[test]
fn ids_increase() {
    let mut ids = SinkIdGenerator::new();
    let a = ids.fresh();
    let b = ids.fresh();
    assert!(a.value < b.value);
    assert_ne!(a, b);
}

#[test]
fn state_changes_publish_events() {
    let mut ids = SinkIdGenerator::new();
    let mut s = Sink::new(ids.fresh(), Some(10));
    s.activate();
    s.activate();
    s.set_state(SinkState::Loading);
    assert!(s.is_playable() && s.is_loadable());
    let events = s.take_events();
    assert_eq!(events.len(), 2);
    match &events[1] {
        PipelineEvent::SinkStateUpdate { sink_id, new_state } => {
            assert_eq!(*sink_id, s.id());
            assert_eq!(*new_state, SinkState::Loading);
        }
        other => panic!("unexpected event {other:?}"),
    }
    assert!(s.take_events().is_empty());
}

#[test]
fn sealed_sink_never_changes() {
    let mut ids = SinkIdGenerator::new();
    let mut s = Sink::new(ids.fresh(), Some(10));
    s.set_state(SinkState::Sealed);
    s.activate();
    s.deactivate();
    s.set_state(SinkState::Error("late".to_string()));
    assert_eq!(*s.state(), SinkState::Sealed);
    assert!(s.is_playable());
    assert!(!s.is_loadable());
    assert_eq!(s.take_events().len(), 1);
}

#[test]
fn errored_sink_never_changes() {
    let mut ids = SinkIdGenerator::new();
    let mut s = Sink::new(ids.fresh(), Some(10));
    s.set_state(SinkState::Error("gone".to_string()));
    s.set_state(SinkState::Active);
    assert_eq!(*s.state(), SinkState::Error("gone".to_string()));
    assert!(!s.is_playable());
}

#[test]
fn sink_reads_what_was_written() {
    let mut ids = SinkIdGenerator::new();
    let mut s = Sink::new(ids.fresh(), Some(4));
    s.write(0, &[1, 2, 3, 4, 5]);
    let mut dst = vec![0u32; 4];
    assert_eq!(s.read(0, &mut dst), BufferRead::Full(4));
    assert_eq!(dst, vec![1, 2, 3, 4]);
    let v = s.distance_from_void(1);
    assert_eq!((v.distance, v.is_end), (3, true));
    s.clear_outside(2, 0, 1);
    assert_eq!(s.distance_from_void(0).distance, 0);
}

#[test]
fn run_ends_where_the_sink_ends() {
    let mut ids = SinkIdGenerator::new();
    let mut s = Sink::new(ids.fresh(), Some(10));
    s.write(0, &[1, 2, 3, 4, 5, 6, 7, 8, 9, 10]);
    let v = s.distance_from_void(10);
    assert_eq!((v.distance, v.is_end), (0, true));
    let v = s.distance_from_void(12);
    assert_eq!((v.distance, v.is_end), (0, false));
    let v = s.distance_from_void(4);
    assert_eq!((v.distance, v.is_end), (6, true));
}
