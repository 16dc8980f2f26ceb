use turntable::config::Config;
use turntable::ingestion::{expected_length, ingest, LoadJob, LoadRegistry, LoaderLength};
use turntable::sink::{PipelineEvent, SinkIdGenerator, SinkState};

fn config() -> Config {
    Config {
        sample_rate: 44100,
        channel_count: 2,
        preload_threshold_in_millis: 1000,
        preload_size_in_millis: 1000,
    }
}

#[test]
fn lengths_convert_to_samples() {
    let c = config();
    assert_eq!(expected_length(Some(LoaderLength::Bytes(4000)), 4, &c), Some(1000));
    assert_eq!(expected_length(Some(LoaderLength::Bytes(4001)), 4, &c), Some(1000));
    assert_eq!(expected_length(Some(LoaderLength::Bytes(4000)), 0, &c), None);
    assert_eq!(expected_length(Some(LoaderLength::Samples(77)), 4, &c), Some(77));
    assert_eq!(expected_length(Some(LoaderLength::Millis(1500)), 4, &c), Some(132300));
    assert_eq!(expected_length(None, 4, &c), None);
}

#[test]
fn ingested_sink_is_idle() {
    let mut ids = SinkIdGenerator::new();
    let s = ingest(ids.fresh(), Some(LoaderLength::Samples(10)), 4, &config());
    assert_eq!(*s.state(), SinkState::Idle);
    assert_eq!(s.expected_length(), Some(10));
}

#[test]
fn load_until_amount_returns_to_active() {
    let mut ids = SinkIdGenerator::new();
    let mut s = ingest(ids.fresh(), Some(LoaderLength::Samples(100)), 4, &config());
    s.activate();
    let mut job = LoadJob::start(&mut s, 10, 6);
    assert_eq!(*s.state(), SinkState::Loading);
    assert!(!job.on_chunk(&mut s, &[1, 2, 3, 4], false));
    assert_eq!(job.offset, 14);
    assert_eq!(job.remaining, 2);
    assert!(job.on_chunk(&mut s, &[5, 6, 7], false));
    assert_eq!(*s.state(), SinkState::Active);
    assert_eq!(s.distance_from_void(10).distance, 7);
}

#[test]
fn load_to_source_end_seals() {
    let mut ids = SinkIdGenerator::new();
    let mut s = ingest(ids.fresh(), None, 4, &config());
    s.activate();
    let mut job = LoadJob::start(&mut s, 0, 100);
    assert!(job.on_chunk(&mut s, &[1, 2], true));
    assert_eq!(*s.state(), SinkState::Sealed);
}

#[test]
fn load_failure_marks_error() {
    let mut ids = SinkIdGenerator::new();
    let mut s = ingest(ids.fresh(), None, 4, &config());
    s.activate();
    let job = LoadJob::start(&mut s, 0, 100);
    job.on_error(&mut s, "network".to_string());
    assert_eq!(*s.state(), SinkState::Error("network".to_string()));
    assert!(!s.is_playable());
}

#[test]
fn second_request_for_same_sink_is_dropped() {
    let mut ids = SinkIdGenerator::new();
    let (a, b) = (ids.fresh(), ids.fresh());
    let mut r = LoadRegistry::new();
    assert!(r.request(a));
    assert!(!r.request(a));
    assert!(r.request(b));
    let events = r.take_events();
    assert_eq!(events.len(), 1);
    assert!(matches!(events[0], PipelineEvent::LoadRequestDropped { sink_id } if sink_id == a));
    assert!(r.take_events().is_empty());
    assert!(r.is_loading(a));
    r.finish(a);
    assert!(!r.is_loading(a));
    assert!(r.is_loading(b));
    assert!(r.request(a));
}
