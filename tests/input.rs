use turntable::config::Config;
use turntable::errors::{DatabaseError, InputError, ServerError};
use turntable::input::{Input, Track, YouTubeVideo};

#[test]
fn parses_youtube_addresses() {
    let i = Input::parse("https://www.youtube.com/watch?v=abc123").unwrap();
    assert_eq!(i.fingerprint(), "youtube:abc123");
    let i = Input::parse("https://youtu.be/xyz").unwrap();
    assert_eq!(i.fingerprint(), "youtube:xyz");
    assert_eq!(i.loader().unwrap().url, "https://www.youtube.com/watch?v=xyz");
}

#[test]
fn parses_wavedistrict_addresses() {
    let i = Input::parse("https://wavedistrict.com/@me/tracks/song").unwrap();
    assert_eq!(i.fingerprint(), "wavedistrict:@me/tracks/song");
    assert_eq!(i.loader().unwrap().url, "https://wavedistrict.com/@me/tracks/song");
}

#[test]
fn rejects_other_queries() {
    assert_eq!(Input::parse("ftp://example.org/a").unwrap_err(), InputError::UnsupportedType);
    assert_eq!(Input::parse("").unwrap_err(), InputError::UnsupportedType);
    assert_eq!(Input::parse("https://youtu.be/").unwrap_err(), InputError::Invalid);
    assert_eq!(Input::parse("https://wavedistrict.com/").unwrap_err(), InputError::Invalid);
}

#[test]
fn input_errors_map_to_statuses() {
    assert_eq!(InputError::NotFound.status_code(), 404);
    assert_eq!(InputError::NoMatch.status_code(), 400);
    assert_eq!(InputError::UnsupportedType.status_code(), 400);
    assert_eq!(InputError::Invalid.status_code(), 400);
    assert_eq!(InputError::NetworkFailed.status_code(), 500);
    assert_eq!(InputError::ParseError("x".to_string()).status_code(), 500);
    assert_eq!(InputError::Other("x".to_string()).status_code(), 500);
    assert_eq!(InputError::Unknown.status_code(), 500);
}

#[test]
fn server_errors_map_to_statuses() {
    assert_eq!(ServerError::SuperuserExists.as_status_code(), 409);
    assert_eq!(ServerError::UserNotInRoom.as_status_code(), 403);
    assert_eq!(ServerError::StreamKeyNotFound.as_status_code(), 404);
    assert_eq!(ServerError::Unknown("x".to_string()).as_status_code(), 500);
    assert_eq!(ServerError::InputNetworkFailed.as_status_code(), 500);
    let e = ServerError::from_input_error(InputError::NotFound);
    assert_eq!(e, ServerError::InputNotFound);
    assert_eq!(e.as_status_code(), 404);
    assert_eq!(
        ServerError::from_input_error(InputError::Unknown),
        ServerError::Unknown("An unknown error occurred".to_string())
    );
    assert_eq!(
        ServerError::from_input_error(InputError::ParseError("bad".to_string())),
        ServerError::InputParseError("bad".to_string())
    );
    let e = ServerError::from_database_error(DatabaseError::NotFound {
        resource: "room".to_string(),
        identifier: "7".to_string(),
    });
    assert_eq!(e.as_status_code(), 404);
}

#[test]
fn config_sample_counts() {
    let c = Config {
        sample_rate: 1,
        channel_count: 1,
        preload_threshold_in_millis: 3000,
        preload_size_in_millis: 2500,
    };
    assert_eq!(c.preload_threshold_in_samples(), 3);
    assert_eq!(c.preload_size_in_samples(), 3);
    let d = Config::default();
    assert_eq!(d.preload_threshold_in_samples(), 48000 * 10 * 2);
    assert_eq!(d.preload_size_in_samples(), 48000 * 20 * 2);
}

#[test]
fn provider_matchers_report_no_match() {
    assert_eq!(YouTubeVideo::from_url("https://wavedistrict.com/x").unwrap_err(), InputError::NoMatch);
    assert_eq!(Track::from_url("https://youtu.be/x").unwrap_err(), InputError::NoMatch);
    assert_eq!(YouTubeVideo::from_url("https://youtu.be/abc").unwrap().id, "abc");
    assert_eq!(Track::from_url("https://wavedistrict.com/a/b").unwrap().path, "a/b");
}
