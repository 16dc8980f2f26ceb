use vstd::prelude::*;
use vstd::string::*;

use crate::errors::InputError;

verus! {

// The address shapes, cache keys and loader addresses in this module are
// placeholders of this library: they stand in for the provider layer, whose
// real matching rules are not part of the playback core. Each provider
// recognises one fixed address prefix followed by a non-empty id.

/// `q` without its leading `p`, if it starts with `p`.
pub open spec fn strip(q: Seq<char>, p: Seq<char>) -> Option<Seq<char>> {
    if p.len() <= q.len() && q.subrange(0, p.len() as int) == p {
        Some(q.subrange(p.len() as int, q.len() as int))
    } else {
        None
    }
}

pub open spec fn youtube_watch_prefix() -> Seq<char> {
    "https://www.youtube.com/watch?v="@
}

pub open spec fn youtube_short_prefix() -> Seq<char> {
    "https://youtu.be/"@
}

pub open spec fn wavedistrict_prefix() -> Seq<char> {
    "https://wavedistrict.com/"@
}

/// The video id that a placeholder YouTube address carries, if `q` is one.
pub open spec fn youtube_id(q: Seq<char>) -> Option<Seq<char>> {
    match strip(q, youtube_watch_prefix()) {
        Some(id) => Some(id),
        None => strip(q, youtube_short_prefix()),
    }
}

/// The track path that a placeholder WaveDistrict address carries, if `q` is one.
pub open spec fn wavedistrict_path(q: Seq<char>) -> Option<Seq<char>> {
    strip(q, wavedistrict_prefix())
}

/// `q` without its leading `p`, if it starts with `p`.
fn strip_prefix<'a>(q: &'a str, p: &str) -> (r: Option<&'a str>)
    ensures
        match r {
            Some(rest) => strip(q@, p@) == Some(rest@),
            None => strip(q@, p@).is_none(),
        },
{
    let ql = q.unicode_len();
    let pl = p.unicode_len();
    if pl > ql {
        return None;
    }
    let mut i: usize = 0;
    while i < pl
        invariant
            pl == p@.len(),
            ql == q@.len(),
            pl <= ql,
            i <= pl,
            forall|j: int| 0 <= j < i ==> #[trigger] q@[j] == p@[j],
        decreases pl - i,
    {
        if q.get_char(i) != p.get_char(i) {
            proof {
                assert(q@.subrange(0, pl as int)[i as int] != p@[i as int]);
            }
            return None;
        }
        i = i + 1;
    }
    proof {
        assert(q@.subrange(0, pl as int) =~= p@);
    }
    Some(q.substring_char(pl, ql))
}

/// A YouTube video, by id.
#[derive(Debug)]
pub struct YouTubeVideo {
    pub id: String,
}

impl YouTubeVideo {
    /// Reads a placeholder video address (one of the two YouTube prefixes and
    /// an id): `NoMatch` if `url` is not one, `Invalid` if it names no video.
    pub fn from_url(url: &str) -> (r: Result<YouTubeVideo, InputError>)
        ensures
            match youtube_id(url@) {
                None => r == Err::<YouTubeVideo, InputError>(InputError::NoMatch),
                Some(id) => if id.len() == 0 {
                    r == Err::<YouTubeVideo, InputError>(InputError::Invalid)
                } else {
                    r is Ok && r->Ok_0.id@ == id
                },
            },
    {
        let rest = match strip_prefix(url, "https://www.youtube.com/watch?v=") {
            Some(rest) => rest,
            None => match strip_prefix(url, "https://youtu.be/") {
                Some(rest) => rest,
                None => {
                    return Err(InputError::NoMatch);
                },
            },
        };
        if rest.unicode_len() == 0 {
            Err(InputError::Invalid)
        } else {
            Ok(YouTubeVideo { id: rest.to_owned() })
        }
    }
}

/// A WaveDistrict track, by path.
#[derive(Debug)]
pub struct Track {
    pub path: String,
}

impl Track {
    /// Reads a placeholder track address (the WaveDistrict prefix and a path):
    /// `NoMatch` if `url` is not one, `Invalid` if it names no track.
    pub fn from_url(url: &str) -> (r: Result<Track, InputError>)
        ensures
            match wavedistrict_path(url@) {
                None => r == Err::<Track, InputError>(InputError::NoMatch),
                Some(path) => if path.len() == 0 {
                    r == Err::<Track, InputError>(InputError::Invalid)
                } else {
                    r is Ok && r->Ok_0.path@ == path
                },
            },
    {
        let rest = match strip_prefix(url, "https://wavedistrict.com/") {
            Some(rest) => rest,
            None => {
                return Err(InputError::NoMatch);
            },
        };
        if rest.unicode_len() == 0 {
            Err(InputError::Invalid)
        } else {
            Ok(Track { path: rest.to_owned() })
        }
    }
}

/// Where the loader of an input fetches its source (a placeholder address).
#[derive(Debug)]
pub struct Loader {
    pub url: String,
}

/// Describes an input: what a player shows for it. The duration is in
/// milliseconds.
#[derive(Debug, Clone)]
pub struct Metadata {
    pub title: String,
    pub artist: Option<String>,
    pub canonical: String,
    pub source: String,
    pub duration_millis: u64,
    pub artwork: Option<String>,
}

/// A resource that can be played: one variant per provider.
#[derive(Debug)]
pub enum Input {
    WaveDistrict(Track),
    YouTube(YouTubeVideo),
}

impl Input {
    pub open spec fn spec_fingerprint(&self) -> Seq<char> {
        match self {
            Input::WaveDistrict(t) => "wavedistrict:"@ + t.path@,
            Input::YouTube(v) => "youtube:"@ + v.id@,
        }
    }

    pub open spec fn spec_source_url(&self) -> Seq<char> {
        match self {
            Input::WaveDistrict(t) => wavedistrict_prefix() + t.path@,
            Input::YouTube(v) => youtube_watch_prefix() + v.id@,
        }
    }

    /// The key under which this input is cached. The format, the provider's
    /// name, a colon and the id, is a placeholder of this library.
    pub fn fingerprint(&self) -> (r: String)
        ensures
            r@ == self.spec_fingerprint(),
    {
        match self {
            Input::WaveDistrict(t) => String::from_str("wavedistrict:").concat(t.path.as_str()),
            Input::YouTube(v) => String::from_str("youtube:").concat(v.id.as_str()),
        }
    }

    /// Reads a query: the first provider whose address it is decides, YouTube
    /// first; a query that no provider takes is `UnsupportedType`.
    pub fn parse(str: &str) -> (r: Result<Input, InputError>)
        ensures
            match youtube_id(str@) {
                Some(id) => if id.len() == 0 {
                    r == Err::<Input, InputError>(InputError::Invalid)
                } else {
                    r is Ok && r->Ok_0 is YouTube && r->Ok_0->YouTube_0.id@ == id
                },
                None => match wavedistrict_path(str@) {
                    Some(path) => if path.len() == 0 {
                        r == Err::<Input, InputError>(InputError::Invalid)
                    } else {
                        r is Ok && r->Ok_0 is WaveDistrict && r->Ok_0->WaveDistrict_0.path@ == path
                    },
                    None => r == Err::<Input, InputError>(InputError::UnsupportedType),
                },
            },
    {
        match YouTubeVideo::from_url(str) {
            Err(InputError::NoMatch) => {},
            Ok(v) => {
                return Ok(Input::YouTube(v));
            },
            Err(e) => {
                return Err(e);
            },
        }
        match Track::from_url(str) {
            Err(InputError::NoMatch) => Err(InputError::UnsupportedType),
            Ok(t) => Ok(Input::WaveDistrict(t)),
            Err(e) => Err(e),
        }
    }

    /// The loader for this input: it fetches from the placeholder address of
    /// the provider.
    pub fn loader(&self) -> (r: Result<Loader, InputError>)
        ensures
            r is Ok && r->Ok_0.url@ == self.spec_source_url(),
    {
        match self {
            Input::WaveDistrict(t) => Ok(
                Loader { url: String::from_str("https://wavedistrict.com/").concat(t.path.as_str()) },
            ),
            Input::YouTube(v) => Ok(
                Loader {
                    url: String::from_str("https://www.youtube.com/watch?v=").concat(v.id.as_str()),
                },
            ),
        }
    }
}

} // verus!
