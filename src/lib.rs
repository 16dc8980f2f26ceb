//! The playback core of a collaborative turntable: sparse sample buffers
//! (`buffer`), sinks with their lifecycle (`sink`), the queue that plays them
//! and plans what to load (`timeline`), and the decisions of a load
//! (`ingestion`), each with its contract proved.

use vstd::prelude::*;

pub mod buffer;
pub mod config;
pub mod db;
pub mod errors;
pub mod ingestion;
pub mod input;
pub mod sink;
pub mod timeline;

verus! {

} // verus!
