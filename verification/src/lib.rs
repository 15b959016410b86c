//! Index a fragmented MP4 file and serve it as a Media-over-QUIC source.
//!
//! The library builds a random-access index over the movie fragments of a
//! file held in memory, answers range and fetch requests from that index, and
//! holds the decisions of the publish session and of its delivery workers as
//! state machines whose steps an outer driver performs.

pub mod be;
pub mod boxes;
pub mod delivery;
pub mod fetch;
pub mod fragment;
pub mod indexer;
pub mod movie;
pub mod order;
pub mod range;
pub mod session;
