//! Torrent metainfo parsing, bencode codec and HTTP tracker protocol.
use vstd::prelude::*;

pub mod bencode;
pub mod error;
pub mod metainfo;
pub mod peer;
pub mod tracker;

pub use error::Error;
pub use metainfo::Metainfo;
pub use tracker::{Tracker, TrackerResponse};

verus! {

} // verus!
