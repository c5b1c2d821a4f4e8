//! Bencode codec, torrent metadata model and tracker announce protocol.
use vstd::prelude::*;

pub mod attempt;
pub mod decode;
pub mod encode;
pub mod error;
pub mod files;
pub mod grammar;
pub mod infohash;
pub mod laws;
pub mod meta_info;
pub mod orst;
pub mod peer_id;
mod outside;
pub mod reader;
pub mod sources;
pub mod strsplit;
pub mod trackers;
pub mod value;

pub use error::{Error, ErrorKind};
pub use decode::{decode, parse};
pub use encode::encode;
pub use value::{SpecValue, Value, ValueInput};

verus! {

} // verus!
