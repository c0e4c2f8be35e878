//! A compact, self-describing binary trace format: schemas, events with
//! delta-encoded timestamps, interned strings and symbol tables.

pub mod addrset;
pub mod buffer;
pub mod codec;
pub mod collector;
pub mod decoder;
pub mod encoder;
pub mod events;
pub mod growth;
pub mod leb128;
pub mod profiling;
pub mod rotation;
pub mod roundtrip;
pub mod schema;
pub mod search;
pub mod segments;
pub mod stream;
pub mod symbolize;
pub mod tracker;
pub mod types;
pub mod writer;

pub use encoder::TraceEvent;
pub use types::InternedString;
