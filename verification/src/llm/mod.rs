//! Wire types and the incremental stream parser.

pub mod chunking;
pub mod stream;
pub mod types;

pub use stream::{StreamEvent, StreamParser};
pub use types::WireMessage;
