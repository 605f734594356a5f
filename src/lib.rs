//! Wire encoding of the control feed that a tunnel server pushes to its agents.
//!
//! Each message type has `write_to`, which appends its bytes to a `Vec<u8>`,
//! and `read_from`, which reads one value at a position of a byte buffer and
//! returns it with the position just after it. Both are proved against the
//! spec functions `enc_*` and `parse_*` of their module, and the lemmas beside
//! those state that every value reads back as itself, that unknown tags and
//! cut-off input are refused, and that equal values encode alike.
pub mod address;
pub mod control_feed;
pub mod messages;
pub mod primitives;

pub use address::SocketAddress;
pub use control_feed::ControlFeed;
pub use messages::{ClaimInstructions, ControlRpcMessage, NewClient};
pub use primitives::DecodeError;
