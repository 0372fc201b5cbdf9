//! An interactive chat-session library: a command grammar that separates
//! administrative lines from chat content, a conversation log with an
//! optimistic-append/rollback turn protocol, and a self-describing
//! persistence codec with a proven lossless round trip.

pub mod cmdline;
pub mod codec;
pub mod data_struct;
