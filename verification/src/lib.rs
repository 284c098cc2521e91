//! A self-contained RESP (REdis Serialization Protocol) client core: a typed
//! reply tree, a byte-exact command encoder, an incremental streaming reply
//! parser, and the connection-side bookkeeping for pipelined request/response
//! exchanges. Socket I/O is left to the caller, who drives the parser with
//! whatever bytes the transport produces.

pub mod reply;
pub mod codec;
pub mod reader;
pub mod conn;
pub mod laws;
