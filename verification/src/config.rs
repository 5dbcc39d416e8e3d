use vstd::prelude::*;

verus! {

/// Connections served at once by default.
pub const DEFAULT_MAX_CONNECTIONS: usize = 512;

/// Capacity of the channel that announces a shutdown.
pub const SHUTDOWN_BROADCAST_CAPACITY: usize = 512;

/// Capacity that a connection's read buffer starts with.
pub const INITIAL_READ_BUFFER_CAPACITY: usize = 4096;

/// Most bytes a connection buffers while waiting for a whole frame.
pub const MAX_BUFFERED_BYTES: usize = 65536;

/// Arrays of this many elements or more are refused by the parser.
pub const ARRAY_LENGTH_LIMIT_EXCLUSIVE: i64 = 1024;

/// Deepest nesting of arrays the configuration names.
pub const MAX_ARRAY_DEPTH: i32 = 32;

} // verus!
