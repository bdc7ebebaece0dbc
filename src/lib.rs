use vstd::prelude::*;

/// Room documents and their membership tables.
pub mod room;
/// Text helpers over std, with their contracts.
pub mod text;
/// JSON text of frames and of stored room documents.
pub mod json;
/// The process-local registry of live sessions, and disconnect events.
pub mod presence;
/// The state machine of one connection to a room.
pub mod session;
/// Device fingerprints.
pub mod fingerprint;
/// The shared key/value store.
pub mod store;
/// Server settings and the caller named by a session token.
pub mod config;
/// Reading stored room documents back.
pub mod codec;

verus! {

/// Number of seconds a room document lives without a membership write.
pub const ROOM_TTL_SECONDS: u64 = 3600;

} // verus!
