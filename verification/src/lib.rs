//! Client-side core of a small real-time chat application.
//!
//! The library models the session and message-synchronization protocol of the
//! chat client: registering a user, encoding and decoding the wire envelopes,
//! and reducing inbound broadcast events into renderable roster and message
//! state.  Everything here is verified; the thin presentation layer around it
//! lives outside the library.

mod text;
pub mod chat;
pub mod session;
pub mod wire;
