//! A channel multiplexer for realtime networking: application messages are
//! carried over an unreliable, packet-oriented transport, and each logical
//! channel adds its own delivery guarantee on top — fire-and-forget,
//! guaranteed-but-unordered, or guaranteed-and-ordered.
//!
//! The manager owns one state machine per configured channel, assigns wrapping
//! message identities on reliable channels, packs every channel's ready
//! messages into one outgoing packet, and routes packet delivery notifications
//! back to the channels so that unacknowledged messages are offered again.

use vstd::prelude::*;

pub mod wrapping_number;
pub mod bits;
pub mod message;
pub mod codec;
pub mod channel_config;
pub mod unordered_unreliable;
pub mod reliable_sender;
pub mod unordered_reliable;
pub mod ordered_reliable;
pub mod message_manager;

verus! {

/// Per-channel message sequence number; wraps around at the top of `u16`.
pub type MessageId = u16;

/// Identity of one transmitted packet, assigned by the transport layer.
pub type PacketIndex = u16;

/// Identity of one configured channel, stable for the connection's lifetime.
pub type ChannelId = u16;

} // verus!
