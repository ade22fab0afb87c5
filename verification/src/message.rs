//! Application messages and the message-kind registry.
//!
//! A message is an application-defined value: a registry-defined kind tag
//! plus the kind-specific encoded payload.  The registry is consumed as a
//! narrow lookup service: it says which kind tags exist and reconstructs a
//! typed message from a tag and its payload, fallibly.

use vstd::prelude::*;
use crate::bits::SerdeErr;

verus! {

/// The mathematical value of a message: its kind tag and payload bytes.
pub ghost struct MessageView {
    pub kind: u16,
    pub payload: Seq<u8>,
}

impl MessageView {
    /// A message fits the wire format when its payload length fits the
    /// length prefix.
    pub open spec fn wf(self) -> bool {
        self.payload.len() <= 0xFFFF
    }
}

/// An application message: a kind tag and the payload encoded for that kind.
#[derive(Debug)]
pub struct Message {
    pub kind: u16,
    pub payload: Vec<u8>,
}

impl View for Message {
    type V = MessageView;

    open spec fn view(&self) -> MessageView {
        MessageView { kind: self.kind, payload: self.payload@ }
    }
}

impl Message {
    /// A message of the given kind and payload.
    pub fn new(kind: u16, payload: Vec<u8>) -> (m: Message)
        ensures
            m@ == (MessageView { kind, payload: payload@ }),
    {
        Message { kind, payload }
    }
}

/// The message type registry: kind tags `0 .. kind_count` are registered,
/// and a typed message can be rebuilt from a registered tag and its payload.
pub struct Manifest {
    kind_count: u16,
}

impl View for Manifest {
    type V = u16;

    closed spec fn view(&self) -> u16 {
        self.kind_count
    }
}

impl Manifest {
    /// A registry that knows the kind tags `0 .. kind_count`.
    pub fn new(kind_count: u16) -> (m: Manifest)
        ensures
            m@ == kind_count,
    {
        Manifest { kind_count }
    }

    /// Rebuilds the typed message carried by a wire tag and payload; fails
    /// exactly on a tag the registry does not know.
    pub fn create_replica(&self, kind: u16, payload: Vec<u8>) -> (r: Result<Message, SerdeErr>)
        ensures
            kind < self@ ==> r == Ok::<Message, SerdeErr>(Message { kind, payload }),
            kind >= self@ ==> r == Err::<Message, SerdeErr>(SerdeErr),
    {
        if kind < self.kind_count {
            Ok(Message { kind, payload })
        } else {
            Err(SerdeErr)
        }
    }
}

} // verus!
