//! Static channel configuration.
//!
//! A configuration names each channel once and fixes its reliability mode and
//! tuning before any channel is built; it never changes afterwards.  Both
//! peers must hold the same configuration in the same order, because a
//! packet's wire format identifies channels by position, not by tag.

use vstd::prelude::*;
use crate::ChannelId;

verus! {

/// Tuning for the reliable modes: after how many ticks without an
/// acknowledgment a sent message becomes ready to send again.
#[derive(Clone, Copy, Debug, PartialEq, Eq, Structural)]
pub struct ReliableSettings {
    pub resend_interval: u64,
}

/// The delivery guarantee of one channel.
#[derive(Clone, Copy, Debug, PartialEq, Eq, Structural)]
pub enum ChannelMode {
    /// Sent once, never resent; arrival order is delivery order.
    UnorderedUnreliable,
    /// Resent until acknowledged; delivered in arrival order.
    UnorderedReliable(ReliableSettings),
    /// Resent until acknowledged; delivered in send order.
    OrderedReliable(ReliableSettings),
}

/// One configured channel: its identity and its mode.
#[derive(Clone, Copy, Debug, PartialEq, Eq, Structural)]
pub struct ChannelSetting {
    pub index: ChannelId,
    pub mode: ChannelMode,
}

/// Says that no channel identity appears twice.
pub open spec fn indices_unique(s: Seq<ChannelSetting>) -> bool {
    forall|i: int, j: int| 0 <= i < j < s.len() ==> (#[trigger] s[i]).index != (#[trigger] s[j]).index
}

/// The immutable channel configuration: each configured channel once, in the
/// order that fixes the wire layout.
pub struct ChannelConfig {
    channels: Vec<ChannelSetting>,
}

impl View for ChannelConfig {
    type V = Seq<ChannelSetting>;

    closed spec fn view(&self) -> Seq<ChannelSetting> {
        self.channels@
    }
}

impl ChannelConfig {
    /// Builds a configuration from the given channels; refuses a list that
    /// names the same channel identity twice.
    pub fn new(channels: Vec<ChannelSetting>) -> (r: Option<ChannelConfig>)
        ensures
            match r {
                Some(c) => indices_unique(channels@) && c@ == channels@,
                None => !indices_unique(channels@),
            },
    {
        let n = channels.len();
        let mut i: usize = 0;
        while i < n
            invariant
                n == channels@.len(),
                i <= n,
                forall|a: int, b: int|
                    0 <= a < b < channels@.len() && a < i ==> (#[trigger] channels@[a]).index != (
                    #[trigger] channels@[b]).index,
            decreases n - i,
        {
            let mut j: usize = i + 1;
            while j < n
                invariant
                    n == channels@.len(),
                    i < j <= n,
                    forall|b: int| i < b < j ==> channels@[i as int].index != (
                    #[trigger] channels@[b]).index,
                decreases n - j,
            {
                if channels[i].index == channels[j].index {
                    return None;
                }
                j = j + 1;
            }
            i = i + 1;
        }
        Some(ChannelConfig { channels })
    }

    /// Every configured channel, in configuration order.
    pub fn all_channels(&self) -> (v: &Vec<ChannelSetting>)
        ensures
            v@ == self@,
    {
        &self.channels
    }
}

} // verus!
