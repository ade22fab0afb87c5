//! Wraparound-aware sequence arithmetic.
//!
//! Message identities are fixed-width counters that wrap at the top of the
//! `u16` range, so "newer than" cannot be plain integer comparison: identity
//! `0` follows identity `65535`.  Every place that compares identities — the
//! reorder buffer, duplicate detection, release decisions — goes through the
//! one comparison defined here.

use vstd::prelude::*;

verus! {

/// Half of the `u16` sequence space; identities at most this far apart are
/// ordered by the wrapping rule.
pub const SEQUENCE_WINDOW: u16 = 32768;

/// The wrapping successor of a sequence number.
pub open spec fn spec_next_id(id: u16) -> u16 {
    if id == 0xFFFF {
        0
    } else {
        (id + 1) as u16
    }
}

/// The wrapping rule: `a` is ahead of `b` when the forward distance from `b`
/// to `a` is at most half the sequence space (and the two differ).
pub open spec fn spec_sequence_greater_than(a: u16, b: u16) -> bool {
    ||| (a > b && a - b <= SEQUENCE_WINDOW)
    ||| (a < b && b - a > SEQUENCE_WINDOW)
}

/// How many wrapping increments lead from `from` to `to`.
pub open spec fn spec_distance(from: u16, to: u16) -> int {
    if to >= from {
        to - from
    } else {
        to + 0x10000 - from
    }
}

/// The wrapping successor of a sequence number.
pub fn next_message_id(id: u16) -> (r: u16)
    ensures
        r == spec_next_id(id),
{
    if id == 0xFFFF {
        0
    } else {
        id + 1
    }
}

/// Returns whether `a` is ahead of `b` in wrapping sequence order.
pub fn sequence_greater_than(a: u16, b: u16) -> (r: bool)
    ensures
        r == spec_sequence_greater_than(a, b),
{
    (a > b && a - b <= SEQUENCE_WINDOW) || (a < b && b - a > SEQUENCE_WINDOW)
}

/// The wrapping comparison agrees with the forward distance: `a` is ahead of
/// `b` when walking forward from `b` reaches `a` strictly within half the
/// sequence space, and only if it reaches `a` within half the space.  (At
/// exactly half the space the rule breaks the tie by the plain values, so
/// only one direction of each implication holds there.)
pub proof fn lemma_greater_iff_distance(a: u16, b: u16)
    ensures
        1 <= spec_distance(b, a) < SEQUENCE_WINDOW ==> spec_sequence_greater_than(a, b),
        spec_sequence_greater_than(a, b) ==> 1 <= spec_distance(b, a) <= SEQUENCE_WINDOW,
{
}

/// The forward distance names each sequence number once: equal distances from
/// one origin mean equal numbers, and distance zero is the origin itself.
pub proof fn lemma_distance_injective(from: u16, a: u16, b: u16)
    ensures
        spec_distance(from, a) == spec_distance(from, b) ==> a == b,
        spec_distance(from, a) == 0 <==> a == from,
        0 <= spec_distance(from, a) < 0x10000,
{
}

/// Advancing by one increment lands exactly one further along.
pub proof fn lemma_distance_next(from: u16, to: u16)
    requires
        to != from,
    ensures
        spec_distance(spec_next_id(from), to) == spec_distance(from, to) - 1,
{
}

/// The immediate successor is ahead of every sequence number, and never
/// behind it — also across the wrap boundary, where the successor of the
/// largest identity is `0`.
pub proof fn lemma_successor_is_ahead(b: u16)
    ensures
        spec_sequence_greater_than(spec_next_id(b), b),
        !spec_sequence_greater_than(b, spec_next_id(b)),
{
}

/// Walking forward from `a` to `b` and back again goes once around the
/// sequence space.
pub proof fn lemma_distance_sum(a: u16, b: u16)
    requires
        a != b,
    ensures
        spec_distance(a, b) + spec_distance(b, a) == 0x10000,
{
}

/// Two distinct sequence numbers are ordered one way, never both.
pub proof fn lemma_greater_antisymmetric(a: u16, b: u16)
    ensures
        a == b ==> !spec_sequence_greater_than(a, b),
        a != b ==> (spec_sequence_greater_than(a, b) <==> !spec_sequence_greater_than(b, a)),
{
}

} // verus!
