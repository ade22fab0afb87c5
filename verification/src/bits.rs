//! The packet byte stream: an append-only writer and a fallible,
//! cursor-driven reader.
//!
//! The writer's view is the sequence of bytes written so far; the reader's
//! view is the suffix of bytes not yet consumed, so a successful read drops
//! the consumed prefix from the view and a failed read leaves it unchanged.

use vstd::prelude::*;

verus! {

/// Failure of the read path: the byte stream was truncated, malformed, or
/// named a message kind the registry does not know.  A failed read poisons
/// only the packet being read; the caller's own state is not corrupted.
#[derive(Clone, Copy, Debug, PartialEq, Eq, Structural)]
pub struct SerdeErr;

/// Says that `a` is what remains of `b` after consuming some prefix.
pub open spec fn suffix_of(a: Seq<u8>, b: Seq<u8>) -> bool {
    exists|k: int| 0 <= k <= b.len() && a == b.skip(k)
}

/// Every byte sequence is a suffix of itself (nothing consumed yet).
pub proof fn lemma_suffix_refl(b: Seq<u8>)
    ensures
        suffix_of(b, b),
{
    assert(b == b.skip(0));
}

/// Consuming in two steps consumes a prefix once: suffixes compose.
pub proof fn lemma_suffix_trans(a: Seq<u8>, b: Seq<u8>, c: Seq<u8>)
    requires
        suffix_of(a, b),
        suffix_of(b, c),
    ensures
        suffix_of(a, c),
{
    let k1 = choose|k: int| 0 <= k <= b.len() && a == b.skip(k);
    let k2 = choose|k: int| 0 <= k <= c.len() && b == c.skip(k);
    assert(c.skip(k2).skip(k1) =~= c.skip(k1 + k2));
    assert(a == c.skip(k1 + k2));
}

/// Skipping splits off the consumed prefix: a shorter suffix of a suffix.
pub proof fn lemma_skip_is_suffix(b: Seq<u8>, k: int)
    requires
        0 <= k <= b.len(),
    ensures
        suffix_of(b.skip(k), b),
{
}

/// Accumulates the bytes of one outgoing packet.
pub struct BitWriter {
    buffer: Vec<u8>,
}

impl View for BitWriter {
    type V = Seq<u8>;

    closed spec fn view(&self) -> Seq<u8> {
        self.buffer@
    }
}

impl BitWriter {
    /// An empty packet buffer.
    pub fn new() -> (w: Self)
        ensures
            w@ == Seq::<u8>::empty(),
    {
        let w = BitWriter { buffer: Vec::new() };
        proof {
            assert(w@ =~= Seq::<u8>::empty());
        }
        w
    }

    /// Appends one byte to the packet.
    pub fn write_byte(&mut self, b: u8)
        ensures
            final(self)@ == old(self)@.push(b),
    {
        self.buffer.push(b);
    }

    /// How many bytes the packet holds so far.
    pub fn len(&self) -> (n: usize)
        ensures
            n == self@.len(),
    {
        self.buffer.len()
    }

    /// Hands the finished packet to the transport.
    pub fn to_bytes(self) -> (v: Vec<u8>)
        ensures
            v@ == self@,
    {
        self.buffer
    }
}

/// Consumes the bytes of one incoming packet from front to back.
pub struct BitReader {
    buffer: Vec<u8>,
    cursor: usize,
}

impl View for BitReader {
    type V = Seq<u8>;

    closed spec fn view(&self) -> Seq<u8> {
        self.buffer@.skip(self.cursor as int)
    }
}

impl BitReader {
    #[verifier::type_invariant]
    spec fn wf(self) -> bool {
        self.cursor <= self.buffer.len()
    }

    /// A reader over a received packet, nothing consumed yet.
    pub fn new(bytes: Vec<u8>) -> (r: Self)
        ensures
            r@ == bytes@,
    {
        let r = BitReader { buffer: bytes, cursor: 0 };
        proof {
            assert(r@ =~= r.buffer@);
        }
        r
    }

    /// How many bytes are still unread.
    pub fn remaining(&self) -> (n: usize)
        ensures
            n == self@.len(),
    {
        proof {
            use_type_invariant(self);
        }
        self.buffer.len() - self.cursor
    }

    /// Consumes and returns the next byte; fails on an exhausted stream,
    /// leaving the reader unchanged.
    pub fn read_byte(&mut self) -> (r: Result<u8, SerdeErr>)
        ensures
            old(self)@.len() > 0 ==> r == Ok::<u8, SerdeErr>(old(self)@[0]) && final(self)@ == old(
                self,
            )@.skip(1),
            old(self)@.len() == 0 ==> r == Err::<u8, SerdeErr>(SerdeErr) && final(self)@ == old(
                self,
            )@,
    {
        proof {
            use_type_invariant(&*self);
        }
        if self.cursor < self.buffer.len() {
            let b = self.buffer[self.cursor];
            self.cursor = self.cursor + 1;
            proof {
                assert(final(self)@ =~= old(self)@.skip(1));
            }
            Ok(b)
        } else {
            Err(SerdeErr)
        }
    }
}

} // verus!
