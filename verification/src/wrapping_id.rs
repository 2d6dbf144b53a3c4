//! Wrapping message identifiers with sequence-relative ordering.
//!
//! Channels run for arbitrarily long, so message identifiers live in a
//! finite space and wrap around. Plain numeric comparison misorders ids
//! after a wrap; the sequence-relative rule below treats the half-space
//! ahead of an id as greater than it.

use vstd::prelude::*;

verus! {

/// Identifier sequencing the messages of one channel. Wraps modulo `2^16`.
///
/// Equality is bitwise; ordering questions go through [`seq_lt`], never
/// through numeric comparison of the raw value.
#[derive(Clone, Copy, PartialEq, Eq, Structural, Debug, Hash)]
pub struct MessageId(pub u16);

/// Sequence-relative strict order on wrapping identifiers: `a` precedes `b`
/// exactly when the forward distance from `a` to `b`, taken modulo `2^16`,
/// lies strictly between `0` and `2^15`.
pub open spec fn seq_lt(a: u16, b: u16) -> bool {
    ||| (a < b && b - a < 0x8000)
    ||| (b < a && a - b > 0x8000)
}

/// Successor in the wrapping identifier space.
pub open spec fn seq_succ(x: u16) -> u16 {
    if x == 0xffff {
        0
    } else {
        (x + 1) as u16
    }
}

impl MessageId {
    /// Sequence-relative strict order test; see [`seq_lt`].
    pub fn wrapping_lt(self, other: MessageId) -> (r: bool)
        ensures
            r == seq_lt(self.0, other.0),
    {
        if self.0 < other.0 {
            other.0 - self.0 < 0x8000
        } else if other.0 < self.0 {
            self.0 - other.0 > 0x8000
        } else {
            false
        }
    }

    /// Next identifier, wrapping at the end of the space.
    pub fn next(self) -> (r: MessageId)
        ensures
            r.0 == seq_succ(self.0),
    {
        if self.0 == 0xffff {
            MessageId(0)
        } else {
            MessageId(self.0 + 1)
        }
    }
}

/// An identifier never precedes itself.
pub proof fn lemma_seq_lt_irreflexive(a: u16)
    ensures
        !seq_lt(a, a),
{
}

/// Advancing the delivery cursor keeps every still-buffered identifier
/// at or ahead of it: if `k` is neither behind `p` nor equal to `p`,
/// then `k` is not behind the successor of `p` either.
pub proof fn lemma_seq_lt_advance(p: u16, k: u16)
    requires
        !seq_lt(k, p),
        k != p,
    ensures
        !seq_lt(k, seq_succ(p)),
{
}

} // verus!
