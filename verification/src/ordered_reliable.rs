//! Ordered-reliable receiver: every message arrives eventually, and they
//! are handed to the consumer in contiguous identifier order.
//!
//! The sender of a reliable channel retransmits until every identifier is
//! delivered; the receiver below tolerates arbitrary reordering and
//! duplication while never skipping or repeating a delivery. All identifier
//! comparisons are sequence-relative, so the receiver stays correct when
//! the identifier space wraps in a long-running session.

use vstd::prelude::*;
use crate::kv::{kv_map, kv_unique, lemma_kv_map_domain, lemma_kv_map_index, lemma_kv_map_len,
    lemma_kv_map_push, lemma_kv_map_remove};
use crate::message::Message;
use crate::wrapping_id::{lemma_seq_lt_advance, seq_lt, seq_succ, MessageId};

verus! {

/// Mathematical image of the receiver: the next identifier awaiting
/// delivery and the buffered out-of-order messages.
#[verifier::ext_equal]
pub struct OrderedModel {
    pub pending: u16,
    pub buffer: Map<u16, Seq<u8>>,
}

/// Well-formedness of the model: nothing behind the delivery cursor is
/// ever buffered.
pub open spec fn om_wf(m: OrderedModel) -> bool {
    forall|k: u16| #[trigger] m.buffer.contains_key(k) ==> !seq_lt(k, m.pending)
}

/// What queueing one message does to the state: an identifier behind the
/// cursor is dropped silently, a duplicate keeps the first arrival, and
/// anything else is buffered.
pub open spec fn buffer_recv_state(m: OrderedModel, msg: Seq<u8>, id: u16) -> OrderedModel {
    if seq_lt(id, m.pending) {
        m
    } else if m.buffer.contains_key(id) {
        m
    } else {
        OrderedModel { pending: m.pending, buffer: m.buffer.insert(id, msg) }
    }
}

/// What one read returns: the message buffered under the cursor, if any.
pub open spec fn read_out(m: OrderedModel) -> Option<Seq<u8>> {
    if m.buffer.contains_key(m.pending) {
        Some(m.buffer[m.pending])
    } else {
        None
    }
}

/// What one read does to the state: a delivery removes the message and
/// advances the cursor by exactly one.
pub open spec fn read_state(m: OrderedModel) -> OrderedModel {
    if m.buffer.contains_key(m.pending) {
        OrderedModel { pending: seq_succ(m.pending), buffer: m.buffer.remove(m.pending) }
    } else {
        m
    }
}

/// Ordered-reliable receiver: holds out-of-order messages back until all
/// their predecessors have been read.
pub struct OrderedReliableReceiver {
    /// Next message id that we are waiting to receive; the channel is
    /// reliable, so every id below it has already been delivered.
    pending_recv_message_id: MessageId,
    /// Buffer of the messages received but not yet handed out.
    recv_message_buffer: Vec<(MessageId, Message)>,
}

impl View for OrderedReliableReceiver {
    type V = OrderedModel;

    closed spec fn view(&self) -> OrderedModel {
        OrderedModel {
            pending: self.pending_recv_message_id.0,
            buffer: kv_map(self.recv_message_buffer@),
        }
    }
}

impl OrderedReliableReceiver {
    /// Internal invariant: buffered keys are unique and never behind the
    /// delivery cursor.
    pub closed spec fn wf(self) -> bool {
        &&& kv_unique(self.recv_message_buffer@)
        &&& forall|i: int|
            0 <= i < self.recv_message_buffer@.len() ==> !seq_lt(
                (#[trigger] self.recv_message_buffer@[i]).0.0,
                self.pending_recv_message_id.0,
            )
    }

    /// A receiver waiting for identifier `0` with an empty buffer.
    pub fn new() -> (r: OrderedReliableReceiver)
        ensures
            r.wf(),
            r@ == (OrderedModel { pending: 0u16, buffer: Map::<u16, Seq<u8>>::empty() }),
    {
        let r = OrderedReliableReceiver {
            pending_recv_message_id: MessageId(0),
            recv_message_buffer: Vec::new(),
        };
        proof {
            assert(r@ =~= OrderedModel { pending: 0u16, buffer: Map::<u16, Seq<u8>>::empty() });
        }
        r
    }

    /// Queue a received message under its identifier. Identifiers behind
    /// the cursor are stale and dropped silently; for duplicates the
    /// first arrival wins.
    pub fn buffer_recv(&mut self, message: Message, message_id: MessageId)
        requires
            old(self).wf(),
        ensures
            final(self).wf(),
            final(self)@ == buffer_recv_state(old(self)@, message@, message_id.0),
            om_wf(final(self)@),
    {
        if message_id.wrapping_lt(self.pending_recv_message_id) {
            proof {
                lemma_om_wf(*self);
            }
            return;
        }
        let n = self.recv_message_buffer.len();
        let mut i: usize = 0;
        while i < n
            invariant
                self.wf(),
                n == self.recv_message_buffer@.len(),
                0 <= i <= n,
                forall|j: int|
                    0 <= j < i ==> (#[trigger] self.recv_message_buffer@[j]).0.0
                        != message_id.0,
            decreases n - i,
        {
            if self.recv_message_buffer[i].0.0 == message_id.0 {
                proof {
                    lemma_kv_map_domain(self.recv_message_buffer@);
                    lemma_om_wf(*self);
                }
                return;
            }
            i += 1;
        }
        proof {
            lemma_kv_map_domain(self.recv_message_buffer@);
            lemma_kv_map_push(self.recv_message_buffer@, message_id, message);
        }
        self.recv_message_buffer.push((message_id, message));
        proof {
            assert(self@ =~= buffer_recv_state(old(self)@, message@, message_id.0));
            lemma_om_wf(*self);
        }
    }

    /// Read the next message in identifier order, if it has arrived.
    /// Newer messages stay buffered until every predecessor has been read.
    pub fn read_message(&mut self) -> (r: Option<Message>)
        requires
            old(self).wf(),
        ensures
            final(self).wf(),
            final(self)@ == read_state(old(self)@),
            om_wf(final(self)@),
            match r {
                Some(msg) => read_out(old(self)@) == Some(msg@),
                None => read_out(old(self)@) is None,
            },
    {
        let n = self.recv_message_buffer.len();
        let mut i: usize = 0;
        while i < n
            invariant
                self.wf(),
                old(self) == self,
                n == self.recv_message_buffer@.len(),
                0 <= i <= n,
                forall|j: int|
                    0 <= j < i ==> (#[trigger] self.recv_message_buffer@[j]).0.0
                        != self.pending_recv_message_id.0,
            decreases n - i,
        {
            if self.recv_message_buffer[i].0.0 == self.pending_recv_message_id.0 {
                proof {
                    lemma_kv_map_index(self.recv_message_buffer@, i as int);
                    lemma_kv_map_remove(self.recv_message_buffer@, i as int);
                    self.recv_message_buffer@.remove_ensures(i as int);
                }
                let ghost pre = *self;
                let (_key, msg) = self.recv_message_buffer.remove(i);
                self.pending_recv_message_id = self.pending_recv_message_id.next();
                proof {
                    assert forall|q: int|
                        0 <= q < self.recv_message_buffer@.len() implies !seq_lt(
                        (#[trigger] self.recv_message_buffer@[q]).0.0,
                        self.pending_recv_message_id.0,
                    ) by {
                        let q0 = if q < i {
                            q
                        } else {
                            q + 1
                        };
                        assert(self.recv_message_buffer@[q] == pre.recv_message_buffer@[q0]);
                        let k = pre.recv_message_buffer@[q0].0.0;
                        assert(k != pre.pending_recv_message_id.0);
                        lemma_seq_lt_advance(pre.pending_recv_message_id.0, k);
                    }
                    assert(self@ =~= read_state(pre@));
                    assert(self.wf());
                    lemma_om_wf(*self);
                }
                return Some(msg);
            }
            i += 1;
        }
        proof {
            lemma_kv_map_domain(self.recv_message_buffer@);
            lemma_om_wf(*self);
        }
        None
    }

    /// Number of messages currently buffered.
    pub fn buffer_len(&self) -> (r: usize)
        requires
            self.wf(),
        ensures
            r == self@.buffer.len(),
    {
        proof {
            lemma_kv_map_len(self.recv_message_buffer@);
        }
        self.recv_message_buffer.len()
    }

    /// Whether a message is buffered under the given identifier.
    pub fn is_buffered(&self, message_id: MessageId) -> (r: bool)
        requires
            self.wf(),
        ensures
            r == self@.buffer.contains_key(message_id.0),
    {
        proof {
            lemma_kv_map_domain(self.recv_message_buffer@);
        }
        let n = self.recv_message_buffer.len();
        let mut i: usize = 0;
        while i < n
            invariant
                n == self.recv_message_buffer@.len(),
                0 <= i <= n,
                forall|j: int|
                    0 <= j < i ==> (#[trigger] self.recv_message_buffer@[j]).0.0
                        != message_id.0,
                self@.buffer == kv_map(self.recv_message_buffer@),
                forall|k: u16|
                    self@.buffer.contains_key(k) <==> (exists|q: int|
                        0 <= q < self.recv_message_buffer@.len()
                            && #[trigger] self.recv_message_buffer@[q].0.0 == k),
            decreases n - i,
        {
            if self.recv_message_buffer[i].0.0 == message_id.0 {
                return true;
            }
            i += 1;
        }
        false
    }

    /// The next identifier awaiting delivery.
    pub fn pending_recv_message_id(&self) -> (r: MessageId)
        ensures
            r.0 == self@.pending,
    {
        self.pending_recv_message_id
    }
}

/// A well-formed receiver's model buffers nothing behind the cursor.
proof fn lemma_om_wf(r: OrderedReliableReceiver)
    requires
        r.wf(),
    ensures
        om_wf(r@),
{
    lemma_kv_map_domain(r.recv_message_buffer@);
}

/// Stale rejection: queueing a message whose identifier is behind the
/// delivery cursor, in the sequence-relative order, changes nothing.
pub proof fn lemma_stale_rejection(m: OrderedModel, msg: Seq<u8>, id: u16)
    requires
        seq_lt(id, m.pending),
    ensures
        buffer_recv_state(m, msg, id) == m,
{
}

/// Monotone delivery: every delivery hands out the message buffered under
/// the cursor, advances the cursor by exactly one, and leaves the
/// delivered identifier both out of the buffer and permanently stale, so
/// successive deliveries carry identifiers `k`, `k + 1`, `k + 2`, ... with
/// no gaps and no repeats.
pub proof fn lemma_monotone_delivery(m: OrderedModel, msg: Seq<u8>)
    ensures
        read_out(m) is Some ==> read_state(m).pending == seq_succ(m.pending),
        read_out(m) is Some ==> !read_state(m).buffer.contains_key(m.pending),
        read_out(m) is Some ==> buffer_recv_state(read_state(m), msg, m.pending) == read_state(m),
        read_out(m) is None ==> read_state(m) == m,
{
}

/// Queueing preserves well-formedness of the model.
pub proof fn lemma_buffer_recv_wf(m: OrderedModel, msg: Seq<u8>, id: u16)
    requires
        om_wf(m),
    ensures
        om_wf(buffer_recv_state(m, msg, id)),
{
}

/// Reading preserves well-formedness of the model.
pub proof fn lemma_read_wf(m: OrderedModel)
    requires
        om_wf(m),
    ensures
        om_wf(read_state(m)),
{
    if m.buffer.contains_key(m.pending) {
        assert forall|k: u16| #[trigger]
            read_state(m).buffer.contains_key(k) implies !seq_lt(k, read_state(m).pending) by {
            lemma_seq_lt_advance(m.pending, k);
        }
    }
}

} // verus!
