//! Messages, fragments and the shared framing constants.

use vstd::prelude::*;
use bytes::Bytes;
use crate::payload::bytes_view;
use crate::wrapping_id::MessageId;

verus! {

/// Maximum payload bytes carried by one fragment, chosen so that a
/// serialized fragment fits within the transport's datagram budget.
pub const FRAGMENT_SIZE: usize = 1024;

/// A monotonic clock reading, injected by the caller; the unit is the
/// caller's choice. The channel layer never reads a clock itself.
#[derive(Clone, Copy, PartialEq, Eq, Structural, Debug)]
pub struct Timestamp(pub u64);

/// Error surfaced by the fragment reassembler: a structural violation in an
/// incoming fragment (bad index, size mismatch, inconsistent fragment count).
#[derive(Clone, Copy, PartialEq, Eq, Structural, Debug)]
pub enum ChannelError {
    MalformedFragment,
}

/// An opaque application payload as handled by a channel receiver; only
/// identity and equality matter to the channel layer.
#[derive(Clone, Debug, PartialEq)]
pub struct Message {
    pub bytes: Bytes,
}

impl View for Message {
    type V = Seq<u8>;

    open spec fn view(&self) -> Seq<u8> {
        bytes_view(self.bytes)
    }
}

impl Message {
    pub fn new(bytes: Bytes) -> (r: Message)
        ensures
            r@ == bytes_view(bytes),
    {
        Message { bytes }
    }
}

/// A fully reassembled, or originally single-packet, message.
#[derive(Clone, Debug, PartialEq)]
pub struct SingleData {
    pub id: Option<MessageId>,
    pub bytes: Bytes,
}

impl SingleData {
    pub fn new(id: Option<MessageId>, bytes: Bytes) -> (r: SingleData)
        ensures
            r.id == id,
            bytes_view(r.bytes) == bytes_view(bytes),
    {
        SingleData { id, bytes }
    }
}

/// One fragment of a message larger than a datagram. All fragments of a
/// message share `message_id` and `num_fragments`; every fragment but the
/// last carries exactly [`FRAGMENT_SIZE`] bytes.
#[derive(Clone, Debug)]
pub struct FragmentData {
    pub message_id: MessageId,
    pub fragment_id: u16,
    pub num_fragments: u16,
    pub bytes: Bytes,
}

/// Mathematical image of one fragment.
pub struct FragModel {
    pub message_id: u16,
    pub fragment_id: int,
    pub num_fragments: int,
    pub bytes: Seq<u8>,
}

impl View for FragmentData {
    type V = FragModel;

    open spec fn view(&self) -> FragModel {
        FragModel {
            message_id: self.message_id.0,
            fragment_id: self.fragment_id as int,
            num_fragments: self.num_fragments as int,
            bytes: bytes_view(self.bytes),
        }
    }
}

} // verus!
