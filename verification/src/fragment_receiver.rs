//! Reassembly of fragmented messages.
//!
//! Fragments of oversized messages arrive in any order over an unreliable
//! transport. A [`FragmentConstructor`] rebuilds one message in a dense
//! buffer sized for the worst case and trimmed once the last fragment
//! reveals the true tail length; a [`FragmentReceiver`] keys the in-flight
//! constructors by message identifier, hands the payload out exactly once,
//! on the fragment that completes it, and evicts stale reassemblies on
//! request.

use vstd::prelude::*;
use bytes::Bytes;
use crate::kv::{kv_map, kv_unique, lemma_kv_map_domain, lemma_kv_map_index, lemma_kv_map_len,
    lemma_kv_map_push, lemma_kv_map_remove};
use crate::message::{ChannelError, FragModel, FragmentData, SingleData, Timestamp, FRAGMENT_SIZE};
use crate::payload::{bytes_as_slice, bytes_from_vec, bytes_view};
use crate::wrapping_id::MessageId;

verus! {

/// Number of `true` entries in a sequence of booleans.
pub open spec fn count_true(s: Seq<bool>) -> int
    decreases s.len(),
{
    if s.len() == 0 {
        0
    } else {
        count_true(s.drop_last()) + if s.last() {
            1int
        } else {
            0int
        }
    }
}

proof fn lemma_count_true_bounds(s: Seq<bool>)
    ensures
        0 <= count_true(s) <= s.len(),
    decreases s.len(),
{
    if s.len() > 0 {
        lemma_count_true_bounds(s.drop_last());
    }
}

proof fn lemma_count_true_update(s: Seq<bool>, i: int)
    requires
        0 <= i < s.len(),
        !s[i],
    ensures
        count_true(s.update(i, true)) == count_true(s) + 1,
    decreases s.len(),
{
    if i == s.len() - 1 {
        assert(s.update(i, true).drop_last() =~= s.drop_last());
    } else {
        assert(s.update(i, true).drop_last() =~= s.drop_last().update(i, true));
        lemma_count_true_update(s.drop_last(), i);
    }
}

proof fn lemma_count_true_full(s: Seq<bool>)
    requires
        count_true(s) == s.len(),
    ensures
        forall|i: int| 0 <= i < s.len() ==> s[i],
    decreases s.len(),
{
    if s.len() > 0 {
        lemma_count_true_bounds(s.drop_last());
        lemma_count_true_full(s.drop_last());
        assert forall|i: int| 0 <= i < s.len() implies s[i] by {
            if i < s.len() - 1 {
                assert(s.drop_last()[i]);
            }
        }
    }
}

proof fn lemma_count_true_all(s: Seq<bool>)
    requires
        forall|i: int| 0 <= i < s.len() ==> s[i],
    ensures
        count_true(s) == s.len(),
    decreases s.len(),
{
    if s.len() > 0 {
        lemma_count_true_all(s.drop_last());
    }
}

/// Mathematical image of one in-flight reassembly: the fixed fragment
/// count, the contents of each fragment seen so far, and the time of the
/// most recent arrival.
#[verifier::ext_equal]
pub struct ConstructorModel {
    pub num_fragments: int,
    pub frags: Map<int, Seq<u8>>,
    pub last_received: Option<Timestamp>,
}

/// Structural validity of one fragment against a fragment count `nf`:
/// the index is in range, every fragment but the last carries exactly
/// [`FRAGMENT_SIZE`] bytes, and the last carries between one byte and a
/// full fragment.
pub open spec fn frag_fields_valid(nf: int, fid: int, len: int) -> bool {
    &&& 0 <= fid < nf
    &&& if fid == nf - 1 {
        1 <= len <= FRAGMENT_SIZE
    } else {
        len == FRAGMENT_SIZE
    }
}

/// Structural validity of one fragment on its own.
pub open spec fn frag_valid(f: FragModel) -> bool {
    &&& 2 <= f.num_fragments
    &&& frag_fields_valid(f.num_fragments, f.fragment_id, f.bytes.len() as int)
}

/// Well-formedness of a reassembly model.
pub open spec fn cm_wf(c: ConstructorModel) -> bool {
    &&& 2 <= c.num_fragments
    &&& forall|i: int| #[trigger] c.frags.contains_key(i) ==> frag_fields_valid(
        c.num_fragments,
        i,
        c.frags[i].len() as int,
    )
}

/// The reassembly has seen every fragment.
pub open spec fn cm_complete(c: ConstructorModel) -> bool {
    forall|i: int| 0 <= i < c.num_fragments ==> c.frags.contains_key(i)
}

/// A reassembly that has seen nothing yet.
pub open spec fn fresh_cm(nf: int) -> ConstructorModel {
    ConstructorModel { num_fragments: nf, frags: Map::empty(), last_received: None }
}

/// One arrival: any arrival refreshes the liveness timestamp, even a
/// duplicate; only the first arrival of an index records its bytes.
pub open spec fn accept_cm(
    c: ConstructorModel,
    fid: int,
    content: Seq<u8>,
    now: Option<Timestamp>,
) -> ConstructorModel {
    ConstructorModel {
        num_fragments: c.num_fragments,
        frags: if c.frags.contains_key(fid) {
            c.frags
        } else {
            c.frags.insert(fid, content)
        },
        last_received: now,
    }
}

/// The fragments assembled in index order, up to (excluding) index `k`.
pub open spec fn assemble_upto(frags: Map<int, Seq<u8>>, k: int) -> Seq<u8>
    decreases k,
{
    if k <= 0 {
        Seq::empty()
    } else {
        assemble_upto(frags, k - 1) + frags[k - 1]
    }
}

/// The full payload of a complete reassembly.
pub open spec fn cm_payload(c: ConstructorModel) -> Seq<u8> {
    assemble_upto(c.frags, c.num_fragments)
}

/// Data structure reconstructing a single fragmented message from
/// individual fragments.
#[derive(Debug, Clone)]
pub struct FragmentConstructor {
    num_fragments: usize,
    num_received_fragments: usize,
    received: Vec<bool>,
    bytes: Vec<u8>,
    last_received: Option<Timestamp>,
}

impl FragmentConstructor {
    /// The bytes currently standing for fragment `i` in the working buffer.
    closed spec fn frag_at(self, i: int) -> Seq<u8> {
        let flen = if i == self.num_fragments - 1 {
            self.bytes@.len() - (self.num_fragments - 1) * (FRAGMENT_SIZE as int)
        } else {
            FRAGMENT_SIZE as int
        };
        self.bytes@.subrange(i * (FRAGMENT_SIZE as int), i * (FRAGMENT_SIZE as int) + flen)
    }

    /// Internal invariant: the bitmap matches the counter, and the buffer
    /// is full-size until the last fragment trims it.
    pub closed spec fn wf(self) -> bool {
        &&& 2 <= self.num_fragments
        &&& self.received@.len() == self.num_fragments
        &&& self.num_received_fragments == count_true(self.received@)
        &&& if self.received@[self.num_fragments - 1] {
            (self.num_fragments - 1) * (FRAGMENT_SIZE as int) < self.bytes@.len()
                <= self.num_fragments * (FRAGMENT_SIZE as int)
        } else {
            self.bytes@.len() == self.num_fragments * (FRAGMENT_SIZE as int)
        }
    }
}

impl View for FragmentConstructor {
    type V = ConstructorModel;

    closed spec fn view(&self) -> ConstructorModel {
        ConstructorModel {
            num_fragments: self.num_fragments as int,
            frags: Map::new(
                |i: int| 0 <= i < self.num_fragments && self.received@[i],
                |i: int| self.frag_at(i),
            ),
            last_received: self.last_received,
        }
    }
}

impl FragmentConstructor {
    /// A fresh reassembly for a message of `num_fragments` fragments, with
    /// the working buffer sized for the worst case.
    pub fn new(num_fragments: usize) -> (r: FragmentConstructor)
        requires
            2 <= num_fragments,
            num_fragments * FRAGMENT_SIZE <= usize::MAX,
        ensures
            r.wf(),
            r@ == fresh_cm(num_fragments as int),
    {
        let r = FragmentConstructor {
            num_fragments,
            num_received_fragments: 0,
            received: vec![false; num_fragments],
            bytes: vec![0; num_fragments * FRAGMENT_SIZE],
            last_received: None,
        };
        proof {
            assert(count_true(r.received@) == 0) by {
                lemma_count_true_zero(r.received@);
            }
            assert(r@.frags =~= fresh_cm(num_fragments as int).frags);
            assert(r@ =~= fresh_cm(num_fragments as int));
        }
        r
    }

    /// Record one fragment's bytes; return the whole payload when this
    /// fragment completes the message.
    ///
    /// A structurally invalid fragment is rejected without any change of
    /// state; a duplicate refreshes the liveness timestamp and nothing
    /// else. On completion the payload moves out and the constructor is
    /// spent: the caller removes it.
    pub fn receive_fragment(
        &mut self,
        fragment_index: usize,
        bytes: &[u8],
        received_time: Option<Timestamp>,
    ) -> (r: Result<Option<Bytes>, ChannelError>)
        requires
            old(self).wf(),
        ensures
            ({
                let valid = frag_fields_valid(
                    old(self)@.num_fragments,
                    fragment_index as int,
                    bytes@.len() as int,
                );
                let c1 = accept_cm(old(self)@, fragment_index as int, bytes@, received_time);
                &&& !valid ==> r == Err::<Option<Bytes>, ChannelError>(ChannelError::MalformedFragment)
                    && *final(self) == *old(self)
                &&& valid && !cm_complete(c1) ==> r == Ok::<Option<Bytes>, ChannelError>(None)
                    && final(self).wf() && final(self)@ == c1
                &&& valid && cm_complete(c1) ==> (match r {
                    Ok(Some(p)) => bytes_view(p) == cm_payload(c1),
                    _ => false,
                })
            }),
    {
        let nf = self.num_fragments;
        if fragment_index >= nf {
            return Err(ChannelError::MalformedFragment);
        }
        let is_last = fragment_index == nf - 1;
        if is_last {
            if bytes.len() == 0 || bytes.len() > FRAGMENT_SIZE {
                return Err(ChannelError::MalformedFragment);
            }
        } else {
            if bytes.len() != FRAGMENT_SIZE {
                return Err(ChannelError::MalformedFragment);
            }
        }
        let ghost pre = *old(self);
        let ghost c1 = accept_cm(pre@, fragment_index as int, bytes@, received_time);
        self.last_received = received_time;
        if !self.received[fragment_index] {
            proof {
                lemma_count_true_update(pre.received@, fragment_index as int);
                lemma_count_true_bounds(pre.received@);
                lemma_count_true_bounds(pre.received@.update(fragment_index as int, true));
            }
            self.received[fragment_index] = true;
            self.num_received_fragments = self.num_received_fragments + 1;
            proof {
                let fs = FRAGMENT_SIZE as int;
                let nfi = pre.num_fragments as int;
                if is_last {
                    assert(!pre.received@[nfi - 1]);
                    assert(pre.bytes@.len() == nfi * fs);
                    assert((nfi - 1) * fs + bytes@.len() <= nfi * fs);
                } else {
                    assert(fragment_index as int + 1 <= nfi - 1);
                    if pre.received@[nfi - 1] {
                        assert((fragment_index as int + 1) * fs <= (nfi - 1) * fs);
                    } else {
                        assert((fragment_index as int + 1) * fs <= nfi * fs);
                    }
                }
            }
            let pre_len = self.bytes.len();
            if is_last {
                let new_len = (nf - 1) * FRAGMENT_SIZE + bytes.len();
                self.bytes.truncate(new_len);
            }
            let ghost mid_bytes = self.bytes@;
            let start = fragment_index * FRAGMENT_SIZE;
            let mut k: usize = 0;
            while k < bytes.len()
                invariant
                    0 <= k <= bytes@.len(),
                    start == fragment_index * FRAGMENT_SIZE,
                    start + bytes@.len() <= self.bytes@.len(),
                    self.bytes@.len() <= usize::MAX,
                    self.bytes@.len() == mid_bytes.len(),
                    forall|j: int|
                        0 <= j < self.bytes@.len() && !(start <= j < start + k)
                            ==> self.bytes@[j] == mid_bytes[j],
                    forall|j: int| 0 <= j < k ==> self.bytes@[start + j] == bytes@[j],
                    self.num_fragments == pre.num_fragments,
                    self.num_received_fragments == pre.num_received_fragments + 1,
                    self.received@ == pre.received@.update(fragment_index as int, true),
                    self.last_received == received_time,
                decreases bytes@.len() - k,
            {
                self.bytes[start + k] = bytes[k];
                k += 1;
            }
            proof {
                let fs = FRAGMENT_SIZE as int;
                let nfi = pre.num_fragments as int;
                if is_last {
                    assert(mid_bytes == pre.bytes@.subrange(0, (nfi - 1) * fs + bytes@.len()));
                } else {
                    assert(mid_bytes == pre.bytes@);
                }
                assert forall|j: int|
                    0 <= j < self.bytes@.len() && !(start <= j < start + bytes@.len())
                        implies self.bytes@[j] == pre.bytes@[j] by {
                    assert(self.bytes@[j] == mid_bytes[j]);
                }
                lemma_after_accept(pre, *self, fragment_index as int, bytes@, received_time);
            }
        } else {
            proof {
                assert(pre@.frags.contains_key(fragment_index as int));
                assert(self@.frags =~= c1.frags);
                assert(self@ =~= c1);
            }
        }
        assert(self@ == c1);
        assert(self.wf());
        if self.num_received_fragments == self.num_fragments {
            proof {
                lemma_count_true_full(self.received@);
                assert(cm_complete(c1));
                lemma_assemble_prefix(self, self.num_fragments as int);
                assert(self.bytes@.subrange(0, self.bytes@.len() as int) =~= self.bytes@);
            }
            let mut payload: Vec<u8> = Vec::new();
            core::mem::swap(&mut self.bytes, &mut payload);
            let out = bytes_from_vec(payload);
            return Ok(Some(out));
        }
        proof {
            if cm_complete(c1) {
                lemma_complete_count(*self);
            }
        }
        Ok(None)
    }
}

/// The counter agrees with the cardinality of the set of seen indices.
proof fn lemma_count_true_is_card(s: Seq<bool>)
    ensures
        Set::new(|i: int| 0 <= i < s.len() && s[i]).finite(),
        count_true(s) == Set::new(|i: int| 0 <= i < s.len() && s[i]).len(),
    decreases s.len(),
{
    let full = Set::new(|i: int| 0 <= i < s.len() && s[i]);
    if s.len() == 0 {
        assert(full =~= Set::<int>::empty());
    } else {
        lemma_count_true_is_card(s.drop_last());
        let part = Set::new(|i: int| 0 <= i < s.drop_last().len() && s.drop_last()[i]);
        if s.last() {
            assert(full =~= part.insert(s.len() - 1));
            assert(!part.contains(s.len() - 1));
        } else {
            assert(full =~= part);
        }
    }
}

proof fn lemma_count_true_zero(s: Seq<bool>)
    requires
        forall|i: int| 0 <= i < s.len() ==> !s[i],
    ensures
        count_true(s) == 0,
    decreases s.len(),
{
    if s.len() > 0 {
        lemma_count_true_zero(s.drop_last());
    }
}

/// A complete reassembly has seen as many fragments as there are.
proof fn lemma_complete_count(c: FragmentConstructor)
    requires
        c.wf(),
        cm_complete(c@),
    ensures
        c.num_received_fragments == c.num_fragments,
{
    assert forall|i: int| 0 <= i < c.received@.len() implies c.received@[i] by {
        assert(c@.frags.contains_key(i));
    }
    lemma_count_true_all(c.received@);
}

/// After the in-place update, the constructor's model is exactly the
/// accepted model.
proof fn lemma_after_accept(
    pre: FragmentConstructor,
    post: FragmentConstructor,
    fid: int,
    content: Seq<u8>,
    now: Option<Timestamp>,
)
    requires
        pre.wf(),
        frag_fields_valid(pre@.num_fragments, fid, content.len() as int),
        !pre.received@[fid],
        post.num_fragments == pre.num_fragments,
        post.num_received_fragments == pre.num_received_fragments + 1,
        post.received@ == pre.received@.update(fid, true),
        post.last_received == now,
        post.bytes@.len() == if fid == pre.num_fragments - 1 {
            (pre.num_fragments - 1) * (FRAGMENT_SIZE as int) + content.len()
        } else {
            pre.bytes@.len() as int
        },
        forall|j: int|
            0 <= j < post.bytes@.len() && !(fid * (FRAGMENT_SIZE as int) <= j < fid * (
            FRAGMENT_SIZE as int) + content.len()) ==> post.bytes@[j] == pre.bytes@[j],
        forall|j: int|
            0 <= j < content.len() ==> post.bytes@[fid * (FRAGMENT_SIZE as int) + j] == content[j],
    ensures
        post.wf(),
        post@ == accept_cm(pre@, fid, content, now),
{
    let nf = pre.num_fragments as int;
    let fs = FRAGMENT_SIZE as int;
    lemma_count_true_update(pre.received@, fid);
    assert(post.wf());
    let c1 = accept_cm(pre@, fid, content, now);
    assert(!pre@.frags.contains_key(fid));
    assert(c1.frags == pre@.frags.insert(fid, content));
    assert forall|i: int| post@.frags.contains_key(i) <==> c1.frags.contains_key(i) by {}
    assert(post.frag_at(fid) =~= content);
    assert forall|i: int|
        0 <= i < nf && pre.received@[i] implies post.frag_at(i) =~= pre.frag_at(i) by {
        assert(i != fid);
        if i < nf - 1 {
            assert((i + 1) * fs <= (nf - 1) * fs);
            if fid == nf - 1 {
                assert(post.frag_at(i) =~= pre.frag_at(i));
            } else {
                assert(post.frag_at(i) =~= pre.frag_at(i));
            }
        } else {
            assert(fid < nf - 1);
            assert(post.bytes@.len() == pre.bytes@.len());
            assert(post.frag_at(i) =~= pre.frag_at(i));
        }
    }
    assert(post@.frags =~= c1.frags);
    assert(post@ =~= c1);
}

/// A well-formed constructor's model is well-formed.
proof fn lemma_cm_wf(c: FragmentConstructor)
    requires
        c.wf(),
    ensures
        cm_wf(c@),
{
    let nf = c.num_fragments as int;
    let fs = FRAGMENT_SIZE as int;
    assert forall|i: int| #[trigger] c@.frags.contains_key(i) implies frag_fields_valid(
        nf,
        i,
        c@.frags[i].len() as int,
    ) by {
        if i < nf - 1 {
            assert((i + 1) * fs <= (nf - 1) * fs);
        }
    }
}

/// The outcome of handing one fragment to a receiver in state `m`:
/// rejected as malformed, rejected for an inconsistent fragment count,
/// buffered, or completing its message with the given payload.
pub enum FragmentOutcome {
    Malformed,
    Mismatch,
    Buffered,
    Completed(Seq<u8>),
}

/// Well-formedness of a receiver model: every in-flight reassembly is
/// well-formed.
pub open spec fn rm_wf(m: Map<u16, ConstructorModel>) -> bool {
    forall|k: u16| #[trigger] m.contains_key(k) ==> cm_wf(m[k])
}

/// What one arrival returns, as a function of the receiver state.
///
/// An inconsistent fragment count is detected against the recorded entry;
/// a structurally invalid fragment is rejected; otherwise the fragment is
/// recorded, completing the message when it is the last one missing.
pub open spec fn step_outcome(
    m: Map<u16, ConstructorModel>,
    f: FragModel,
    now: Option<Timestamp>,
) -> FragmentOutcome {
    if m.contains_key(f.message_id) && m[f.message_id].num_fragments != f.num_fragments {
        FragmentOutcome::Mismatch
    } else if !frag_valid(f) {
        FragmentOutcome::Malformed
    } else {
        let c0 = if m.contains_key(f.message_id) {
            m[f.message_id]
        } else {
            fresh_cm(f.num_fragments)
        };
        let c1 = accept_cm(c0, f.fragment_id, f.bytes, now);
        if cm_complete(c1) {
            FragmentOutcome::Completed(cm_payload(c1))
        } else {
            FragmentOutcome::Buffered
        }
    }
}

/// What one arrival does to the receiver state.
///
/// An entry whose recorded fragment count contradicts the arrival cannot
/// be trusted and is dropped; a structurally invalid fragment changes
/// nothing; a completed entry is removed; otherwise the arrival is
/// recorded.
pub open spec fn step_state(
    m: Map<u16, ConstructorModel>,
    f: FragModel,
    now: Option<Timestamp>,
) -> Map<u16, ConstructorModel> {
    if m.contains_key(f.message_id) && m[f.message_id].num_fragments != f.num_fragments {
        m.remove(f.message_id)
    } else if !frag_valid(f) {
        m
    } else {
        let c0 = if m.contains_key(f.message_id) {
            m[f.message_id]
        } else {
            fresh_cm(f.num_fragments)
        };
        let c1 = accept_cm(c0, f.fragment_id, f.bytes, now);
        if cm_complete(c1) {
            m.remove(f.message_id)
        } else {
            m.insert(f.message_id, c1)
        }
    }
}

/// Whether a cleanup with the given cutoff retains an in-flight entry:
/// entries never timestamped are retained, so the absence of a clock
/// cannot cause premature eviction.
pub open spec fn cleanup_keep(c: ConstructorModel, cutoff: Timestamp) -> bool {
    match c.last_received {
        Some(t) => t.0 > cutoff.0,
        None => true,
    }
}

/// The receiver state after a cleanup with the given cutoff.
pub open spec fn cleanup_state(m: Map<u16, ConstructorModel>, cutoff: Timestamp) -> Map<
    u16,
    ConstructorModel,
> {
    Map::new(|k: u16| m.contains_key(k) && cleanup_keep(m[k], cutoff), |k: u16| m[k])
}

/// Reconstructs fragmented messages, keyed by message identifier.
pub struct FragmentReceiver {
    fragment_messages: Vec<(MessageId, FragmentConstructor)>,
}

impl View for FragmentReceiver {
    type V = Map<u16, ConstructorModel>;

    closed spec fn view(&self) -> Map<u16, ConstructorModel> {
        kv_map(self.fragment_messages@)
    }
}

impl FragmentReceiver {
    /// Internal invariant: in-flight keys are unique and every constructor
    /// is well-formed.
    pub closed spec fn wf(self) -> bool {
        &&& kv_unique(self.fragment_messages@)
        &&& forall|i: int|
            0 <= i < self.fragment_messages@.len() ==> (
            #[trigger] self.fragment_messages@[i]).1.wf()
    }

    /// A receiver with no in-flight reassembly.
    pub fn new() -> (r: FragmentReceiver)
        ensures
            r.wf(),
            r@ == Map::<u16, ConstructorModel>::empty(),
    {
        FragmentReceiver { fragment_messages: Vec::new() }
    }

    /// Feed one incoming fragment; the completed payload comes back on the
    /// arrival of the last missing fragment of its message, exactly once.
    ///
    /// A malformed fragment is reported and discarded; the partial state
    /// of its message is retained, except when the fragment contradicts
    /// the fragment count recorded on first sight, in which case the
    /// entry cannot be trusted and is dropped.
    pub fn receive_fragment(
        &mut self,
        fragment: FragmentData,
        current_time: Option<Timestamp>,
    ) -> (r: Result<Option<SingleData>, ChannelError>)
        requires
            old(self).wf(),
        ensures
            final(self).wf(),
            final(self)@ == step_state(old(self)@, fragment@, current_time),
            ({
                let o = step_outcome(old(self)@, fragment@, current_time);
                match r {
                    Err(e) => e == ChannelError::MalformedFragment && (o is Malformed
                        || o is Mismatch),
                    Ok(out) => match out {
                        None => o is Buffered,
                        Some(s) => o is Completed && s.id == Some(fragment.message_id)
                            && bytes_view(s.bytes) == o->Completed_0,
                    },
                }
            }),
    {
        let ghost m0 = kv_map(old(self).fragment_messages@);
        let n = self.fragment_messages.len();
        let mut i: usize = 0;
        let mut found: Option<usize> = None;
        while i < n
            invariant
                n == self.fragment_messages@.len(),
                0 <= i <= n,
                match found {
                    Some(j) => j < i && self.fragment_messages@[j as int].0.0
                        == fragment.message_id.0,
                    None => forall|j: int|
                        0 <= j < i ==> (#[trigger] self.fragment_messages@[j]).0.0
                            != fragment.message_id.0,
                },
            decreases n - i,
        {
            if found.is_none() && self.fragment_messages[i].0.0 == fragment.message_id.0 {
                found = Some(i);
            }
            i += 1;
        }
        proof {
            lemma_kv_map_domain(self.fragment_messages@);
        }
        match found {
            Some(j) => {
                proof {
                    lemma_kv_map_index(self.fragment_messages@, j as int);
                    lemma_kv_map_remove(self.fragment_messages@, j as int);
                    old(self).fragment_messages@.remove_ensures(j as int);
                }
                let ghost pre_seq = self.fragment_messages@;
                let (key, mut c) = self.fragment_messages.remove(j);
                let ghost c_pre = c;
                proof {
                    assert(m0.contains_key(fragment.message_id.0));
                    assert(m0[fragment.message_id.0] == c@);
                    assert(kv_map(self.fragment_messages@) == m0.remove(fragment.message_id.0));
                    assert forall|q: int|
                        0 <= q < self.fragment_messages@.len() implies (
                    #[trigger] self.fragment_messages@[q]).1.wf() by {
                        if q < j {
                            assert(self.fragment_messages@[q] == pre_seq[q]);
                        } else {
                            assert(self.fragment_messages@[q] == pre_seq[q + 1]);
                        }
                    }
                }
                if c.num_fragments != fragment.num_fragments as usize {
                    return Err(ChannelError::MalformedFragment);
                }
                let slice = bytes_as_slice(&fragment.bytes);
                let res = c.receive_fragment(fragment.fragment_id as usize, slice, current_time);
                let ghost c1 = accept_cm(c_pre@, fragment@.fragment_id, fragment@.bytes,
                    current_time);
                match res {
                    Err(e) => {
                        proof {
                            lemma_kv_map_push(self.fragment_messages@, key, c);
                        }
                        self.fragment_messages.push((key, c));
                        proof {
                            assert(kv_map(self.fragment_messages@) =~= m0);
                        }
                        Err(e)
                    },
                    Ok(None) => {
                        proof {
                            lemma_kv_map_push(self.fragment_messages@, key, c);
                        }
                        self.fragment_messages.push((key, c));
                        proof {
                            assert(kv_map(self.fragment_messages@) =~= m0.insert(
                                fragment.message_id.0,
                                c1,
                            ));
                        }
                        Ok(None)
                    },
                    Ok(Some(payload)) => {
                        Ok(Some(SingleData::new(Some(fragment.message_id), payload)))
                    },
                }
            },
            None => {
                proof {
                    assert(!m0.contains_key(fragment.message_id.0));
                }
                if fragment.num_fragments < 2 {
                    return Err(ChannelError::MalformedFragment);
                }
                proof {
                    assert(fragment.num_fragments as usize * FRAGMENT_SIZE <= 0xffff * 1024);
                }
                let mut c = FragmentConstructor::new(fragment.num_fragments as usize);
                let slice = bytes_as_slice(&fragment.bytes);
                let res = c.receive_fragment(fragment.fragment_id as usize, slice, current_time);
                let ghost c1 = accept_cm(fresh_cm(fragment@.num_fragments), fragment@.fragment_id,
                    fragment@.bytes, current_time);
                match res {
                    Err(e) => Err(e),
                    Ok(None) => {
                        proof {
                            lemma_kv_map_push(self.fragment_messages@, fragment.message_id, c);
                        }
                        self.fragment_messages.push((fragment.message_id, c));
                        proof {
                            assert(kv_map(self.fragment_messages@) == m0.insert(
                                fragment.message_id.0,
                                c1,
                            ));
                        }
                        Ok(None)
                    },
                    Ok(Some(_payload)) => {
                        proof {
                            let other: int = if fragment@.fragment_id == 0 {
                                1
                            } else {
                                0
                            };
                            assert(!c1.frags.contains_key(other));
                            assert(!cm_complete(c1));
                            assert(false);
                        }
                        Err(ChannelError::MalformedFragment)
                    },
                }
            },
        }
    }

    /// Number of messages currently being reassembled.
    pub fn num_in_flight(&self) -> (r: usize)
        requires
            self.wf(),
        ensures
            r == self@.dom().len(),
    {
        proof {
            lemma_kv_map_len(self.fragment_messages@);
        }
        self.fragment_messages.len()
    }

    /// Whether a reassembly is in flight for the given identifier.
    pub fn is_in_flight(&self, message_id: MessageId) -> (r: bool)
        requires
            self.wf(),
        ensures
            r == self@.contains_key(message_id.0),
    {
        proof {
            lemma_kv_map_domain(self.fragment_messages@);
        }
        let n = self.fragment_messages.len();
        let mut i: usize = 0;
        while i < n
            invariant
                n == self.fragment_messages@.len(),
                0 <= i <= n,
                forall|j: int|
                    0 <= j < i ==> (#[trigger] self.fragment_messages@[j]).0.0
                        != message_id.0,
                forall|k: u16|
                    kv_map(self.fragment_messages@).contains_key(k) <==> (exists|q: int|
                        0 <= q < self.fragment_messages@.len()
                            && #[trigger] self.fragment_messages@[q].0.0 == k),
                self@ == kv_map(self.fragment_messages@),
            decreases n - i,
        {
            if self.fragment_messages[i].0.0 == message_id.0 {
                return true;
            }
            i += 1;
        }
        false
    }

    /// How many distinct fragments of the given message have been seen,
    /// if it is in flight.
    pub fn num_received_fragments(&self, message_id: MessageId) -> (r: Option<usize>)
        requires
            self.wf(),
        ensures
            match r {
                Some(c) => self@.contains_key(message_id.0) && c
                    == self@[message_id.0].frags.dom().len(),
                None => !self@.contains_key(message_id.0),
            },
    {
        proof {
            lemma_kv_map_domain(self.fragment_messages@);
        }
        let n = self.fragment_messages.len();
        let mut i: usize = 0;
        while i < n
            invariant
                self.wf(),
                n == self.fragment_messages@.len(),
                0 <= i <= n,
                forall|j: int|
                    0 <= j < i ==> (#[trigger] self.fragment_messages@[j]).0.0
                        != message_id.0,
                forall|k: u16|
                    kv_map(self.fragment_messages@).contains_key(k) <==> (exists|q: int|
                        0 <= q < self.fragment_messages@.len()
                            && #[trigger] self.fragment_messages@[q].0.0 == k),
                self@ == kv_map(self.fragment_messages@),
            decreases n - i,
        {
            if self.fragment_messages[i].0.0 == message_id.0 {
                proof {
                    lemma_kv_map_index(self.fragment_messages@, i as int);
                    let c = self.fragment_messages@[i as int].1;
                    lemma_count_true_is_card(c.received@);
                    assert(c@.frags.dom() =~= Set::new(
                        |q: int| 0 <= q < c.received@.len() && c.received@[q],
                    ));
                }
                return Some(self.fragment_messages[i].1.num_received_fragments);
            }
            i += 1;
        }
        None
    }

    /// Discard every in-flight reassembly whose most recent arrival is at
    /// or before the cutoff; entries that never saw a timestamp stay.
    pub fn cleanup(&mut self, cleanup_time: Timestamp)
        requires
            old(self).wf(),
        ensures
            final(self).wf(),
            final(self)@ == cleanup_state(old(self)@, cleanup_time),
    {
        let mut i: usize = 0;
        while i < self.fragment_messages.len()
            invariant
                self.wf(),
                0 <= i <= self.fragment_messages@.len(),
                forall|j: int|
                    0 <= j < i ==> cleanup_keep(
                        (#[trigger] self.fragment_messages@[j]).1@,
                        cleanup_time,
                    ),
                cleanup_state(kv_map(self.fragment_messages@), cleanup_time) == cleanup_state(
                    old(self)@,
                    cleanup_time,
                ),
            decreases self.fragment_messages@.len() - i,
        {
            let keep = match self.fragment_messages[i].1.last_received {
                Some(t) => t.0 > cleanup_time.0,
                None => true,
            };
            if keep {
                i += 1;
            } else {
                proof {
                    lemma_kv_map_index(self.fragment_messages@, i as int);
                    lemma_kv_map_remove(self.fragment_messages@, i as int);
                    self.fragment_messages@.remove_ensures(i as int);
                }
                let ghost pre_seq = self.fragment_messages@;
                let ghost dropped = self.fragment_messages@[i as int].0.0;
                self.fragment_messages.remove(i);
                proof {
                    assert forall|q: int|
                        0 <= q < self.fragment_messages@.len() implies (
                    #[trigger] self.fragment_messages@[q]).1.wf() by {
                        if q < i {
                            assert(self.fragment_messages@[q] == pre_seq[q]);
                        } else {
                            assert(self.fragment_messages@[q] == pre_seq[q + 1]);
                        }
                    }
                    assert forall|q: int| 0 <= q < i implies cleanup_keep(
                        (#[trigger] self.fragment_messages@[q]).1@,
                        cleanup_time,
                    ) by {
                        assert(self.fragment_messages@[q] == pre_seq[q]);
                    }
                    assert(cleanup_state(kv_map(self.fragment_messages@), cleanup_time)
                        =~= cleanup_state(kv_map(pre_seq), cleanup_time));
                }
            }
        }
        proof {
            lemma_kv_map_domain(self.fragment_messages@);
            assert forall|k: u16| #[trigger]
                kv_map(self.fragment_messages@).contains_key(k) implies cleanup_keep(
                kv_map(self.fragment_messages@)[k],
                cleanup_time,
            ) by {
                let q = choose|q: int|
                    0 <= q < self.fragment_messages@.len() && #[trigger] self.fragment_messages@[q].0.0
                        == k;
                lemma_kv_map_index(self.fragment_messages@, q);
            }
            assert(cleanup_state(kv_map(self.fragment_messages@), cleanup_time) =~= kv_map(
                self.fragment_messages@,
            ));
        }
    }
}

/// No leakage at completion: the arrival that completes a message leaves
/// no in-flight entry for its identifier.
pub proof fn lemma_no_leakage_completion(
    m: Map<u16, ConstructorModel>,
    f: FragModel,
    now: Option<Timestamp>,
)
    ensures
        step_outcome(m, f, now) is Completed ==> !step_state(m, f, now).contains_key(
            f.message_id,
        ),
{
}

/// No leakage at eviction: a cleanup that evicts a message leaves no
/// in-flight entry for its identifier.
pub proof fn lemma_no_leakage_cleanup(m: Map<u16, ConstructorModel>, cutoff: Timestamp, k: u16)
    requires
        m.contains_key(k),
        !cleanup_keep(m[k], cutoff),
    ensures
        !cleanup_state(m, cutoff).contains_key(k),
{
}

/// Idempotent fragments: feeding the same fragment again right away
/// yields the same output as feeding it once — the repeat never returns a
/// completion, and where the first arrival merely buffered, the repeat
/// changes nothing. A fragment whose count contradicts the recorded entry
/// is excluded: there the first arrival already drops the entry.
pub proof fn lemma_idempotent_fragment(
    m: Map<u16, ConstructorModel>,
    f: FragModel,
    now: Option<Timestamp>,
)
    requires
        m.contains_key(f.message_id) ==> m[f.message_id].num_fragments == f.num_fragments,
    ensures
        ({
            let m1 = step_state(m, f, now);
            let o1 = step_outcome(m, f, now);
            let o2 = step_outcome(m1, f, now);
            &&& o1 is Malformed ==> o2 is Malformed && m1 == m
            &&& o1 is Buffered ==> o2 is Buffered && step_state(m1, f, now) == m1
            &&& o1 is Completed ==> o2 is Buffered
        }),
{
    let mid = f.message_id;
    let m1 = step_state(m, f, now);
    if !(m.contains_key(mid) && m[mid].num_fragments != f.num_fragments) && frag_valid(f) {
        let c0 = if m.contains_key(mid) {
            m[mid]
        } else {
            fresh_cm(f.num_fragments)
        };
        let c1 = accept_cm(c0, f.fragment_id, f.bytes, now);
        if cm_complete(c1) {
            assert(!m1.contains_key(mid));
            let c1b = accept_cm(fresh_cm(f.num_fragments), f.fragment_id, f.bytes, now);
            let other: int = if f.fragment_id == 0 {
                1
            } else {
                0
            };
            assert(!c1b.frags.contains_key(other));
            assert(!cm_complete(c1b));
        } else {
            assert(m1.contains_key(mid) && m1[mid] == c1);
            let c2 = accept_cm(c1, f.fragment_id, f.bytes, now);
            assert(c1.frags.contains_key(f.fragment_id));
            assert(c2 =~= c1);
            assert(m1.insert(mid, c2) =~= m1);
        }
    }
}

/// The bytes the sender puts into fragment `i` when splitting a payload
/// into `nf` fragments: full slices of [`FRAGMENT_SIZE`] bytes, with the
/// remainder in the last fragment.
pub open spec fn sender_fragment(payload: Seq<u8>, nf: int, i: int) -> Seq<u8> {
    if i == nf - 1 {
        payload.subrange(i * (FRAGMENT_SIZE as int), payload.len() as int)
    } else {
        payload.subrange(i * (FRAGMENT_SIZE as int), (i + 1) * (FRAGMENT_SIZE as int))
    }
}

/// Fragment `i` of a split payload, as it reaches the receiver.
pub open spec fn sender_frag_model(mid: u16, payload: Seq<u8>, nf: int, i: int) -> FragModel {
    FragModel {
        message_id: mid,
        fragment_id: i,
        num_fragments: nf,
        bytes: sender_fragment(payload, nf, i),
    }
}

/// The receiver state after feeding the fragments of one split payload in
/// the order given by `idxs`.
pub open spec fn feed_state(
    m: Map<u16, ConstructorModel>,
    mid: u16,
    payload: Seq<u8>,
    nf: int,
    idxs: Seq<int>,
    now: Option<Timestamp>,
) -> Map<u16, ConstructorModel>
    decreases idxs.len(),
{
    if idxs.len() == 0 {
        m
    } else {
        step_state(
            feed_state(m, mid, payload, nf, idxs.drop_last(), now),
            sender_frag_model(mid, payload, nf, idxs.last()),
            now,
        )
    }
}

/// The reassembly holding exactly the fragments whose indices occur in
/// `seen`.
spec fn partial_cm(payload: Seq<u8>, nf: int, seen: Seq<int>, now: Option<Timestamp>)
    -> ConstructorModel {
    ConstructorModel {
        num_fragments: nf,
        frags: Map::new(|i: int| seen.contains(i), |i: int| sender_fragment(payload, nf, i)),
        last_received: now,
    }
}

/// Splitting admits exactly the payload lengths whose tail fragment is
/// non-empty and at most full.
spec fn split_ok(payload: Seq<u8>, nf: int) -> bool {
    &&& 2 <= nf
    &&& (nf - 1) * (FRAGMENT_SIZE as int) < payload.len() <= nf * (FRAGMENT_SIZE as int)
}

proof fn lemma_sender_fragment_len(payload: Seq<u8>, nf: int, i: int)
    requires
        split_ok(payload, nf),
        0 <= i < nf,
    ensures
        sender_fragment(payload, nf, i).len() == if i == nf - 1 {
            payload.len() - (nf - 1) * (FRAGMENT_SIZE as int)
        } else {
            FRAGMENT_SIZE as int
        },
        frag_fields_valid(nf, i, sender_fragment(payload, nf, i).len() as int),
{
    let fs = FRAGMENT_SIZE as int;
    if i < nf - 1 {
        assert((i + 1) * fs <= (nf - 1) * fs);
    }
}

/// After feeding a strict prefix of the fragment order, the receiver
/// holds exactly the fragments fed so far, each arrival was buffered, and
/// the rest of the state is untouched.
proof fn lemma_feed_prefix(
    m: Map<u16, ConstructorModel>,
    mid: u16,
    payload: Seq<u8>,
    nf: int,
    idxs: Seq<int>,
    now: Option<Timestamp>,
    k: int,
)
    requires
        !m.contains_key(mid),
        split_ok(payload, nf),
        idxs.no_duplicates(),
        idxs.len() == nf,
        forall|j: int| 0 <= j < idxs.len() ==> 0 <= #[trigger] idxs[j] < nf,
        0 <= k < nf,
    ensures
        feed_state(m, mid, payload, nf, idxs.take(k), now) == if k == 0 {
            m
        } else {
            m.insert(mid, partial_cm(payload, nf, idxs.take(k), now))
        },
        k >= 1 ==> step_outcome(
            feed_state(m, mid, payload, nf, idxs.take(k - 1), now),
            sender_frag_model(mid, payload, nf, idxs[k - 1]),
            now,
        ) is Buffered,
    decreases k,
{
    let fs = FRAGMENT_SIZE as int;
    if k == 0 {
        assert(idxs.take(0).len() == 0);
    } else {
        lemma_feed_prefix(m, mid, payload, nf, idxs, now, k - 1);
        let prev = feed_state(m, mid, payload, nf, idxs.take(k - 1), now);
        let fid = idxs[k - 1];
        let f = sender_frag_model(mid, payload, nf, fid);
        assert(idxs.take(k).drop_last() =~= idxs.take(k - 1));
        assert(idxs.take(k).last() == fid);
        assert(feed_state(m, mid, payload, nf, idxs.take(k), now) == step_state(prev, f, now));
        lemma_sender_fragment_len(payload, nf, fid);
        assert(frag_valid(f));
        let c0 = if prev.contains_key(mid) {
            prev[mid]
        } else {
            fresh_cm(nf)
        };
        assert(c0.num_fragments == nf);
        assert(!idxs.take(k - 1).contains(fid)) by {
            if idxs.take(k - 1).contains(fid) {
                let q = choose|q: int| 0 <= q < k - 1 && #[trigger] idxs.take(k - 1)[q] == fid;
                assert(idxs[q] == idxs[k - 1]);
            }
        }
        assert(!c0.frags.contains_key(fid));
        let c1 = accept_cm(c0, fid, f.bytes, now);
        assert(c1.frags =~= partial_cm(payload, nf, idxs.take(k), now).frags) by {
            assert forall|i: int| #[trigger] idxs.take(k).contains(i) implies (idxs.take(
                k - 1,
            ).contains(i) || i == fid) by {
                let q = choose|q: int| 0 <= q < k && #[trigger] idxs.take(k)[q] == i;
                if q < k - 1 {
                    assert(idxs.take(k - 1)[q] == i);
                }
            }
            assert forall|i: int| idxs.take(k - 1).contains(i) implies #[trigger] idxs.take(
                k,
            ).contains(i) by {
                let q = choose|q: int| 0 <= q < k - 1 && #[trigger] idxs.take(k - 1)[q] == i;
                assert(idxs.take(k)[q] == i);
            }
            assert(idxs.take(k)[k - 1] == fid);
        }
        assert(c1 =~= partial_cm(payload, nf, idxs.take(k), now));
        // fewer than `nf` distinct fragments never complete the message
        assert(!cm_complete(c1)) by {
            let seen = idxs.take(k);
            assert(seen.no_duplicates()) by {
                assert forall|p: int, q: int|
                    0 <= p < q < seen.len() implies seen[p] != seen[q] by {
                    assert(seen[p] == idxs[p]);
                    assert(seen[q] == idxs[q]);
                }
            }
            seen.unique_seq_to_set();
            vstd::seq_lib::seq_to_set_is_finite::<int>(seen);
            let dom = c1.frags.dom();
            assert(dom =~= seen.to_set());
            if cm_complete(c1) {
                let range = vstd::set_lib::set_int_range(0, nf);
                vstd::set_lib::lemma_int_range(0, nf);
                assert forall|x: int| #[trigger] dom.contains(x) implies range.contains(x) by {
                    assert(seen.contains(x));
                    let q = choose|q: int| 0 <= q < seen.len() && #[trigger] seen[q] == x;
                    assert(idxs[q] == x);
                }
                assert forall|x: int| #[trigger] range.contains(x) implies dom.contains(x) by {
                    assert(c1.frags.contains_key(x));
                }
                assert(dom =~= range);
                assert(dom.len() == nf);
                assert(seen.to_set().len() == k);
                assert(false);
            }
        }
        assert(step_state(prev, f, now) == prev.insert(mid, c1));
        if k - 1 > 0 {
            assert(m.insert(mid, partial_cm(payload, nf, idxs.take(k - 1), now)).insert(mid, c1)
                =~= m.insert(mid, c1));
        }
    }
}

/// Each fragment of a split payload holds its slice of the payload, so
/// assembling all of them in index order rebuilds the payload's prefix.
proof fn lemma_assemble_sender(payload: Seq<u8>, nf: int, frags: Map<int, Seq<u8>>, k: int)
    requires
        split_ok(payload, nf),
        forall|i: int|
            0 <= i < nf ==> #[trigger] frags.contains_key(i) && frags[i] == sender_fragment(
                payload,
                nf,
                i,
            ),
        0 <= k <= nf,
    ensures
        assemble_upto(frags, k) == payload.subrange(
            0,
            if k == nf {
                payload.len() as int
            } else {
                k * (FRAGMENT_SIZE as int)
            },
        ),
    decreases k,
{
    let fs = FRAGMENT_SIZE as int;
    if k > 0 {
        lemma_assemble_sender(payload, nf, frags, k - 1);
        let end_prev = (k - 1) * fs;
        let end_k = if k == nf {
            payload.len() as int
        } else {
            k * fs
        };
        if k < nf {
            assert(k * fs <= (nf - 1) * fs);
        }
        assert(frags.contains_key(k - 1));
        assert(frags[k - 1] == sender_fragment(payload, nf, k - 1));
        assert(payload.subrange(0, end_k) =~= payload.subrange(0, end_prev) + payload.subrange(
            end_prev,
            end_k,
        ));
    } else {
        assert(payload.subrange(0, 0) =~= Seq::<u8>::empty());
    }
}

/// A sequence of `nf` distinct indices drawn from `[0, nf)` covers every
/// index: the pigeonhole argument.
proof fn lemma_indices_cover(idxs: Seq<int>, nf: int)
    requires
        idxs.no_duplicates(),
        idxs.len() == nf,
        forall|j: int| 0 <= j < idxs.len() ==> 0 <= #[trigger] idxs[j] < nf,
    ensures
        forall|i: int| 0 <= i < nf ==> idxs.contains(i),
{
    idxs.unique_seq_to_set();
    vstd::seq_lib::seq_to_set_is_finite::<int>(idxs);
    let dom0 = idxs.to_set();
    let range = vstd::set_lib::set_int_range(0, nf);
    vstd::set_lib::lemma_int_range(0, nf);
    assert(dom0.subset_of(range)) by {
        assert forall|x: int| #[trigger] dom0.contains(x) implies range.contains(x) by {
            let q = choose|q: int| 0 <= q < idxs.len() && #[trigger] idxs[q] == x;
        }
    }
    assert forall|i: int| 0 <= i < nf implies idxs.contains(i) by {
        if !dom0.contains(i) {
            assert(dom0.subset_of(range.remove(i)));
            vstd::set_lib::lemma_len_subset(dom0, range.remove(i));
            assert(range.remove(i).len() == nf - 1);
            assert(false);
        }
    }
}

/// The final arrival of a split payload's fragment order completes the
/// message with the original payload and leaves no in-flight entry.
#[verifier::rlimit(100)]
proof fn lemma_final_completion(
    m: Map<u16, ConstructorModel>,
    mid: u16,
    payload: Seq<u8>,
    nf: int,
    idxs: Seq<int>,
    now: Option<Timestamp>,
)
    requires
        !m.contains_key(mid),
        split_ok(payload, nf),
        idxs.no_duplicates(),
        idxs.len() == nf,
        forall|j: int| 0 <= j < idxs.len() ==> 0 <= #[trigger] idxs[j] < nf,
    ensures
        step_outcome(
            feed_state(m, mid, payload, nf, idxs.take(nf - 1), now),
            sender_frag_model(mid, payload, nf, idxs[nf - 1]),
            now,
        ) == FragmentOutcome::Completed(payload),
        feed_state(m, mid, payload, nf, idxs, now) == m,
{
    lemma_feed_prefix(m, mid, payload, nf, idxs, now, nf - 1);
    let prev = feed_state(m, mid, payload, nf, idxs.take(nf - 1), now);
    let fid = idxs[nf - 1];
    let f = sender_frag_model(mid, payload, nf, fid);
    lemma_sender_fragment_len(payload, nf, fid);
    assert(frag_valid(f));
    assert(prev == m.insert(mid, partial_cm(payload, nf, idxs.take(nf - 1), now)));
    let c0 = prev[mid];
    assert(c0.num_fragments == nf);
    assert(!idxs.take(nf - 1).contains(fid)) by {
        if idxs.take(nf - 1).contains(fid) {
            let q = choose|q: int| 0 <= q < nf - 1 && #[trigger] idxs.take(nf - 1)[q] == fid;
            assert(idxs[q] == idxs[nf - 1]);
        }
    }
    assert(!c0.frags.contains_key(fid));
    let c1 = accept_cm(c0, fid, f.bytes, now);
    lemma_indices_cover(idxs, nf);
    assert forall|i: int| 0 <= i < nf implies #[trigger] c1.frags.contains_key(i) && c1.frags[i]
        == sender_fragment(payload, nf, i) by {
        if i != fid {
            assert(idxs.contains(i));
            let q = choose|q: int| 0 <= q < idxs.len() && #[trigger] idxs[q] == i;
            assert(q != nf - 1);
            assert(idxs.take(nf - 1)[q] == i);
            assert(idxs.take(nf - 1).contains(i));
            assert(c0.frags.contains_key(i));
        }
    }
    assert(cm_complete(c1));
    lemma_assemble_sender(payload, nf, c1.frags, nf);
    assert(payload.subrange(0, payload.len() as int) =~= payload);
    assert(cm_payload(c1) == payload);
    assert(step_outcome(prev, f, now) == FragmentOutcome::Completed(payload));
    assert(idxs.drop_last() =~= idxs.take(nf - 1));
    assert(idxs.last() == fid);
    assert(feed_state(m, mid, payload, nf, idxs, now) == step_state(prev, f, now));
    assert(step_state(prev, f, now) == prev.remove(mid));
    assert(prev.remove(mid) =~= m);
}

/// Order-independent reassembly: feed the fragments of one split payload
/// in any order whatsoever; every arrival before the last is merely
/// buffered, the final arrival returns the complete original payload,
/// exactly once, and no in-flight entry remains afterwards.
pub proof fn lemma_order_independent_reassembly(
    m: Map<u16, ConstructorModel>,
    mid: u16,
    payload: Seq<u8>,
    nf: int,
    idxs: Seq<int>,
    now: Option<Timestamp>,
)
    requires
        !m.contains_key(mid),
        2 <= nf,
        (nf - 1) * (FRAGMENT_SIZE as int) < payload.len() <= nf * (FRAGMENT_SIZE as int),
        idxs.no_duplicates(),
        idxs.len() == nf,
        forall|j: int| 0 <= j < idxs.len() ==> 0 <= #[trigger] idxs[j] < nf,
    ensures
        forall|j: int|
            0 <= j < nf - 1 ==> step_outcome(
                feed_state(m, mid, payload, nf, idxs.take(j), now),
                sender_frag_model(mid, payload, nf, idxs[j]),
                now,
            ) is Buffered,
        step_outcome(
            feed_state(m, mid, payload, nf, idxs.take(nf - 1), now),
            sender_frag_model(mid, payload, nf, idxs[nf - 1]),
            now,
        ) == FragmentOutcome::Completed(payload),
        feed_state(m, mid, payload, nf, idxs, now) == m,
{
    assert forall|j: int| 0 <= j < nf - 1 implies step_outcome(
        feed_state(m, mid, payload, nf, idxs.take(j), now),
        sender_frag_model(mid, payload, nf, idxs[j]),
        now,
    ) is Buffered by {
        lemma_feed_prefix(m, mid, payload, nf, idxs, now, j + 1);
    }
    lemma_final_completion(m, mid, payload, nf, idxs, now);
}

/// A well-formed receiver's model is well-formed.
pub proof fn lemma_receiver_models_wf(r: FragmentReceiver)
    requires
        r.wf(),
    ensures
        rm_wf(r@),
{
    lemma_kv_map_domain(r.fragment_messages@);
    assert forall|k: u16| #[trigger] r@.contains_key(k) implies cm_wf(r@[k]) by {
        let q = choose|q: int|
            0 <= q < r.fragment_messages@.len() && #[trigger] r.fragment_messages@[q].0.0 == k;
        lemma_kv_map_index(r.fragment_messages@, q);
        lemma_cm_wf(r.fragment_messages@[q].1);
    }
}

/// In a fully received constructor, the assembled prefix of the model is
/// the prefix of the working buffer.
proof fn lemma_assemble_prefix(c: &FragmentConstructor, k: int)
    requires
        c.wf(),
        forall|i: int| 0 <= i < c.num_fragments ==> c.received@[i],
        0 <= k <= c.num_fragments,
    ensures
        assemble_upto(c@.frags, k) == c.bytes@.subrange(
            0,
            if k == c.num_fragments as int {
                c.bytes@.len() as int
            } else {
                k * (FRAGMENT_SIZE as int)
            },
        ),
    decreases k,
{
    let nf = c.num_fragments as int;
    let fs = FRAGMENT_SIZE as int;
    if k > 0 {
        lemma_assemble_prefix(c, k - 1);
        let end_prev = (k - 1) * fs;
        let end_k = if k == nf {
            c.bytes@.len() as int
        } else {
            k * fs
        };
        assert(c@.frags.contains_key(k - 1));
        assert(c@.frags[k - 1] == c.frag_at(k - 1));
        assert(c.frag_at(k - 1) =~= c.bytes@.subrange(end_prev, end_k));
        assert(c.bytes@.subrange(0, end_k) =~= c.bytes@.subrange(0, end_prev) + c.bytes@.subrange(
            end_prev,
            end_k,
        ));
    } else {
        assert(c.bytes@.subrange(0, 0) =~= Seq::<u8>::empty());
    }
}

} // verus!
