//! Per-component history of server-confirmed values, and the decisions
//! that route a server update to it.
//!
//! An interpolated entity keeps the values the server confirmed for one
//! component, keyed by tick, so the interpolation driver can look back at
//! them. Updates arrive with monotonically increasing ticks; the history
//! only ever stores the ticks where the component changed, so consumers
//! drain it up to a tick while always leaving the last drained value
//! available.

use vstd::prelude::*;

verus! {

/// A simulation tick index, as carried by server updates.
#[derive(Clone, Copy, PartialEq, Eq, Structural, Debug, Hash)]
pub struct Tick(pub u16);

/// How a synchronized component follows the server's state.
#[derive(Clone, Copy, PartialEq, Eq, Structural, Debug)]
pub enum ComponentSyncMode {
    /// Keep a full per-tick history for interpolation.
    Full,
    /// Mirror the confirmed value directly.
    Simple,
    /// Copy the value once, on spawn, and never again.
    Once,
}

/// What to do with one confirmed server update for an interpolated entity.
#[derive(Clone, Copy, PartialEq, Eq, Structural, Debug)]
pub enum ConfirmedUpdateAction {
    /// Record the confirmed value in the entity's history.
    RecordInHistory,
    /// The entity should have a history but has none: report it.
    ReportMissingHistory,
    /// Overwrite the interpolated component with the confirmed value.
    OverwriteComponent,
    /// Leave the interpolated component alone.
    Ignore,
}

/// What to insert on an interpolated entity when its confirmed component
/// first appears.
#[derive(Clone, Copy, PartialEq, Eq, Structural, Debug)]
pub enum InitialInsertAction {
    /// Insert the component together with a fresh history and an
    /// interpolation status.
    InsertWithHistory,
    /// Insert a plain copy of the component.
    CopyComponentOnly,
}

/// Decide how a confirmed server update is applied, from the component's
/// sync mode and whether the entity already carries a history.
pub fn confirmed_update_action(mode: ComponentSyncMode, has_history: bool) -> (r:
    ConfirmedUpdateAction)
    ensures
        r == (match mode {
            ComponentSyncMode::Full => if has_history {
                ConfirmedUpdateAction::RecordInHistory
            } else {
                ConfirmedUpdateAction::ReportMissingHistory
            },
            ComponentSyncMode::Simple => ConfirmedUpdateAction::OverwriteComponent,
            ComponentSyncMode::Once => ConfirmedUpdateAction::Ignore,
        }),
{
    match mode {
        ComponentSyncMode::Full => if has_history {
            ConfirmedUpdateAction::RecordInHistory
        } else {
            ConfirmedUpdateAction::ReportMissingHistory
        },
        ComponentSyncMode::Simple => ConfirmedUpdateAction::OverwriteComponent,
        ComponentSyncMode::Once => ConfirmedUpdateAction::Ignore,
    }
}

/// Decide what to insert when a confirmed component first appears on an
/// interpolated entity: only fully synchronized components get a history.
pub fn initial_insert_action(mode: ComponentSyncMode) -> (r: InitialInsertAction)
    ensures
        r == (match mode {
            ComponentSyncMode::Full => InitialInsertAction::InsertWithHistory,
            _ => InitialInsertAction::CopyComponentOnly,
        }),
{
    match mode {
        ComponentSyncMode::Full => InitialInsertAction::InsertWithHistory,
        _ => InitialInsertAction::CopyComponentOnly,
    }
}

/// How many leading entries of `s` carry a tick at or below `t`.
pub open spec fn ready_count<T>(s: Seq<(Tick, T)>, t: u16) -> int
    decreases s.len(),
{
    if s.len() == 0 || s[0].0.0 > t {
        0
    } else {
        1 + ready_count(s.skip(1), t)
    }
}

/// Where a tick `t` belongs in the sorted history `s`.
pub open spec fn insert_pos<T>(s: Seq<(Tick, T)>, t: u16) -> int
    decreases s.len(),
{
    if s.len() == 0 || s[0].0.0 >= t {
        0
    } else {
        1 + insert_pos(s.skip(1), t)
    }
}

/// The sorted history `s` with the value at tick `t` set to `item`.
pub open spec fn hist_insert<T>(s: Seq<(Tick, T)>, t: u16, item: T) -> Seq<(Tick, T)> {
    let p = insert_pos(s, t);
    if p < s.len() && s[p].0.0 == t {
        s.update(p, (Tick(t), item))
    } else {
        s.insert(p, (Tick(t), item))
    }
}

/// The values the server confirmed for one component of one entity,
/// ordered by strictly increasing tick.
#[derive(Debug)]
pub struct ConfirmedHistory<T> {
    buffer: Vec<(Tick, T)>,
}

impl<T> View for ConfirmedHistory<T> {
    type V = Seq<(Tick, T)>;

    closed spec fn view(&self) -> Seq<(Tick, T)> {
        self.buffer@
    }
}

impl<T> ConfirmedHistory<T> {
    /// Internal invariant: entries are sorted by strictly increasing tick.
    pub open spec fn wf(self) -> bool {
        forall|i: int, j: int| 0 <= i < j < self@.len() ==> self@[i].0.0 < self@[j].0.0
    }

    /// An empty history.
    pub fn new() -> (r: ConfirmedHistory<T>)
        ensures
            r.wf(),
            r@ == Seq::<(Tick, T)>::empty(),
    {
        let r = ConfirmedHistory { buffer: Vec::new() };
        proof {
            assert(r@ =~= Seq::<(Tick, T)>::empty());
        }
        r
    }

    /// Reset the history.
    pub fn clear(&mut self)
        ensures
            final(self).wf(),
            final(self)@ == Seq::<(Tick, T)>::empty(),
    {
        self.buffer = Vec::new();
        proof {
            assert(self@ =~= Seq::<(Tick, T)>::empty());
        }
    }

    /// The oldest confirmed entry, if any, left in place.
    pub fn peek(&mut self) -> (r: Option<(Tick, &T)>)
        ensures
            *final(self) == *old(self),
            match r {
                Some(p) => old(self)@.len() > 0 && p.0 == old(self)@[0].0 && *p.1 == old(
                    self,
                )@[0].1,
                None => old(self)@.len() == 0,
            },
    {
        if self.buffer.len() == 0 {
            None
        } else {
            let first = &self.buffer[0];
            Some((first.0, &first.1))
        }
    }

    /// Remove and return the oldest confirmed entry, if any.
    pub fn pop(&mut self) -> (r: Option<(Tick, T)>)
        requires
            old(self).wf(),
        ensures
            final(self).wf(),
            match r {
                Some(p) => old(self)@.len() > 0 && p == old(self)@[0] && final(self)@ == old(
                    self,
                )@.skip(1),
                None => old(self)@.len() == 0 && final(self)@ == old(self)@,
            },
    {
        if self.buffer.len() == 0 {
            None
        } else {
            let p = self.buffer.remove(0);
            proof {
                assert(self@ =~= old(self)@.skip(1));
            }
            Some(p)
        }
    }

    /// Record the value confirmed at one tick; a value already recorded
    /// for the same tick is replaced.
    pub fn add_item(&mut self, tick: Tick, item: T)
        requires
            old(self).wf(),
        ensures
            final(self).wf(),
            final(self)@ == hist_insert(old(self)@, tick.0, item),
    {
        let n = self.buffer.len();
        let mut i: usize = 0;
        while i < n && self.buffer[i].0.0 < tick.0
            invariant
                self.wf(),
                self == old(self),
                n == self.buffer@.len(),
                0 <= i <= n,
                forall|j: int| 0 <= j < i ==> (#[trigger] self.buffer@[j]).0.0 < tick.0,
            decreases n - i,
        {
            i += 1;
        }
        proof {
            lemma_insert_pos(self.buffer@, tick.0, i as int);
        }
        if i < n && self.buffer[i].0.0 == tick.0 {
            self.buffer[i] = (tick, item);
            proof {
                let s0 = old(self)@;
                let ii = i as int;
                assert forall|a: int, b: int| 0 <= a < b < self@.len() implies (
                #[trigger] self@[a]).0.0 < (#[trigger] self@[b]).0.0 by {
                    assert(self@[a].0.0 == s0[a].0.0);
                    assert(self@[b].0.0 == s0[b].0.0);
                }
                assert(self@ =~= hist_insert(s0, tick.0, item));
            }
        } else {
            self.buffer.insert(i, (tick, item));
            proof {
                let s0 = old(self)@;
                let ii = i as int;
                let t = tick.0;
                old(self)@.insert_ensures(ii, (tick, item));
                assert forall|a: int, b: int| 0 <= a < b < self@.len() implies (
                #[trigger] self@[a]).0.0 < (#[trigger] self@[b]).0.0 by {
                    let u = self@;
                    if b < ii {
                        assert(u[a] == s0[a]);
                        assert(u[b] == s0[b]);
                    } else if b == ii {
                        assert(u[a] == s0[a]);
                        assert(s0[a].0.0 < t);
                    } else {
                        assert(u[b] == s0[b - 1]);
                        assert(ii < s0.len());
                        assert(s0[ii].0.0 > t);
                        if a < ii {
                            assert(u[a] == s0[a]);
                            assert(s0[a].0.0 < t);
                            if b - 1 > ii {
                                assert(s0[ii].0.0 < s0[b - 1].0.0);
                            }
                        } else if a == ii {
                            if b - 1 > ii {
                                assert(s0[ii].0.0 < s0[b - 1].0.0);
                            }
                        } else {
                            assert(u[a] == s0[a - 1]);
                        }
                    }
                }
                assert(self@ =~= hist_insert(s0, t, item));
            }
        }
    }

    /// Drain every entry whose tick is at or below `tick`, returning the
    /// most recent entry drained, if any. The caller keeps that value: the
    /// history only stores the ticks where the component changed, so the
    /// last confirmed value at or before `tick` still governs later ticks.
    pub fn pop_until_tick(&mut self, tick: Tick) -> (r: Option<(Tick, T)>)
        requires
            old(self).wf(),
        ensures
            final(self).wf(),
            final(self)@ == old(self)@.skip(ready_count(old(self)@, tick.0)),
            r == (if ready_count(old(self)@, tick.0) == 0 {
                None::<(Tick, T)>
            } else {
                Some(old(self)@[ready_count(old(self)@, tick.0) - 1])
            }),
    {
        let n = self.buffer.len();
        let mut count: usize = 0;
        while count < n && self.buffer[count].0.0 <= tick.0
            invariant
                self.wf(),
                self == old(self),
                n == self.buffer@.len(),
                0 <= count <= n,
                forall|j: int| 0 <= j < count ==> (#[trigger] self.buffer@[j]).0.0 <= tick.0,
            decreases n - count,
        {
            count += 1;
        }
        proof {
            lemma_ready_count(self.buffer@, tick.0, count as int);
        }
        let mut k: usize = 0;
        let mut last: Option<(Tick, T)> = None;
        while k < count
            invariant
                count <= old(self)@.len(),
                0 <= k <= count,
                self@ == old(self)@.skip(k as int),
                last == (if k == 0 {
                    None::<(Tick, T)>
                } else {
                    Some(old(self)@[k - 1])
                }),
                old(self).wf(),
            decreases count - k,
        {
            let p = self.buffer.remove(0);
            proof {
                assert(old(self)@.skip(k as int)[0] == old(self)@[k as int]);
                assert(old(self)@.skip(k as int).remove(0) =~= old(self)@.skip(k as int + 1));
            }
            last = Some(p);
            k += 1;
        }
        proof {
            assert forall|a: int, b: int| 0 <= a < b < self@.len() implies (
            #[trigger] self@[a]).0.0 < (#[trigger] self@[b]).0.0 by {
                assert(self@[a] == old(self)@[a + count]);
                assert(self@[b] == old(self)@[b + count]);
            }
        }
        last
    }
}

/// A scan that stops at the first tick above `t` has counted
/// `ready_count`.
proof fn lemma_ready_count<T>(s: Seq<(Tick, T)>, t: u16, c: int)
    requires
        0 <= c <= s.len(),
        forall|j: int| 0 <= j < c ==> (#[trigger] s[j]).0.0 <= t,
        c == s.len() || s[c].0.0 > t,
    ensures
        ready_count(s, t) == c,
    decreases s.len(),
{
    if s.len() > 0 && c > 0 {
        assert(s[0].0.0 <= t);
        assert forall|j: int| 0 <= j < c - 1 implies (#[trigger] s.skip(1)[j]).0.0 <= t by {
            assert(s.skip(1)[j] == s[j + 1]);
        }
        if c - 1 < s.skip(1).len() {
            assert(s.skip(1)[c - 1] == s[c as int]);
        }
        lemma_ready_count(s.skip(1), t, c - 1);
    }
}

/// A scan that stops at the first tick at or above `t` has found
/// `insert_pos`.
proof fn lemma_insert_pos<T>(s: Seq<(Tick, T)>, t: u16, c: int)
    requires
        0 <= c <= s.len(),
        forall|j: int| 0 <= j < c ==> (#[trigger] s[j]).0.0 < t,
        c == s.len() || s[c].0.0 >= t,
    ensures
        insert_pos(s, t) == c,
    decreases s.len(),
{
    if s.len() > 0 && c > 0 {
        assert(s[0].0.0 < t);
        assert forall|j: int| 0 <= j < c - 1 implies (#[trigger] s.skip(1)[j]).0.0 < t by {
            assert(s.skip(1)[j] == s[j + 1]);
        }
        if c - 1 < s.skip(1).len() {
            assert(s.skip(1)[c - 1] == s[c as int]);
        }
        lemma_insert_pos(s.skip(1), t, c - 1);
    }
}

} // verus!
