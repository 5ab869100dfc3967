//! The master's side of replication: the propagated-byte offset, one send queue
//! and one acknowledged offset per replica, and the decisions of WAIT.

use vstd::prelude::*;

verus! {

/// What the master knows of one replica.
pub struct ReplicaView {
    pub queue: Seq<Seq<u8>>,
    pub acked: u64,
    pub doomed: bool,
}

pub struct ReplicationView {
    pub offset: u64,
    pub replicas: Seq<ReplicaView>,
}

struct ReplicaRecord {
    send_queue: Vec<Vec<u8>>,
    acked_offset: u64,
    doomed: bool,
}

impl View for ReplicaRecord {
    type V = ReplicaView;

    closed spec fn view(&self) -> ReplicaView {
        ReplicaView {
            queue: self.send_queue@.map_values(|c: Vec<u8>| c@),
            acked: self.acked_offset,
            doomed: self.doomed,
        }
    }
}

/// The number of replicas that acknowledged at least `expected`.
pub open spec fn count_acked_spec(rs: Seq<ReplicaView>, expected: u64) -> nat
    decreases rs.len(),
{
    if rs.len() == 0 {
        0
    } else {
        count_acked_spec(rs.drop_last(), expected) + if rs.last().acked >= expected {
            1nat
        } else {
            0nat
        }
    }
}

/// The state after `cmd` is propagated: the offset grows by its length and every
/// replica's queue gets it at the back.
pub open spec fn propagated(v: ReplicationView, cmd: Seq<u8>) -> ReplicationView {
    ReplicationView {
        offset: (v.offset + cmd.len()) as u64,
        replicas: v.replicas.map_values(|r: ReplicaView| ReplicaView { queue: r.queue.push(cmd), ..r }),
    }
}

/// No replica acknowledged more than the master propagated.
pub open spec fn acks_within(v: ReplicationView) -> bool {
    forall|i: int| 0 <= i < v.replicas.len() ==> (#[trigger] v.replicas[i]).acked <= v.offset
}

pub struct Replication {
    master_repl_offset: u64,
    replicas: Vec<ReplicaRecord>,
}

impl View for Replication {
    type V = ReplicationView;

    closed spec fn view(&self) -> ReplicationView {
        ReplicationView {
            offset: self.master_repl_offset,
            replicas: self.replicas@.map_values(|r: ReplicaRecord| r@),
        }
    }
}

/// Where a WAIT stands between polls.
#[derive(PartialEq, Eq, Structural, Clone, Copy, Debug)]
pub struct WaitState {
    /// The master offset when the WAIT began.
    pub expected: u64,
    /// How many replicas the caller asked for.
    pub needed: u64,
    /// The most replicas seen at `expected` or beyond so far.
    pub best: u64,
}

/// What a WAIT does next.
#[derive(PartialEq, Eq, Structural, Clone, Copy, Debug)]
pub enum WaitStep {
    /// Reply with this count.
    Reply(u64),
    /// Poll again after a propagation tick.
    Poll(WaitState),
}

impl Replication {
    pub fn new(offset: u64) -> (r: Replication)
        ensures
            r@.offset == offset,
            r@.replicas.len() == 0,
    {
        Replication { master_repl_offset: offset, replicas: Vec::new() }
    }

    pub fn master_repl_offset(&self) -> (r: u64)
        ensures
            r == self@.offset,
    {
        self.master_repl_offset
    }

    pub fn replica_count(&self) -> (r: usize)
        ensures
            r == self@.replicas.len(),
    {
        self.replicas.len()
    }

    /// Appends a propagated command to every replica's queue and advances the
    /// offset by its length. Refused, with nothing changed, when the offset would
    /// pass `u64::MAX`.
    pub fn queue_send_to_replications(&mut self, command: &Vec<u8>) -> (r: bool)
        ensures
            r == (old(self)@.offset + command@.len() <= u64::MAX),
            r ==> final(self)@.offset == old(self)@.offset + command@.len(),
            r ==> final(self)@.replicas.len() == old(self)@.replicas.len(),
            r ==> forall|i: int|
                0 <= i < old(self)@.replicas.len() ==> (#[trigger] final(self)@.replicas[i]) == (
                ReplicaView { queue: old(self)@.replicas[i].queue.push(command@), ..old(self)@.replicas[i] }),
            !r ==> final(self)@ == old(self)@,
            r ==> final(self)@ == propagated(old(self)@, command@),
            acks_within(old(self)@) ==> acks_within(final(self)@),
    {
        let len = command.len() as u64;
        if self.master_repl_offset > u64::MAX - len {
            return false;
        }
        self.master_repl_offset = self.master_repl_offset + len;
        let ghost before = self.replicas@;
        let mut i: usize = 0;
        while i < self.replicas.len()
            invariant
                i <= self.replicas@.len(),
                self.master_repl_offset == old(self).master_repl_offset + command@.len(),
                self.replicas@.len() == before.len(),
                before == old(self).replicas@,
                forall|j: int| 0 <= j < i ==> (#[trigger] self.replicas@[j])@ == (ReplicaView {
                    queue: before[j]@.queue.push(command@),
                    ..before[j]@
                }),
                forall|j: int| i <= j < self.replicas@.len() ==> #[trigger] self.replicas@[j] == before[j],
            decreases self.replicas@.len() - i,
        {
            let mut rec = self.replicas.remove(i);
            let ghost q = rec.send_queue@;
            rec.send_queue.push(vstd::slice::slice_to_vec(command.as_slice()));
            assert(rec@.queue =~= before[i as int]@.queue.push(command@));
            self.replicas.insert(i, rec);
            i = i + 1;
        }
        assert(self@.replicas.len() == old(self)@.replicas.len());
        assert forall|j: int| 0 <= j < old(self)@.replicas.len() implies (#[trigger] self@.replicas[j])
            == propagated(old(self)@, command@).replicas[j] by {
            assert(self@.replicas[j] == self.replicas@[j]@);
            assert(old(self)@.replicas[j] == before[j]@);
        }
        assert(self@.replicas =~= propagated(old(self)@, command@).replicas);
        assert forall|j: int| 0 <= j < old(self)@.replicas.len() implies (#[trigger] self@.replicas[j]).acked
            == old(self)@.replicas[j].acked by {
            assert(self@.replicas[j] == self.replicas@[j]@);
            assert(old(self)@.replicas[j] == before[j]@);
        }
        true
    }

    /// On a replica: advances the offset by the bytes of a frame taken from the
    /// master's stream. False, with nothing changed, when it would overflow.
    pub fn advance_offset(&mut self, n: u64) -> (r: bool)
        ensures
            r == (old(self)@.offset + n <= u64::MAX),
            r ==> final(self)@ == (ReplicationView { offset: (old(self)@.offset + n) as u64, ..old(self)@ }),
            !r ==> final(self)@ == old(self)@,
    {
        if self.master_repl_offset > u64::MAX - n {
            return false;
        }
        self.master_repl_offset = self.master_repl_offset + n;
        true
    }

    /// Registers a new replica with an empty queue and an acknowledged offset of 0.
    pub fn add_replica(&mut self) -> (r: usize)
        ensures
            r == old(self)@.replicas.len(),
            final(self)@.offset == old(self)@.offset,
            final(self)@.replicas == old(self)@.replicas.push(
                ReplicaView { queue: Seq::empty(), acked: 0, doomed: false },
            ),
            acks_within(old(self)@) ==> acks_within(final(self)@),
    {
        let rec = ReplicaRecord { send_queue: Vec::new(), acked_offset: 0, doomed: false };
        let r = self.replicas.len();
        self.replicas.push(rec);
        assert(rec@.queue =~= Seq::<Seq<u8>>::empty());
        assert(self@.replicas =~= old(self)@.replicas.push(
            ReplicaView { queue: Seq::empty(), acked: 0, doomed: false },
        ));
        r
    }

    /// Stores the offset that replica `i` acknowledged.
    pub fn record_ack(&mut self, i: usize, offset: u64)
        requires
            i < old(self)@.replicas.len(),
        ensures
            final(self)@ == (ReplicationView {
                replicas: old(self)@.replicas.update(
                    i as int,
                    ReplicaView { acked: offset, ..old(self)@.replicas[i as int] },
                ),
                ..old(self)@
            }),
            acks_within(old(self)@) && offset <= old(self)@.offset ==> acks_within(final(self)@),
    {
        let mut rec = self.replicas.remove(i);
        rec.acked_offset = offset;
        self.replicas.insert(i, rec);
        assert(self@.replicas =~= old(self)@.replicas.update(
            i as int,
            ReplicaView { acked: offset, ..old(self)@.replicas[i as int] },
        ));
    }

    /// Takes the oldest queued command of replica `i`, if any.
    pub fn take_next(&mut self, i: usize) -> (r: Option<Vec<u8>>)
        requires
            i < old(self)@.replicas.len(),
        ensures
            ({
                let q = old(self)@.replicas[i as int].queue;
                if q.len() == 0 {
                    r is None && final(self)@ == old(self)@
                } else {
                    r matches Some(c) && c@ == q[0] && final(self)@ == (ReplicationView {
                        replicas: old(self)@.replicas.update(
                            i as int,
                            ReplicaView { queue: q.skip(1), ..old(self)@.replicas[i as int] },
                        ),
                        ..old(self)@
                    })
                }
            }),
            acks_within(old(self)@) ==> acks_within(final(self)@),
    {
        if self.replicas[i].send_queue.len() == 0 {
            return None;
        }
        let mut rec = self.replicas.remove(i);
        let ghost q = rec.send_queue@;
        let c = rec.send_queue.remove(0);
        assert(rec.send_queue@.map_values(|c: Vec<u8>| c@) =~= q.map_values(|c: Vec<u8>| c@).skip(1));
        self.replicas.insert(i, rec);
        assert(self@.replicas =~= old(self)@.replicas.update(
            i as int,
            ReplicaView { queue: old(self)@.replicas[i as int].queue.skip(1), ..old(self)@.replicas[i as int] },
        ));
        Some(c)
    }

    /// Marks replica `i` for removal at the end of the tick.
    pub fn mark_doomed(&mut self, i: usize)
        requires
            i < old(self)@.replicas.len(),
        ensures
            final(self)@ == (ReplicationView {
                replicas: old(self)@.replicas.update(
                    i as int,
                    ReplicaView { doomed: true, ..old(self)@.replicas[i as int] },
                ),
                ..old(self)@
            }),
            acks_within(old(self)@) ==> acks_within(final(self)@),
    {
        let mut rec = self.replicas.remove(i);
        rec.doomed = true;
        self.replicas.insert(i, rec);
        assert(self@.replicas =~= old(self)@.replicas.update(
            i as int,
            ReplicaView { doomed: true, ..old(self)@.replicas[i as int] },
        ));
    }

    /// Drops the replicas marked for removal, keeping the others in order.
    pub fn sweep(&mut self)
        ensures
            final(self)@.offset == old(self)@.offset,
            final(self)@.replicas == old(self)@.replicas.filter(|r: ReplicaView| !r.doomed),
            acks_within(old(self)@) ==> acks_within(final(self)@),
    {
        let ghost all = self@.replicas;
        let ghost pred = |r: ReplicaView| !r.doomed;
        let old_list = &self.replicas;
        let mut kept: Vec<ReplicaRecord> = Vec::new();
        let mut i: usize = 0;
        while i < old_list.len()
            invariant
                i <= old_list@.len(),
                all == old_list@.map_values(|r: ReplicaRecord| r@),
                pred == (|r: ReplicaView| !r.doomed),
                kept@.map_values(|r: ReplicaRecord| r@) == all.subrange(0, i as int).filter(pred),
                old_list == &old(self).replicas,
                acks_within(old(self)@) ==> forall|j: int|
                    0 <= j < kept@.len() ==> (#[trigger] kept@[j]).acked_offset <= old(self).master_repl_offset,
            decreases old_list@.len() - i,
        {
            let ghost before = kept@;
            let keep = !old_list[i].doomed;
            if keep {
                let rec = ReplicaRecord {
                    send_queue: clone_queue(&old_list[i].send_queue),
                    acked_offset: old_list[i].acked_offset,
                    doomed: false,
                };
                assert(acks_within(old(self)@) ==> old(self)@.replicas[i as int].acked <= old(self)@.offset);
                kept.push(rec);
                assert(kept@.map_values(|r: ReplicaRecord| r@) =~= before.map_values(
                    |r: ReplicaRecord| r@,
                ).push(all[i as int]));
            }
            proof {
                reveal(Seq::filter);
                assert(all.subrange(0, i + 1).drop_last() =~= all.subrange(0, i as int));
            }
            i = i + 1;
        }
        assert(all.subrange(0, i as int) =~= all);
        self.replicas = kept;
        proof {
            let f = self@.replicas;
            assert forall|j: int| 0 <= j < f.len() implies (#[trigger] f[j]).acked <= self@.offset
                || !acks_within(old(self)@) by {
                assert(f[j] == self.replicas@[j]@);
            }
        }
    }

    /// How many replicas acknowledged at least `expected`.
    pub fn count_acked(&self, expected: u64) -> (r: u64)
        ensures
            r == count_acked_spec(self@.replicas, expected),
    {
        let ghost rs = self@.replicas;
        let mut n: u64 = 0;
        let mut i: usize = 0;
        while i < self.replicas.len()
            invariant
                i <= self.replicas@.len(),
                rs == self@.replicas,
                n == count_acked_spec(rs.subrange(0, i as int), expected),
                n <= i,
            decreases self.replicas@.len() - i,
        {
            assert(rs.subrange(0, i + 1).drop_last() =~= rs.subrange(0, i as int));
            if self.replicas[i].acked_offset >= expected {
                n = n + 1;
            }
            i = i + 1;
        }
        assert(rs.subrange(0, i as int) =~= rs);
        n
    }

    /// Begins a WAIT for `needed` replicas. With nothing propagated yet it replies at
    /// once with the number of replicas; otherwise it queues `getack` (the encoded
    /// `REPLCONF GETACK *`) to every replica and polls from a best count of 0.
    pub fn wait_begin(&mut self, needed: u64, getack: &Vec<u8>) -> (r: WaitStep)
        ensures
            old(self)@.offset == 0 ==> r == WaitStep::Reply(old(self)@.replicas.len() as u64)
                && final(self)@ == old(self)@,
            old(self)@.offset != 0 ==> r == WaitStep::Poll(
                WaitState { expected: old(self)@.offset, needed, best: 0 },
            ),
            old(self)@.offset != 0 ==> final(self)@ == if old(self)@.offset + getack@.len() <= u64::MAX {
                propagated(old(self)@, getack@)
            } else {
                old(self)@
            },
            acks_within(old(self)@) ==> acks_within(final(self)@),
    {
        let expected = self.master_repl_offset;
        if expected == 0 {
            return WaitStep::Reply(self.replicas.len() as u64);
        }
        self.queue_send_to_replications(getack);
        WaitStep::Poll(WaitState { expected, needed, best: 0 })
    }

    /// One poll of a WAIT: on timeout it replies with the best count so far;
    /// otherwise it counts the replicas at the expected offset, keeps the larger
    /// count, and replies once that count reaches the number asked for.
    pub fn wait_poll(&self, st: WaitState, timed_out: bool) -> (r: WaitStep)
        ensures
            ({
                let best = if count_acked_spec(self@.replicas, st.expected) > st.best {
                    count_acked_spec(self@.replicas, st.expected) as u64
                } else {
                    st.best
                };
                if timed_out {
                    r == WaitStep::Reply(st.best)
                } else if best >= st.needed {
                    r == WaitStep::Reply(best)
                } else {
                    r == WaitStep::Poll(WaitState { best, ..st })
                }
            }),
    {
        if timed_out {
            return WaitStep::Reply(st.best);
        }
        let count = self.count_acked(st.expected);
        let best = if count > st.best {
            count
        } else {
            st.best
        };
        if best >= st.needed {
            WaitStep::Reply(best)
        } else {
            WaitStep::Poll(WaitState { best, ..st })
        }
    }
}

fn clone_queue(q: &Vec<Vec<u8>>) -> (r: Vec<Vec<u8>>)
    ensures
        r@.map_values(|c: Vec<u8>| c@) == q@.map_values(|c: Vec<u8>| c@),
{
    let mut out: Vec<Vec<u8>> = Vec::new();
    let mut i: usize = 0;
    while i < q.len()
        invariant
            i <= q@.len(),
            out@.map_values(|c: Vec<u8>| c@) == q@.subrange(0, i as int).map_values(|c: Vec<u8>| c@),
        decreases q@.len() - i,
    {
        let ghost before = out@;
        out.push(vstd::slice::slice_to_vec(q[i].as_slice()));
        assert(out@.map_values(|c: Vec<u8>| c@) =~= before.map_values(|c: Vec<u8>| c@).push(q@[i as int]@));
        assert(q@.subrange(0, i + 1).map_values(|c: Vec<u8>| c@) =~= q@.subrange(0, i as int).map_values(
            |c: Vec<u8>| c@,
        ).push(q@[i as int]@));
        i = i + 1;
    }
    assert(q@.subrange(0, i as int) =~= q@);
    out
}

/// Propagating a command keeps every acknowledged offset within the master's.
pub proof fn lemma_propagation_keeps_acks_within(v: ReplicationView, cmd: Seq<u8>)
    requires
        acks_within(v),
        v.offset + cmd.len() <= u64::MAX,
    ensures
        acks_within(propagated(v, cmd)),
{
    let p = propagated(v, cmd);
    assert forall|i: int| 0 <= i < p.replicas.len() implies (#[trigger] p.replicas[i]).acked <= p.offset by {
        assert(p.replicas[i].acked == v.replicas[i].acked);
    }
}

/// A replica's acknowledged offset never exceeds the master's offset, as long as
/// each acknowledgement reports no more than the master had propagated: every
/// operation keeps the bound.
pub proof fn lemma_replica_offset_bounded(v: ReplicationView, i: int)
    requires
        acks_within(v),
        0 <= i < v.replicas.len(),
    ensures
        v.replicas[i].acked <= v.offset,
{
}

} // verus!
