//! The packets sent and not yet acknowledged, kept in a ring of
//! `PACKET_HISTORY_SIZE` histories indexed by packet number, and the
//! fragments waiting to be sent again.
use std::collections::VecDeque;

use vstd::prelude::*;

use crate::error::BufferOverflowError;
use crate::proto::datagram::{Fragment, FragmentModel};
use crate::proto::datagram_codec::fragments_view;
use crate::reliability::window::{lemma_offset_determines_slot, lemma_ring_offset, ring_offset, slot_of};

verus! {

pub const PACKET_HISTORY_SIZE: usize = 128;

/// What is known of a sent packet.
#[derive(Debug)]
pub enum PacketHistory {
    Valid { fragments: Vec<Fragment>, time_sent: u64 },
    Invalid,
    Used,
}

/// The mathematical value of a packet history.
pub enum HistoryModel {
    Valid { fragments: Seq<FragmentModel>, time_sent: u64 },
    Invalid,
    Used,
}

impl View for PacketHistory {
    type V = HistoryModel;

    open spec fn view(&self) -> HistoryModel {
        match self {
            PacketHistory::Valid { fragments, time_sent } => HistoryModel::Valid {
                fragments: fragments_view(fragments@),
                time_sent: *time_sent,
            },
            PacketHistory::Invalid => HistoryModel::Invalid,
            PacketHistory::Used => HistoryModel::Used,
        }
    }
}

/// The mathematical value of a retransmission cache.
pub struct CacheModel {
    pub histories: Seq<HistoryModel>,
    pub start: u32,
    pub queue: Seq<FragmentModel>,
}

#[derive(Debug)]
pub struct RetransmitCache {
    histories: Vec<PacketHistory>,
    start_seq: u32,
    retransmit_fragments: VecDeque<Fragment>,
}

pub open spec fn histories_view(h: Seq<PacketHistory>) -> Seq<HistoryModel> {
    h.map_values(|x: PacketHistory| x@)
}

pub open spec fn queue_view(q: VecDeque<Fragment>) -> Seq<FragmentModel> {
    q@.map_values(|f: Fragment| f@)
}

/// The number of used histories in a row from offset `i` of `start`.
pub open spec fn used_run(h: Seq<HistoryModel>, start: int, i: nat) -> nat
    decreases PACKET_HISTORY_SIZE - i,
{
    if i >= PACKET_HISTORY_SIZE || !(h[slot_of(start + i, PACKET_HISTORY_SIZE as int)] is Used) {
        i
    } else {
        used_run(h, start, i + 1)
    }
}

/// Whether the history at offset `o` is given up on: used, or sent at least
/// `rto` before `now`.
pub open spec fn is_expired(h: Seq<HistoryModel>, start: int, o: int, now: u64, rto: u64) -> bool {
    match h[slot_of(start + o, PACKET_HISTORY_SIZE as int)] {
        HistoryModel::Valid { time_sent, .. } => now - time_sent >= rto,
        HistoryModel::Invalid => false,
        HistoryModel::Used => true,
    }
}

/// The number of expired histories in a row from offset `i` of `start`.
pub open spec fn expired_run(h: Seq<HistoryModel>, start: int, i: nat, now: u64, rto: u64) -> nat
    decreases PACKET_HISTORY_SIZE - i,
{
    if i >= PACKET_HISTORY_SIZE || !is_expired(h, start, i as int, now, rto) {
        i
    } else {
        expired_run(h, start, i + 1, now, rto)
    }
}

/// The fragments of the histories at offsets below `hi`, in order.
pub open spec fn fragments_below(h: Seq<HistoryModel>, start: int, hi: int) -> Seq<FragmentModel>
    decreases hi,
{
    if hi <= 0 {
        Seq::empty()
    } else {
        fragments_below(h, start, hi - 1) + match h[slot_of(start + hi - 1, PACKET_HISTORY_SIZE as int)] {
            HistoryModel::Valid { fragments, .. } => fragments,
            _ => Seq::empty(),
        }
    }
}

/// The histories with the first `count` from `start` made invalid.
pub open spec fn invalidate_prefix(h: Seq<HistoryModel>, start: int, count: int) -> Seq<HistoryModel> {
    Seq::new(
        h.len(),
        |j: int|
            if ring_offset(j, start, h.len() as int) < count {
                HistoryModel::Invalid
            } else {
                h[j]
            },
    )
}

proof fn lemma_invalidate_step(h: Seq<HistoryModel>, start: int, count: int)
    requires
        h.len() == PACKET_HISTORY_SIZE,
        0 <= count < PACKET_HISTORY_SIZE,
    ensures
        invalidate_prefix(h, start, count).update(
            slot_of(start + count, PACKET_HISTORY_SIZE as int),
            HistoryModel::Invalid,
        ) =~= invalidate_prefix(h, start, count + 1),
        invalidate_prefix(h, start, count)[slot_of(start + count, PACKET_HISTORY_SIZE as int)]
            == h[slot_of(start + count, PACKET_HISTORY_SIZE as int)],
        0 <= slot_of(start + count, PACKET_HISTORY_SIZE as int) < PACKET_HISTORY_SIZE,
{
    let n = PACKET_HISTORY_SIZE as int;
    let j0 = slot_of(start + count, n);
    lemma_ring_offset(start, count, n);
    assert forall|j: int| 0 <= j < n implies #[trigger] invalidate_prefix(h, start, count).update(
        j0,
        HistoryModel::Invalid,
    )[j] == invalidate_prefix(h, start, count + 1)[j] by {
        vstd::arithmetic::div_mod::lemma_mod_bound(j - start, n);
        if j != j0 {
            assert(ring_offset(j, start, n) != count) by {
                if ring_offset(j, start, n) == count {
                    lemma_offset_determines_slot(j, j0, start, n);
                }
            }
        }
    }
}

/// What `mark_as_used` hands back for packet `seq`.
pub open spec fn mark_outcome(c: CacheModel, seq: u32) -> Option<(Seq<FragmentModel>, u64)> {
    match c.histories[slot_of(seq as int, PACKET_HISTORY_SIZE as int)] {
        HistoryModel::Valid { fragments, time_sent } => Some((fragments, time_sent)),
        _ => None,
    }
}

/// The cache after `mark_as_used` of packet `seq`.
pub open spec fn marked(c: CacheModel, seq: u32) -> CacheModel {
    let slot = slot_of(seq as int, PACKET_HISTORY_SIZE as int);
    match c.histories[slot] {
        HistoryModel::Valid { .. } => CacheModel {
            histories: c.histories.update(slot, HistoryModel::Used),
            ..c
        },
        _ => c,
    }
}

/// The cache after `shift`.
pub open spec fn cache_shifted(c: CacheModel) -> CacheModel {
    let count = used_run(c.histories, c.start as int, 0);
    CacheModel {
        histories: invalidate_prefix(c.histories, c.start as int, count as int),
        start: (c.start + count) as u32,
        queue: c.queue,
    }
}

impl View for RetransmitCache {
    type V = CacheModel;

    closed spec fn view(&self) -> CacheModel {
        CacheModel {
            histories: histories_view(self.histories@),
            start: self.start_seq,
            queue: queue_view(self.retransmit_fragments),
        }
    }
}

impl RetransmitCache {
    /// The cache holds one history per slot of its ring.
    pub open spec fn wf(&self) -> bool {
        self@.histories.len() == PACKET_HISTORY_SIZE
    }

    /// A well-formed cache has one history per slot of its ring.
    pub proof fn lemma_wf_len(&self)
        requires
            self.wf(),
        ensures
            self@.histories.len() == PACKET_HISTORY_SIZE,
    {
    }

    fn relative_index(seq: u32) -> (r: usize)
        ensures
            r == slot_of(seq as int, PACKET_HISTORY_SIZE as int),
            r < PACKET_HISTORY_SIZE,
    {
        seq as usize % PACKET_HISTORY_SIZE
    }

    pub fn new() -> (c: Self)
        ensures
            c.wf(),
            c@.histories == Seq::new(PACKET_HISTORY_SIZE as nat, |_j: int| HistoryModel::Invalid),
            c@.start == 0,
            c@.queue == Seq::<FragmentModel>::empty(),
    {
        let mut histories: Vec<PacketHistory> = Vec::new();
        let mut i: usize = 0;
        while i < PACKET_HISTORY_SIZE
            invariant
                i <= PACKET_HISTORY_SIZE,
                histories_view(histories@) == Seq::new(i as nat, |_j: int| HistoryModel::Invalid),
                histories@.len() == i,
            decreases PACKET_HISTORY_SIZE - i,
        {
            let ghost before = histories@;
            histories.push(PacketHistory::Invalid);
            assert(histories@ == before.push(PacketHistory::Invalid));
            assert(histories_view(histories@) =~= histories_view(before).push(HistoryModel::Invalid));
            i += 1;
            assert(histories_view(histories@) =~= Seq::new(i as nat, |_j: int| HistoryModel::Invalid));
        }
        let c = RetransmitCache { histories, start_seq: 0, retransmit_fragments: VecDeque::new() };
        assert(c@.queue =~= Seq::<FragmentModel>::empty());
        c
    }

    /// Whether the history at the start is invalid and no fragment waits to
    /// be sent again.
    pub fn is_empty(&self) -> (b: bool)
        requires
            self.wf(),
        ensures
            b == (self@.histories[slot_of(self@.start as int, PACKET_HISTORY_SIZE as int)] is Invalid
                && self@.queue.len() == 0),
    {
        let relative_index = Self::relative_index(self.start_seq);
        let invalid = match &self.histories[relative_index] {
            PacketHistory::Invalid => true,
            _ => false,
        };
        invalid && self.retransmit_fragments.len() == 0
    }

    /// Records that packet `seq` carried `fragments` at `time_sent`, unless
    /// its slot already holds a history. Fails when `seq` lies at or beyond
    /// the end of the ring.
    pub fn insert(&mut self, seq: u32, fragments: Vec<Fragment>, time_sent: u64) -> (r: Result<(), BufferOverflowError>)
        requires
            old(self).wf(),
        ensures
            final(self).wf(),
            ({
                let c = old(self)@;
                let slot = slot_of(seq as int, PACKET_HISTORY_SIZE as int);
                match r {
                    Err(_) => c.start + PACKET_HISTORY_SIZE <= seq && final(self)@ == c,
                    Ok(_) => {
                        &&& seq < c.start + PACKET_HISTORY_SIZE
                        &&& final(self)@.start == c.start
                        &&& final(self)@.queue == c.queue
                        &&& final(self)@.histories == if c.histories[slot] is Invalid {
                            c.histories.update(
                                slot,
                                HistoryModel::Valid { fragments: fragments_view(fragments@), time_sent },
                            )
                        } else {
                            c.histories
                        }
                    },
                }
            }),
    {
        if self.start_seq as u64 + PACKET_HISTORY_SIZE as u64 <= seq as u64 {
            return Err(BufferOverflowError);
        }
        let relative_index = Self::relative_index(seq);
        let is_invalid = match &self.histories[relative_index] {
            PacketHistory::Invalid => true,
            _ => false,
        };
        if is_invalid {
            let ghost before = self.histories@;
            self.histories.set(relative_index, PacketHistory::Valid { fragments, time_sent });
            assert(histories_view(self.histories@) =~= histories_view(before).update(
                relative_index as int,
                HistoryModel::Valid { fragments: fragments_view(fragments@), time_sent },
            ));
        }
        Ok(())
    }

    /// When the history of `seq` is valid, marks it used and hands back its
    /// fragments and the time they were sent; else changes nothing.
    /// The first packet number the cache holds.
    pub fn start_seq(&self) -> (s: u32)
        ensures
            s == self@.start,
    {
        self.start_seq
    }

    pub fn mark_as_used(&mut self, seq: u32) -> (r: Option<(Vec<Fragment>, u64)>)
        requires
            old(self).wf(),
        ensures
            final(self).wf(),
            ({
                let c = old(self)@;
                let slot = slot_of(seq as int, PACKET_HISTORY_SIZE as int);
                match c.histories[slot] {
                    HistoryModel::Valid { fragments, time_sent } => {
                        &&& r matches Some((f, t)) && fragments_view(f@) == fragments && t == time_sent
                        &&& final(self)@.histories == c.histories.update(slot, HistoryModel::Used)
                        &&& final(self)@.start == c.start
                        &&& final(self)@.queue == c.queue
                    },
                    _ => r is None && final(self)@ == c,
                }
            }),
            final(self)@ == marked(old(self)@, seq),
            match r {
                Some((f, t)) => mark_outcome(old(self)@, seq) == Some((fragments_view(f@), t)),
                None => mark_outcome(old(self)@, seq) is None,
            },
    {
        let relative_index = Self::relative_index(seq);
        let is_valid = match &self.histories[relative_index] {
            PacketHistory::Valid { .. } => true,
            _ => false,
        };
        if !is_valid {
            return None;
        }
        let ghost before = self.histories@;
        let mut taken = PacketHistory::Used;
        std::mem::swap(&mut self.histories[relative_index], &mut taken);
        assert(self.histories@ == before.update(relative_index as int, PacketHistory::Used));
        assert(histories_view(self.histories@) =~= histories_view(before).update(
            relative_index as int,
            HistoryModel::Used,
        ));
        match taken {
            PacketHistory::Valid { fragments, time_sent } => Some((fragments, time_sent)),
            _ => None,
        }
    }

    /// Moves the start past the used histories in a row from it, making
    /// them invalid, and returns how many there were.
    pub fn shift(&mut self) -> (count: usize)
        requires
            old(self).wf(),
            old(self)@.start + PACKET_HISTORY_SIZE <= u32::MAX,
        ensures
            final(self).wf(),
            ({
                let c = old(self)@;
                &&& count == used_run(c.histories, c.start as int, 0)
                &&& count <= PACKET_HISTORY_SIZE
                &&& final(self)@.histories == invalidate_prefix(c.histories, c.start as int, count as int)
                &&& final(self)@.start == c.start + count
                &&& final(self)@.queue == c.queue
            }),
            final(self)@ == cache_shifted(old(self)@),
    {
        let ghost c = self@;
        assert(c.histories.len() == PACKET_HISTORY_SIZE);
        let mut count: usize = 0;
        while count < PACKET_HISTORY_SIZE
            invariant
                c.histories.len() == PACKET_HISTORY_SIZE,
                c == old(self)@,
                self.wf(),
                self.start_seq == c.start,
                queue_view(self.retransmit_fragments) == c.queue,
                c.start + PACKET_HISTORY_SIZE <= u32::MAX,
                count <= PACKET_HISTORY_SIZE,
                used_run(c.histories, c.start as int, 0) == used_run(c.histories, c.start as int, count as nat),
                histories_view(self.histories@) == invalidate_prefix(c.histories, c.start as int, count as int),
            ensures
                count <= PACKET_HISTORY_SIZE,
                used_run(c.histories, c.start as int, 0) == count,
                histories_view(self.histories@) == invalidate_prefix(c.histories, c.start as int, count as int),
                self.wf(),
                self.start_seq == c.start,
                queue_view(self.retransmit_fragments) == c.queue,
            decreases PACKET_HISTORY_SIZE - count,
        {
            let relative_index = Self::relative_index(self.start_seq + count as u32);
            proof {
                lemma_invalidate_step(c.histories, c.start as int, count as int);
            }
            let is_used = match &self.histories[relative_index] {
                PacketHistory::Used => true,
                _ => false,
            };
            if !is_used {
                break;
            }
            let ghost before = self.histories@;
            self.histories.set(relative_index, PacketHistory::Invalid);
            assert(histories_view(self.histories@) =~= histories_view(before).update(
                relative_index as int,
                HistoryModel::Invalid,
            ));
            count += 1;
        }
        self.start_seq = self.start_seq + count as u32;
        count
    }

    /// Gives up on the histories from the start that are used or whose
    /// packet was sent at least `rto` before `now`, stopping at the first
    /// invalid or recent one: their fragments join the queue of fragments
    /// to send again, they become invalid, and the start moves past them.
    /// Nothing is done when the cache is empty. Hands back the queue.
    pub fn get_retransmit_fragments(&mut self, now: u64, rto: u64) -> (q: &mut VecDeque<Fragment>)
        requires
            old(self).wf(),
            old(self)@.start + PACKET_HISTORY_SIZE <= u32::MAX,
            forall|j: int|
                0 <= j < PACKET_HISTORY_SIZE ==> (#[trigger] old(self)@.histories[j] matches HistoryModel::Valid { time_sent, .. } ==> time_sent <= now),
        ensures
            final(self).wf(),
            ({
                let c = old(self)@;
                let count: nat = if c.histories[slot_of(c.start as int, PACKET_HISTORY_SIZE as int)] is Invalid
                    && c.queue.len() == 0 {
                    0
                } else {
                    expired_run(c.histories, c.start as int, 0, now, rto)
                };
                &&& queue_view(*q) == c.queue + fragments_below(c.histories, c.start as int, count as int)
                &&& final(self)@.histories == invalidate_prefix(c.histories, c.start as int, count as int)
                &&& final(self)@.start == c.start + count
                &&& final(self)@.queue == queue_view(*final(q))
            }),
    {
        if self.is_empty() {
            proof {
                assert(invalidate_prefix(old(self)@.histories, old(self)@.start as int, 0) =~= old(self)@.histories);
                assert(old(self)@.queue + fragments_below(old(self)@.histories, old(self)@.start as int, 0) =~= old(self)@.queue);
            }
            return &mut self.retransmit_fragments;
        }
        let ghost c = self@;
        assert(c.histories.len() == PACKET_HISTORY_SIZE);
        let mut count: usize = 0;
        while count < PACKET_HISTORY_SIZE
            invariant
                c.histories.len() == PACKET_HISTORY_SIZE,
                c == old(self)@,
                self.wf(),
                self.start_seq == c.start,
                c.start + PACKET_HISTORY_SIZE <= u32::MAX,
                forall|j: int|
                    0 <= j < PACKET_HISTORY_SIZE ==> (#[trigger] c.histories[j] matches HistoryModel::Valid { time_sent, .. } ==> time_sent <= now),
                count <= PACKET_HISTORY_SIZE,
                expired_run(c.histories, c.start as int, 0, now, rto) == expired_run(
                    c.histories,
                    c.start as int,
                    count as nat,
                    now,
                    rto,
                ),
                histories_view(self.histories@) == invalidate_prefix(c.histories, c.start as int, count as int),
                queue_view(self.retransmit_fragments) == c.queue + fragments_below(c.histories, c.start as int, count as int),
            ensures
                count <= PACKET_HISTORY_SIZE,
                expired_run(c.histories, c.start as int, 0, now, rto) == count,
                histories_view(self.histories@) == invalidate_prefix(c.histories, c.start as int, count as int),
                queue_view(self.retransmit_fragments) == c.queue + fragments_below(c.histories, c.start as int, count as int),
                self.wf(),
                self.start_seq == c.start,
            decreases PACKET_HISTORY_SIZE - count,
        {
            let relative_index = Self::relative_index(self.start_seq + count as u32);
            proof {
                lemma_invalidate_step(c.histories, c.start as int, count as int);
            }
            let ghost before = self.histories@;
            let ghost hv = c.histories[relative_index as int];
            let expired = match &self.histories[relative_index] {
                PacketHistory::Valid { time_sent, .. } => now - *time_sent >= rto,
                PacketHistory::Invalid => false,
                PacketHistory::Used => true,
            };
            assert(expired == is_expired(c.histories, c.start as int, count as int, now, rto));
            if !expired {
                break;
            }
            let mut taken = PacketHistory::Invalid;
            std::mem::swap(&mut self.histories[relative_index], &mut taken);
            assert(self.histories@ == before.update(relative_index as int, PacketHistory::Invalid));
            assert(taken == before[relative_index as int]);
            assert(histories_view(self.histories@) =~= histories_view(before).update(
                relative_index as int,
                HistoryModel::Invalid,
            ));
            let ghost q0 = queue_view(self.retransmit_fragments);
            assert(taken@ == hv);
            match taken {
                PacketHistory::Valid { fragments, .. } => {
                    let mut fragments = fragments;
                    let ghost fs = fragments_view(fragments@);
                    let ghost hs = self.histories@;
                    while fragments.len() > 0
                        invariant
                            self.histories@ == hs,
                            self.start_seq == c.start,
                            queue_view(self.retransmit_fragments) + fragments_view(fragments@) == q0 + fs,
                        decreases fragments@.len(),
                    {
                        let ghost qb = queue_view(self.retransmit_fragments);
                        let ghost fb = fragments@;
                        let f = fragments.remove(0);
                        self.retransmit_fragments.push_back(f);
                        assert(queue_view(self.retransmit_fragments) =~= qb.push(f@));
                        assert(fragments_view(fb) =~= seq![f@] + fragments_view(fragments@));
                        assert(qb.push(f@) + fragments_view(fragments@) =~= qb + fragments_view(fb));
                    }
                    assert(queue_view(self.retransmit_fragments) =~= q0 + fs);
                },
                _ => {
                    assert(q0 =~= q0 + Seq::<FragmentModel>::empty());
                },
            }
            count += 1;
        }
        self.start_seq = self.start_seq + count as u32;
        &mut self.retransmit_fragments
    }

    /// Queues `fragments` to be sent again, after those already queued.
    pub fn extend_retransmit_fragments(&mut self, fragments: Vec<Fragment>)
        requires
            old(self).wf(),
        ensures
            final(self).wf(),
            final(self)@.histories == old(self)@.histories,
            final(self)@.start == old(self)@.start,
            final(self)@.queue == old(self)@.queue + fragments_view(fragments@),
    {
        let mut i: usize = 0;
        let mut fragments = fragments;
        let ghost fs = fragments_view(fragments@);
        while fragments.len() > 0
            invariant
                self.wf(),
                self@.histories == old(self)@.histories,
                self@.start == old(self)@.start,
                self@.queue + fragments_view(fragments@) == old(self)@.queue + fs,
            decreases fragments@.len(),
        {
            let f = fragments.remove(0);
            let ghost qb = self@.queue;
            self.retransmit_fragments.push_back(f);
            assert(self@.queue =~= qb.push(f@));
        }
        assert(self@.queue + fragments_view(fragments@) =~= self@.queue);
    }
}

} // verus!
