//! What the retransmission cache keeps between calls: when packets are
//! recorded under consecutive numbers, the histories in use are the first
//! ones from the start of the ring, so the history at the start tells
//! whether any packet is awaited.
use vstd::prelude::*;

use crate::proto::datagram::FragmentModel;
use crate::reliability::layer::{cache_busy, cache_recorded, fetched};
use crate::reliability::retransmit_cache::{
    cache_shifted, expired_run, invalidate_prefix, marked, used_run, CacheModel, HistoryModel, PACKET_HISTORY_SIZE,
};
use crate::reliability::window::{lemma_offset_determines_slot, lemma_ring_offset, ring_offset, slot_of};

verus! {

/// The history at offset `o` from the start of the cache.
pub open spec fn history_at(c: CacheModel, o: int) -> HistoryModel {
    c.histories[slot_of(c.start + o, PACKET_HISTORY_SIZE as int)]
}

/// The histories in use are exactly the first `n` from the start: the
/// packets numbered from the start up to `start + n` are recorded (valid or
/// used) and no other is.
pub open spec fn cache_packed(c: CacheModel, n: nat) -> bool {
    &&& c.histories.len() == PACKET_HISTORY_SIZE
    &&& n <= PACKET_HISTORY_SIZE
    &&& forall|o: int| 0 <= o < PACKET_HISTORY_SIZE ==> ((#[trigger] history_at(c, o) is Invalid) <==> o >= n)
}

/// No history is valid or used, and no fragment waits to be sent again.
pub open spec fn cache_idle(c: CacheModel) -> bool {
    &&& forall|j: int| 0 <= j < c.histories.len() ==> (#[trigger] c.histories[j]) is Invalid
    &&& c.queue.len() == 0
}

/// A new cache is packed with no history in use.
pub proof fn lemma_new_cache_packed()
    ensures
        cache_packed(
            CacheModel {
                histories: Seq::new(PACKET_HISTORY_SIZE as nat, |_j: int| HistoryModel::Invalid),
                start: 0,
                queue: Seq::<FragmentModel>::empty(),
            },
            0,
        ),
{
    let c = CacheModel {
        histories: Seq::new(PACKET_HISTORY_SIZE as nat, |_j: int| HistoryModel::Invalid),
        start: 0,
        queue: Seq::<FragmentModel>::empty(),
    };
    assert forall|o: int| 0 <= o < PACKET_HISTORY_SIZE implies ((#[trigger] history_at(c, o) is Invalid) <==> o
        >= 0) by {
        lemma_ring_offset(0, o, PACKET_HISTORY_SIZE as int);
    }
}

/// On a packed cache, `is_empty` (the history at the start is invalid and no
/// fragment waits) answers exactly whether the cache is idle.
pub proof fn lemma_cache_empty_means_idle(c: CacheModel, n: nat)
    requires
        cache_packed(c, n),
    ensures
        !cache_busy(c) <==> cache_idle(c),
{
    let m = PACKET_HISTORY_SIZE as int;
    lemma_ring_offset(c.start as int, 0, m);
    assert(history_at(c, 0) == c.histories[slot_of(c.start as int, m)]);
    if !cache_busy(c) {
        assert(n == 0) by {
            assert(history_at(c, 0) is Invalid);
        }
        assert forall|j: int| 0 <= j < c.histories.len() implies (#[trigger] c.histories[j]) is Invalid by {
            let k = ring_offset(j, c.start as int, m);
            vstd::arithmetic::div_mod::lemma_mod_bound(j - c.start, m);
            lemma_ring_offset(c.start as int, k, m);
            lemma_offset_determines_slot(slot_of(c.start + k, m), j, c.start as int, m);
            assert(history_at(c, k) is Invalid);
        }
    }
}

/// A packet recorded under the next number, `start + n`, keeps the cache
/// packed with one more history in use.
pub proof fn lemma_record_next_packed(c: CacheModel, n: nat, fs: Seq<FragmentModel>, t: u64)
    requires
        cache_packed(c, n),
        n < PACKET_HISTORY_SIZE,
        c.start + n <= u32::MAX,
    ensures
        cache_recorded(c, (c.start + n) as u32, fs, t) matches Some(c2) && cache_packed(c2, n + 1),
{
    let m = PACKET_HISTORY_SIZE as int;
    let seq = (c.start + n) as u32;
    let slot = slot_of(seq as int, m);
    lemma_ring_offset(c.start as int, n as int, m);
    assert(history_at(c, n as int) is Invalid);
    let c2 = cache_recorded(c, seq, fs, t)->0;
    assert forall|o: int| 0 <= o < m implies ((#[trigger] history_at(c2, o) is Invalid) <==> o >= n + 1) by {
        lemma_ring_offset(c.start as int, o, m);
        if o != n {
            if slot_of(c.start + o, m) == slot {
                lemma_offset_determines_slot(slot_of(c.start + o, m), slot, c.start as int, m);
            }
            assert(history_at(c2, o) == history_at(c, o));
        }
    }
}

/// Marking a packet used keeps the cache packed.
pub proof fn lemma_marked_packed(c: CacheModel, n: nat, seq: u32)
    requires
        cache_packed(c, n),
    ensures
        cache_packed(marked(c, seq), n),
{
    let m = PACKET_HISTORY_SIZE as int;
    let c2 = marked(c, seq);
    assert forall|o: int| 0 <= o < m implies ((#[trigger] history_at(c2, o) is Invalid) <==> o >= n) by {
        lemma_ring_offset(c.start as int, o, m);
        assert(history_at(c, o) is Invalid <==> o >= n);
    }
}

/// Fragments joining the queue keep the cache packed.
pub proof fn lemma_requeued_packed(c: CacheModel, n: nat, fs: Seq<FragmentModel>)
    requires
        cache_packed(c, n),
    ensures
        cache_packed(CacheModel { queue: c.queue + fs, ..c }, n),
{
    let c2 = CacheModel { queue: c.queue + fs, ..c };
    assert forall|o: int| 0 <= o < PACKET_HISTORY_SIZE implies ((#[trigger] history_at(c2, o) is Invalid) <==> o
        >= n) by {
        assert(history_at(c2, o) == history_at(c, o));
    }
}

proof fn lemma_used_run_bound(c: CacheModel, n: nat, i: nat)
    requires
        cache_packed(c, n),
        i <= n,
    ensures
        used_run(c.histories, c.start as int, i) <= n,
    decreases PACKET_HISTORY_SIZE - i,
{
    if i < PACKET_HISTORY_SIZE && c.histories[slot_of(c.start + i, PACKET_HISTORY_SIZE as int)] is Used {
        assert(history_at(c, i as int) is Used);
        lemma_used_run_bound(c, n, i + 1);
    }
}

proof fn lemma_expired_run_bound(c: CacheModel, n: nat, i: nat, now: u64, rto: u64)
    requires
        cache_packed(c, n),
        i <= n,
    ensures
        expired_run(c.histories, c.start as int, i, now, rto) <= n,
    decreases PACKET_HISTORY_SIZE - i,
{
    if i < PACKET_HISTORY_SIZE && crate::reliability::retransmit_cache::is_expired(
        c.histories,
        c.start as int,
        i as int,
        now,
        rto,
    ) {
        assert(!(history_at(c, i as int) is Invalid));
        lemma_expired_run_bound(c, n, i + 1, now, rto);
    }
}

/// Forgetting the first `count` histories in use and moving the start past
/// them keeps the cache packed with the rest.
proof fn lemma_advance_packed(c: CacheModel, n: nat, count: nat, q: Seq<FragmentModel>)
    requires
        cache_packed(c, n),
        count <= n,
        c.start + count <= u32::MAX,
    ensures
        cache_packed(
            CacheModel {
                histories: invalidate_prefix(c.histories, c.start as int, count as int),
                start: (c.start + count) as u32,
                queue: q,
            },
            (n - count) as nat,
        ),
{
    let m = PACKET_HISTORY_SIZE as int;
    let c2 = CacheModel {
        histories: invalidate_prefix(c.histories, c.start as int, count as int),
        start: (c.start + count) as u32,
        queue: q,
    };
    assert forall|o: int| 0 <= o < m implies ((#[trigger] history_at(c2, o) is Invalid) <==> o >= n - count) by {
        let k = o + count;
        if k < m {
            lemma_ring_offset(c.start as int, k, m);
            assert(c2.start + o == c.start + k);
            assert(history_at(c2, o) == history_at(c, k));
        } else {
            let k2 = k - m;
            lemma_ring_offset(c.start as int, k2, m);
            vstd::arithmetic::div_mod::lemma_mod_add_multiples_vanish(c.start + k2, m);
            assert(slot_of(c2.start + o, m) == slot_of(c.start + k2, m));
            assert(history_at(c2, o) is Invalid);
        }
    }
}

/// Moving the cache past the packets used at its start keeps it packed.
pub proof fn lemma_shifted_packed(c: CacheModel, n: nat)
    requires
        cache_packed(c, n),
        c.start + PACKET_HISTORY_SIZE <= u32::MAX,
    ensures
        cache_packed(cache_shifted(c), (n - used_run(c.histories, c.start as int, 0)) as nat),
{
    lemma_used_run_bound(c, n, 0);
    lemma_advance_packed(c, n, used_run(c.histories, c.start as int, 0), c.queue);
}

/// Giving up on the packets at the start that expired at `now`, their
/// fragments queued to be sent again, keeps the cache packed.
pub proof fn lemma_fetched_packed(c: CacheModel, n: nat, now: u64, rto: u64)
    requires
        cache_packed(c, n),
        c.start + PACKET_HISTORY_SIZE <= u32::MAX,
    ensures
        exists|k: nat| k <= n && #[trigger] cache_packed(fetched(c, now, rto), (n - k) as nat),
{
    let count: nat = if cache_busy(c) {
        expired_run(c.histories, c.start as int, 0, now, rto)
    } else {
        0
    };
    lemma_expired_run_bound(c, n, 0, now, rto);
    lemma_advance_packed(
        c,
        n,
        count,
        c.queue + crate::reliability::retransmit_cache::fragments_below(c.histories, c.start as int, count as int),
    );
    assert(cache_packed(fetched(c, now, rto), (n - count) as nat));
}

} // verus!
