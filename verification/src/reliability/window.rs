//! A sliding window over 32-bit indices, stored in a ring of `BUFFER_SIZE`
//! slots, a power of two: index `i` lives in slot `i & (BUFFER_SIZE - 1)`,
//! which is `i % BUFFER_SIZE`. The window starts at
//! `start_index`; it accepts indices below `start_index + BUFFER_SIZE`,
//! shifts over the entries present right from its start, and, for windows
//! of arrival times, gives up on entries that waited too long and reports
//! the indices still missing before them.
use vstd::prelude::*;

use crate::error::BufferOverflowError;

verus! {

/// The mathematical value of a window: its slots, its start, and the
/// furthest index inserted since it last ran empty.
pub struct WindowModel<T> {
    pub slots: Seq<Option<T>>,
    pub start: u32,
    pub furthest: Option<u32>,
}

#[derive(Debug)]
pub struct Window<T, const BUFFER_SIZE: usize> {
    buf: Vec<Option<T>>,
    start_index: u32,
    furthest_index: Option<u32>,
}

/// A ring of `n` slots, `n` a power of two below 2^32.
pub open spec fn ring_size_ok(n: usize) -> bool {
    exists|k: nat| k < 32 && n == vstd::arithmetic::power2::pow2(k)
}

/// The slot of index `index` in a ring of `n` slots.
pub open spec fn slot_of(index: int, n: int) -> int {
    index % n
}

/// How far `shift` may look from the start: up to the furthest index when
/// it is at or after the start, else the whole ring.
pub open spec fn shift_range<T>(w: WindowModel<T>, n: nat) -> nat {
    match w.furthest {
        Some(f) => if f >= w.start {
            (f - w.start + 1) as nat
        } else {
            n
        },
        None => n,
    }
}

/// The number of occupied slots in a row from offset `i` of the start,
/// looking no further than offset `limit`.
pub open spec fn run_from<T>(slots: Seq<Option<T>>, start: int, i: nat, limit: nat) -> nat
    decreases limit - i,
{
    if i >= limit || slots[slot_of(start + i, slots.len() as int)] is None {
        i
    } else {
        run_from(slots, start, i + 1, limit)
    }
}

/// The offset of slot `j` from the slot of `start`, going round the ring.
pub open spec fn ring_offset(j: int, start: int, n: int) -> int {
    (j - start) % n
}

/// The slots with the first `count` slots from `start` emptied.
pub open spec fn clear_prefix<T>(slots: Seq<Option<T>>, start: int, count: nat) -> Seq<Option<T>> {
    Seq::new(
        slots.len(),
        |j: int|
            if ring_offset(j, start, slots.len() as int) < count {
                None
            } else {
                slots[j]
            },
    )
}

/// What `insert` returns: an error when `index` lies at or beyond the end
/// of the window, `false` when the slot is taken, `true` otherwise.
pub open spec fn insert_outcome<T>(w: WindowModel<T>, index: u32, n: nat) -> Result<bool, ()> {
    if w.start + n <= index {
        Err(())
    } else if w.slots[slot_of(index as int, n as int)] is Some {
        Ok(false)
    } else {
        Ok(true)
    }
}

/// The window after `insert`.
pub open spec fn inserted<T>(w: WindowModel<T>, index: u32, value: T, n: nat) -> WindowModel<T> {
    if insert_outcome(w, index, n) == Ok::<bool, ()>(true) {
        WindowModel {
            slots: w.slots.update(slot_of(index as int, n as int), Some(value)),
            start: w.start,
            furthest: Some(
                match w.furthest {
                    Some(f) => if index > f {
                        index
                    } else {
                        f
                    },
                    None => index,
                },
            ),
        }
    } else {
        w
    }
}

/// The number of entries `shift` moves past.
pub open spec fn shift_count<T>(w: WindowModel<T>, n: nat) -> nat {
    run_from(w.slots, w.start as int, 0, shift_range(w, n))
}

/// The window after `shift`.
pub open spec fn shifted<T>(w: WindowModel<T>, n: nat) -> WindowModel<T> {
    let count = shift_count(w, n);
    WindowModel {
        slots: clear_prefix(w.slots, w.start as int, count),
        start: (w.start + count) as u32,
        furthest: match w.furthest {
            Some(f) => if count > 0 && w.start + count - 1 == f {
                None
            } else {
                Some(f)
            },
            None => None,
        },
    }
}

/// An index taken in the window is reported taken when it comes again,
/// and taking one leaves the start where it was; once the index at the
/// start is taken, shifting moves the start past it.
pub proof fn lemma_window_takes_once<T>(w: WindowModel<T>, index: u32, value: T, n: nat)
    requires
        n > 0,
        w.slots.len() == n,
        w.start + n <= u32::MAX,
        w.furthest matches Some(f) ==> f < w.start + n,
    ensures
        insert_outcome(w, index, n) == Ok::<bool, ()>(true) ==> {
            &&& insert_outcome(inserted(w, index, value, n), index, n) == Ok::<bool, ()>(false)
            &&& inserted(w, index, value, n).start == w.start
        },
        insert_outcome(w, w.start, n) == Ok::<bool, ()>(true) ==> shifted(inserted(w, w.start, value, n), n).start
            > w.start,
{
    if insert_outcome(w, w.start, n) == Ok::<bool, ()>(true) {
        let w1 = inserted(w, w.start, value, n);
        let limit = shift_range(w1, n);
        assert(limit >= 1);
        assert(w1.slots[slot_of(w1.start + 0, w1.slots.len() as int)] is Some);
        lemma_run_from_advances(w1.slots, w1.start as int, limit);
        assert(shift_count(w1, n) <= n) by {
            lemma_run_from_le(w1.slots, w1.start as int, 0, limit);
        }
    }
}

proof fn lemma_run_from_advances<T>(slots: Seq<Option<T>>, start: int, limit: nat)
    requires
        limit >= 1,
        slots[slot_of(start, slots.len() as int)] is Some,
    ensures
        run_from(slots, start, 0, limit) >= 1,
{
    assert(slot_of(start + 0, slots.len() as int) == slot_of(start, slots.len() as int));
    lemma_run_from_ge(slots, start, 1, limit);
}

proof fn lemma_run_from_ge<T>(slots: Seq<Option<T>>, start: int, i: nat, limit: nat)
    ensures
        run_from(slots, start, i, limit) >= i,
    decreases limit - i,
{
    if !(i >= limit || slots[slot_of(start + i, slots.len() as int)] is None) {
        lemma_run_from_ge(slots, start, i + 1, limit);
    }
}

proof fn lemma_run_from_le<T>(slots: Seq<Option<T>>, start: int, i: nat, limit: nat)
    requires
        i <= limit,
    ensures
        run_from(slots, start, i, limit) <= limit,
    decreases limit - i,
{
    if !(i >= limit || slots[slot_of(start + i, slots.len() as int)] is None) {
        lemma_run_from_le(slots, start, i + 1, limit);
    }
}

impl<T, const BUFFER_SIZE: usize> View for Window<T, BUFFER_SIZE> {
    type V = WindowModel<T>;

    closed spec fn view(&self) -> WindowModel<T> {
        WindowModel { slots: self.buf@, start: self.start_index, furthest: self.furthest_index }
    }
}

impl<T, const BUFFER_SIZE: usize> Window<T, BUFFER_SIZE> {
    /// The window holds `BUFFER_SIZE` slots and its furthest index lies
    /// before the end of its range.
    pub open spec fn wf(&self) -> bool {
        &&& 0 < BUFFER_SIZE <= u32::MAX
        &&& ring_size_ok(BUFFER_SIZE)
        &&& self@.slots.len() == BUFFER_SIZE
        &&& (self@.furthest matches Some(f) ==> f < self@.start + BUFFER_SIZE)
    }

    pub fn new() -> (w: Self)
        requires
            0 < BUFFER_SIZE <= u32::MAX,
            ring_size_ok(BUFFER_SIZE),
        ensures
            w.wf(),
            w@.slots == Seq::new(BUFFER_SIZE as nat, |_j: int| None::<T>),
            w@.start == 0,
            w@.furthest is None,
    {
        let mut buf: Vec<Option<T>> = Vec::new();
        let mut i: usize = 0;
        while i < BUFFER_SIZE
            invariant
                i <= BUFFER_SIZE,
                buf@ == Seq::new(i as nat, |_j: int| None::<T>),
            decreases BUFFER_SIZE - i,
        {
            buf.push(None);
            i += 1;
            assert(buf@ =~= Seq::new(i as nat, |_j: int| None::<T>));
        }
        Window { buf, start_index: 0, furthest_index: None }
    }

    fn relative_index(index: u32) -> (r: usize)
        requires
            BUFFER_SIZE > 0,
            ring_size_ok(BUFFER_SIZE),
        ensures
            r == slot_of(index as int, BUFFER_SIZE as int),
            r < BUFFER_SIZE,
    {
        let x = index as usize;
        let n = BUFFER_SIZE;
        let mask = n - 1;
        proof {
            let k = choose|k: nat| k < 32 && n == vstd::arithmetic::power2::pow2(k);
            vstd::bits::lemma_usize_low_bits_mask_is_mod(x, k);
            vstd::arithmetic::power2::lemma_pow2_pos(k);
            assert(mask == vstd::bits::low_bits_mask(k) as usize);
        }
        x & mask
    }

    /// The first index of the window.
    pub fn start_index(&self) -> (s: u32)
        ensures
            s == self@.start,
    {
        self.start_index
    }

    /// Puts `value` at `index`. Fails when `index` lies at or beyond the end
    /// of the window; returns `false`, changing nothing, when the slot of
    /// `index` is taken; else fills the slot, raises the furthest index to
    /// `index`, and returns `true`.
    pub fn insert(&mut self, index: u32, value: T) -> (r: Result<bool, BufferOverflowError>)
        requires
            old(self).wf(),
        ensures
            final(self).wf(),
            ({
                let w = old(self)@;
                let slot = slot_of(index as int, BUFFER_SIZE as int);
                match r {
                    Err(_) => {
                        &&& w.start + BUFFER_SIZE <= index
                        &&& final(self)@ == w
                    },
                    Ok(false) => {
                        &&& index < w.start + BUFFER_SIZE
                        &&& w.slots[slot] is Some
                        &&& final(self)@ == w
                    },
                    Ok(true) => {
                        &&& index < w.start + BUFFER_SIZE
                        &&& w.slots[slot] is None
                        &&& final(self)@.slots == w.slots.update(slot, Some(value))
                        &&& final(self)@.start == w.start
                        &&& final(self)@.furthest == Some(
                            match w.furthest {
                                Some(f) => if index > f {
                                    index
                                } else {
                                    f
                                },
                                None => index,
                            },
                        )
                    },
                }
            }),
            match r {
                Ok(b) => insert_outcome(old(self)@, index, BUFFER_SIZE as nat) == Ok::<bool, ()>(b),
                Err(_) => insert_outcome(old(self)@, index, BUFFER_SIZE as nat) == Err::<bool, ()>(()),
            },
            final(self)@ == inserted(old(self)@, index, value, BUFFER_SIZE as nat),
    {
        if self.start_index as u64 + BUFFER_SIZE as u64 <= index as u64 {
            return Err(BufferOverflowError);
        }
        let relative_index = Self::relative_index(index);

        if self.buf[relative_index].is_some() {
            return Ok(false);
        }
        self.buf.set(relative_index, Some(value));

        match self.furthest_index {
            Some(furthest_index) => {
                if index > furthest_index {
                    self.furthest_index = Some(index);
                }
            },
            None => {
                self.furthest_index = Some(index);
            },
        }
        Ok(true)
    }

    /// Moves the start past the entries present in a row from it, emptying
    /// their slots, and returns how many there were. It looks no further
    /// than the furthest index; when the window runs empty up to the
    /// furthest index, the furthest index is forgotten.
    pub fn shift(&mut self) -> (count: usize)
        requires
            old(self).wf(),
            old(self)@.start + BUFFER_SIZE <= u32::MAX,
        ensures
            final(self).wf(),
            ({
                let w = old(self)@;
                let range = shift_range(w, BUFFER_SIZE as nat);
                &&& count == run_from(w.slots, w.start as int, 0, range)
                &&& count <= BUFFER_SIZE
                &&& final(self)@.slots == clear_prefix(w.slots, w.start as int, count as nat)
                &&& final(self)@.start == w.start + count
                &&& final(self)@.furthest == (match w.furthest {
                    Some(f) => if count > 0 && w.start + count - 1 == f {
                        None
                    } else {
                        Some(f)
                    },
                    None => None,
                })
            }),
            count == shift_count(old(self)@, BUFFER_SIZE as nat),
            final(self)@ == shifted(old(self)@, BUFFER_SIZE as nat),
    {
        let ghost w = self@;
        let range: usize = match self.furthest_index {
            Some(f) => if f >= self.start_index {
                (f - self.start_index + 1) as usize
            } else {
                BUFFER_SIZE
            },
            None => BUFFER_SIZE,
        };
        assert(range == shift_range(w, BUFFER_SIZE as nat));
        assert(range <= BUFFER_SIZE);
        let mut count: usize = 0;
        while count < range
            invariant
                w == old(self)@,
                self.wf(),
                self.start_index == w.start,
                self.furthest_index == w.furthest,
                range == shift_range(w, BUFFER_SIZE as nat),
                range <= BUFFER_SIZE,
                count <= range,
                w.start + BUFFER_SIZE <= u32::MAX,
                run_from(w.slots, w.start as int, 0, range as nat) == run_from(
                    w.slots,
                    w.start as int,
                    count as nat,
                    range as nat,
                ),
                self.buf@ == clear_prefix(w.slots, w.start as int, count as nat),
            ensures
                count <= range,
                run_from(w.slots, w.start as int, 0, range as nat) == count,
                self.buf@ == clear_prefix(w.slots, w.start as int, count as nat),
                self.start_index == w.start,
                self.furthest_index == w.furthest,
                self.wf(),
            decreases range - count,
        {
            let relative_index = Self::relative_index_offset(self.start_index, count);
            if self.buf[relative_index].is_none() {
                proof {
                    lemma_clear_prefix_keeps(w.slots, w.start as int, count as nat, relative_index as int);
                    assert(run_from(w.slots, w.start as int, count as nat, range as nat) == count);
                }
                break;
            }
            proof {
                lemma_clear_prefix_keeps(w.slots, w.start as int, count as nat, relative_index as int);
            }
            self.buf.set(relative_index, None);
            proof {
                lemma_clear_prefix_step(w.slots, w.start as int, count as nat);
                assert(self.buf@ =~= clear_prefix(w.slots, w.start as int, (count + 1) as nat));
            }
            count += 1;
        }
        if let Some(furthest_index) = self.furthest_index {
            if count > 0 && self.start_index + count as u32 - 1 == furthest_index {
                self.furthest_index = None;
            }
        }
        self.start_index = self.start_index + count as u32;
        count
    }

    fn relative_index_offset(start: u32, offset: usize) -> (r: usize)
        requires
            BUFFER_SIZE > 0,
            ring_size_ok(BUFFER_SIZE),
            offset < BUFFER_SIZE,
            start + BUFFER_SIZE <= u32::MAX,
        ensures
            r == slot_of(start + offset, BUFFER_SIZE as int),
            r < BUFFER_SIZE,
    {
        Self::relative_index(start + offset as u32)
    }
}

/// Emptying the first `count` slots keeps the slot at offset `count` as it
/// was.
proof fn lemma_clear_prefix_keeps<T>(slots: Seq<Option<T>>, start: int, count: nat, j: int)
    requires
        slots.len() > 0,
        count < slots.len(),
        j == slot_of(start + count, slots.len() as int),
    ensures
        clear_prefix(slots, start, count)[j] == slots[j],
        0 <= j < slots.len(),
{
    let n = slots.len() as int;
    assert(ring_offset(j, start, n) == count) by {
        vstd::arithmetic::div_mod::lemma_mod_bound(start + count, n);
        lemma_ring_offset(start, count as int, n);
    }
}

pub(crate) proof fn lemma_ring_offset(start: int, k: int, n: int)
    requires
        n > 0,
        0 <= k < n,
    ensures
        ring_offset(slot_of(start + k, n), start, n) == k,
        0 <= slot_of(start + k, n) < n,
{
    vstd::arithmetic::div_mod::lemma_mod_bound(start + k, n);
    let j = (start + k) % n;
    vstd::arithmetic::div_mod::lemma_fundamental_div_mod(start + k, n);
    let q = (start + k) / n;
    assert(j - start == n * (-q) + k) by (nonlinear_arith)
        requires
            start + k == n * q + j,
    ;
    vstd::arithmetic::div_mod::lemma_mod_multiples_vanish(-q, k, n);
    vstd::arithmetic::div_mod::lemma_small_mod(k as nat, n as nat);
}

proof fn lemma_clear_prefix_step<T>(slots: Seq<Option<T>>, start: int, count: nat)
    requires
        slots.len() > 0,
        count < slots.len(),
    ensures
        clear_prefix(slots, start, count).update(slot_of(start + count, slots.len() as int), None)
            =~= clear_prefix(slots, start, count + 1),
{
    let n = slots.len() as int;
    let j0 = slot_of(start + count, n);
    lemma_ring_offset(start, count as int, n);
    assert forall|j: int| 0 <= j < n implies #[trigger] clear_prefix(slots, start, count).update(j0, None)[j]
        == clear_prefix(slots, start, count + 1)[j] by {
        vstd::arithmetic::div_mod::lemma_mod_bound(j - start, n);
        if j != j0 {
            assert(ring_offset(j, start, n) != count) by {
                if ring_offset(j, start, n) == count {
                    lemma_offset_determines_slot(j, j0, start, n);
                }
            }
        }
    }
}

pub(crate) proof fn lemma_offset_determines_slot(j: int, j0: int, start: int, n: int)
    requires
        n > 0,
        0 <= j < n,
        0 <= j0 < n,
        ring_offset(j, start, n) == ring_offset(j0, start, n),
    ensures
        j == j0,
{
    vstd::arithmetic::div_mod::lemma_fundamental_div_mod(j - start, n);
    vstd::arithmetic::div_mod::lemma_fundamental_div_mod(j0 - start, n);
    let q1 = (j - start) / n;
    let q2 = (j0 - start) / n;
    assert(j - j0 == (q1 - q2) * n) by (nonlinear_arith)
        requires
            j - start == n * q1 + (j - start) % n,
            j0 - start == n * q2 + (j0 - start) % n,
            (j - start) % n == (j0 - start) % n,
    ;
    if q1 - q2 >= 1 {
        assert((q1 - q2) * n >= n) by (nonlinear_arith)
            requires
                q1 - q2 >= 1,
                n > 0,
        ;
    } else if q1 - q2 <= -1 {
        assert((q1 - q2) * n <= -n) by (nonlinear_arith)
            requires
                q1 - q2 <= -1,
                n > 0,
        ;
    }
}

/// Whether the arrival time at offset `o` from the start lies more than
/// `rto` before `now`.
pub open spec fn is_timed_out(slots: Seq<Option<u64>>, start: int, o: int, now: u64, rto: u64) -> bool {
    slots[slot_of(start + o, slots.len() as int)] matches Some(t) && now - t > rto
}

/// The largest offset below `i` whose entry timed out, or `-1`.
pub open spec fn last_timeout(slots: Seq<Option<u64>>, start: int, i: int, now: u64, rto: u64) -> int
    decreases i,
{
    if i <= 0 {
        -1
    } else if is_timed_out(slots, start, i - 1, now, rto) {
        i - 1
    } else {
        last_timeout(slots, start, i - 1, now, rto)
    }
}

/// The indices of the empty slots at offsets `lo` up to `hi`, from the
/// highest offset down.
pub open spec fn missing_range(slots: Seq<Option<u64>>, start: int, lo: int, hi: int) -> Seq<u32>
    decreases hi - lo,
{
    if hi <= lo {
        Seq::empty()
    } else {
        missing_range(slots, start, lo + 1, hi) + (if slots[slot_of(start + lo, slots.len() as int)] is None {
            seq![(start + lo) as u32]
        } else {
            Seq::empty()
        })
    }
}

/// The slots with the offsets from `lo` up to `hi` emptied.
pub open spec fn clear_span<T>(slots: Seq<Option<T>>, start: int, lo: int, hi: int) -> Seq<Option<T>> {
    Seq::new(
        slots.len(),
        |j: int|
            if lo <= ring_offset(j, start, slots.len() as int) < hi {
                None
            } else {
                slots[j]
            },
    )
}

pub(crate) proof fn lemma_last_timeout(slots: Seq<Option<u64>>, start: int, i: int, now: u64, rto: u64)
    requires
        i >= 0,
    ensures
        -1 <= last_timeout(slots, start, i, now, rto) < i,
        last_timeout(slots, start, i, now, rto) >= 0 ==> is_timed_out(
            slots,
            start,
            last_timeout(slots, start, i, now, rto),
            now,
            rto,
        ),
        forall|o: int|
            last_timeout(slots, start, i, now, rto) < o < i ==> !#[trigger] is_timed_out(
                slots,
                start,
                o,
                now,
                rto,
            ),
    decreases i,
{
    if i > 0 {
        lemma_last_timeout(slots, start, i - 1, now, rto);
    }
}

proof fn lemma_clear_span_step<T>(slots: Seq<Option<T>>, start: int, lo: int, hi: int)
    requires
        slots.len() > 0,
        0 < lo <= hi <= slots.len(),
    ensures
        clear_span(slots, start, lo, hi).update(slot_of(start + lo - 1, slots.len() as int), None)
            =~= clear_span(slots, start, lo - 1, hi),
{
    let n = slots.len() as int;
    let j0 = slot_of(start + lo - 1, n);
    lemma_ring_offset(start, lo - 1, n);
    assert forall|j: int| 0 <= j < n implies #[trigger] clear_span(slots, start, lo, hi).update(j0, None)[j]
        == clear_span(slots, start, lo - 1, hi)[j] by {
        vstd::arithmetic::div_mod::lemma_mod_bound(j - start, n);
        if j != j0 {
            assert(ring_offset(j, start, n) != lo - 1) by {
                if ring_offset(j, start, n) == lo - 1 {
                    lemma_offset_determines_slot(j, j0, start, n);
                }
            }
        }
    }
}

proof fn lemma_clear_span_keeps<T>(slots: Seq<Option<T>>, start: int, lo: int, hi: int, o: int)
    requires
        slots.len() > 0,
        0 <= o < slots.len(),
        o < lo || o >= hi,
    ensures
        clear_span(slots, start, lo, hi)[slot_of(start + o, slots.len() as int)] == slots[slot_of(
            start + o,
            slots.len() as int,
        )],
        0 <= slot_of(start + o, slots.len() as int) < slots.len(),
{
    lemma_ring_offset(start, o, slots.len() as int);
}

/// The window of arrival times after `collect_missing`, and the indices it
/// reports missing.
pub open spec fn collected(w: WindowModel<u64>, now: u64, rto: u64, n: nat) -> (WindowModel<u64>, Seq<u32>) {
    let k = last_timeout(w.slots, w.start as int, shift_range(w, n) as int, now, rto);
    if k < 0 {
        (w, Seq::empty())
    } else {
        (
            WindowModel {
                slots: clear_prefix(w.slots, w.start as int, (k + 1) as nat),
                start: (w.start + k + 1) as u32,
                furthest: w.furthest,
            },
            missing_range(w.slots, w.start as int, 0, k),
        )
    }
}

impl<const BUFFER_SIZE: usize> Window<u64, BUFFER_SIZE> {
    /// Looking from the furthest index down to the start, finds the highest
    /// entry that arrived more than `rto` before `now`. When there is one,
    /// empties every slot from the start up to it, moves the start just past
    /// it, and returns the indices below it that never arrived, highest
    /// first; else changes nothing and returns nothing.
    pub fn collect_missing(&mut self, now: u64, rto: u64) -> (missing: Vec<u32>)
        requires
            old(self).wf(),
            old(self)@.start + BUFFER_SIZE <= u32::MAX,
            forall|j: int|
                0 <= j < old(self)@.slots.len() ==> (#[trigger] old(self)@.slots[j] matches Some(t)
                    ==> t <= now),
        ensures
            final(self).wf(),
            ({
                let w = old(self)@;
                let k = last_timeout(
                    w.slots,
                    w.start as int,
                    shift_range(w, BUFFER_SIZE as nat) as int,
                    now,
                    rto,
                );
                &&& final(self)@.furthest == w.furthest
                &&& if k < 0 {
                    &&& final(self)@ == w
                    &&& missing@ == Seq::<u32>::empty()
                } else {
                    &&& final(self)@.slots == clear_prefix(w.slots, w.start as int, (k + 1) as nat)
                    &&& final(self)@.start == w.start + k + 1
                    &&& missing@ == missing_range(w.slots, w.start as int, 0, k)
                }
            }),
            (final(self)@, missing@) == collected(old(self)@, now, rto, BUFFER_SIZE as nat),
    {
        let ghost w = self@;
        let range: usize = match self.furthest_index {
            Some(f) => if f >= self.start_index {
                (f - self.start_index + 1) as usize
            } else {
                BUFFER_SIZE
            },
            None => BUFFER_SIZE,
        };
        let ghost k = last_timeout(w.slots, w.start as int, range as int, now, rto);
        proof {
            lemma_last_timeout(w.slots, w.start as int, range as int, now, rto);
        }
        let mut missing: Vec<u32> = Vec::with_capacity(16);
        let mut timeout_index: Option<usize> = None;
        let mut i: usize = range;
        while i > 0
            invariant
                w == old(self)@,
                self.wf(),
                self.start_index == w.start,
                self.furthest_index == w.furthest,
                range == shift_range(w, BUFFER_SIZE as nat),
                range <= BUFFER_SIZE,
                w.start + BUFFER_SIZE <= u32::MAX,
                i <= range,
                k == last_timeout(w.slots, w.start as int, range as int, now, rto),
                -1 <= k < range,
                k >= 0 ==> is_timed_out(w.slots, w.start as int, k, now, rto),
                forall|o: int| k < o < range ==> !#[trigger] is_timed_out(w.slots, w.start as int, o, now, rto),
                forall|j: int| 0 <= j < w.slots.len() ==> (#[trigger] w.slots[j] matches Some(t) ==> t <= now),
                timeout_index == (if k >= i { Some(k as usize) } else { None::<usize> }),
                self.buf@ == clear_span(w.slots, w.start as int, i as int, if k >= i { k + 1 } else { i as int }),
                missing@ == (if k >= i { missing_range(w.slots, w.start as int, i as int, k) } else { Seq::<u32>::empty() }),
            decreases i,
        {
            let o = i - 1;
            let relative_index = Self::relative_index_offset(self.start_index, o);
            let hi = Ghost(if k >= i { k + 1 } else { i as int });
            proof {
                lemma_clear_span_keeps(w.slots, w.start as int, i as int, hi@, o as int);
            }
            match self.buf[relative_index] {
                Some(time_recved) => {
                    if timeout_index.is_some() {
                        self.buf.set(relative_index, None);
                        proof {
                            lemma_clear_span_step(w.slots, w.start as int, i as int, hi@);
                        }
                    } else if now - time_recved > rto {
                        assert(is_timed_out(w.slots, w.start as int, o as int, now, rto));
                        assert(k == o);
                        timeout_index = Some(o);
                        self.buf.set(relative_index, None);
                        proof {
                            lemma_clear_span_step(w.slots, w.start as int, i as int, i as int);
                            assert(missing_range(w.slots, w.start as int, o as int, k) =~= Seq::<u32>::empty());
                        }
                    } else {
                        assert(!is_timed_out(w.slots, w.start as int, o as int, now, rto));
                        assert(k != o);
                        assert(self.buf@ =~= clear_span(w.slots, w.start as int, o as int, o as int));
                    }
                },
                None => {
                    if timeout_index.is_some() {
                        missing.push(self.start_index + o as u32);
                        proof {
                            assert(missing@ =~= missing_range(w.slots, w.start as int, o as int, k));
                            assert(self.buf@ =~= clear_span(w.slots, w.start as int, o as int, k + 1)) by {
                                lemma_clear_span_step(w.slots, w.start as int, i as int, hi@);
                                assert(self.buf@.update(relative_index as int, None) =~= self.buf@);
                            }
                        }
                    } else {
                        assert(k != o);
                        assert(self.buf@ =~= clear_span(w.slots, w.start as int, o as int, o as int));
                    }
                },
            }
            i = o;
        }
        if let Some(index) = timeout_index {
            self.start_index += index as u32 + 1;
            assert(self.buf@ =~= clear_prefix(w.slots, w.start as int, (k + 1) as nat));
        } else {
            assert(self.buf@ =~= w.slots);
            assert(self@ =~= w);
        }
        missing
    }
}

/// The indices reported missing lie below `start + hi`.
pub(crate) proof fn lemma_missing_range_below(slots: Seq<Option<u64>>, start: int, lo: int, hi: int)
    requires
        0 <= lo,
        0 <= start,
        start + hi <= u32::MAX,
    ensures
        forall|i: int|
            0 <= i < missing_range(slots, start, lo, hi).len() ==> #[trigger] missing_range(
                slots,
                start,
                lo,
                hi,
            )[i] < start + hi,
    decreases hi - lo,
{
    if lo < hi {
        lemma_missing_range_below(slots, start, lo + 1, hi);
        let r = missing_range(slots, start, lo + 1, hi);
        let m = missing_range(slots, start, lo, hi);
        assert forall|i: int| 0 <= i < m.len() implies #[trigger] m[i] < start + hi by {
            if i < r.len() {
                assert(m[i] == r[i]);
            } else {
                assert(m[i] == (start + lo) as u32);
            }
        }
    }
}

} // verus!
