//! The wire form of a list of acknowledged sequence numbers: a 16-bit count
//! of records, each either a single number (type 1) or an inclusive range
//! (type 0). The writer sorts the numbers and merges consecutive ones into
//! ranges; the reader expands the records back into the numbers.
use vstd::prelude::*;

use crate::error::{BytesFault, RukBytesError};
use crate::proto::codec::{
    lemma_split_at, lemma_u16_roundtrip, lemma_u24_le_roundtrip, lemma_u8_roundtrip, parsed,
    put_u16, put_u24_le, put_u8, ser_u16, ser_u24_le, ser_u8, sp_u16, sp_u24_le, sp_u8,
    try_get_u16, try_get_u24_le, try_get_u8,
};

verus! {

/// The numbers `start..=end`.
pub open spec fn range_seq(start: u32, end: u32) -> Seq<u32> {
    if start <= end {
        Seq::new((end - start + 1) as nat, |i: int| (start + i) as u32)
    } else {
        Seq::empty()
    }
}

/// Reads one record at `p`.
pub open spec fn sp_seq_record(s: Seq<u8>, p: int) -> Result<(Seq<u32>, int), BytesFault> {
    match sp_u8(s, p) {
        Err(e) => Err(e),
        Ok((t, p1)) => if t == 0 {
            match sp_u24_le(s, p1) {
                Err(e) => Err(e),
                Ok((start, p2)) => match sp_u24_le(s, p2) {
                    Err(e) => Err(e),
                    Ok((end, p3)) => Ok((range_seq(start, end), p3)),
                },
            }
        } else if t == 1 {
            match sp_u24_le(s, p1) {
                Err(e) => Err(e),
                Ok((v, p2)) => Ok((seq![v], p2)),
            }
        } else {
            Err(BytesFault::Invalid("Invalid seq type"@))
        },
    }
}

/// Reads `n` records at `p` and concatenates their numbers.
pub open spec fn sp_seq_records(s: Seq<u8>, p: int, n: nat) -> Result<(Seq<u32>, int), BytesFault>
    decreases n,
{
    if n == 0 {
        Ok((Seq::empty(), p))
    } else {
        match sp_seq_records(s, p, (n - 1) as nat) {
            Err(e) => Err(e),
            Ok((v, q)) => match sp_seq_record(s, q) {
                Err(e) => Err(e),
                Ok((w, r)) => Ok((v + w, r)),
            },
        }
    }
}

/// Reads a count and that many records at `p`.
#[verifier::opaque]
pub open spec fn sp_seqs(s: Seq<u8>, p: int) -> Result<(Seq<u32>, int), BytesFault> {
    match sp_u16(s, p) {
        Err(e) => Err(e),
        Ok((n, p1)) => sp_seq_records(s, p1, n as nat),
    }
}

/// The ranges closed so far and the open range after the first `k` numbers.
pub open spec fn run_state(s: Seq<u32>, k: nat) -> (Seq<(u32, u32)>, u32, u32)
    decreases k,
{
    if k <= 1 {
        (Seq::empty(), s[0], s[0])
    } else {
        let (r, st, en) = run_state(s, (k - 1) as nat);
        let x = s[k - 1];
        if x == en + 1 {
            (r, st, x)
        } else {
            (r.push((st, en)), x, x)
        }
    }
}

/// The ranges a non-empty list of numbers is written as: runs of
/// consecutive numbers, in the order of the list.
pub open spec fn seq_ranges(s: Seq<u32>) -> Seq<(u32, u32)> {
    let (r, st, en) = run_state(s, s.len());
    r.push((st, en))
}

pub open spec fn ser_range(r: (u32, u32)) -> Seq<u8> {
    if r.0 == r.1 {
        ser_u8(1) + ser_u24_le(r.0)
    } else {
        ser_u8(0) + (ser_u24_le(r.0) + ser_u24_le(r.1))
    }
}

pub open spec fn ser_ranges(rs: Seq<(u32, u32)>) -> Seq<u8>
    decreases rs.len(),
{
    if rs.len() == 0 {
        Seq::empty()
    } else {
        ser_ranges(rs.drop_last()) + ser_range(rs.last())
    }
}

/// The bytes a non-empty list of numbers is written as, in its given order.
#[verifier::opaque]
pub open spec fn ser_seq_list(s: Seq<u32>) -> Seq<u8> {
    ser_u16((seq_ranges(s).len() % 0x10000) as u16) + ser_ranges(seq_ranges(s))
}

pub open spec fn u32_leq() -> spec_fn(u32, u32) -> bool {
    |a: u32, b: u32| a <= b
}

pub open spec fn is_sorted(s: Seq<u32>) -> bool {
    forall|i: int, j: int| 0 <= i < j < s.len() ==> s[i] <= s[j]
}

/// The numbers in ascending order.
pub open spec fn sorted_seqs(s: Seq<u32>) -> Seq<u32> {
    s.sort_by(u32_leq())
}

/// Sorts the numbers in place (`slice::sort_unstable`): the result is in
/// ascending order and holds the same numbers as before.
#[verifier::external_body]
fn sort_unstable_u32(v: &mut Vec<u32>)
    ensures
        final(v)@.to_multiset() == old(v)@.to_multiset(),
        is_sorted(final(v)@),
{
    v.sort_unstable();
}

proof fn lemma_sorted_is_sort(a: Seq<u32>, b: Seq<u32>)
    requires
        b.to_multiset() == a.to_multiset(),
        is_sorted(b),
    ensures
        b == sorted_seqs(a),
{
    let leq = u32_leq();
    assert(vstd::relations::total_ordering(leq));
    a.lemma_sort_by_ensures(leq);
    assert(vstd::relations::sorted_by(b, leq));
    vstd::seq_lib::lemma_sorted_unique(b, sorted_seqs(a), leq);
}

proof fn lemma_run_state(s: Seq<u32>, k: nat)
    requires
        1 <= k <= s.len(),
    ensures
        ({
            let (r, st, en) = run_state(s, k);
            &&& expand(r) + range_seq(st, en) == s.take(k as int)
            &&& st <= en
            &&& r.len() < k
            &&& forall|i: int| 0 <= i < r.len() ==> (#[trigger] r[i]).0 <= r[i].1
        }),
    decreases k,
{
    if k == 1 {
        let (r, st, en) = run_state(s, k);
        assert(range_seq(st, en) =~= seq![s[0]]);
        assert(expand(r) =~= Seq::<u32>::empty());
        assert(s.take(1) =~= seq![s[0]]);
        assert(expand(r) + range_seq(st, en) =~= s.take(k as int));
    } else {
        lemma_run_state(s, (k - 1) as nat);
        let (r, st, en) = run_state(s, (k - 1) as nat);
        let x = s[k - 1];
        assert(s.take(k as int) =~= s.take(k - 1).push(x));
        if x == en + 1 {
            assert(range_seq(st, x) =~= range_seq(st, en).push(x));
            assert(expand(r) + range_seq(st, x) =~= (expand(r) + range_seq(st, en)).push(x));
        } else {
            let r2 = r.push((st, en));
            assert(r2.drop_last() =~= r);
            assert(expand(r2) == expand(r) + range_seq(st, en));
            assert(range_seq(x, x) =~= seq![x]);
            assert(expand(r2) + range_seq(x, x) =~= (expand(r) + range_seq(st, en)).push(x));
        }
    }
}

/// All numbers of the ranges, in order.
pub open spec fn expand(rs: Seq<(u32, u32)>) -> Seq<u32>
    decreases rs.len(),
{
    if rs.len() == 0 {
        Seq::empty()
    } else {
        expand(rs.drop_last()) + range_seq(rs.last().0, rs.last().1)
    }
}

/// The ranges of a non-empty list give back the list, each range is
/// ordered, and there are no more ranges than numbers.
pub proof fn lemma_seq_ranges(s: Seq<u32>)
    requires
        s.len() >= 1,
    ensures
        expand(seq_ranges(s)) == s,
        seq_ranges(s).len() <= s.len(),
        forall|i: int|
            0 <= i < seq_ranges(s).len() ==> (#[trigger] seq_ranges(s)[i]).0 <= seq_ranges(s)[i].1,
{
    lemma_run_state(s, s.len());
    let (r, st, en) = run_state(s, s.len());
    let rs = seq_ranges(s);
    assert(rs.drop_last() =~= r);
    assert(s.take(s.len() as int) =~= s);
    assert forall|i: int| 0 <= i < rs.len() implies (#[trigger] rs[i]).0 <= rs[i].1 by {
        if i < r.len() {
            assert(rs[i] == r[i]);
        }
    }
}

proof fn lemma_range_roundtrip(s: Seq<u8>, p: int, r: (u32, u32))
    requires
        0 <= p,
        p + ser_range(r).len() <= s.len(),
        s.subrange(p, p + ser_range(r).len()) == ser_range(r),
        r.0 <= r.1 < 0x1000000,
    ensures
        sp_seq_record(s, p) == Ok::<(Seq<u32>, int), BytesFault>(
            (range_seq(r.0, r.1), p + ser_range(r).len()),
        ),
{
    if r.0 == r.1 {
        lemma_split_at(s, p, ser_u8(1), ser_u24_le(r.0));
        lemma_u8_roundtrip(s, p, 1);
        lemma_u24_le_roundtrip(s, p + 1, r.0);
        assert(range_seq(r.0, r.1) =~= seq![r.0]);
    } else {
        lemma_split_at(s, p, ser_u8(0), ser_u24_le(r.0) + ser_u24_le(r.1));
        lemma_split_at(s, p + 1, ser_u24_le(r.0), ser_u24_le(r.1));
        lemma_u8_roundtrip(s, p, 0);
        lemma_u24_le_roundtrip(s, p + 1, r.0);
        lemma_u24_le_roundtrip(s, p + 4, r.1);
    }
}

proof fn lemma_ranges_roundtrip(s: Seq<u8>, p: int, rs: Seq<(u32, u32)>)
    requires
        0 <= p,
        p + ser_ranges(rs).len() <= s.len(),
        s.subrange(p, p + ser_ranges(rs).len()) == ser_ranges(rs),
        forall|i: int| 0 <= i < rs.len() ==> (#[trigger] rs[i]).0 <= rs[i].1 < 0x1000000,
    ensures
        sp_seq_records(s, p, rs.len()) == Ok::<(Seq<u32>, int), BytesFault>(
            (expand(rs), p + ser_ranges(rs).len()),
        ),
    decreases rs.len(),
{
    if rs.len() > 0 {
        let init = rs.drop_last();
        let last = rs.last();
        assert(forall|i: int| 0 <= i < init.len() ==> init[i] == rs[i]);
        lemma_split_at(s, p, ser_ranges(init), ser_range(last));
        lemma_ranges_roundtrip(s, p, init);
        assert(last == rs[rs.len() - 1]);
        lemma_range_roundtrip(s, p + ser_ranges(init).len(), last);
        assert((rs.len() - 1) as nat == init.len());
    }
}

/// A non-empty list of 24-bit numbers that makes fewer than 65536 runs,
/// written in its given order and read back, gives itself back: the ranges
/// expand to exactly the numbers.
pub proof fn lemma_seq_list_roundtrip(s: Seq<u8>, p: int, l: Seq<u32>)
    requires
        0 <= p,
        1 <= l.len(),
        seq_ranges(l).len() < 0x10000,
        forall|i: int| 0 <= i < l.len() ==> #[trigger] l[i] < 0x1000000,
        p + ser_seq_list(l).len() <= s.len(),
        s.subrange(p, p + ser_seq_list(l).len()) == ser_seq_list(l),
    ensures
        sp_seqs(s, p) == Ok::<(Seq<u32>, int), BytesFault>((l, p + ser_seq_list(l).len())),
{
    reveal(sp_seqs);
    reveal(ser_seq_list);
    let rs = seq_ranges(l);
    lemma_seq_ranges(l);
    lemma_range_bounds(l);
    let n = (rs.len() % 0x10000) as u16;
    assert(n == rs.len());
    lemma_split_at(s, p, ser_u16(n), ser_ranges(rs));
    lemma_u16_roundtrip(s, p, n);
    lemma_ranges_roundtrip(s, p + 2, rs);
}

proof fn lemma_run_state_bounds(s: Seq<u32>, k: nat, bound: u32)
    requires
        1 <= k <= s.len(),
        forall|i: int| 0 <= i < s.len() ==> #[trigger] s[i] < bound,
    ensures
        ({
            let (r, st, en) = run_state(s, k);
            &&& en < bound
            &&& forall|i: int| 0 <= i < r.len() ==> (#[trigger] r[i]).1 < bound
        }),
    decreases k,
{
    if k > 1 {
        lemma_run_state_bounds(s, (k - 1) as nat, bound);
        let (r, st, en) = run_state(s, (k - 1) as nat);
        assert(s[k - 1] < bound);
        let x = s[k - 1];
        if x != en + 1 {
            let r2 = r.push((st, en));
            assert forall|i: int| 0 <= i < r2.len() implies (#[trigger] r2[i]).1 < bound by {
                if i < r.len() {
                    assert(r2[i] == r[i]);
                }
            }
        }
    } else {
        assert(s[0] < bound);
    }
}

proof fn lemma_range_bounds(l: Seq<u32>)
    requires
        1 <= l.len(),
        forall|i: int| 0 <= i < l.len() ==> #[trigger] l[i] < 0x1000000,
    ensures
        forall|i: int|
            0 <= i < seq_ranges(l).len() ==> (#[trigger] seq_ranges(l)[i]).1 < 0x1000000,
{
    lemma_run_state_bounds(l, l.len(), 0x1000000);
    let (r, st, en) = run_state(l, l.len());
    let rs = seq_ranges(l);
    assert forall|i: int| 0 <= i < rs.len() implies (#[trigger] rs[i]).1 < 0x1000000 by {
        if i < r.len() {
            assert(rs[i] == r[i]);
        }
    }
}

proof fn lemma_records_error_persists(s: Seq<u8>, p: int, i: nat, n: nat, e: BytesFault)
    requires
        i <= n,
        sp_seq_records(s, p, i) == Err::<(Seq<u32>, int), BytesFault>(e),
    ensures
        sp_seq_records(s, p, n) == Err::<(Seq<u32>, int), BytesFault>(e),
    decreases n - i,
{
    if i < n {
        lemma_records_error_persists(s, p, i, (n - 1) as nat, e);
    }
}

fn try_get_seq_record(data: &[u8], pos: usize) -> (r: Result<(Vec<u32>, usize), RukBytesError>)
    requires
        pos <= data@.len(),
    ensures
        parsed(r) == sp_seq_record(data@, pos as int),
        r matches Ok((_, p)) ==> pos < p <= data@.len(),
{
    let (t, p1) = match try_get_u8(data, pos) {
        Ok(x) => x,
        Err(e) => return Err(e),
    };
    if t == 0 {
        let (start, p2) = match try_get_u24_le(data, p1) {
            Ok(x) => x,
            Err(e) => return Err(e),
        };
        let (end, p3) = match try_get_u24_le(data, p2) {
            Ok(x) => x,
            Err(e) => return Err(e),
        };
        let mut v: Vec<u32> = Vec::new();
        if start > end {
            assert(v@ =~= range_seq(start, end));
            return Ok((v, p3));
        }
        let mut x: u32 = start;
        while x <= end
            invariant
                start <= x <= end + 1,
                end < 0x1000000,
                v@ == Seq::new((x - start) as nat, |i: int| (start + i) as u32),
            decreases end + 1 - x,
        {
            v.push(x);
            x += 1;
            assert(v@ =~= Seq::new((x - start) as nat, |i: int| (start + i) as u32));
        }
        assert(v@ =~= range_seq(start, end));
        Ok((v, p3))
    } else if t == 1 {
        let (seq, p2) = match try_get_u24_le(data, p1) {
            Ok(x) => x,
            Err(e) => return Err(e),
        };
        let mut v: Vec<u32> = Vec::new();
        v.push(seq);
        assert(v@ =~= seq![seq]);
        Ok((v, p2))
    } else {
        Err(RukBytesError::invalid_data("Invalid seq type"))
    }
}

/// Reads a list of acknowledged numbers: a count of records, each a single
/// number or an inclusive range, expanded in order.
pub fn try_get_seqs(data: &[u8], pos: usize) -> (r: Result<(Vec<u32>, usize), RukBytesError>)
    requires
        pos <= data@.len(),
    ensures
        parsed(r) == sp_seqs(data@, pos as int),
        r matches Ok((_, p)) ==> pos <= p <= data@.len(),
{
    reveal(sp_seqs);
    let (size, p1) = match try_get_u16(data, pos) {
        Ok(x) => x,
        Err(e) => return Err(e),
    };
    let mut seqs: Vec<u32> = Vec::new();
    let mut p: usize = p1;
    let mut i: u16 = 0;
    while i < size
        invariant
            pos <= p1 <= p <= data@.len(),
            i <= size,
            sp_u16(data@, pos as int) == Ok::<(u16, int), BytesFault>((size, p1 as int)),
            sp_seq_records(data@, p1 as int, i as nat) == Ok::<(Seq<u32>, int), BytesFault>(
                (seqs@, p as int),
            ),
        decreases size - i,
    {
        match try_get_seq_record(data, p) {
            Ok((mut v, q)) => {
                seqs.append(&mut v);
                p = q;
                i += 1;
                assert(sp_seq_records(data@, p1 as int, i as nat) == Ok::<(Seq<u32>, int), BytesFault>(
                    (seqs@, p as int),
                ));
            },
            Err(e) => {
                proof {
                    reveal(sp_seqs);
                    assert(sp_seq_records(data@, p1 as int, (i + 1) as nat) == Err::<(Seq<u32>, int), BytesFault>(e@));
                    lemma_records_error_persists(data@, p1 as int, (i + 1) as nat, size as nat, e@);
                }
                return Err(e);
            },
        }
    }
    Ok((seqs, p))
}

fn put_range(buf: &mut Vec<u8>, r: (u32, u32))
    ensures
        final(buf)@ == old(buf)@ + ser_range(r),
{
    if r.0 == r.1 {
        put_u8(buf, 1);
        put_u24_le(buf, r.0);
    } else {
        put_u8(buf, 0);
        put_u24_le(buf, r.0);
        put_u24_le(buf, r.1);
    }
    assert(final(buf)@ =~= old(buf)@ + ser_range(r));
}

/// Writes a non-empty list of numbers: sorts it in place, merges runs of
/// consecutive numbers into ranges, and writes the count of ranges and each
/// range as a single number or an inclusive range.
pub fn put_seqs(buf: &mut Vec<u8>, seqs: &mut Vec<u32>)
    requires
        old(seqs)@.len() > 0,
        forall|i: int| 0 <= i < old(seqs)@.len() ==> #[trigger] old(seqs)@[i] < u32::MAX,
    ensures
        final(seqs)@ == sorted_seqs(old(seqs)@),
        final(buf)@ == old(buf)@ + ser_seq_list(final(seqs)@),
{
    reveal(ser_seq_list);
    let ghost original = seqs@;
    sort_unstable_u32(seqs);
    proof {
        lemma_sorted_is_sort(original, seqs@);
        broadcast use vstd::seq_lib::group_to_multiset_ensures;

        assert(seqs@.len() == original.len()) by {
            assert(seqs@.to_multiset().len() == seqs@.len());
            assert(original.to_multiset().len() == original.len());
        }
        assert forall|i: int| 0 <= i < seqs@.len() implies #[trigger] seqs@[i] < u32::MAX by {
            assert(seqs@.to_multiset().count(seqs@[i]) > 0);
            assert(original.contains(seqs@[i]));
        }
    }
    let mut ranges: Vec<(u32, u32)> = Vec::new();
    let mut start: u32 = seqs[0];
    let mut end: u32 = seqs[0];
    let mut k: usize = 1;
    while k < seqs.len()
        invariant
            1 <= k <= seqs@.len(),
            forall|i: int| 0 <= i < seqs@.len() ==> #[trigger] seqs@[i] < u32::MAX,
            run_state(seqs@, k as nat) == (ranges@, start, end),
            end == seqs@[k - 1],
        decreases seqs@.len() - k,
    {
        let x = seqs[k];
        if x == end + 1 {
            end = x;
        } else {
            ranges.push((start, end));
            start = x;
            end = x;
        }
        k += 1;
    }
    ranges.push((start, end));
    assert(ranges@ == seq_ranges(seqs@));
    put_u16(buf, (ranges.len() % 0x10000) as u16);
    let ghost b1 = buf@;
    let mut j: usize = 0;
    while j < ranges.len()
        invariant
            j <= ranges@.len(),
            buf@ == b1 + ser_ranges(ranges@.take(j as int)),
        decreases ranges@.len() - j,
    {
        put_range(buf, ranges[j]);
        j += 1;
        assert(ranges@.take(j as int).drop_last() =~= ranges@.take(j - 1));
        assert(buf@ =~= b1 + ser_ranges(ranges@.take(j as int)));
    }
    assert(ranges@.take(ranges@.len() as int) =~= ranges@);
    assert(final(buf)@ =~= old(buf)@ + ser_seq_list(seqs@));
}

/// The places among the first `k` numbers of a list where a number is not
/// one more than the one before it: where a run of consecutive numbers
/// breaks.
pub open spec fn breaks(s: Seq<u32>, k: nat) -> nat
    decreases k,
{
    if k <= 1 {
        0
    } else {
        breaks(s, (k - 1) as nat) + if s[k - 1] == s[k - 2] + 1 {
            0nat
        } else {
            1nat
        }
    }
}

proof fn lemma_run_state_breaks(s: Seq<u32>, k: nat)
    requires
        1 <= k <= s.len(),
    ensures
        run_state(s, k).0.len() == breaks(s, k),
        run_state(s, k).2 == s[k - 1],
    decreases k,
{
    if k > 1 {
        lemma_run_state_breaks(s, (k - 1) as nat);
    }
}

/// How `put_seqs` writes a non-empty list of 24-bit numbers: sorted
/// ascending, keeping every number as often as it came, in one record per
/// run of consecutive numbers, as many records as one more than the breaks
/// between runs; read back, the records give the sorted list.
pub proof fn lemma_ack_runs(l: Seq<u32>)
    requires
        1 <= l.len(),
        forall|i: int| 0 <= i < l.len() ==> #[trigger] l[i] < 0x1000000,
        seq_ranges(sorted_seqs(l)).len() < 0x10000,
    ensures
        is_sorted(sorted_seqs(l)),
        sorted_seqs(l).to_multiset() == l.to_multiset(),
        seq_ranges(sorted_seqs(l)).len() == 1 + breaks(sorted_seqs(l), l.len()),
        sp_seqs(ser_seq_list(sorted_seqs(l)), 0) == Ok::<(Seq<u32>, int), BytesFault>(
            (sorted_seqs(l), ser_seq_list(sorted_seqs(l)).len() as int),
        ),
{
    broadcast use vstd::seq_lib::group_to_multiset_ensures;

    let leq = u32_leq();
    assert(vstd::relations::total_ordering(leq));
    l.lemma_sort_by_ensures(leq);
    let t = sorted_seqs(l);
    assert(t.len() == l.len()) by {
        assert(t.to_multiset().len() == t.len());
        assert(l.to_multiset().len() == l.len());
    }
    assert forall|i: int| 0 <= i < t.len() implies #[trigger] t[i] < 0x1000000 by {
        assert(t.to_multiset().count(t[i]) > 0);
        assert(l.contains(t[i]));
    }
    assert forall|i: int, j: int| 0 <= i < j < t.len() implies t[i] <= t[j] by {
        assert(vstd::relations::sorted_by(t, leq));
        assert(leq(t[i], t[j]));
    }
    lemma_run_state_breaks(t, t.len());
    let b = ser_seq_list(t);
    assert(b.subrange(0, b.len() as int) =~= b);
    lemma_seq_list_roundtrip(b, 0, t);
}

} // verus!
