//! When a fusion operation may join a log of earlier operations.
//!
//! An anyon is consumed once it has been the second anyon of an operation.
//! It is engaged at a time once it has been the first anyon of an operation
//! at that time. An anyon that is neither can still fuse. An operation is
//! legal when both of its anyons can still fuse and nothing between them
//! can: the two are neighbours among the anyons that are left, so that the
//! tree stays planar.

use crate::fusion::fusion::FusionPair;
use vstd::prelude::*;

verus! {

/// Anyon `i` was fused away by an operation of `log`.
pub open spec fn consumed(log: Seq<(u32, FusionPair)>, i: int) -> bool {
    exists|k: int| 0 <= k < log.len() && (#[trigger] log[k]).1.anyon_2 == i
}

/// Anyon `i` is the surviving anyon of an operation that `log` holds at
/// `time`.
pub open spec fn engaged(log: Seq<(u32, FusionPair)>, time: u32, i: int) -> bool {
    exists|k: int| 0 <= k < log.len() && (#[trigger] log[k]).0 == time && log[k].1.anyon_1 == i
}

/// Anyon `i` can take part in an operation at `time`, after `log`.
pub open spec fn fusible(log: Seq<(u32, FusionPair)>, time: u32, i: int) -> bool {
    !consumed(log, i) && !engaged(log, time, i)
}

/// The operation `pair` at `time` may follow `log` in a system of `count`
/// anyons.
pub open spec fn legal(count: int, log: Seq<(u32, FusionPair)>, time: u32, pair: FusionPair) -> bool {
    &&& pair.anyon_1 < pair.anyon_2 < count
    &&& fusible(log, time, pair.anyon_1 as int)
    &&& fusible(log, time, pair.anyon_2 as int)
    &&& forall|i: int| pair.anyon_1 < i < pair.anyon_2 ==> !fusible(log, time, i)
}

/// Every operation of `log` was legal after the operations before it.
pub open spec fn valid_log(count: int, log: Seq<(u32, FusionPair)>) -> bool {
    forall|k: int| 0 <= k < log.len() ==> legal(count, log.take(k), (#[trigger] log[k]).0, log[k].1)
}

/// The times of the operations never fall.
pub open spec fn time_ordered(log: Seq<(u32, FusionPair)>) -> bool {
    forall|i: int, j: int| 0 <= i <= j < log.len() ==> (#[trigger] log[i]).0 <= (#[trigger] log[j]).0
}

/// `ops` is a basis of a system of `count` anyons: a fusion tree that takes
/// all the anyons to one. It has one operation less than there are anyons,
/// its operations stand in the order of their times, and each of them is
/// legal after those before it.
pub open spec fn is_basis(count: int, ops: Seq<(u32, FusionPair)>) -> bool {
    &&& ops.len() == count - 1
    &&& time_ordered(ops)
    &&& valid_log(count, ops)
}

/// A valid log fuses no anyon away twice.
pub proof fn lemma_consumed_once(count: int, log: Seq<(u32, FusionPair)>)
    requires
        valid_log(count, log),
    ensures
        forall|i: int, j: int|
            0 <= i < j < log.len() ==> (#[trigger] log[i]).1.anyon_2 != (#[trigger] log[j]).1.anyon_2,
{
    assert forall|i: int, j: int| 0 <= i < j < log.len() implies (#[trigger] log[i]).1.anyon_2 != (
    #[trigger] log[j]).1.anyon_2 by {
        assert(legal(count, log.take(j), log[j].0, log[j].1));
        assert(log.take(j)[i] == log[i]);
    }
}

/// In a valid log no anyon that was fused away takes part in a later
/// operation.
pub proof fn lemma_consumed_for_good(count: int, log: Seq<(u32, FusionPair)>)
    requires
        valid_log(count, log),
    ensures
        forall|i: int, j: int|
            0 <= i < j < log.len() ==> (#[trigger] log[i]).1.anyon_2 != (#[trigger] log[j]).1.anyon_1,
{
    assert forall|i: int, j: int| 0 <= i < j < log.len() implies (#[trigger] log[i]).1.anyon_2 != (
    #[trigger] log[j]).1.anyon_1 by {
        assert(legal(count, log.take(j), log[j].0, log[j].1));
        assert(log.take(j)[i] == log[i]);
    }
}

/// Two operations of a valid log at the same time have no anyon in common.
pub proof fn lemma_independent_at_one_time(count: int, log: Seq<(u32, FusionPair)>)
    requires
        valid_log(count, log),
    ensures
        forall|i: int, j: int|
            0 <= i < j < log.len() && (#[trigger] log[i]).0 == (#[trigger] log[j]).0 ==> {
                &&& log[i].1.anyon_1 != log[j].1.anyon_1
                &&& log[i].1.anyon_1 != log[j].1.anyon_2
                &&& log[i].1.anyon_2 != log[j].1.anyon_1
                &&& log[i].1.anyon_2 != log[j].1.anyon_2
            },
{
    assert forall|i: int, j: int|
        0 <= i < j < log.len() && (#[trigger] log[i]).0 == (#[trigger] log[j]).0 implies {
        &&& log[i].1.anyon_1 != log[j].1.anyon_1
        &&& log[i].1.anyon_1 != log[j].1.anyon_2
        &&& log[i].1.anyon_2 != log[j].1.anyon_1
        &&& log[i].1.anyon_2 != log[j].1.anyon_2
    } by {
        assert(legal(count, log.take(j), log[j].0, log[j].1));
        assert(log.take(j)[i] == log[i]);
    }
}

/// One more operation consumes its second anyon and nothing else.
pub proof fn lemma_consumed_push(log: Seq<(u32, FusionPair)>, entry: (u32, FusionPair), i: int)
    ensures
        consumed(log.push(entry), i) <==> consumed(log, i) || entry.1.anyon_2 == i,
{
    let longer = log.push(entry);
    if consumed(log, i) {
        let k = choose|k: int| 0 <= k < log.len() && (#[trigger] log[k]).1.anyon_2 == i;
        assert(longer[k] == log[k]);
    }
    if entry.1.anyon_2 == i {
        assert(longer[log.len() as int] == entry);
    }
    if consumed(longer, i) {
        let k = choose|k: int| 0 <= k < longer.len() && (#[trigger] longer[k]).1.anyon_2 == i;
        if k < log.len() {
            assert(longer[k] == log[k]);
        }
    }
}

/// One more operation engages its first anyon at its own time and nothing
/// else.
pub proof fn lemma_engaged_push(
    log: Seq<(u32, FusionPair)>,
    entry: (u32, FusionPair),
    time: u32,
    i: int,
)
    ensures
        engaged(log.push(entry), time, i) <==> engaged(log, time, i) || (entry.0 == time
            && entry.1.anyon_1 == i),
{
    let longer = log.push(entry);
    if engaged(log, time, i) {
        let k = choose|k: int|
            0 <= k < log.len() && (#[trigger] log[k]).0 == time && log[k].1.anyon_1 == i;
        assert(longer[k] == log[k]);
    }
    if entry.0 == time && entry.1.anyon_1 == i {
        assert(longer[log.len() as int] == entry);
    }
    if engaged(longer, time, i) {
        let k = choose|k: int|
            0 <= k < longer.len() && (#[trigger] longer[k]).0 == time && longer[k].1.anyon_1 == i;
        if k < log.len() {
            assert(longer[k] == log[k]);
        }
    }
}

/// `count` flags, all of them `value`.
pub(crate) fn flags(count: usize, value: bool) -> (flags: Vec<bool>)
    ensures
        flags.len() == count,
        forall|i: int| 0 <= i < count ==> flags[i] == value,
{
    let mut flags: Vec<bool> = Vec::new();
    let mut i: usize = 0;
    while i < count
        invariant
            i <= count,
            flags.len() == i,
            forall|j: int| 0 <= j < i ==> flags[j] == value,
        decreases count - i,
    {
        flags.push(value);
        i += 1;
    }
    flags
}

/// For each of `count` anyons, whether it can take part in an operation at
/// `time` after `log`.
pub fn fusible_anyons(count: usize, log: &Vec<(u32, FusionPair)>, time: u32) -> (table: Vec<bool>)
    ensures
        table.len() == count,
        forall|i: int| 0 <= i < count ==> table[i] == fusible(log@, time, i),
{
    let mut table = flags(count, true);
    let mut k: usize = 0;
    while k < log.len()
        invariant
            k <= log.len(),
            table.len() == count,
            forall|i: int| 0 <= i < count ==> table[i] == fusible(log@.take(k as int), time, i),
        decreases log.len() - k,
    {
        let (t, pair) = log[k];
        let ghost before = table@;
        if pair.anyon_2 < count {
            table.set(pair.anyon_2, false);
        }
        if t == time && pair.anyon_1 < count {
            table.set(pair.anyon_1, false);
        }
        proof {
            let shorter = log@.take(k as int);
            assert(log@.take(k as int + 1) == shorter.push(log@[k as int]));
            assert forall|i: int| 0 <= i < count implies table[i] == fusible(
                log@.take(k as int + 1),
                time,
                i,
            ) by {
                lemma_consumed_push(shorter, log@[k as int], i);
                lemma_engaged_push(shorter, log@[k as int], time, i);
                assert(before[i] == fusible(shorter, time, i));
            }
        }
        k += 1;
    }
    proof {
        assert(log@.take(log.len() as int) == log@);
    }
    table
}

/// Whether the operation `pair` at `time` may follow `log` in a system of
/// `count` anyons.
pub fn is_legal(count: usize, log: &Vec<(u32, FusionPair)>, time: u32, pair: &FusionPair) -> (ok:
    bool)
    ensures
        ok == legal(count as int, log@, time, *pair),
{
    if !(pair.anyon_1 < pair.anyon_2 && pair.anyon_2 < count) {
        return false;
    }
    let table = fusible_anyons(count, log, time);
    if !table[pair.anyon_1] || !table[pair.anyon_2] {
        return false;
    }
    let mut i: usize = pair.anyon_1 + 1;
    while i < pair.anyon_2
        invariant
            pair.anyon_1 < i <= pair.anyon_2 < count,
            table.len() == count,
            forall|j: int| 0 <= j < count ==> table[j] == fusible(log@, time, j),
            forall|j: int| pair.anyon_1 < j < i ==> !fusible(log@, time, j),
        decreases pair.anyon_2 - i,
    {
        if table[i] {
            return false;
        }
        i += 1;
    }
    true
}

} // verus!
