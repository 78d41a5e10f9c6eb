//! The level view of a log of fusion operations: one level for each time
//! step at which something fuses, the levels in the order of their times.
//!
//! The view does not depend on the order in which operations at different
//! times were logged. Within a level the pairs stand in the order of the log.

use crate::fusion::fusion::FusionPair;
use crate::fusion::legality::{legal, time_ordered, valid_log};
use vstd::prelude::*;
use vstd::seq_lib::{lemma_multiset_commutative, to_multiset_build};

verus! {

/// The pairs of the operations of `log` at `time`, in the order of the log.
pub open spec fn pairs_at(log: Seq<(u32, FusionPair)>, time: u32) -> Seq<FusionPair>
    decreases log.len(),
{
    if log.len() == 0 {
        Seq::empty()
    } else if log.last().0 == time {
        pairs_at(log.drop_last(), time).push(log.last().1)
    } else {
        pairs_at(log.drop_last(), time)
    }
}

/// Some level of `levels` is at `time`.
pub open spec fn has_level(levels: Seq<(u32, Seq<FusionPair>)>, time: u32) -> bool {
    exists|j: int| 0 <= j < levels.len() && (#[trigger] levels[j]).0 == time
}

/// `levels` is the level view of `log`: the times of its levels rise, each
/// time at which `log` has an operation has its level, and a level holds
/// just the pairs that `log` has at its time, of which there is at least one.
pub open spec fn is_level_view(
    log: Seq<(u32, FusionPair)>,
    levels: Seq<(u32, Seq<FusionPair>)>,
) -> bool {
    &&& forall|i: int, j: int|
        0 <= i < j < levels.len() ==> (#[trigger] levels[i]).0 < (#[trigger] levels[j]).0
    &&& forall|j: int|
        0 <= j < levels.len() ==> (#[trigger] levels[j]).1.len() > 0 && levels[j].1 == pairs_at(
            log,
            levels[j].0,
        )
    &&& forall|k: int| 0 <= k < log.len() ==> has_level(levels, (#[trigger] log[k]).0)
}

/// The levels as plain values.
pub open spec fn level_views(levels: Seq<(u32, Vec<FusionPair>)>) -> Seq<(u32, Seq<FusionPair>)> {
    Seq::new(levels.len(), |j: int| (levels[j].0, levels[j].1@))
}

/// The operations of the levels, level after level, each with the time of
/// its level.
pub open spec fn flatten(levels: Seq<(u32, Seq<FusionPair>)>) -> Seq<(u32, FusionPair)>
    decreases levels.len(),
{
    if levels.len() == 0 {
        Seq::empty()
    } else {
        flatten(levels.drop_last()) + stamped(levels.last().0, levels.last().1)
    }
}

/// The pairs, each with `time`.
pub open spec fn stamped(time: u32, pairs: Seq<FusionPair>) -> Seq<(u32, FusionPair)> {
    Seq::new(pairs.len(), |i: int| (time, pairs[i]))
}

/// The pairs of the levels, level after level: the order in which a tree is
/// evaluated.
pub open spec fn pairs_in_order(levels: Seq<(u32, Seq<FusionPair>)>) -> Seq<FusionPair> {
    Seq::new(flatten(levels).len(), |k: int| flatten(levels)[k].1)
}

/// Every pair joins two anyons of a system of `count` anyons, the first
/// before the second.
pub open spec fn in_range(count: int, pairs: Seq<FusionPair>) -> bool {
    forall|i: int| 0 <= i < pairs.len() ==> (#[trigger] pairs[i]).anyon_1 < pairs[i].anyon_2 < count
}

/// The pairs that a valid log has at a time are in range.
pub proof fn lemma_pairs_of_valid_log(count: int, log: Seq<(u32, FusionPair)>, time: u32)
    requires
        valid_log(count, log),
    ensures
        in_range(count, pairs_at(log, time)),
    decreases log.len(),
{
    if log.len() > 0 {
        let shorter = log.drop_last();
        assert forall|k: int| 0 <= k < shorter.len() implies legal(
            count,
            shorter.take(k),
            (#[trigger] shorter[k]).0,
            shorter[k].1,
        ) by {
            assert(shorter.take(k) == log.take(k));
            assert(shorter[k] == log[k]);
        }
        lemma_pairs_of_valid_log(count, shorter, time);
        let at = log.len() - 1;
        assert(log.take(at) == shorter);
        assert(legal(count, log.take(at), log[at].0, log[at].1));
    }
}

/// The pairs of every level are in range.
pub open spec fn levels_in_range(count: int, levels: Seq<(u32, Seq<FusionPair>)>) -> bool {
    forall|j: int| 0 <= j < levels.len() ==> in_range(count, (#[trigger] levels[j]).1)
}

/// The pairs of the levels of a valid log are in range.
pub proof fn lemma_levels_of_valid_log(
    count: int,
    log: Seq<(u32, FusionPair)>,
    levels: Seq<(u32, Seq<FusionPair>)>,
)
    requires
        valid_log(count, log),
        is_level_view(log, levels),
    ensures
        levels_in_range(count, levels),
{
    assert forall|j: int| 0 <= j < levels.len() implies in_range(count, (#[trigger] levels[j]).1) by {
        lemma_pairs_of_valid_log(count, log, levels[j].0);
    }
}

/// Where the pairs of every level are in range, so are the pairs of the
/// tree in the order of evaluation.
pub proof fn lemma_order_in_range(count: int, levels: Seq<(u32, Seq<FusionPair>)>)
    requires
        levels_in_range(count, levels),
    ensures
        in_range(count, pairs_in_order(levels)),
    decreases levels.len(),
{
    if levels.len() > 0 {
        let fewer = levels.drop_last();
        assert forall|j: int| 0 <= j < fewer.len() implies in_range(count, (#[trigger] fewer[j]).1) by {
            assert(fewer[j] == levels[j]);
        }
        lemma_order_in_range(count, fewer);
        let top = levels[levels.len() - 1];
        let head = flatten(fewer);
        let tail = stamped(top.0, top.1);
        assert(flatten(levels) == head + tail);
        assert forall|i: int| 0 <= i < pairs_in_order(levels).len() implies (#[trigger] pairs_in_order(
            levels,
        )[i]).anyon_1 < pairs_in_order(levels)[i].anyon_2 < count by {
            if i < head.len() {
                assert(pairs_in_order(fewer)[i] == head[i].1);
            } else {
                assert(top.1[i - head.len()] == tail[i - head.len()].1);
            }
        }
    }
}

/// A time at which `log` has no operation has no pairs.
pub proof fn lemma_no_pairs_at_unused_time(log: Seq<(u32, FusionPair)>, time: u32)
    requires
        forall|k: int| 0 <= k < log.len() ==> (#[trigger] log[k]).0 != time,
    ensures
        pairs_at(log, time) == Seq::<FusionPair>::empty(),
    decreases log.len(),
{
    if log.len() > 0 {
        let shorter = log.drop_last();
        assert forall|k: int| 0 <= k < shorter.len() implies (#[trigger] shorter[k]).0 != time by {
            assert(shorter[k] == log[k]);
        }
        lemma_no_pairs_at_unused_time(shorter, time);
        assert(log.last() == log[log.len() - 1]);
    }
}

/// The operations of `log` at `time`, in the order of the log.
spec fn at_time(log: Seq<(u32, FusionPair)>, time: u32) -> Seq<(u32, FusionPair)>
    decreases log.len(),
{
    if log.len() == 0 {
        Seq::empty()
    } else if log.last().0 == time {
        at_time(log.drop_last(), time).push(log.last())
    } else {
        at_time(log.drop_last(), time)
    }
}

/// The operations of `log` at other times than `time`, in the order of the
/// log.
spec fn not_at_time(log: Seq<(u32, FusionPair)>, time: u32) -> Seq<(u32, FusionPair)>
    decreases log.len(),
{
    if log.len() == 0 {
        Seq::empty()
    } else if log.last().0 == time {
        not_at_time(log.drop_last(), time)
    } else {
        not_at_time(log.drop_last(), time).push(log.last())
    }
}

/// The pairs at a time, with that time, are the operations at that time.
proof fn lemma_stamped_pairs(log: Seq<(u32, FusionPair)>, time: u32)
    ensures
        stamped(time, pairs_at(log, time)) == at_time(log, time),
    decreases log.len(),
{
    if log.len() > 0 {
        lemma_stamped_pairs(log.drop_last(), time);
    }
    assert(stamped(time, pairs_at(log, time)) =~= at_time(log, time));
}

/// A log holds its operations at a time and its operations at other times,
/// and nothing else.
proof fn lemma_split_by_time(log: Seq<(u32, FusionPair)>, time: u32)
    ensures
        log.to_multiset() == at_time(log, time).to_multiset().add(
            not_at_time(log, time).to_multiset(),
        ),
    decreases log.len(),
{
    broadcast use vstd::multiset::group_multiset_axioms;

    if log.len() == 0 {
        log.to_multiset_ensures();
        assert forall|e: (u32, FusionPair)| log.to_multiset().count(e) == 0 by {
            assert(!log.contains(e));
        }
        assert(at_time(log, time) =~= log && not_at_time(log, time) =~= log);
        assert(log.to_multiset() =~= log.to_multiset().add(log.to_multiset()));
    } else {
        let shorter = log.drop_last();
        lemma_split_by_time(shorter, time);
        assert(log == shorter.push(log.last()));
        to_multiset_build(shorter, log.last());
        to_multiset_build(at_time(shorter, time), log.last());
        to_multiset_build(not_at_time(shorter, time), log.last());
        assert(log.to_multiset() =~= at_time(log, time).to_multiset().add(
            not_at_time(log, time).to_multiset(),
        ));
    }
}

/// Taking the operations at one time away leaves the pairs at every other
/// time as they were.
proof fn lemma_pairs_after_removal(log: Seq<(u32, FusionPair)>, removed: u32, time: u32)
    requires
        removed != time,
    ensures
        pairs_at(not_at_time(log, removed), time) == pairs_at(log, time),
    decreases log.len(),
{
    if log.len() > 0 {
        let shorter = log.drop_last();
        lemma_pairs_after_removal(shorter, removed, time);
        if log.last().0 != removed {
            let kept = not_at_time(log, removed);
            assert(kept.drop_last() == not_at_time(shorter, removed));
            assert(kept.last() == log.last());
        }
    }
}

/// What is left when the operations at one time are taken away are
/// operations of the log at other times.
proof fn lemma_removal_members(log: Seq<(u32, FusionPair)>, removed: u32, k: int)
    requires
        0 <= k < not_at_time(log, removed).len(),
    ensures
        not_at_time(log, removed)[k].0 != removed,
        log.contains(not_at_time(log, removed)[k]),
    decreases log.len(),
{
    if log.len() > 0 {
        let shorter = log.drop_last();
        let kept = not_at_time(shorter, removed);
        if k < kept.len() {
            lemma_removal_members(shorter, removed, k);
            let w = choose|w: int| 0 <= w < shorter.len() && shorter[w] == kept[k];
            assert(log[w] == kept[k]);
        } else {
            assert(log[log.len() - 1] == log.last());
        }
    }
}

/// A log with no operation at a time has nothing to take away at that time.
proof fn lemma_nothing_at_time(log: Seq<(u32, FusionPair)>, time: u32)
    requires
        forall|k: int| 0 <= k < log.len() ==> (#[trigger] log[k]).0 != time,
    ensures
        at_time(log, time) == Seq::<(u32, FusionPair)>::empty(),
        not_at_time(log, time) == log,
    decreases log.len(),
{
    if log.len() > 0 {
        let shorter = log.drop_last();
        assert forall|k: int| 0 <= k < shorter.len() implies (#[trigger] shorter[k]).0 != time by {
            assert(shorter[k] == log[k]);
        }
        lemma_nothing_at_time(shorter, time);
        assert(log.last() == log[log.len() - 1]);
        assert(log == shorter.push(log.last()));
    } else {
        assert(not_at_time(log, time) =~= log);
    }
}

/// In a log in the order of its times, the operations at the last time
/// stand at the end.
proof fn lemma_last_time_at_end(log: Seq<(u32, FusionPair)>, time: u32)
    requires
        time_ordered(log),
        forall|k: int| 0 <= k < log.len() ==> (#[trigger] log[k]).0 <= time,
    ensures
        log == not_at_time(log, time) + at_time(log, time),
        time_ordered(not_at_time(log, time)),
    decreases log.len(),
{
    if log.len() == 0 {
        assert(log =~= not_at_time(log, time) + at_time(log, time));
    } else {
        let shorter = log.drop_last();
        let end = log.len() - 1;
        assert(log.last() == log[end]);
        assert forall|k: int| 0 <= k < shorter.len() implies (#[trigger] shorter[k]).0 <= log[end].0
            && shorter[k] == log[k] by {
            assert(shorter[k] == log[k]);
        }
        assert(time_ordered(shorter)) by {
            assert forall|i: int, j: int| 0 <= i <= j < shorter.len() implies (#[trigger] shorter[i]).0
                <= (#[trigger] shorter[j]).0 by {
                assert(shorter[i] == log[i] && shorter[j] == log[j]);
            }
        }
        if log[end].0 == time {
            lemma_last_time_at_end(shorter, time);
            assert(log == shorter.push(log.last()));
            assert(not_at_time(log, time) + at_time(log, time) =~= (not_at_time(shorter, time)
                + at_time(shorter, time)).push(log.last()));
        } else {
            lemma_nothing_at_time(shorter, time);
            assert(not_at_time(log, time) == shorter.push(log.last()));
            assert(log =~= not_at_time(log, time) + at_time(log, time));
        }
    }
}

/// The operations of levels with rising times stand in the order of their
/// times, none of them after the time of the last level.
proof fn lemma_flatten_time_ordered(levels: Seq<(u32, Seq<FusionPair>)>)
    requires
        forall|i: int, j: int|
            0 <= i < j < levels.len() ==> (#[trigger] levels[i]).0 < (#[trigger] levels[j]).0,
    ensures
        time_ordered(flatten(levels)),
        forall|k: int|
            0 <= k < flatten(levels).len() ==> (#[trigger] flatten(levels)[k]).0 <= levels.last().0,
    decreases levels.len(),
{
    if levels.len() > 0 {
        let fewer = levels.drop_last();
        let top = levels[levels.len() - 1];
        assert forall|i: int, j: int| 0 <= i < j < fewer.len() implies (#[trigger] fewer[i]).0 < (
        #[trigger] fewer[j]).0 by {
            assert(fewer[i] == levels[i] && fewer[j] == levels[j]);
        }
        lemma_flatten_time_ordered(fewer);
        let head = flatten(fewer);
        let tail = stamped(top.0, top.1);
        let all = flatten(levels);
        assert(all == head + tail);
        assert forall|k: int| 0 <= k < all.len() implies (#[trigger] all[k]).0 <= top.0 && (k
            < head.len() ==> all[k].0 < top.0) by {
            if k < head.len() {
                assert(all[k] == head[k]);
                assert(fewer.last() == levels[levels.len() - 2]);
            } else {
                assert(all[k] == tail[k - head.len()]);
            }
        }
        assert forall|i: int, j: int| 0 <= i <= j < all.len() implies (#[trigger] all[i]).0 <= (
        #[trigger] all[j]).0 by {
            if j < head.len() {
                assert(all[i] == head[i] && all[j] == head[j]);
            } else if i >= head.len() {
                assert(all[i] == tail[i - head.len()] && all[j] == tail[j - head.len()]);
            } else {
                assert(all[j] == tail[j - head.len()]);
            }
        }
    }
}

/// The level view of a log, flattened again, holds the operations of the
/// log and no others, each as often as the log holds it, in the order of
/// their times. Operations at one time keep the order they had in the log,
/// so a log that was in the order of its times comes back as it was.
pub proof fn lemma_level_view_round_trip(
    log: Seq<(u32, FusionPair)>,
    levels: Seq<(u32, Seq<FusionPair>)>,
)
    requires
        is_level_view(log, levels),
    ensures
        flatten(levels).to_multiset() == log.to_multiset(),
        time_ordered(flatten(levels)),
        time_ordered(log) ==> flatten(levels) == log,
    decreases levels.len(),
{
    lemma_flatten_time_ordered(levels);
    if levels.len() == 0 {
        if log.len() > 0 {
            assert(has_level(levels, log[0].0));
        }
        assert(flatten(levels) =~= log);
    } else {
        let fewer = levels.drop_last();
        let top = levels[levels.len() - 1];
        let rest = not_at_time(log, top.0);
        assert forall|j: int| 0 <= j < fewer.len() implies (#[trigger] fewer[j]).1.len() > 0
            && fewer[j].1 == pairs_at(rest, fewer[j].0) by {
            assert(fewer[j] == levels[j]);
            assert(levels[j].0 < levels[levels.len() - 1].0);
            lemma_pairs_after_removal(log, top.0, fewer[j].0);
        }
        assert forall|i: int, j: int| 0 <= i < j < fewer.len() implies (#[trigger] fewer[i]).0 < (
        #[trigger] fewer[j]).0 by {
            assert(fewer[i] == levels[i] && fewer[j] == levels[j]);
        }
        assert forall|k: int| 0 <= k < rest.len() implies has_level(fewer, (#[trigger] rest[k]).0) by {
            lemma_removal_members(log, top.0, k);
            let w = choose|w: int| 0 <= w < log.len() && log[w] == rest[k];
            assert(has_level(levels, log[w].0));
            let j = choose|j: int| 0 <= j < levels.len() && (#[trigger] levels[j]).0 == log[w].0;
            assert(fewer[j] == levels[j]);
        }
        assert(is_level_view(rest, fewer));
        lemma_level_view_round_trip(rest, fewer);
        lemma_stamped_pairs(log, top.0);
        lemma_split_by_time(log, top.0);
        let head = flatten(fewer);
        let tail = at_time(log, top.0);
        assert(flatten(levels) == head + tail);
        lemma_multiset_commutative(head, tail);
        assert(flatten(levels).to_multiset() =~= log.to_multiset()) by {
            broadcast use vstd::multiset::group_multiset_axioms;

        }
        if time_ordered(log) {
            assert forall|k: int| 0 <= k < log.len() implies (#[trigger] log[k]).0 <= top.0 by {
                assert(has_level(levels, log[k].0));
                let j = choose|j: int| 0 <= j < levels.len() && (#[trigger] levels[j]).0 == log[k].0;
                if j < levels.len() - 1 {
                    assert(levels[j].0 < levels[levels.len() - 1].0);
                }
            }
            lemma_last_time_at_end(log, top.0);
        }
    }
}

/// Levels with rising times that have the same times are at the same times
/// in the same order.
proof fn lemma_same_times(first: Seq<(u32, Seq<FusionPair>)>, second: Seq<(u32, Seq<FusionPair>)>)
    requires
        forall|i: int, j: int|
            0 <= i < j < first.len() ==> (#[trigger] first[i]).0 < (#[trigger] first[j]).0,
        forall|i: int, j: int|
            0 <= i < j < second.len() ==> (#[trigger] second[i]).0 < (#[trigger] second[j]).0,
        forall|t: u32| has_level(first, t) <==> has_level(second, t),
    ensures
        first.len() == second.len(),
        forall|j: int| 0 <= j < first.len() ==> (#[trigger] first[j]).0 == second[j].0,
    decreases first.len(),
{
    if first.len() == 0 {
        if second.len() > 0 {
            assert(has_level(second, second[0].0));
        }
    } else {
        let top = first[first.len() - 1];
        assert(has_level(first, top.0));
        assert(has_level(second, top.0));
        let at = choose|at: int| 0 <= at < second.len() && (#[trigger] second[at]).0 == top.0;
        if at < second.len() - 1 {
            let other = second[second.len() - 1];
            assert(has_level(second, other.0));
            let back = choose|back: int|
                0 <= back < first.len() && (#[trigger] first[back]).0 == other.0;
            assert(second[at].0 < second[second.len() - 1].0);
            if back < first.len() - 1 {
                assert(first[back].0 < first[first.len() - 1].0);
            }
        }
        let first_rest = first.drop_last();
        let second_rest = second.drop_last();
        assert forall|t: u32| has_level(first_rest, t) <==> has_level(second_rest, t) by {
            if has_level(first_rest, t) {
                let i = choose|i: int| 0 <= i < first_rest.len() && (#[trigger] first_rest[i]).0 == t;
                assert(first[i].0 == t);
                assert(first[i].0 < first[first.len() - 1].0);
                assert(has_level(first, t));
                let j = choose|j: int| 0 <= j < second.len() && (#[trigger] second[j]).0 == t;
                assert(second_rest[j].0 == t);
            }
            if has_level(second_rest, t) {
                let j = choose|j: int|
                    0 <= j < second_rest.len() && (#[trigger] second_rest[j]).0 == t;
                assert(second[j].0 == t);
                assert(second[j].0 < second[second.len() - 1].0);
                assert(has_level(second, t));
                let i = choose|i: int| 0 <= i < first.len() && (#[trigger] first[i]).0 == t;
                assert(first_rest[i].0 == t);
            }
        }
        assert forall|i: int, j: int| 0 <= i < j < first_rest.len() implies (
        #[trigger] first_rest[i]).0 < (#[trigger] first_rest[j]).0 by {
            assert(first_rest[i] == first[i] && first_rest[j] == first[j]);
        }
        assert forall|i: int, j: int| 0 <= i < j < second_rest.len() implies (
        #[trigger] second_rest[i]).0 < (#[trigger] second_rest[j]).0 by {
            assert(second_rest[i] == second[i] && second_rest[j] == second[j]);
        }
        lemma_same_times(first_rest, second_rest);
        assert forall|j: int| 0 <= j < first.len() implies (#[trigger] first[j]).0
            == second[j].0 by {
            if j < first.len() - 1 {
                assert(first_rest[j] == first[j]);
                assert(second_rest[j] == second[j]);
            }
        }
    }
}

/// A time has a level in the level view of a log just when the log has an
/// operation at that time.
proof fn lemma_levels_are_times_of_log(
    log: Seq<(u32, FusionPair)>,
    levels: Seq<(u32, Seq<FusionPair>)>,
    time: u32,
)
    requires
        is_level_view(log, levels),
    ensures
        has_level(levels, time) <==> exists|k: int|
            0 <= k < log.len() && (#[trigger] log[k]).0 == time,
{
    if has_level(levels, time) {
        let j = choose|j: int| 0 <= j < levels.len() && (#[trigger] levels[j]).0 == time;
        if forall|k: int| 0 <= k < log.len() ==> (#[trigger] log[k]).0 != time {
            lemma_no_pairs_at_unused_time(log, time);
            assert(levels[j].1.len() > 0);
        }
    }
    if exists|k: int| 0 <= k < log.len() && (#[trigger] log[k]).0 == time {
        let k = choose|k: int| 0 <= k < log.len() && (#[trigger] log[k]).0 == time;
        assert(has_level(levels, log[k].0));
    }
}

/// A log has one level view and no other.
pub proof fn lemma_level_view_unique(
    log: Seq<(u32, FusionPair)>,
    first: Seq<(u32, Seq<FusionPair>)>,
    second: Seq<(u32, Seq<FusionPair>)>,
)
    requires
        is_level_view(log, first),
        is_level_view(log, second),
    ensures
        first == second,
{
    assert forall|t: u32| has_level(first, t) <==> has_level(second, t) by {
        lemma_levels_are_times_of_log(log, first, t);
        lemma_levels_are_times_of_log(log, second, t);
    }
    lemma_same_times(first, second);
    assert forall|j: int| 0 <= j < first.len() implies first[j] == second[j] by {
        assert(first[j].0 == second[j].0);
        assert(first[j].1 == pairs_at(log, first[j].0));
        assert(second[j].1 == pairs_at(log, second[j].0));
    }
    assert(first =~= second);
}

/// Groups the operations of `log` into levels.
pub fn assemble_levels(log: &Vec<(u32, FusionPair)>) -> (levels: Vec<(u32, Vec<FusionPair>)>)
    ensures
        is_level_view(log@, level_views(levels@)),
{
    let mut levels: Vec<(u32, Vec<FusionPair>)> = Vec::new();
    let mut k: usize = 0;
    while k < log.len()
        invariant
            k <= log.len(),
            is_level_view(log@.take(k as int), level_views(levels@)),
        decreases log.len() - k,
    {
        let (time, pair) = log[k];
        let ghost seen = log@.take(k as int);
        let ghost longer = log@.take(k as int + 1);
        let ghost before = level_views(levels@);
        proof {
            assert(longer.drop_last() == seen);
            assert(longer.last() == (time, pair));
            assert forall|t: u32| t != time implies pairs_at(longer, t) == pairs_at(seen, t) by {}
            assert(pairs_at(longer, time) == pairs_at(seen, time).push(pair));
        }
        let mut j: usize = 0;
        while j < levels.len() && levels[j].0 < time
            invariant
                j <= levels.len(),
                forall|i: int| 0 <= i < j ==> (#[trigger] levels@[i]).0 < time,
            decreases levels.len() - j,
        {
            j += 1;
        }
        let ghost earlier = levels@;
        assert(forall|i: int| 0 <= i < before.len() ==> (#[trigger] before[i]).0 == earlier[i].0);
        if j < levels.len() && levels[j].0 == time {
            let (level_time, mut pairs) = levels.remove(j);
            pairs.push(pair);
            levels.insert(j, (level_time, pairs));
            proof {
                let after = level_views(levels@);
                assert(after.len() == before.len());
                assert forall|i: int| 0 <= i < after.len() implies (#[trigger] after[i]).0
                    == before[i].0 && after[i].1 == (if i == j {
                    before[i].1.push(pair)
                } else {
                    before[i].1
                }) by {}
                assert forall|i: int| 0 <= i < longer.len() implies has_level(
                    after,
                    (#[trigger] longer[i]).0,
                ) by {
                    if i < seen.len() {
                        assert(seen[i] == longer[i]);
                        let w = choose|w: int|
                            0 <= w < before.len() && (#[trigger] before[w]).0 == seen[i].0;
                        assert(after[w].0 == seen[i].0);
                    } else {
                        assert(after[j as int].0 == time);
                    }
                }
                assert forall|a: int, b: int| 0 <= a < b < after.len() implies (#[trigger] after[a]).0
                    < (#[trigger] after[b]).0 by {
                    assert(before[a].0 < before[b].0);
                }
                assert forall|i: int| 0 <= i < after.len() implies (#[trigger] after[i]).1.len() > 0
                    && after[i].1 == pairs_at(longer, after[i].0) by {
                    assert(before[i].1.len() > 0 && before[i].1 == pairs_at(seen, before[i].0));
                    if i != j {
                        if i < j {
                            assert(before[i].0 < before[j as int].0);
                        } else {
                            assert(before[j as int].0 < before[i].0);
                        }
                    }
                }
                assert(is_level_view(longer, after));
            }
        } else {
            let mut pairs: Vec<FusionPair> = Vec::new();
            pairs.push(pair);
            levels.insert(j, (time, pairs));
            proof {
                let after = level_views(levels@);
                assert(after.len() == before.len() + 1);
                assert forall|i: int| 0 <= i < after.len() implies (#[trigger] after[i]) == (if i
                    < j {
                    before[i]
                } else if i == j {
                    (time, seq![pair])
                } else {
                    before[i - 1]
                }) by {}
                assert forall|i: int| 0 <= i < seen.len() implies (#[trigger] seen[i]).0
                    != time by {
                    let w = choose|w: int|
                        0 <= w < before.len() && (#[trigger] before[w]).0 == seen[i].0;
                    assert(before[w].0 == earlier[w].0);
                    if w > j {
                        assert(before[j as int].0 < before[w].0);
                    }
                }
                lemma_no_pairs_at_unused_time(seen, time);
                assert forall|i: int| 0 <= i < longer.len() implies has_level(
                    after,
                    (#[trigger] longer[i]).0,
                ) by {
                    if i < seen.len() {
                        assert(seen[i] == longer[i]);
                        let w = choose|w: int|
                            0 <= w < before.len() && (#[trigger] before[w]).0 == seen[i].0;
                        if w < j {
                            assert(after[w].0 == seen[i].0);
                        } else {
                            assert(after[w + 1].0 == seen[i].0);
                        }
                    } else {
                        assert(after[j as int].0 == time);
                    }
                }
                assert forall|a: int, b: int| 0 <= a < b < after.len() implies (#[trigger] after[a]).0
                    < (#[trigger] after[b]).0 by {
                    let from = if a < j { a } else { a - 1 };
                    let to = if b < j { b } else { b - 1 };
                    if a != j && b != j {
                        assert(before[from].0 < before[to].0);
                    } else if a == j {
                        assert(before[to].0 == earlier[to].0);
                        if to > j {
                            assert(before[j as int].0 < before[to].0);
                        }
                    } else {
                        assert(before[from].0 == earlier[from].0);
                    }
                }
                assert forall|i: int| 0 <= i < after.len() implies (#[trigger] after[i]).1.len() > 0
                    && after[i].1 == pairs_at(longer, after[i].0) by {
                    if i == j {
                        assert(after[i].1 =~= Seq::<FusionPair>::empty().push(pair));
                    } else {
                        let from = if i < j { i } else { i - 1 };
                        assert(before[from].1.len() > 0 && before[from].1 == pairs_at(
                            seen,
                            before[from].0,
                        ));
                        assert(before[from].0 == earlier[from].0);
                        if from > j {
                            assert(before[j as int].0 < before[from].0);
                        }
                    }
                }
                assert(is_level_view(longer, after));
            }
        }
        k += 1;
    }
    proof {
        assert(log@.take(log.len() as int) == log@);
    }
    levels
}

} // verus!
