use crate::fusion::fusion::FusionPair;
use crate::fusion::legality::{
    consumed, engaged, flags, fusible, is_basis, legal, lemma_consumed_push, lemma_engaged_push,
    time_ordered, valid_log,
};
use vstd::prelude::*;

verus! {

/// A candidate basis: a sequence of fusion operations, each with its time.
///
/// A different order of fusing the same anyons is a different basis. The
/// candidate need not come from a ledger; `verify_basis` says whether it is
/// a basis.
#[derive(Debug, PartialEq, Eq)]
pub struct Basis {
    ops: Vec<(u32, FusionPair)>,
}

impl View for Basis {
    type V = Seq<(u32, FusionPair)>;

    closed spec fn view(&self) -> Seq<(u32, FusionPair)> {
        self.ops@
    }
}

impl Clone for Basis {
    fn clone(&self) -> (copy: Self)
        ensures
            copy@ == self@,
    {
        let mut ops: Vec<(u32, FusionPair)> = Vec::new();
        let mut k: usize = 0;
        while k < self.ops.len()
            invariant
                k <= self.ops.len(),
                ops@ == self.ops@.take(k as int),
            decreases self.ops.len() - k,
        {
            ops.push(self.ops[k]);
            assert(self.ops@.take(k as int + 1) == self.ops@.take(k as int).push(
                self.ops@[k as int],
            ));
            k += 1;
        }
        assert(self.ops@.take(k as int) == self.ops@);
        Basis { ops }
    }
}

impl Basis {
    /// The candidate basis with the operations `ops`.
    pub fn new(ops: Vec<(u32, FusionPair)>) -> (basis: Self)
        ensures
            basis@ == ops@,
    {
        Basis { ops }
    }

    /// Whether the operations are a basis of a system of `anyons` anyons.
    pub fn verify_basis(&self, anyons: usize) -> (valid: bool)
        ensures
            valid == is_basis(anyons as int, self@),
    {
        if anyons == 0 || self.ops.len() != anyons - 1 {
            return false;
        }
        let mut unconsumed = flags(anyons, true);
        let mut unused = flags(anyons, true);
        let mut current_time: u32 = 0;
        let mut k: usize = 0;
        while k < self.ops.len()
            invariant
                k <= self.ops.len(),
                unconsumed.len() == anyons,
                unused.len() == anyons,
                k == 0 ==> current_time == 0,
                k > 0 ==> current_time == self.ops@[k - 1].0,
                time_ordered(self.ops@.take(k as int)),
                valid_log(anyons as int, self.ops@.take(k as int)),
                forall|i: int|
                    0 <= i < anyons ==> unconsumed[i] == !consumed(self.ops@.take(k as int), i),
                forall|i: int|
                    0 <= i < anyons ==> unused[i] == !engaged(
                        self.ops@.take(k as int),
                        current_time,
                        i,
                    ),
            decreases self.ops.len() - k,
        {
            let (time, pair) = self.ops[k];
            let ghost seen = self.ops@.take(k as int);
            let ghost more = self.ops@.take(k as int + 1);
            if time < current_time {
                assert(self.ops@[k - 1].0 > self.ops@[k as int].0);
                return false;
            }
            if time != current_time {
                unused = flags(anyons, true);
                current_time = time;
                proof {
                    assert forall|i: int| 0 <= i < anyons implies !engaged(seen, time, i) by {
                        if engaged(seen, time, i) {
                            let w = choose|w: int|
                                0 <= w < seen.len() && (#[trigger] seen[w]).0 == time
                                    && seen[w].1.anyon_1 == i;
                            assert(seen[w].0 <= seen[k - 1].0);
                        }
                    }
                }
            }
            let mut ok: bool = pair.anyon_1 < pair.anyon_2 && pair.anyon_2 < anyons;
            if ok {
                ok = unconsumed[pair.anyon_1] && unconsumed[pair.anyon_2] && unused[pair.anyon_1]
                    && unused[pair.anyon_2];
            }
            if ok {
                let mut i: usize = pair.anyon_1 + 1;
                while i < pair.anyon_2
                    invariant
                        pair.anyon_1 < i <= pair.anyon_2 < anyons,
                        unconsumed.len() == anyons,
                        unused.len() == anyons,
                        ok ==> forall|j: int|
                            pair.anyon_1 < j < i ==> !(unconsumed[j] && unused[j]),
                        !ok ==> exists|j: int|
                            pair.anyon_1 < j < pair.anyon_2 && unconsumed[j] && unused[j],
                    decreases pair.anyon_2 - i,
                {
                    if unconsumed[i] && unused[i] {
                        ok = false;
                    }
                    i += 1;
                }
            }
            proof {
                assert forall|i: int| 0 <= i < anyons implies (unconsumed[i] && unused[i])
                    == fusible(seen, time, i) by {}
                assert(ok == legal(anyons as int, seen, time, pair));
            }
            if !ok {
                assert(!legal(
                    anyons as int,
                    self.ops@.take(k as int),
                    self.ops@[k as int].0,
                    self.ops@[k as int].1,
                ));
                return false;
            }
            let ghost unconsumed_before = unconsumed@;
            let ghost unused_before = unused@;
            unconsumed.set(pair.anyon_2, false);
            unused.set(pair.anyon_1, false);
            proof {
                assert(more == seen.push((time, pair)));
                assert forall|i: int| 0 <= i < anyons implies unconsumed[i] == !consumed(
                    more,
                    i,
                ) by {
                    lemma_consumed_push(seen, (time, pair), i);
                    assert(unconsumed_before[i] == !consumed(seen, i));
                }
                assert forall|i: int| 0 <= i < anyons implies unused[i] == !engaged(
                    more,
                    time,
                    i,
                ) by {
                    lemma_engaged_push(seen, (time, pair), time, i);
                    assert(unused_before[i] == !engaged(seen, time, i));
                }
                assert forall|a: int, b: int| 0 <= a <= b < more.len() implies (#[trigger] more[a]).0
                    <= (#[trigger] more[b]).0 by {
                    if b < k {
                        assert(seen[a] == more[a] && seen[b] == more[b]);
                    } else if a < k {
                        assert(seen[a] == more[a]);
                        assert(seen[a].0 <= seen[k - 1].0);
                    }
                }
                assert forall|c: int| 0 <= c < more.len() implies legal(
                    anyons as int,
                    more.take(c),
                    (#[trigger] more[c]).0,
                    more[c].1,
                ) by {
                    if c < k {
                        assert(more.take(c) == seen.take(c));
                        assert(more[c] == seen[c]);
                    } else {
                        assert(more.take(c) == seen);
                    }
                }
            }
            k += 1;
        }
        assert(self.ops@.take(self.ops.len() as int) == self.ops@);
        true
    }
}

} // verus!
