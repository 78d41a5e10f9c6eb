//! Evaluating a fusion tree of the Ising category and reading off the
//! fusions that encode its qubits.
//!
//! Every anyon starts with the vector of its own charge. The operations are
//! applied in the order of the tree: each puts the fusion of its two anyons'
//! vectors in the place of the first. The outcome of every operation but the
//! last is recorded under its pair. The outcome of the last is the total
//! charge of the tree.

use crate::fusion::algebra::{
    charge_table, checked_fuse_ising, counts, fits, ising_fusion, lemma_ising_fusion_entries,
};
use crate::fusion::fusion::FusionPair;
use vstd::prelude::*;

verus! {

/// The charge vectors of all anyons after the operations `ops`, from the
/// vectors `charges`.
pub open spec fn evolve(charges: Seq<Seq<int>>, ops: Seq<FusionPair>) -> Seq<Seq<int>>
    decreases ops.len(),
{
    if ops.len() == 0 {
        charges
    } else {
        let before = evolve(charges, ops.drop_last());
        let pair = ops.last();
        before.update(
            pair.anyon_1 as int,
            ising_fusion(before[pair.anyon_1 as int], before[pair.anyon_2 as int]),
        )
    }
}

/// The vector that operation `k` of `ops` fuses its two anyons to.
pub open spec fn outcome(charges: Seq<Seq<int>>, ops: Seq<FusionPair>, k: int) -> Seq<int> {
    let before = evolve(charges, ops.take(k));
    ising_fusion(before[ops[k].anyon_1 as int], before[ops[k].anyon_2 as int])
}

/// The outcomes of the first `upto` operations of `ops`, each under its
/// pair. Where a pair occurs twice, its later outcome stands.
pub open spec fn recorded(charges: Seq<Seq<int>>, ops: Seq<FusionPair>, upto: int) -> Map<
    FusionPair,
    Seq<int>,
>
    decreases upto,
{
    if upto <= 0 {
        Map::empty()
    } else {
        recorded(charges, ops, upto - 1).insert(ops[upto - 1], outcome(charges, ops, upto - 1))
    }
}

/// The total charge of the tree: the outcome of the last operation, and no
/// outcome at all where nothing fuses.
pub open spec fn total_charge(charges: Seq<Seq<int>>, ops: Seq<FusionPair>) -> Seq<int> {
    if ops.len() == 0 {
        seq![0int, 0int, 0int]
    } else {
        outcome(charges, ops, ops.len() - 1)
    }
}

/// A total charge is trivial when it is one definite outcome without Sigma:
/// Vacuum once and nothing else, or Psi once and nothing else.
pub open spec fn trivial_total(total: Seq<int>) -> bool {
    total[2] == 0 && ((total[0] == 1 && total[1] == 0) || (total[1] == 1 && total[0] == 0))
}

/// The outcome recorded under `pair` has no Sigma in it.
pub open spec fn definite(outcomes: Map<FusionPair, Seq<int>>, pair: FusionPair) -> bool {
    outcomes.dom().contains(pair) && outcomes[pair][2] == 0
}

/// The pairs stand in rising order, none of them twice.
pub open spec fn ascending(pairs: Seq<FusionPair>) -> bool {
    forall|i: int, j: int|
        0 <= i < j < pairs.len() ==> (#[trigger] pairs[i]).precedes(#[trigger] pairs[j])
}

/// `encoding` is the qubit encoding of the tree that applies `ops` to the
/// anyons with the vectors `charges`.
///
/// A tree whose total charge is not trivial encodes nothing. Otherwise the
/// encoding lists, in rising order, the pairs whose recorded outcome has no
/// Sigma in it, but for the greatest of them.
pub open spec fn is_ising_encoding(
    charges: Seq<Seq<int>>,
    ops: Seq<FusionPair>,
    encoding: Seq<FusionPair>,
) -> bool {
    if !trivial_total(total_charge(charges, ops)) {
        encoding.len() == 0
    } else {
        let outcomes = recorded(charges, ops, ops.len() - 1);
        &&& ascending(encoding)
        &&& forall|p: FusionPair| #[trigger]
            encoding.contains(p) <==> definite(outcomes, p) && exists|q: FusionPair|
                #[trigger] definite(outcomes, q) && p.precedes(q)
    }
}

/// No outcome of the tree has a count that a `u64` cannot hold.
pub open spec fn evaluation_fits(charges: Seq<Seq<int>>, ops: Seq<FusionPair>) -> bool {
    forall|k: int| 0 <= k < ops.len() ==> fits(#[trigger] outcome(charges, ops, k))
}

/// Two encodings of one tree are the same sequence.
pub proof fn lemma_encoding_unique(
    charges: Seq<Seq<int>>,
    ops: Seq<FusionPair>,
    first: Seq<FusionPair>,
    second: Seq<FusionPair>,
)
    requires
        is_ising_encoding(charges, ops, first),
        is_ising_encoding(charges, ops, second),
    ensures
        first == second,
{
    if trivial_total(total_charge(charges, ops)) {
        assert forall|p: FusionPair| first.contains(p) <==> second.contains(p) by {}
        lemma_ascending_same_members(first, second);
    } else {
        assert(first =~= second);
    }
}

/// Two rising sequences with the same members are equal.
pub proof fn lemma_ascending_same_members(first: Seq<FusionPair>, second: Seq<FusionPair>)
    requires
        ascending(first),
        ascending(second),
        forall|p: FusionPair| first.contains(p) <==> second.contains(p),
    ensures
        first == second,
    decreases first.len(),
{
    if first.len() == 0 {
        if second.len() > 0 {
            assert(second.contains(second[0]));
        }
        assert(first =~= second);
    } else {
        let top = first.last();
        assert(first.contains(top));
        assert(second.contains(top));
        let at = choose|at: int| 0 <= at < second.len() && second[at] == top;
        if at < second.len() - 1 {
            let other = second.last();
            assert(second.contains(other));
            let back = choose|back: int| 0 <= back < first.len() && first[back] == other;
            assert(top.precedes(other));
            if back < first.len() - 1 {
                assert(first[back].precedes(first[first.len() - 1]));
            }
        }
        let first_rest = first.drop_last();
        let second_rest = second.drop_last();
        assert forall|p: FusionPair| first_rest.contains(p) <==> second_rest.contains(p) by {
            if first_rest.contains(p) {
                let i = choose|i: int| 0 <= i < first_rest.len() && first_rest[i] == p;
                assert(first[i] == p);
                assert(first[i].precedes(first[first.len() - 1]));
                assert(first.contains(p));
                let j = choose|j: int| 0 <= j < second.len() && second[j] == p;
                assert(second_rest[j] == p);
            }
            if second_rest.contains(p) {
                let j = choose|j: int| 0 <= j < second_rest.len() && second_rest[j] == p;
                assert(second[j] == p);
                assert(second[j].precedes(second[second.len() - 1]));
                assert(second.contains(p));
                let i = choose|i: int| 0 <= i < first.len() && first[i] == p;
                assert(first_rest[i] == p);
            }
        }
        lemma_ascending_same_members(first_rest, second_rest);
        assert(first =~= first_rest.push(top));
        assert(second =~= second_rest.push(top));
    }
}

/// The sorted list `keys`, with the vector of each key at the same place in
/// `values`, holds what `outcomes` holds.
spec fn lists(
    keys: Seq<FusionPair>,
    values: Seq<Vec<u64>>,
    outcomes: Map<FusionPair, Seq<int>>,
) -> bool {
    &&& keys.len() == values.len()
    &&& ascending(keys)
    &&& forall|p: FusionPair| outcomes.dom().contains(p) <==> #[trigger] keys.contains(p)
    &&& forall|i: int|
        0 <= i < keys.len() ==> (#[trigger] values[i]).len() == 3 && counts(values[i]@)
            == outcomes[keys[i]]
}

/// Puts `vector` under `pair` in the sorted list, in the place of what was
/// there under `pair` before, if anything.
fn record(
    keys: &mut Vec<FusionPair>,
    values: &mut Vec<Vec<u64>>,
    pair: FusionPair,
    vector: Vec<u64>,
    Ghost(outcomes): Ghost<Map<FusionPair, Seq<int>>>,
)
    requires
        lists(old(keys)@, old(values)@, outcomes),
        vector.len() == 3,
    ensures
        lists(final(keys)@, final(values)@, outcomes.insert(pair, counts(vector@))),
{
    let ghost old_keys = keys@;
    let ghost old_values = values@;
    let ghost updated = outcomes.insert(pair, counts(vector@));
    let mut j: usize = 0;
    while j < keys.len() && (keys[j].anyon_1 < pair.anyon_1 || (keys[j].anyon_1 == pair.anyon_1
        && keys[j].anyon_2 < pair.anyon_2))
        invariant
            j <= keys.len(),
            keys@ == old_keys,
            forall|i: int| 0 <= i < j ==> (#[trigger] keys@[i]).precedes(pair),
        decreases keys.len() - j,
    {
        j += 1;
    }
    if j < keys.len() && keys[j].anyon_1 == pair.anyon_1 && keys[j].anyon_2 == pair.anyon_2 {
        values.set(j, vector);
        proof {
            assert(old_keys[j as int] == pair);
            assert forall|p: FusionPair| updated.dom().contains(p) <==> #[trigger] keys@.contains(
                p,
            ) by {
                if p == pair {
                    assert(keys@[j as int] == p);
                }
            }
            assert forall|i: int| 0 <= i < keys@.len() implies (#[trigger] values@[i]).len() == 3
                && counts(values@[i]@) == updated[keys@[i]] by {
                if i != j {
                    assert(values@[i] == old_values[i]);
                    if i < j {
                        assert(keys@[i].precedes(keys@[j as int]));
                    } else {
                        assert(keys@[j as int].precedes(keys@[i]));
                    }
                }
            }
        }
    } else {
        keys.insert(j, pair);
        values.insert(j, vector);
        proof {
            assert forall|i: int| 0 <= i < keys@.len() implies (#[trigger] keys@[i]) == (if i < j {
                old_keys[i]
            } else if i == j {
                pair
            } else {
                old_keys[i - 1]
            }) by {}
            assert forall|i: int| 0 <= i < values@.len() implies (#[trigger] values@[i]) == (if i
                < j {
                old_values[i]
            } else if i == j {
                vector
            } else {
                old_values[i - 1]
            }) by {}
            assert forall|i: int| j <= i < old_keys.len() implies pair.precedes(
                #[trigger] old_keys[i],
            ) by {
                if i > j {
                    assert(old_keys[j as int].precedes(old_keys[i]));
                }
            }
            assert(ascending(keys@));
            assert forall|p: FusionPair| updated.dom().contains(p) <==> #[trigger] keys@.contains(
                p,
            ) by {
                if p == pair {
                    assert(keys@[j as int] == p);
                } else if old_keys.contains(p) {
                    let i = choose|i: int| 0 <= i < old_keys.len() && old_keys[i] == p;
                    if i < j {
                        assert(keys@[i] == p);
                    } else {
                        assert(keys@[i + 1] == p);
                    }
                } else if keys@.contains(p) {
                    let i = choose|i: int| 0 <= i < keys@.len() && keys@[i] == p;
                    if i < j {
                        assert(old_keys[i] == p);
                    } else {
                        assert(old_keys[i - 1] == p);
                    }
                }
            }
            assert forall|i: int| 0 <= i < keys@.len() implies (#[trigger] values@[i]).len() == 3
                && counts(values@[i]@) == updated[keys@[i]] by {
                if i < j {
                    assert(old_keys[i].precedes(pair));
                } else if i > j {
                    assert(pair.precedes(old_keys[i - 1]));
                }
            }
        }
    }
}

/// The keys of the sorted list whose vector has no Sigma in it, in the order
/// of the list.
fn definite_keys(
    keys: &Vec<FusionPair>,
    values: &Vec<Vec<u64>>,
    Ghost(outcomes): Ghost<Map<FusionPair, Seq<int>>>,
) -> (chosen: Vec<FusionPair>)
    requires
        lists(keys@, values@, outcomes),
    ensures
        ascending(chosen@),
        forall|p: FusionPair| #[trigger] chosen@.contains(p) <==> definite(outcomes, p),
{
    let mut chosen: Vec<FusionPair> = Vec::new();
    let ghost mut places: Seq<int> = Seq::empty();
    let mut i: usize = 0;
    while i < keys.len()
        invariant
            i <= keys.len(),
            lists(keys@, values@, outcomes),
            places.len() == chosen.len(),
            forall|a: int|
                0 <= a < places.len() ==> 0 <= (#[trigger] places[a]) < i && chosen@[a]
                    == keys@[places[a]] && values@[places[a]]@[2] == 0,
            forall|a: int, b: int|
                0 <= a < b < places.len() ==> (#[trigger] places[a]) < (#[trigger] places[b]),
            forall|at: int|
                0 <= at < i && (#[trigger] values@[at])@[2] == 0 ==> places.contains(at),
        decreases keys.len() - i,
    {
        if values[i][2] == 0 {
            let ghost earlier = places;
            chosen.push(keys[i]);
            proof {
                places = places.push(i as int);
                assert forall|at: int|
                    0 <= at < i + 1 && (#[trigger] values@[at])@[2] == 0 implies places.contains(
                    at,
                ) by {
                    if at < i {
                        let a = choose|a: int| 0 <= a < earlier.len() && earlier[a] == at;
                        assert(places[a] == at);
                    } else {
                        assert(places[earlier.len() as int] == at);
                    }
                }
            }
        }
        i += 1;
    }
    proof {
        assert forall|a: int, b: int| 0 <= a < b < chosen@.len() implies (#[trigger] chosen@[a]).precedes(
            #[trigger] chosen@[b],
        ) by {
            assert(places[a] < places[b]);
            assert(keys@[places[a]].precedes(keys@[places[b]]));
        }
        assert forall|p: FusionPair| #[trigger] chosen@.contains(p) <==> definite(outcomes, p) by {
            if chosen@.contains(p) {
                let a = choose|a: int| 0 <= a < chosen@.len() && chosen@[a] == p;
                let at = places[a];
                assert(keys@[at] == p);
                assert(keys@.contains(p));
                assert(counts(values@[at]@)[2] == values@[at]@[2]);
            }
            if definite(outcomes, p) {
                assert(keys@.contains(p));
                let at = choose|at: int| 0 <= at < keys@.len() && keys@[at] == p;
                assert(counts(values@[at]@)[2] == values@[at]@[2]);
                assert(places.contains(at));
                let a = choose|a: int| 0 <= a < places.len() && places[a] == at;
                assert(chosen@[a] == p);
            }
        }
    }
    chosen
}

/// The qubit encoding of the tree that applies the operations `order`, one
/// after the other, to anyons that start with the vectors `seeds`, unless an
/// outcome of the tree has a count that is more than a `u64` can hold.
#[verifier::loop_isolation(false)]
pub fn checked_ising_encoding(seeds: Vec<Vec<u64>>, order: &Vec<FusionPair>) -> (encoding: Option<
    Vec<FusionPair>,
>)
    requires
        forall|i: int| 0 <= i < seeds.len() ==> (#[trigger] seeds[i]).len() == 3,
        forall|k: int|
            0 <= k < order.len() ==> (#[trigger] order[k]).anyon_1 < seeds.len()
                && order[k].anyon_2 < seeds.len(),
    ensures
        encoding is Some <==> evaluation_fits(charge_table(seeds@), order@),
        encoding is Some ==> is_ising_encoding(charge_table(seeds@), order@, encoding->0@),
{
    let ghost start = charge_table(seeds@);
    let ghost count = seeds.len();
    if order.len() == 0 {
        return Some(Vec::new());
    }
    let last: usize = order.len() - 1;
    let mut vectors = seeds;
    let mut keys: Vec<FusionPair> = Vec::new();
    let mut values: Vec<Vec<u64>> = Vec::new();
    let mut k: usize = 0;
    while k < last
        invariant
            k <= last == order.len() - 1,
            vectors.len() == count,
            forall|i: int| 0 <= i < count ==> (#[trigger] vectors[i]).len() == 3,
            forall|k: int|
                0 <= k < order.len() ==> (#[trigger] order[k]).anyon_1 < count && order[k].anyon_2
                    < count,
            forall|j: int| 0 <= j < k ==> fits(#[trigger] outcome(start, order@, j)),
            charge_table(vectors@) == evolve(start, order@.take(k as int)),
            lists(keys@, values@, recorded(start, order@, k as int)),
        decreases last - k,
    {
        let pair = order[k];
        let ghost before = charge_table(vectors@);
        proof {
            assert(before[pair.anyon_1 as int] == counts(vectors[pair.anyon_1 as int]@));
            assert(before[pair.anyon_2 as int] == counts(vectors[pair.anyon_2 as int]@));
            lemma_ising_fusion_entries(before[pair.anyon_1 as int], before[pair.anyon_2 as int]);
        }
        let fused = match checked_fuse_ising(&vectors[pair.anyon_1], &vectors[pair.anyon_2]) {
            Some(fused) => fused,
            None => {
                assert(!fits(outcome(start, order@, k as int)));
                return None;
            },
        };
        assert(fused.len() == 3);
        let copy: Vec<u64> = vec![fused[0], fused[1], fused[2]];
        assert(copy@ =~= fused@);
        record(&mut keys, &mut values, pair, copy, Ghost(recorded(start, order@, k as int)));
        vectors.set(pair.anyon_1, fused);
        proof {
            let longer = order@.take(k as int + 1);
            assert(longer.drop_last() == order@.take(k as int));
            assert(longer.last() == pair);
            assert(charge_table(vectors@) =~= evolve(start, longer));
        }
        k += 1;
    }
    let pair = order[last];
    proof {
        let before = charge_table(vectors@);
        assert(before[pair.anyon_1 as int] == counts(vectors[pair.anyon_1 as int]@));
        assert(before[pair.anyon_2 as int] == counts(vectors[pair.anyon_2 as int]@));
        lemma_ising_fusion_entries(before[pair.anyon_1 as int], before[pair.anyon_2 as int]);
    }
    let total = match checked_fuse_ising(&vectors[pair.anyon_1], &vectors[pair.anyon_2]) {
        Some(total) => total,
        None => {
            assert(!fits(outcome(start, order@, last as int)));
            return None;
        },
    };
    assert(evaluation_fits(start, order@));
    assert(counts(total@) == total_charge(start, order@));
    assert(total.len() == 3);
    assert(counts(total@)[0] == total[0] && counts(total@)[1] == total[1] && counts(total@)[2]
        == total[2]);
    let psi: u64 = total[0];
    let vacuum: u64 = total[1];
    let sigma: u64 = total[2];
    if !(sigma == 0 && ((psi == 1 && vacuum == 0) || (vacuum == 1 && psi == 0))) {
        return Some(Vec::new());
    }
    let ghost outcomes = recorded(start, order@, last as int);
    let mut encoding = definite_keys(&keys, &values, Ghost(outcomes));
    let ghost all = encoding@;
    encoding.pop();
    proof {
        assert forall|p: FusionPair| #[trigger]
            encoding@.contains(p) <==> definite(outcomes, p) && exists|q: FusionPair|
                #[trigger] definite(outcomes, q) && p.precedes(q) by {
            if encoding@.contains(p) {
                let a = choose|a: int| 0 <= a < encoding@.len() && encoding@[a] == p;
                assert(all[a] == p);
                assert(all.contains(p));
                let top = all[all.len() - 1];
                assert(all.contains(top));
                assert(all[a].precedes(all[all.len() - 1]));
                assert(definite(outcomes, top) && p.precedes(top));
            }
            if definite(outcomes, p) && exists|q: FusionPair|
                #[trigger] definite(outcomes, q) && p.precedes(q) {
                let q = choose|q: FusionPair| #[trigger] definite(outcomes, q) && p.precedes(q);
                assert(all.contains(p));
                assert(all.contains(q));
                let a = choose|a: int| 0 <= a < all.len() && all[a] == p;
                let b = choose|b: int| 0 <= b < all.len() && all[b] == q;
                if b < a {
                    assert(all[b].precedes(all[a]));
                }
                assert(a < b);
                assert(encoding@[a] == p);
            }
        }
    }
    Some(encoding)
}

} // verus!
