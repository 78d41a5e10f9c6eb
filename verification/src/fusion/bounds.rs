//! How great the counts of a fusion tree can grow.
//!
//! Every operation at most doubles the product of the sums of the counts of
//! its two anyons. Where every anyon is fused away at most once, and always
//! into an anyon with a lower index, the outcome of an operation has been fed
//! by each earlier operation at most once, so the counts of a tree of `n`
//! operations add up to `2^n` at most.

use crate::fusion::algebra::{
    adds_up_to, all_single, fits, ising_fusion, lemma_bounded_fits, lemma_ising_fusion_entries,
    lemma_short_sums, one_hot,
};
use crate::fusion::encoding::{evaluation_fits, evolve, outcome};
use crate::fusion::fusion::FusionPair;
use crate::fusion::legality::{lemma_consumed_once, valid_log};
use crate::fusion::tree::{
    flatten, in_range, is_level_view, lemma_level_view_round_trip, lemma_levels_of_valid_log,
    lemma_order_in_range, pairs_in_order,
};
use vstd::arithmetic::power2::{lemma_pow2_adds, lemma_pow2_pos, lemma_pow2_unfold, pow2};
use vstd::prelude::*;
use vstd::set_lib::{lemma_int_range, lemma_len_subset, lemma_set_disjoint_lens, set_int_range};

verus! {

/// No anyon is the second anyon of two of the operations.
pub open spec fn distinct_seconds(ops: Seq<FusionPair>) -> bool {
    forall|i: int, j: int|
        0 <= i < j < ops.len() ==> (#[trigger] ops[i]).anyon_2 != (#[trigger] ops[j]).anyon_2
}

/// Anyon `i` is not the second anyon of any of the operations.
spec fn unread(ops: Seq<FusionPair>, i: int) -> bool {
    forall|k: int| 0 <= k < ops.len() ==> (#[trigger] ops[k]).anyon_2 != i
}

/// For each of `count` anyons, the operations that have fed its vector.
spec fn feeds(count: nat, ops: Seq<FusionPair>) -> Seq<Set<int>>
    decreases ops.len(),
{
    if ops.len() == 0 {
        Seq::new(count, |i: int| Set::<int>::empty())
    } else {
        let before = feeds(count, ops.drop_last());
        let pair = ops.last();
        before.update(
            pair.anyon_1 as int,
            before[pair.anyon_1 as int].union(before[pair.anyon_2 as int]).insert(ops.len() - 1),
        )
    }
}

/// An anyon that can still be fused away shares no operation with an anyon
/// that can too, nor with one before it.
spec fn kept_apart(ops: Seq<FusionPair>, fed: Seq<Set<int>>) -> bool {
    forall|i: int, j: int|
        0 <= i < fed.len() && 0 <= j < fed.len() && i != j && unread(ops, j) && (unread(ops, i)
            || i < j) ==> (#[trigger] fed[i]).disjoint(#[trigger] fed[j])
}

/// What holds of the vectors and of what has fed them after `ops`.
spec fn fed_within(charges: Seq<Seq<int>>, ops: Seq<FusionPair>) -> bool {
    let fed = feeds(charges.len(), ops);
    let vectors = evolve(charges, ops);
    &&& fed.len() == charges.len()
    &&& vectors.len() == charges.len()
    &&& forall|i: int|
        0 <= i < fed.len() ==> (#[trigger] fed[i]).subset_of(set_int_range(0, ops.len() as int))
    &&& kept_apart(ops, fed)
    &&& forall|i: int|
        0 <= i < fed.len() ==> adds_up_to(#[trigger] vectors[i], 3, pow2(fed[i].len()) as int)
}

/// A product of two numbers that are no less than zero is no less than
/// zero, and no more than the product of two numbers that bound them.
proof fn lemma_product_bound(x: int, y: int, x_bound: int, y_bound: int)
    by (nonlinear_arith)
    requires
        0 <= x <= x_bound,
        0 <= y <= y_bound,
    ensures
        0 <= x * y <= x_bound * y_bound,
{
}

/// The product of two sums of three is the sum of the nine products.
proof fn lemma_product_of_sums(a0: int, a1: int, a2: int, b0: int, b1: int, b2: int)
    by (nonlinear_arith)
    ensures
        (a0 + a1 + a2) * (b0 + b1 + b2) == a0 * b0 + a0 * b1 + a0 * b2 + a1 * b0 + a1 * b1 + a1
            * b2 + a2 * b0 + a2 * b1 + a2 * b2,
{
}

/// The sum of the counts of a fusion is at most twice the product of the
/// sums of the counts of the two vectors.
proof fn lemma_sum_of_fusion(
    a0: int,
    a1: int,
    a2: int,
    b0: int,
    b1: int,
    b2: int,
    a_bound: int,
    b_bound: int,
)
    requires
        0 <= a0 && 0 <= a1 && 0 <= a2 && a0 + a1 + a2 <= a_bound,
        0 <= b0 && 0 <= b1 && 0 <= b2 && b0 + b1 + b2 <= b_bound,
    ensures
        0 <= a0 * b1 + a1 * b0 + a2 * b2,
        0 <= a0 * b0 + a1 * b1 + a2 * b2,
        0 <= a0 * b2 + a1 * b2 + a2 * b0 + a2 * b1,
        (a0 * b1 + a1 * b0 + a2 * b2) + (a0 * b0 + a1 * b1 + a2 * b2) + (a0 * b2 + a1 * b2 + a2
            * b0 + a2 * b1) <= 2 * (a_bound * b_bound),
{
    let a = a0 + a1 + a2;
    let b = b0 + b1 + b2;
    lemma_product_bound(a0, b0, a0, b0);
    lemma_product_bound(a0, b1, a0, b1);
    lemma_product_bound(a0, b2, a0, b2);
    lemma_product_bound(a1, b0, a1, b0);
    lemma_product_bound(a1, b1, a1, b1);
    lemma_product_bound(a1, b2, a1, b2);
    lemma_product_bound(a2, b0, a2, b0);
    lemma_product_bound(a2, b1, a2, b1);
    lemma_product_bound(a2, b2, a, b);
    lemma_product_bound(a, b, a_bound, b_bound);
    lemma_product_of_sums(a0, a1, a2, b0, b1, b2);
}

/// The counts of a fusion of the Ising category add up to at most twice the
/// product of what the counts of the two vectors add up to.
proof fn lemma_fusion_bound(a: Seq<int>, b: Seq<int>, a_bound: int, b_bound: int)
    requires
        adds_up_to(a, 3, a_bound),
        adds_up_to(b, 3, b_bound),
    ensures
        adds_up_to(ising_fusion(a, b), 3, 2 * (a_bound * b_bound)),
{
    let out = ising_fusion(a, b);
    lemma_ising_fusion_entries(a, b);
    lemma_short_sums(|k: int| a[k]);
    lemma_short_sums(|k: int| b[k]);
    lemma_short_sums(|k: int| out[k]);
    assert(0 <= a[0] && 0 <= a[1] && 0 <= a[2]);
    assert(0 <= b[0] && 0 <= b[1] && 0 <= b[2]);
    lemma_sum_of_fusion(a[0], a[1], a[2], b[0], b[1], b[2], a_bound, b_bound);
}

/// The prefix of operations that are in range and have distinct second
/// anyons is in range and has distinct second anyons.
proof fn lemma_prefix(count: int, ops: Seq<FusionPair>, upto: int)
    requires
        in_range(count, ops),
        distinct_seconds(ops),
        0 <= upto <= ops.len(),
    ensures
        in_range(count, ops.take(upto)),
        distinct_seconds(ops.take(upto)),
{
    let some = ops.take(upto);
    assert forall|i: int| 0 <= i < some.len() implies (#[trigger] some[i]).anyon_1 < some[i].anyon_2
        < count by {
        assert(some[i] == ops[i]);
    }
    assert forall|i: int, j: int| 0 <= i < j < some.len() implies (#[trigger] some[i]).anyon_2 != (
    #[trigger] some[j]).anyon_2 by {
        assert(some[i] == ops[i] && some[j] == ops[j]);
    }
}

/// After operations that are in range and have distinct second anyons, the
/// counts of every vector add up to at most two to the number of operations
/// that have fed it.
proof fn lemma_fed_within(charges: Seq<Seq<int>>, ops: Seq<FusionPair>)
    requires
        all_single(charges, 3),
        in_range(charges.len() as int, ops),
        distinct_seconds(ops),
    ensures
        fed_within(charges, ops),
    decreases ops.len(),
{
    let count = charges.len();
    let fed = feeds(count, ops);
    let vectors = evolve(charges, ops);
    if ops.len() == 0 {
        vstd::arithmetic::power2::lemma2_to64();
        assert forall|i: int| 0 <= i < fed.len() implies adds_up_to(
            #[trigger] vectors[i],
            3,
            pow2(fed[i].len()) as int,
        ) by {
            let c = choose|c: int| 0 <= c < 3 && charges[i] == #[trigger] one_hot(3, c);
            lemma_short_sums(|k: int| charges[i][k]);
        }
    } else {
        let last = ops.len() - 1;
        let shorter = ops.drop_last();
        let pair = ops[last];
        let first = pair.anyon_1 as int;
        let second = pair.anyon_2 as int;
        assert(shorter == ops.take(last));
        lemma_prefix(count as int, ops, last);
        lemma_fed_within(charges, shorter);
        let fed_before = feeds(count, shorter);
        let before = evolve(charges, shorter);
        let range_before = set_int_range(0, last);
        let range = set_int_range(0, last + 1);
        lemma_int_range(0, last);
        lemma_int_range(0, last + 1);
        assert(unread(shorter, second)) by {
            assert forall|k: int| 0 <= k < shorter.len() implies (#[trigger] shorter[k]).anyon_2
                != second by {
                assert(shorter[k] == ops[k]);
            }
        }
        assert forall|i: int| 0 <= i < count && unread(ops, i) implies unread(shorter, i) && i
            != second by {
            assert forall|k: int| 0 <= k < shorter.len() implies (#[trigger] shorter[k]).anyon_2
                != i by {
                assert(shorter[k] == ops[k]);
            }
        }
        let left = fed_before[first];
        let right = fed_before[second];
        let joined = left.union(right).insert(last);
        assert(fed == fed_before.update(first, joined));
        assert(left.disjoint(right));
        lemma_len_subset(left, range_before);
        lemma_len_subset(right, range_before);
        lemma_set_disjoint_lens(left, right);
        assert(!left.union(right).contains(last));
        assert(joined.len() == left.len() + right.len() + 1);
        assert forall|i: int| 0 <= i < fed.len() implies (#[trigger] fed[i]).subset_of(range) by {
            if i != first {
                assert(fed[i] == fed_before[i]);
                assert(fed_before[i].subset_of(range_before));
            }
        }
        assert forall|i: int, j: int|
            0 <= i < fed.len() && 0 <= j < fed.len() && i != j && unread(ops, j) && (unread(ops, i)
                || i < j) implies (#[trigger] fed[i]).disjoint(#[trigger] fed[j]) by {
            assert(unread(shorter, j) && j != second);
            assert(fed_before[j].subset_of(range_before));
            assert(fed_before[i].subset_of(range_before));
            if i == first {
                assert(fed_before[second].disjoint(fed_before[j]));
                assert(fed_before[first].disjoint(fed_before[j]));
            } else if j == first {
                assert(i != second);
                assert(fed_before[i].disjoint(fed_before[first]));
                assert(fed_before[i].disjoint(fed_before[second]));
            } else {
                assert(fed_before[i].disjoint(fed_before[j]));
            }
        }
        assert forall|i: int| 0 <= i < fed.len() implies adds_up_to(
            #[trigger] vectors[i],
            3,
            pow2(fed[i].len()) as int,
        ) by {
            if i == first {
                lemma_fusion_bound(
                    before[first],
                    before[second],
                    pow2(left.len()) as int,
                    pow2(right.len()) as int,
                );
                lemma_pow2_adds(left.len(), right.len());
                lemma_pow2_unfold(joined.len());
            } else {
                assert(vectors[i] == before[i]);
            }
        }
    }
}

/// A tree of at most 63 operations that are in range and have distinct
/// second anyons, on anyons that start with one charge each, has no outcome
/// with a count that is more than a `u64` can hold.
pub proof fn lemma_evaluation_fits(charges: Seq<Seq<int>>, ops: Seq<FusionPair>)
    requires
        all_single(charges, 3),
        in_range(charges.len() as int, ops),
        distinct_seconds(ops),
        ops.len() <= 63,
    ensures
        evaluation_fits(charges, ops),
{
    assert forall|k: int| 0 <= k < ops.len() implies fits(#[trigger] outcome(charges, ops, k)) by {
        let upto = ops.take(k + 1);
        lemma_prefix(charges.len() as int, ops, k + 1);
        lemma_prefix(charges.len() as int, ops, k);
        lemma_fed_within(charges, upto);
        lemma_fed_within(charges, ops.take(k));
        assert(upto.drop_last() == ops.take(k));
        assert(upto.last() == ops[k]);
        let first = ops[k].anyon_1 as int;
        let fed = feeds(charges.len(), upto);
        let vectors = evolve(charges, upto);
        assert(vectors[first] == outcome(charges, ops, k));
        lemma_int_range(0, k + 1);
        lemma_len_subset(fed[first], set_int_range(0, k + 1));
        lemma_bounded_fits(vectors[first], 3, fed[first].len());
    }
}

/// The tree of a valid log of at most 63 operations, on anyons that start
/// with one charge each, has no outcome with a count that is more than a
/// `u64` can hold.
pub proof fn lemma_tree_of_valid_log_fits(
    charges: Seq<Seq<int>>,
    log: Seq<(u32, FusionPair)>,
    levels: Seq<(u32, Seq<FusionPair>)>,
)
    requires
        all_single(charges, 3),
        valid_log(charges.len() as int, log),
        is_level_view(log, levels),
        log.len() <= 63,
    ensures
        evaluation_fits(charges, pairs_in_order(levels)),
{
    let flat = flatten(levels);
    let order = pairs_in_order(levels);
    lemma_level_view_round_trip(log, levels);
    lemma_consumed_once(charges.len() as int, log);
    log.to_multiset_ensures();
    flat.to_multiset_ensures();
    assert(log.no_duplicates()) by {
        assert forall|i: int, j: int| 0 <= i < log.len() && 0 <= j < log.len() && i != j implies log[i]
            != log[j] by {
            if i < j {
                assert(log[i].1.anyon_2 != log[j].1.anyon_2);
            } else {
                assert(log[j].1.anyon_2 != log[i].1.anyon_2);
            }
        }
    }
    log.lemma_multiset_has_no_duplicates();
    flat.lemma_multiset_has_no_duplicates_conv();
    assert forall|i: int, j: int| 0 <= i < j < order.len() implies (#[trigger] order[i]).anyon_2 != (
    #[trigger] order[j]).anyon_2 by {
        assert(flat.contains(flat[i]) && flat.contains(flat[j]));
        assert(flat.to_multiset().count(flat[i]) > 0 && flat.to_multiset().count(flat[j]) > 0);
        assert(log.to_multiset().count(flat[i]) > 0 && log.to_multiset().count(flat[j]) > 0);
        assert(log.contains(flat[i]) && log.contains(flat[j]));
        let p = choose|p: int| 0 <= p < log.len() && log[p] == flat[i];
        let q = choose|q: int| 0 <= q < log.len() && log[q] == flat[j];
        assert(flat[i] != flat[j]);
        if p < q {
            assert(log[p].1.anyon_2 != log[q].1.anyon_2);
        } else {
            assert(log[q].1.anyon_2 != log[p].1.anyon_2);
        }
    }
    lemma_levels_of_valid_log(charges.len() as int, log, levels);
    lemma_order_in_range(charges.len() as int, levels);
    lemma_evaluation_fits(charges, order);
}

} // verus!
