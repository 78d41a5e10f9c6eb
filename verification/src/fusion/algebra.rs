//! The fusion rules of the built-in categories and the bilinear map they
//! give on charge-count vectors.
//!
//! A charge-count vector has one entry for each charge of a category: the
//! number of fusion outcomes with that charge that are possible at one point
//! of a fusion tree. The rules of a category are its structure constants
//! `N[i][j][k]`: how often charge `k` comes out when charge `i` fuses with
//! charge `j`. Fusing two vectors `a` and `b` gives, at `k`, the sum over all
//! `i` and `j` of `N[i][j][k] * a[i] * b[j]`.

use vstd::arithmetic::power2::{lemma_pow2_strictly_increases, lemma_pow2_unfold, pow2};
use vstd::bits::lemma_u64_pow2_no_overflow;
use vstd::prelude::*;

verus! {

/// Sum of `f(0)`, ..., `f(n - 1)`.
pub open spec fn sum_below(n: int, f: spec_fn(int) -> int) -> int
    decreases n,
{
    if n <= 0 {
        0
    } else {
        sum_below(n - 1, f) + f(n - 1)
    }
}

/// What charge `i` of `a` and charge `j` of `b` add to the count of charge
/// `k`.
pub open spec fn term(
    rules: Seq<Seq<Seq<int>>>,
    a: Seq<int>,
    b: Seq<int>,
    i: int,
    j: int,
    k: int,
) -> int {
    rules[i][j][k] * (a[i] * b[j])
}

/// What charge `i` of `a` adds to the count of charge `k`, with all of `b`.
pub open spec fn row(rules: Seq<Seq<Seq<int>>>, a: Seq<int>, b: Seq<int>, i: int, k: int) -> int {
    sum_below(rules.len() as int, |j: int| term(rules, a, b, i, j, k))
}

/// The count of charge `k` in the fusion of `a` and `b`.
pub open spec fn entry(rules: Seq<Seq<Seq<int>>>, a: Seq<int>, b: Seq<int>, k: int) -> int {
    sum_below(rules.len() as int, |i: int| row(rules, a, b, i, k))
}

/// The vector that `a` and `b` fuse to under `rules`.
pub open spec fn contraction(rules: Seq<Seq<Seq<int>>>, a: Seq<int>, b: Seq<int>) -> Seq<int> {
    Seq::new(rules.len(), |k: int| entry(rules, a, b, k))
}

/// Structure constants of the Ising category, over (Psi, Vacuum, Sigma):
/// Vacuum fuses with a charge to that charge, Psi with Psi to Vacuum, Psi
/// with Sigma to Sigma, and Sigma with Sigma to Psi or Vacuum.
pub open spec fn ising_rules() -> Seq<Seq<Seq<int>>> {
    seq![
        seq![seq![0, 1, 0], seq![1, 0, 0], seq![0, 0, 1]],
        seq![seq![1, 0, 0], seq![0, 1, 0], seq![0, 0, 1]],
        seq![seq![0, 0, 1], seq![0, 0, 1], seq![1, 1, 0]],
    ]
}

/// Structure constants of the Fibonacci category, over (Tau, Vacuum):
/// Vacuum fuses with a charge to that charge, and Tau with Tau to Tau or
/// Vacuum.
pub open spec fn fibonacci_rules() -> Seq<Seq<Seq<int>>> {
    seq![seq![seq![1, 1], seq![1, 0]], seq![seq![1, 0], seq![0, 1]]]
}

/// The vector that two charge-count vectors of the Ising category fuse to.
pub open spec fn ising_fusion(a: Seq<int>, b: Seq<int>) -> Seq<int> {
    contraction(ising_rules(), a, b)
}

/// The vector that two charge-count vectors of the Fibonacci category fuse
/// to.
pub open spec fn fibonacci_fusion(a: Seq<int>, b: Seq<int>) -> Seq<int> {
    contraction(fibonacci_rules(), a, b)
}

/// A charge-count vector as a sequence of integers.
pub open spec fn counts(v: Seq<u64>) -> Seq<int> {
    v.map_values(|x: u64| x as int)
}

/// Every entry is a count that a `u64` can hold.
pub open spec fn fits(v: Seq<int>) -> bool {
    forall|k: int| 0 <= k < v.len() ==> 0 <= #[trigger] v[k] <= u64::MAX
}

/// Charge-count vectors as sequences of integers.
pub open spec fn charge_table(vectors: Seq<Vec<u64>>) -> Seq<Seq<int>> {
    Seq::new(vectors.len(), |i: int| counts(vectors[i]@))
}

/// The vector that all of `charges` fuse to under `rules`, taken in
/// sequence from the first.
pub open spec fn fold_fusion(rules: Seq<Seq<Seq<int>>>, charges: Seq<Seq<int>>) -> Seq<int>
    decreases charges.len(),
{
    if charges.len() == 0 {
        Seq::empty()
    } else if charges.len() == 1 {
        charges[0]
    } else {
        contraction(rules, fold_fusion(rules, charges.drop_last()), charges.last())
    }
}

/// No vector on the way to the fusion of all of `charges` has a count that a
/// `u64` cannot hold.
pub open spec fn fold_fits(rules: Seq<Seq<Seq<int>>>, charges: Seq<Seq<int>>) -> bool {
    forall|n: int| 1 <= n <= charges.len() ==> fits(#[trigger] fold_fusion(rules, charges.take(n)))
}

/// Every charge that `target` has is a charge that `total` has.
pub open spec fn reaches(total: Seq<int>, target: Seq<int>) -> bool {
    forall|k: int| 0 <= k < target.len() ==> (#[trigger] target[k] > 0 ==> total[k] > 0)
}

/// The vector with a one at `index` and zeros elsewhere.
pub open spec fn one_hot(dim: nat, index: int) -> Seq<int> {
    Seq::new(dim, |k: int| if k == index { 1int } else { 0int })
}

/// A sum of two and a sum of three, written out.
pub proof fn lemma_short_sums(f: spec_fn(int) -> int)
    ensures
        sum_below(2, f) == f(0) + f(1),
        sum_below(3, f) == f(0) + f(1) + f(2),
{
    reveal_with_fuel(sum_below, 4);
}

/// A term under a structure constant of zero or one.
proof fn lemma_term(rules: Seq<Seq<Seq<int>>>, a: Seq<int>, b: Seq<int>, i: int, j: int, k: int)
    ensures
        rules[i][j][k] == 0 ==> term(rules, a, b, i, j, k) == 0,
        rules[i][j][k] == 1 ==> term(rules, a, b, i, j, k) == a[i] * b[j],
{
}

/// The terms of one entry of a fusion over three charges.
proof fn lemma_entry_of_three(rules: Seq<Seq<Seq<int>>>, a: Seq<int>, b: Seq<int>, k: int)
    requires
        rules.len() == 3,
    ensures
        entry(rules, a, b, k) == term(rules, a, b, 0, 0, k) + term(rules, a, b, 0, 1, k) + term(
            rules,
            a,
            b,
            0,
            2,
            k,
        ) + term(rules, a, b, 1, 0, k) + term(rules, a, b, 1, 1, k) + term(rules, a, b, 1, 2, k)
            + term(rules, a, b, 2, 0, k) + term(rules, a, b, 2, 1, k) + term(rules, a, b, 2, 2, k),
{
    lemma_short_sums(|i: int| row(rules, a, b, i, k));
    lemma_short_sums(|j: int| term(rules, a, b, 0, j, k));
    lemma_short_sums(|j: int| term(rules, a, b, 1, j, k));
    lemma_short_sums(|j: int| term(rules, a, b, 2, j, k));
}

/// The terms of one entry of a fusion over two charges.
proof fn lemma_entry_of_two(rules: Seq<Seq<Seq<int>>>, a: Seq<int>, b: Seq<int>, k: int)
    requires
        rules.len() == 2,
    ensures
        entry(rules, a, b, k) == term(rules, a, b, 0, 0, k) + term(rules, a, b, 0, 1, k) + term(
            rules,
            a,
            b,
            1,
            0,
            k,
        ) + term(rules, a, b, 1, 1, k),
{
    lemma_short_sums(|i: int| row(rules, a, b, i, k));
    lemma_short_sums(|j: int| term(rules, a, b, 0, j, k));
    lemma_short_sums(|j: int| term(rules, a, b, 1, j, k));
}

/// The structure constants of the Ising category, one by one.
proof fn lemma_ising_rules()
    ensures
        ising_rules().len() == 3,
        ising_rules()[0][0] == seq![0int, 1, 0],
        ising_rules()[0][1] == seq![1int, 0, 0],
        ising_rules()[0][2] == seq![0int, 0, 1],
        ising_rules()[1][0] == seq![1int, 0, 0],
        ising_rules()[1][1] == seq![0int, 1, 0],
        ising_rules()[1][2] == seq![0int, 0, 1],
        ising_rules()[2][0] == seq![0int, 0, 1],
        ising_rules()[2][1] == seq![0int, 0, 1],
        ising_rules()[2][2] == seq![1int, 1, 0],
{
}

/// The structure constants of the Fibonacci category, one by one.
proof fn lemma_fibonacci_rules()
    ensures
        fibonacci_rules().len() == 2,
        fibonacci_rules()[0][0] == seq![1int, 1],
        fibonacci_rules()[0][1] == seq![1int, 0],
        fibonacci_rules()[1][0] == seq![1int, 0],
        fibonacci_rules()[1][1] == seq![0int, 1],
{
}

/// The Ising fusion of two vectors, entry by entry.
pub proof fn lemma_ising_fusion_entries(a: Seq<int>, b: Seq<int>)
    ensures
        ising_fusion(a, b).len() == 3,
        ising_fusion(a, b)[0] == a[0] * b[1] + a[1] * b[0] + a[2] * b[2],
        ising_fusion(a, b)[1] == a[0] * b[0] + a[1] * b[1] + a[2] * b[2],
        ising_fusion(a, b)[2] == a[0] * b[2] + a[1] * b[2] + a[2] * b[0] + a[2] * b[1],
{
    let rules = ising_rules();
    lemma_ising_rules();
    assert(ising_fusion(a, b)[0] == a[0] * b[1] + a[1] * b[0] + a[2] * b[2]) by {
        lemma_entry_of_three(rules, a, b, 0);
        lemma_term(rules, a, b, 0, 0, 0);
        lemma_term(rules, a, b, 0, 1, 0);
        lemma_term(rules, a, b, 0, 2, 0);
        lemma_term(rules, a, b, 1, 0, 0);
        lemma_term(rules, a, b, 1, 1, 0);
        lemma_term(rules, a, b, 1, 2, 0);
        lemma_term(rules, a, b, 2, 0, 0);
        lemma_term(rules, a, b, 2, 1, 0);
        lemma_term(rules, a, b, 2, 2, 0);
    }
    assert(ising_fusion(a, b)[1] == a[0] * b[0] + a[1] * b[1] + a[2] * b[2]) by {
        lemma_entry_of_three(rules, a, b, 1);
        lemma_term(rules, a, b, 0, 0, 1);
        lemma_term(rules, a, b, 0, 1, 1);
        lemma_term(rules, a, b, 0, 2, 1);
        lemma_term(rules, a, b, 1, 0, 1);
        lemma_term(rules, a, b, 1, 1, 1);
        lemma_term(rules, a, b, 1, 2, 1);
        lemma_term(rules, a, b, 2, 0, 1);
        lemma_term(rules, a, b, 2, 1, 1);
        lemma_term(rules, a, b, 2, 2, 1);
    }
    assert(ising_fusion(a, b)[2] == a[0] * b[2] + a[1] * b[2] + a[2] * b[0] + a[2] * b[1]) by {
        lemma_entry_of_three(rules, a, b, 2);
        lemma_term(rules, a, b, 0, 0, 2);
        lemma_term(rules, a, b, 0, 1, 2);
        lemma_term(rules, a, b, 0, 2, 2);
        lemma_term(rules, a, b, 1, 0, 2);
        lemma_term(rules, a, b, 1, 1, 2);
        lemma_term(rules, a, b, 1, 2, 2);
        lemma_term(rules, a, b, 2, 0, 2);
        lemma_term(rules, a, b, 2, 1, 2);
        lemma_term(rules, a, b, 2, 2, 2);
    }
}

/// The Fibonacci fusion of two vectors, entry by entry.
pub proof fn lemma_fibonacci_fusion_entries(a: Seq<int>, b: Seq<int>)
    ensures
        fibonacci_fusion(a, b).len() == 2,
        fibonacci_fusion(a, b)[0] == a[0] * b[0] + a[0] * b[1] + a[1] * b[0],
        fibonacci_fusion(a, b)[1] == a[0] * b[0] + a[1] * b[1],
{
    let rules = fibonacci_rules();
    lemma_fibonacci_rules();
    assert(fibonacci_fusion(a, b)[0] == a[0] * b[0] + a[0] * b[1] + a[1] * b[0]) by {
        lemma_entry_of_two(rules, a, b, 0);
        lemma_term(rules, a, b, 0, 0, 0);
        lemma_term(rules, a, b, 0, 1, 0);
        lemma_term(rules, a, b, 1, 0, 0);
        lemma_term(rules, a, b, 1, 1, 0);
    }
    assert(fibonacci_fusion(a, b)[1] == a[0] * b[0] + a[1] * b[1]) by {
        lemma_entry_of_two(rules, a, b, 1);
        lemma_term(rules, a, b, 0, 0, 1);
        lemma_term(rules, a, b, 0, 1, 1);
        lemma_term(rules, a, b, 1, 0, 1);
        lemma_term(rules, a, b, 1, 1, 1);
    }
}

/// Fusion is symmetric in the Ising category: the order of the two vectors
/// does not matter.
pub proof fn lemma_ising_fusion_symmetric(a: Seq<int>, b: Seq<int>)
    ensures
        ising_fusion(a, b) == ising_fusion(b, a),
{
    lemma_ising_fusion_entries(a, b);
    lemma_ising_fusion_entries(b, a);
    assert(a[0] * b[1] == b[1] * a[0] && a[1] * b[0] == b[0] * a[1] && a[2] * b[2] == b[2] * a[2]
        && a[0] * b[0] == b[0] * a[0] && a[1] * b[1] == b[1] * a[1] && a[0] * b[2] == b[2] * a[0]
        && a[1] * b[2] == b[2] * a[1] && a[2] * b[0] == b[0] * a[2] && a[2] * b[1] == b[1] * a[2])
        by (nonlinear_arith);
    assert(ising_fusion(a, b) =~= ising_fusion(b, a));
}

/// Fusion is symmetric in the Fibonacci category: the order of the two
/// vectors does not matter.
pub proof fn lemma_fibonacci_fusion_symmetric(a: Seq<int>, b: Seq<int>)
    ensures
        fibonacci_fusion(a, b) == fibonacci_fusion(b, a),
{
    lemma_fibonacci_fusion_entries(a, b);
    lemma_fibonacci_fusion_entries(b, a);
    assert(a[0] * b[0] == b[0] * a[0] && a[0] * b[1] == b[1] * a[0] && a[1] * b[0] == b[0] * a[1]
        && a[1] * b[1] == b[1] * a[1]) by (nonlinear_arith);
    assert(fibonacci_fusion(a, b) =~= fibonacci_fusion(b, a));
}

/// The structure constants say what two single charges fuse to: the vector
/// of charge `i`, fused with the vector of charge `j`, is `N[i][j]`.
pub proof fn lemma_ising_fusion_of_charges(i: int, j: int)
    requires
        0 <= i < 3,
        0 <= j < 3,
    ensures
        ising_fusion(one_hot(3, i), one_hot(3, j)) == ising_rules()[i][j],
{
    let a = one_hot(3, i);
    let b = one_hot(3, j);
    lemma_ising_fusion_entries(a, b);
    lemma_ising_rules();
    assert(a[0] == (if i == 0 { 1int } else { 0int }) && a[1] == (if i == 1 { 1int } else { 0int })
        && a[2] == (if i == 2 { 1int } else { 0int }));
    assert(b[0] == (if j == 0 { 1int } else { 0int }) && b[1] == (if j == 1 { 1int } else { 0int })
        && b[2] == (if j == 2 { 1int } else { 0int }));
    lemma_times_zero_and_one(b[0]);
    lemma_times_zero_and_one(b[1]);
    lemma_times_zero_and_one(b[2]);
    assert(ising_fusion(a, b) =~= ising_rules()[i][j]);
}

/// The structure constants say what two single charges fuse to: the vector
/// of charge `i`, fused with the vector of charge `j`, is `N[i][j]`.
pub proof fn lemma_fibonacci_fusion_of_charges(i: int, j: int)
    requires
        0 <= i < 2,
        0 <= j < 2,
    ensures
        fibonacci_fusion(one_hot(2, i), one_hot(2, j)) == fibonacci_rules()[i][j],
{
    let a = one_hot(2, i);
    let b = one_hot(2, j);
    lemma_fibonacci_fusion_entries(a, b);
    lemma_fibonacci_rules();
    assert(a[0] == (if i == 0 { 1int } else { 0int }) && a[1] == (if i == 1 { 1int } else { 0int }));
    assert(b[0] == (if j == 0 { 1int } else { 0int }) && b[1] == (if j == 1 { 1int } else { 0int }));
    lemma_times_zero_and_one(b[0]);
    lemma_times_zero_and_one(b[1]);
    assert(fibonacci_fusion(a, b) =~= fibonacci_rules()[i][j]);
}

/// Products with zero and with one.
proof fn lemma_times_zero_and_one(x: int)
    ensures
        0 * x == 0,
        x * 0 == 0,
        1 * x == x,
        x * 1 == x,
{
}

/// Vacuum is the identity of the Ising category: fusing it with a vector,
/// on either side, gives that vector unchanged.
pub proof fn lemma_ising_vacuum_identity(c: Seq<int>)
    requires
        c.len() == 3,
    ensures
        ising_fusion(one_hot(3, 1), c) == c,
        ising_fusion(c, one_hot(3, 1)) == c,
{
    let vacuum = one_hot(3, 1);
    lemma_ising_fusion_entries(vacuum, c);
    lemma_ising_fusion_entries(c, vacuum);
    assert(vacuum[0] == 0 && vacuum[1] == 1 && vacuum[2] == 0);
    lemma_times_zero_and_one(c[0]);
    lemma_times_zero_and_one(c[1]);
    lemma_times_zero_and_one(c[2]);
    assert(ising_fusion(vacuum, c) =~= c);
    assert(ising_fusion(c, vacuum) =~= c);
}

/// Vacuum is the identity of the Fibonacci category: fusing it with a
/// vector, on either side, gives that vector unchanged.
pub proof fn lemma_fibonacci_vacuum_identity(c: Seq<int>)
    requires
        c.len() == 2,
    ensures
        fibonacci_fusion(one_hot(2, 1), c) == c,
        fibonacci_fusion(c, one_hot(2, 1)) == c,
{
    let vacuum = one_hot(2, 1);
    lemma_fibonacci_fusion_entries(vacuum, c);
    lemma_fibonacci_fusion_entries(c, vacuum);
    assert(vacuum[0] == 0 && vacuum[1] == 1);
    lemma_times_zero_and_one(c[0]);
    lemma_times_zero_and_one(c[1]);
    assert(fibonacci_fusion(vacuum, c) =~= c);
    assert(fibonacci_fusion(c, vacuum) =~= c);
}

/// The vector has `dim` counts, and they add up to `bound` at most.
pub open spec fn adds_up_to(v: Seq<int>, dim: nat, bound: int) -> bool {
    &&& v.len() == dim
    &&& forall|k: int| 0 <= k < dim ==> 0 <= #[trigger] v[k]
    &&& sum_below(dim as int, |k: int| v[k]) <= bound
}

/// The vector is the vector of one charge of a category of `dim` charges.
pub open spec fn is_single(v: Seq<int>, dim: nat) -> bool {
    exists|c: int| 0 <= c < dim && v == #[trigger] one_hot(dim, c)
}

/// Every vector is the vector of one charge of a category of `dim` charges.
pub open spec fn all_single(charges: Seq<Seq<int>>, dim: nat) -> bool {
    forall|i: int| 0 <= i < charges.len() ==> is_single(#[trigger] charges[i], dim)
}

/// Fusing with one charge of the Ising category at most doubles the sum of
/// the counts.
proof fn lemma_ising_step(a: Seq<int>, c: int, bound: int)
    requires
        adds_up_to(a, 3, bound),
        0 <= c < 3,
    ensures
        adds_up_to(ising_fusion(a, one_hot(3, c)), 3, 2 * bound),
{
    let b = one_hot(3, c);
    let out = ising_fusion(a, b);
    lemma_ising_fusion_entries(a, b);
    lemma_short_sums(|k: int| a[k]);
    lemma_short_sums(|k: int| out[k]);
    assert(b[0] == (if c == 0 { 1int } else { 0int }) && b[1] == (if c == 1 { 1int } else { 0int })
        && b[2] == (if c == 2 { 1int } else { 0int }));
    lemma_times_zero_and_one(a[0]);
    lemma_times_zero_and_one(a[1]);
    lemma_times_zero_and_one(a[2]);
    assert(a[0] >= 0 && a[1] >= 0 && a[2] >= 0);
}

/// Fusing with one charge of the Fibonacci category at most doubles the sum
/// of the counts.
proof fn lemma_fibonacci_step(a: Seq<int>, c: int, bound: int)
    requires
        adds_up_to(a, 2, bound),
        0 <= c < 2,
    ensures
        adds_up_to(fibonacci_fusion(a, one_hot(2, c)), 2, 2 * bound),
{
    let b = one_hot(2, c);
    let out = fibonacci_fusion(a, b);
    lemma_fibonacci_fusion_entries(a, b);
    lemma_short_sums(|k: int| a[k]);
    lemma_short_sums(|k: int| out[k]);
    assert(b[0] == (if c == 0 { 1int } else { 0int }) && b[1] == (if c == 1 { 1int } else { 0int }));
    lemma_times_zero_and_one(a[0]);
    lemma_times_zero_and_one(a[1]);
    assert(a[0] >= 0 && a[1] >= 0);
}

/// The counts of the fusion of `n` single charges of the Ising category add
/// up to `2^(n - 1)` at most.
proof fn lemma_ising_fold_bound(charges: Seq<Seq<int>>)
    requires
        charges.len() >= 1,
        all_single(charges, 3),
    ensures
        adds_up_to(fold_fusion(ising_rules(), charges), 3, pow2((charges.len() - 1) as nat) as int),
    decreases charges.len(),
{
    vstd::arithmetic::power2::lemma2_to64();
    assert(charges.last() == charges[charges.len() - 1]);
    assert(is_single(charges.last(), 3));
    let c = choose|c: int| 0 <= c < 3 && charges.last() == #[trigger] one_hot(3, c);
    if charges.len() == 1 {
        lemma_short_sums(|k: int| charges[0][k]);
    } else {
        let fewer = charges.drop_last();
        assert forall|i: int| 0 <= i < fewer.len() implies is_single(#[trigger] fewer[i], 3) by {
            assert(fewer[i] == charges[i]);
        }
        lemma_ising_fold_bound(fewer);
        lemma_ising_step(
            fold_fusion(ising_rules(), fewer),
            c,
            pow2((fewer.len() - 1) as nat) as int,
        );
        lemma_pow2_unfold((charges.len() - 1) as nat);
    }
}

/// The counts of the fusion of `n` single charges of the Fibonacci category
/// add up to `2^(n - 1)` at most.
proof fn lemma_fibonacci_fold_bound(charges: Seq<Seq<int>>)
    requires
        charges.len() >= 1,
        all_single(charges, 2),
    ensures
        adds_up_to(
            fold_fusion(fibonacci_rules(), charges),
            2,
            pow2((charges.len() - 1) as nat) as int,
        ),
    decreases charges.len(),
{
    vstd::arithmetic::power2::lemma2_to64();
    assert(charges.last() == charges[charges.len() - 1]);
    assert(is_single(charges.last(), 2));
    let c = choose|c: int| 0 <= c < 2 && charges.last() == #[trigger] one_hot(2, c);
    if charges.len() == 1 {
        lemma_short_sums(|k: int| charges[0][k]);
    } else {
        let fewer = charges.drop_last();
        assert forall|i: int| 0 <= i < fewer.len() implies is_single(#[trigger] fewer[i], 2) by {
            assert(fewer[i] == charges[i]);
        }
        lemma_fibonacci_fold_bound(fewer);
        lemma_fibonacci_step(
            fold_fusion(fibonacci_rules(), fewer),
            c,
            pow2((fewer.len() - 1) as nat) as int,
        );
        lemma_pow2_unfold((charges.len() - 1) as nat);
    }
}

/// A vector whose counts add up to `2^63` at most has no count that is more
/// than a `u64` can hold.
pub proof fn lemma_bounded_fits(v: Seq<int>, dim: nat, exponent: nat)
    requires
        2 <= dim <= 3,
        exponent <= 63,
        adds_up_to(v, dim, pow2(exponent) as int),
    ensures
        fits(v),
{
    lemma_short_sums(|k: int| v[k]);
    lemma_u64_pow2_no_overflow(63);
    if exponent < 63 {
        lemma_pow2_strictly_increases(exponent, 63);
    }
}

/// Up to 64 single charges of the Ising category fuse without a count that
/// is more than a `u64` can hold.
pub proof fn lemma_ising_fold_fits(charges: Seq<Seq<int>>)
    requires
        charges.len() <= 64,
        all_single(charges, 3),
    ensures
        fold_fits(ising_rules(), charges),
{
    assert forall|n: int| 1 <= n <= charges.len() implies fits(
        #[trigger] fold_fusion(ising_rules(), charges.take(n)),
    ) by {
        let some = charges.take(n);
        assert forall|i: int| 0 <= i < some.len() implies is_single(#[trigger] some[i], 3) by {
            assert(some[i] == charges[i]);
        }
        lemma_ising_fold_bound(some);
        lemma_bounded_fits(fold_fusion(ising_rules(), some), 3, (n - 1) as nat);
    }
}

/// Up to 64 single charges of the Fibonacci category fuse without a count
/// that is more than a `u64` can hold.
pub proof fn lemma_fibonacci_fold_fits(charges: Seq<Seq<int>>)
    requires
        charges.len() <= 64,
        all_single(charges, 2),
    ensures
        fold_fits(fibonacci_rules(), charges),
{
    assert forall|n: int| 1 <= n <= charges.len() implies fits(
        #[trigger] fold_fusion(fibonacci_rules(), charges.take(n)),
    ) by {
        let some = charges.take(n);
        assert forall|i: int| 0 <= i < some.len() implies is_single(#[trigger] some[i], 2) by {
            assert(some[i] == charges[i]);
        }
        lemma_fibonacci_fold_bound(some);
        lemma_bounded_fits(fold_fusion(fibonacci_rules(), some), 2, (n - 1) as nat);
    }
}

/// A product of two counts is no less than zero.
proof fn lemma_product_of_counts(x: u64, y: u64)
    ensures
        0 <= x * y,
{
    assert(0 <= x * y) by (nonlinear_arith);
}

/// A sum that is kept for as long as a `u64` can hold it: `kept` holds
/// `exact`, or holds nothing because `exact` is too great.
spec fn keeps(kept: Option<u64>, exact: int) -> bool {
    match kept {
        Some(sum) => sum == exact,
        None => exact > u64::MAX,
    }
}

/// Adds the product of `x` and `y` to a sum that is kept for as long as a
/// `u64` can hold it.
fn add_product(kept: Option<u64>, x: u64, y: u64, Ghost(exact): Ghost<int>) -> (sum: Option<u64>)
    requires
        keeps(kept, exact),
    ensures
        keeps(sum, exact + x * y),
{
    proof {
        lemma_product_of_counts(x, y);
    }
    match kept {
        None => None,
        Some(so_far) => match x.checked_mul(y) {
            None => None,
            Some(product) => so_far.checked_add(product),
        },
    }
}

/// Fuses two charge-count vectors of the Ising category, unless a count of
/// the result is more than a `u64` can hold.
pub fn checked_fuse_ising(a: &Vec<u64>, b: &Vec<u64>) -> (fused: Option<Vec<u64>>)
    requires
        a.len() == 3,
        b.len() == 3,
    ensures
        fused is Some <==> fits(ising_fusion(counts(a@), counts(b@))),
        fused is Some ==> counts(fused->0@) == ising_fusion(counts(a@), counts(b@)),
{
    let a_psi: u64 = a[0];
    let a_vacuum: u64 = a[1];
    let a_sigma: u64 = a[2];
    let b_psi: u64 = b[0];
    let b_vacuum: u64 = b[1];
    let b_sigma: u64 = b[2];
    let ghost target = ising_fusion(counts(a@), counts(b@));
    proof {
        lemma_ising_fusion_entries(counts(a@), counts(b@));
        lemma_product_of_counts(a_psi, b_psi);
        lemma_product_of_counts(a_psi, b_vacuum);
        lemma_product_of_counts(a_psi, b_sigma);
        lemma_product_of_counts(a_vacuum, b_psi);
        lemma_product_of_counts(a_vacuum, b_vacuum);
        lemma_product_of_counts(a_vacuum, b_sigma);
        lemma_product_of_counts(a_sigma, b_psi);
        lemma_product_of_counts(a_sigma, b_vacuum);
        lemma_product_of_counts(a_sigma, b_sigma);
    }
    let psi = add_product(Some(0), a_psi, b_vacuum, Ghost(0));
    let psi = add_product(psi, a_vacuum, b_psi, Ghost(a_psi * b_vacuum));
    let psi = add_product(psi, a_sigma, b_sigma, Ghost(a_psi * b_vacuum + a_vacuum * b_psi));
    let vacuum = add_product(Some(0), a_psi, b_psi, Ghost(0));
    let vacuum = add_product(vacuum, a_vacuum, b_vacuum, Ghost(a_psi * b_psi));
    let vacuum = add_product(vacuum, a_sigma, b_sigma, Ghost(a_psi * b_psi + a_vacuum * b_vacuum));
    let sigma = add_product(Some(0), a_psi, b_sigma, Ghost(0));
    let sigma = add_product(sigma, a_vacuum, b_sigma, Ghost(a_psi * b_sigma));
    let sigma = add_product(sigma, a_sigma, b_psi, Ghost(a_psi * b_sigma + a_vacuum * b_sigma));
    let sigma = add_product(
        sigma,
        a_sigma,
        b_vacuum,
        Ghost(a_psi * b_sigma + a_vacuum * b_sigma + a_sigma * b_psi),
    );
    assert(keeps(psi, target[0]) && keeps(vacuum, target[1]) && keeps(sigma, target[2]));
    assert(0 <= target[0] && 0 <= target[1] && 0 <= target[2]);
    match (psi, vacuum, sigma) {
        (Some(psi), Some(vacuum), Some(sigma)) => {
            let fused: Vec<u64> = vec![psi, vacuum, sigma];
            assert(counts(fused@) =~= target);
            Some(fused)
        },
        _ => {
            assert(!(target[0] <= u64::MAX && target[1] <= u64::MAX && target[2] <= u64::MAX));
            None
        },
    }
}

/// Fuses two charge-count vectors of the Fibonacci category, unless a count
/// of the result is more than a `u64` can hold.
pub fn checked_fuse_fibonacci(a: &Vec<u64>, b: &Vec<u64>) -> (fused: Option<Vec<u64>>)
    requires
        a.len() == 2,
        b.len() == 2,
    ensures
        fused is Some <==> fits(fibonacci_fusion(counts(a@), counts(b@))),
        fused is Some ==> counts(fused->0@) == fibonacci_fusion(counts(a@), counts(b@)),
{
    let a_tau: u64 = a[0];
    let a_vacuum: u64 = a[1];
    let b_tau: u64 = b[0];
    let b_vacuum: u64 = b[1];
    let ghost target = fibonacci_fusion(counts(a@), counts(b@));
    proof {
        lemma_fibonacci_fusion_entries(counts(a@), counts(b@));
        lemma_product_of_counts(a_tau, b_tau);
        lemma_product_of_counts(a_tau, b_vacuum);
        lemma_product_of_counts(a_vacuum, b_tau);
        lemma_product_of_counts(a_vacuum, b_vacuum);
    }
    let tau = add_product(Some(0), a_tau, b_tau, Ghost(0));
    let tau = add_product(tau, a_tau, b_vacuum, Ghost(a_tau * b_tau));
    let tau = add_product(tau, a_vacuum, b_tau, Ghost(a_tau * b_tau + a_tau * b_vacuum));
    let vacuum = add_product(Some(0), a_tau, b_tau, Ghost(0));
    let vacuum = add_product(vacuum, a_vacuum, b_vacuum, Ghost(a_tau * b_tau));
    assert(keeps(tau, target[0]) && keeps(vacuum, target[1]));
    assert(0 <= target[0] && 0 <= target[1]);
    match (tau, vacuum) {
        (Some(tau), Some(vacuum)) => {
            let fused: Vec<u64> = vec![tau, vacuum];
            assert(counts(fused@) =~= target);
            Some(fused)
        },
        _ => {
            assert(!(target[0] <= u64::MAX && target[1] <= u64::MAX));
            None
        },
    }
}

/// Fuses two charge-count vectors of the Ising category.
pub fn fuse_ising(a: &Vec<u64>, b: &Vec<u64>) -> (fused: Vec<u64>)
    requires
        a.len() == 3,
        b.len() == 3,
        fits(ising_fusion(counts(a@), counts(b@))),
    ensures
        counts(fused@) == ising_fusion(counts(a@), counts(b@)),
{
    match checked_fuse_ising(a, b) {
        Some(fused) => fused,
        None => unreached(),
    }
}

/// Fuses two charge-count vectors of the Fibonacci category.
pub fn fuse_fibonacci(a: &Vec<u64>, b: &Vec<u64>) -> (fused: Vec<u64>)
    requires
        a.len() == 2,
        b.len() == 2,
        fits(fibonacci_fusion(counts(a@), counts(b@))),
    ensures
        counts(fused@) == fibonacci_fusion(counts(a@), counts(b@)),
{
    match checked_fuse_fibonacci(a, b) {
        Some(fused) => fused,
        None => unreached(),
    }
}

/// Fuses all the vectors of the Ising category in `seeds`, in sequence from
/// the first, unless a count on the way is more than a `u64` can hold.
pub fn checked_fold_ising(seeds: &Vec<Vec<u64>>) -> (total: Option<Vec<u64>>)
    requires
        seeds.len() > 0,
        forall|i: int| 0 <= i < seeds.len() ==> (#[trigger] seeds[i]).len() == 3,
    ensures
        total is Some <==> fold_fits(ising_rules(), charge_table(seeds@)),
        total is Some ==> total->0.len() == 3 && counts(total->0@) == fold_fusion(
            ising_rules(),
            charge_table(seeds@),
        ),
{
    let ghost table = charge_table(seeds@);
    let mut total: Vec<u64> = vec![seeds[0][0], seeds[0][1], seeds[0][2]];
    assert(counts(total@) =~= table[0]);
    assert(table.take(1) =~= seq![table[0]]);
    let mut i: usize = 1;
    while i < seeds.len()
        invariant
            1 <= i <= seeds.len(),
            forall|i: int| 0 <= i < seeds.len() ==> (#[trigger] seeds[i]).len() == 3,
            table == charge_table(seeds@),
            total.len() == 3,
            counts(total@) == fold_fusion(ising_rules(), table.take(i as int)),
            forall|n: int| 1 <= n <= i ==> fits(#[trigger] fold_fusion(ising_rules(), table.take(n))),
        decreases seeds.len() - i,
    {
        proof {
            let longer = table.take(i as int + 1);
            assert(longer.drop_last() == table.take(i as int));
            assert(longer.last() == counts(seeds[i as int]@));
            lemma_ising_fusion_entries(counts(total@), counts(seeds[i as int]@));
        }
        match checked_fuse_ising(&total, &seeds[i]) {
            Some(fused) => {
                total = fused;
            },
            None => {
                assert(!fits(fold_fusion(ising_rules(), table.take(i as int + 1))));
                return None;
            },
        }
        i += 1;
    }
    assert(table.take(seeds.len() as int) == table);
    Some(total)
}

/// Fuses all the vectors of the Fibonacci category in `seeds`, in sequence
/// from the first, unless a count on the way is more than a `u64` can hold.
pub fn checked_fold_fibonacci(seeds: &Vec<Vec<u64>>) -> (total: Option<Vec<u64>>)
    requires
        seeds.len() > 0,
        forall|i: int| 0 <= i < seeds.len() ==> (#[trigger] seeds[i]).len() == 2,
    ensures
        total is Some <==> fold_fits(fibonacci_rules(), charge_table(seeds@)),
        total is Some ==> total->0.len() == 2 && counts(total->0@) == fold_fusion(
            fibonacci_rules(),
            charge_table(seeds@),
        ),
{
    let ghost table = charge_table(seeds@);
    let mut total: Vec<u64> = vec![seeds[0][0], seeds[0][1]];
    assert(counts(total@) =~= table[0]);
    assert(table.take(1) =~= seq![table[0]]);
    let mut i: usize = 1;
    while i < seeds.len()
        invariant
            1 <= i <= seeds.len(),
            forall|i: int| 0 <= i < seeds.len() ==> (#[trigger] seeds[i]).len() == 2,
            table == charge_table(seeds@),
            total.len() == 2,
            counts(total@) == fold_fusion(fibonacci_rules(), table.take(i as int)),
            forall|n: int|
                1 <= n <= i ==> fits(#[trigger] fold_fusion(fibonacci_rules(), table.take(n))),
        decreases seeds.len() - i,
    {
        proof {
            let longer = table.take(i as int + 1);
            assert(longer.drop_last() == table.take(i as int));
            assert(longer.last() == counts(seeds[i as int]@));
            lemma_fibonacci_fusion_entries(counts(total@), counts(seeds[i as int]@));
        }
        match checked_fuse_fibonacci(&total, &seeds[i]) {
            Some(fused) => {
                total = fused;
            },
            None => {
                assert(!fits(fold_fusion(fibonacci_rules(), table.take(i as int + 1))));
                return None;
            },
        }
        i += 1;
    }
    assert(table.take(seeds.len() as int) == table);
    Some(total)
}

} // verus!
