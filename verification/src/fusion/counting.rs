//! How many anyons of the charge that fuses in more than one way it takes
//! to hold a given number of qubits.
//!
//! In the Ising category `2 * qubits + 1` Sigma anyons hold `qubits` qubits,
//! and so do `2 * qubits + 2`. In the Fibonacci
//! category `n` Tau anyons fuse to Tau in `fib(n)` ways and to Vacuum in
//! `fib(n - 1)` ways; they hold `qubits` qubits when one of the two numbers
//! is at least `2^qubits` and less than `2^(qubits + 1)`.

use crate::fusion::fusion::{Fusion, FusionError};
use crate::model::model::AnyonModel;
use vstd::arithmetic::power2::{
    lemma2_to64, lemma_pow2_pos, lemma_pow2_strictly_increases, lemma_pow2_unfold, pow2,
};
use vstd::bits::{lemma_u32_pow2_no_overflow, lemma_u32_shl_is_mul};
use vstd::prelude::*;

verus! {

/// The Fibonacci numbers: 0, 1, 1, 2, 3, 5, ...
pub open spec fn fib(n: nat) -> nat
    decreases n,
{
    if n == 0 {
        0
    } else if n == 1 {
        1
    } else {
        fib((n - 1) as nat) + fib((n - 2) as nat)
    }
}

/// In how many ways `n` Tau anyons fuse to Tau.
pub open spec fn tau_ways(n: nat) -> nat {
    fib(n)
}

/// In how many ways `n` Tau anyons fuse to Vacuum.
pub open spec fn vacuum_ways(n: nat) -> nat {
    if n == 0 {
        1
    } else {
        fib((n - 1) as nat)
    }
}

/// `ways` outcomes hold `qubits` qubits and no more.
pub open spec fn holds_qubits(qubits: nat, ways: nat) -> bool {
    pow2(qubits) <= ways < pow2(qubits + 1)
}

/// `n` Tau anyons can hold `qubits` qubits and no more.
pub open spec fn tau_count_admissible(qubits: nat, n: nat) -> bool {
    holds_qubits(qubits, tau_ways(n)) || holds_qubits(qubits, vacuum_ways(n))
}

/// The counts rise.
pub open spec fn rising(counts: Seq<u32>) -> bool {
    forall|i: int, j: int| 0 <= i < j < counts.len() ==> counts[i] < counts[j]
}

/// The Fibonacci numbers never fall.
pub proof fn lemma_fib_monotonic(m: nat, n: nat)
    requires
        m <= n,
    ensures
        fib(m) <= fib(n),
    decreases n,
{
    if m < n {
        if n >= 2 {
            lemma_fib_monotonic(m, (n - 1) as nat);
        }
    }
}

/// From the third on, a Fibonacci number is at most twice the one before.
proof fn lemma_fib_at_most_doubles(n: nat)
    requires
        n >= 2,
    ensures
        fib(n) <= 2 * fib((n - 1) as nat),
{
    lemma_fib_monotonic((n - 2) as nat, (n - 1) as nat);
}

impl Fusion {
    /// The numbers of Sigma anyons that hold `qubits` qubits and no more.
    pub fn ising_possible_sigmas(&self, qubits: u32) -> (sigmas: Vec<u32>)
        requires
            2 * qubits + 2 <= u32::MAX,
        ensures
            sigmas@ == seq![(2 * qubits + 1) as u32, (2 * qubits + 2) as u32],
    {
        let sigmas: Vec<u32> = vec![2 * qubits + 1, 2 * qubits + 2];
        assert(sigmas@ =~= seq![(2 * qubits + 1) as u32, (2 * qubits + 2) as u32]);
        sigmas
    }

    /// The numbers of Tau anyons that hold `qubits` qubits and no more, in
    /// rising order.
    pub fn fibonacci_possible_taus(&self, qubits: u32) -> (taus: Vec<u32>)
        requires
            qubits <= 30,
        ensures
            rising(taus@),
            forall|n: nat|
                tau_count_admissible(qubits as nat, n) <==> n <= u32::MAX && taus@.contains(
                    n as u32,
                ),
    {
        if qubits == 0 {
            let taus: Vec<u32> = vec![0, 1, 2, 3];
            proof {
                lemma2_to64();
                reveal_with_fuel(fib, 5);
                assert forall|n: nat| tau_count_admissible(0, n) <==> n <= u32::MAX
                    && taus@.contains(n as u32) by {
                    if n >= 4 {
                        lemma_fib_monotonic(3, (n - 1) as nat);
                        lemma_fib_monotonic(3, n);
                    } else {
                        assert(taus@[n as int] == n);
                    }
                }
            }
            return taus;
        }
        proof {
            lemma_u32_pow2_no_overflow(qubits as nat);
            lemma_u32_pow2_no_overflow((qubits + 1) as nat);
            lemma_u32_shl_is_mul(1, qubits);
            lemma_u32_shl_is_mul(1, (qubits + 1) as u32);
            lemma_pow2_unfold((qubits + 1) as nat);
            lemma_pow2_unfold(qubits as nat);
            lemma_pow2_pos((qubits - 1) as nat);
            lemma2_to64();
            if qubits + 1 < 31 {
                lemma_pow2_strictly_increases((qubits + 1) as nat, 31);
            }
        }
        let low: u32 = 1u32 << qubits;
        let high: u32 = 1u32 << (qubits + 1);
        assert(low == pow2(qubits as nat) && high == pow2((qubits + 1) as nat) && high == 2 * low
            && low >= 2);
        let mut taus: Vec<u32> = Vec::new();
        let mut n: u32 = 1;
        let mut a: u32 = 0;
        let mut b: u32 = 1;
        while b < high
            invariant
                qubits >= 1,
                low == pow2(qubits as nat),
                high == pow2((qubits + 1) as nat),
                high == 2 * low,
                low >= 2,
                high <= 0x8000_0000,
                n >= 1,
                a == vacuum_ways(n as nat),
                b == tau_ways(n as nat),
                a <= b,
                b >= 1,
                n >= 2 ==> a >= 1,
                n <= b + 1,
                a < high,
                rising(taus@),
                forall|i: int| 0 <= i < taus.len() ==> taus[i] < n,
                forall|m: nat|
                    m < n ==> (tau_count_admissible(qubits as nat, m) <==> taus@.contains(m as u32)),
            decreases 3 * high - a - b,
        {
            let ghost earlier = taus@;
            if low <= b {
                taus.push(n);
            }
            proof {
                assert forall|m: nat| m < n + 1 implies (tau_count_admissible(qubits as nat, m)
                    <==> taus@.contains(m as u32)) by {
                    if m < n {
                        if earlier.contains(m as u32) {
                            let i = choose|i: int| 0 <= i < earlier.len() && earlier[i] == m as u32;
                            assert(taus@[i] == m as u32);
                        }
                        if taus@.contains(m as u32) {
                            let i = choose|i: int| 0 <= i < taus@.len() && taus@[i] == m as u32;
                            assert(earlier[i] == m as u32);
                        }
                    } else {
                        if low <= b {
                            assert(taus@[earlier.len() as int] == n);
                        } else {
                            if taus@.contains(m as u32) {
                                let i = choose|i: int| 0 <= i < taus@.len() && taus@[i] == m as u32;
                                assert(earlier[i] < n);
                            }
                        }
                    }
                }
                assert(fib((n + 1) as nat) == fib(n as nat) + fib((n - 1) as nat));
            }
            b = a + b;
            a = b - a;
            n += 1;
        }
        let ghost earlier = taus@;
        taus.push(n);
        proof {
            assert(n >= 2);
            lemma_fib_at_most_doubles(n as nat);
            assert forall|m: nat| tau_count_admissible(qubits as nat, m) <==> m <= u32::MAX
                && taus@.contains(m as u32) by {
                if m < n {
                    if earlier.contains(m as u32) {
                        let i = choose|i: int| 0 <= i < earlier.len() && earlier[i] == m as u32;
                        assert(taus@[i] == m as u32);
                    }
                    if taus@.contains(m as u32) {
                        let i = choose|i: int| 0 <= i < taus@.len() && taus@[i] == m as u32;
                        assert(earlier[i] == m as u32);
                    }
                } else if m == n {
                    assert(taus@[earlier.len() as int] == n);
                } else {
                    lemma_fib_monotonic(n as nat, m);
                    lemma_fib_monotonic(n as nat, (m - 1) as nat);
                    if m <= u32::MAX && taus@.contains(m as u32) {
                        let i = choose|i: int| 0 <= i < taus@.len() && taus@[i] == m as u32;
                        if i < earlier.len() {
                            assert(earlier[i] < n);
                        }
                    }
                }
            }
        }
        taus
    }

    /// The numbers of anyons of the charge that fuses in more than one way
    /// that hold `qubits` qubits and no more, under the model of the system.
    pub fn minimum_possible_anyons(&self, qubits: u32) -> (counts: Result<Vec<u32>, FusionError>)
        requires
            self@.state.anyon_model == AnyonModel::Ising ==> 2 * qubits + 2 <= u32::MAX,
            self@.state.anyon_model == AnyonModel::Fibonacci ==> qubits <= 30,
        ensures
            match self@.state.anyon_model {
                AnyonModel::Ising => counts is Ok && counts->Ok_0@ == seq![
                    (2 * qubits + 1) as u32,
                    (2 * qubits + 2) as u32,
                ],
                AnyonModel::Fibonacci => counts is Ok && rising(counts->Ok_0@) && forall|n: nat|
                    tau_count_admissible(qubits as nat, n) <==> n <= u32::MAX
                        && counts->Ok_0@.contains(n as u32),
                AnyonModel::Custom => counts == Err::<Vec<u32>, FusionError>(
                    FusionError::UnsupportedModel,
                ),
            },
    {
        match self.state().anyon_model() {
            AnyonModel::Ising => Ok(self.ising_possible_sigmas(qubits)),
            AnyonModel::Fibonacci => Ok(self.fibonacci_possible_taus(qubits)),
            AnyonModel::Custom => Err(FusionError::UnsupportedModel),
        }
    }
}

} // verus!
