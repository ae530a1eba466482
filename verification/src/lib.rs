//! Prime factorization by trial division.
//!
//! `generate` maps a positive integer to the sequence of its prime factors,
//! with multiplicity, in non-decreasing order. The contract states the three
//! facts that pin the result down: the factors multiply back to the input,
//! every factor is prime, and the sequence is sorted.

use vstd::arithmetic::div_mod::lemma_fundamental_div_mod;
use vstd::arithmetic::div_mod::lemma_mod_multiples_basic;
use vstd::prelude::*;

verus! {

/// A sequence of `i32` values viewed as mathematical integers.
pub open spec fn as_ints(s: Seq<i32>) -> Seq<int> {
    s.map_values(|x: i32| x as int)
}

/// `p` is prime: at least 2, with no divisor strictly between 1 and `p`.
pub open spec fn is_prime(p: int) -> bool {
    2 <= p && forall|d: int| 2 <= d < p ==> #[trigger] (p % d) != 0
}

/// The product of a sequence of integers; 1 for the empty sequence.
pub open spec fn seq_product(s: Seq<int>) -> int
    decreases s.len(),
{
    if s.len() == 0 {
        1
    } else {
        seq_product(s.drop_last()) * s.last()
    }
}

/// Every element of `s` is prime.
pub open spec fn all_prime(s: Seq<int>) -> bool {
    forall|i: int| 0 <= i < s.len() ==> is_prime(#[trigger] s[i])
}

/// `s` is sorted in non-decreasing order.
pub open spec fn sorted_ascending(s: Seq<int>) -> bool {
    forall|i: int, j: int| 0 <= i <= j < s.len() ==> s[i] <= s[j]
}

/// Divisibility is transitive: if `d` divides `m` and `m` divides `n`,
/// then `d` divides `n`.
proof fn lemma_divides_transitive(d: int, m: int, n: int)
    requires
        2 <= d,
        1 <= m,
        1 <= n,
        m % d == 0,
        n % m == 0,
    ensures
        n % d == 0,
{
    let k = m / d;
    let l = n / m;
    lemma_fundamental_div_mod(m, d);
    lemma_fundamental_div_mod(n, m);
    assert(n == (k * l) * d) by (nonlinear_arith)
        requires
            m == d * k,
            n == m * l,
    ;
    lemma_mod_multiples_basic(k * l, d);
}

/// A divisor `c` of `r` is prime when `r` has no divisor below `c`
/// (other than 1): any proper divisor of `c` would divide `r` too.
proof fn lemma_least_divisor_is_prime(c: int, r: int)
    requires
        2 <= c,
        c <= r,
        r % c == 0,
        forall|d: int| 2 <= d < c ==> #[trigger] (r % d) != 0,
    ensures
        is_prime(c),
{
    assert forall|d: int| 2 <= d < c implies #[trigger] (c % d) != 0 by {
        if c % d == 0 {
            lemma_divides_transitive(d, c, r);
        }
    }
}

/// Appending `x` multiplies the product by `x`.
proof fn lemma_seq_product_push(s: Seq<int>, x: int)
    ensures
        seq_product(s.push(x)) == seq_product(s) * x,
{
    assert(s.push(x).drop_last() =~= s);
}

/// The product of a sequence of primes is at least 1, and at least 2
/// when the sequence is non-empty.
proof fn lemma_prime_product_bounds(s: Seq<int>)
    requires
        all_prime(s),
    ensures
        seq_product(s) >= 1,
        s.len() > 0 ==> seq_product(s) >= 2,
    decreases s.len(),
{
    if s.len() > 0 {
        assert(all_prime(s.drop_last()));
        lemma_prime_product_bounds(s.drop_last());
        assert(seq_product(s.drop_last()) * s.last() >= 2) by (nonlinear_arith)
            requires
                seq_product(s.drop_last()) >= 1,
                s.last() >= 2,
        ;
    }
}

/// The prime factorization of `n`, by trial division: the returned factors
/// multiply back to `n`, each is prime, and they come in non-decreasing
/// order. The result is empty exactly when `n` is 1.
pub fn generate(n: i32) -> (r: Vec<i32>)
    requires
        1 <= n,
    ensures
        seq_product(as_ints(r@)) == n as int,
        all_prime(as_ints(r@)),
        sorted_ascending(as_ints(r@)),
        r@.len() == 0 <==> n == 1,
{
    let mut factors: Vec<i32> = Vec::new();
    let mut remaining: u32 = n as u32;
    let mut candidate: u32 = 2;
    while remaining > 1
        invariant
            1 <= n,
            1 <= remaining <= n as u32,
            2 <= candidate,
            remaining > 1 ==> candidate <= remaining,
            seq_product(as_ints(factors@)) * (remaining as int) == n as int,
            all_prime(as_ints(factors@)),
            sorted_ascending(as_ints(factors@)),
            forall|i: int| 0 <= i < factors@.len() ==> as_ints(factors@)[i] <= candidate as int,
            forall|d: int| 2 <= d < candidate as int ==> #[trigger] ((remaining as int) % d) != 0,
        decreases remaining, remaining - candidate,
    {
        if remaining % candidate == 0 {
            let ghost old_factors = factors@;
            let ghost c = candidate as int;
            let ghost rem = remaining as int;
            factors.push(candidate as i32);
            let next = remaining / candidate;
            proof {
                lemma_fundamental_div_mod(rem, c);
                let q = rem / c;
                assert(1 <= q < rem) by (nonlinear_arith)
                    requires
                        rem == c * q,
                        2 <= c <= rem,
                ;
                lemma_mod_multiples_basic(c, q);
                assert(rem % q == 0);
                // The new factor is prime: it is the least divisor of `rem`.
                lemma_least_divisor_is_prime(c, rem);
                // The new factor sequence is the old one with `c` appended.
                assert(as_ints(factors@) =~= as_ints(old_factors).push(c));
                lemma_seq_product_push(as_ints(old_factors), c);
                assert(seq_product(as_ints(factors@)) * q == n as int) by (nonlinear_arith)
                    requires
                        seq_product(as_ints(factors@)) == seq_product(as_ints(old_factors)) * c,
                        seq_product(as_ints(old_factors)) * rem == n as int,
                        rem == c * q,
                ;
                // The quotient keeps every divisor it had, so it still has
                // none below `candidate`; in particular `q >= candidate`
                // whenever `q > 1`.
                assert forall|d: int| 2 <= d < c implies #[trigger] (q % d) != 0 by {
                    if q % d == 0 {
                        lemma_divides_transitive(d, q, rem);
                    }
                }
            }
            remaining = next;
        } else {
            proof {
                // `candidate` is a proper non-divisor, so it is below
                // `remaining`, which divides itself.
                lemma_mod_multiples_basic(1, remaining as int);
            }
            candidate = candidate + 1;
        }
    }
    proof {
        if factors@.len() > 0 {
            lemma_prime_product_bounds(as_ints(factors@));
        }
    }
    factors
}

} // verus!
