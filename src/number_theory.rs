//! Prime numbers by a linear sieve.
use std::collections::HashSet;
use vstd::prelude::*;

verus! {

broadcast use vstd::std_specs::hash::group_hash_axioms;

/// `n` has no divisor strictly between one and itself.
pub open spec fn is_prime(n: int) -> bool {
    n >= 2 && forall|d: int| 2 <= d < n ==> #[trigger] (n % d) != 0
}

/// The least divisor of `n` that is at least `d`, or `n` itself.
pub open spec fn least_factor(n: int, d: int) -> int
    decreases n - d,
{
    if d >= n {
        n
    } else if n % d == 0 {
        d
    } else {
        least_factor(n, d + 1)
    }
}

/// The smallest prime factor of `n`.
pub open spec fn spf(n: int) -> int {
    least_factor(n, 2)
}

proof fn lemma_least_factor(n: int, d: int)
    requires
        2 <= d <= n,
        forall|e: int| 2 <= e < d ==> #[trigger] (n % e) != 0,
    ensures
        d <= least_factor(n, d) <= n,
        n % least_factor(n, d) == 0,
        forall|e: int| 2 <= e < least_factor(n, d) ==> #[trigger] (n % e) != 0,
    decreases n - d,
{
    if d >= n {
        assert(n % n == 0) by (nonlinear_arith)
            requires
                n >= 2,
        ;
    } else if n % d != 0 {
        lemma_least_factor(n, d + 1);
    }
}

/// If `b` divides `a` and `c` divides `b`, then `c` divides `a`.
proof fn lemma_divides_trans(a: int, b: int, c: int)
    requires
        a >= 0,
        b >= 1,
        c >= 1,
        a % b == 0,
        b % c == 0,
    ensures
        a % c == 0,
{
    vstd::arithmetic::div_mod::lemma_fundamental_div_mod(a, b);
    vstd::arithmetic::div_mod::lemma_fundamental_div_mod(b, c);
    let (x, y) = (a / b, b / c);
    assert(a == c * (y * x)) by (nonlinear_arith)
        requires
            a == b * x,
            b == c * y,
    ;
    vstd::arithmetic::div_mod::lemma_mod_multiples_basic(y * x, c);
    assert(c * (y * x) == (y * x) * c) by (nonlinear_arith);
}

/// The smallest factor of `n` is a prime dividing `n`, and nothing smaller
/// than it divides `n`.
proof fn lemma_spf(n: int)
    requires
        n >= 2,
    ensures
        2 <= spf(n) <= n,
        n % spf(n) == 0,
        forall|e: int| 2 <= e < spf(n) ==> #[trigger] (n % e) != 0,
        is_prime(spf(n)),
        is_prime(n) <==> spf(n) == n,
{
    lemma_least_factor(n, 2);
    let p = spf(n);
    assert forall|e: int| 2 <= e < p implies #[trigger] (p % e) != 0 by {
        if p % e == 0 {
            lemma_divides_trans(n, p, e);
        }
    }
    if spf(n) < n {
        assert(n % p == 0);
    }
}

/// A number that divides `n` has no prime factor below `spf(n)`.
proof fn lemma_spf_of_divisor(n: int, m: int)
    requires
        2 <= m,
        n >= 2,
        n % m == 0,
    ensures
        spf(n) <= spf(m),
{
    lemma_spf(n);
    lemma_spf(m);
    lemma_divides_trans(n, m, spf(m));
}

/// A composite `c` is its smallest factor times a cofactor at least that
/// factor and below `c`.
proof fn lemma_cofactor(c: int)
    requires
        c >= 2,
        !is_prime(c),
    ensures
        c == spf(c) * (c / spf(c)),
        2 <= spf(c) <= c / spf(c) < c,
{
    lemma_spf(c);
    let p = spf(c);
    vstd::arithmetic::div_mod::lemma_fundamental_div_mod(c, p);
    let q = c / p;
    assert(c == p * q);
    assert(q >= 2) by (nonlinear_arith)
        requires
            c == p * q,
            p < c,
            p >= 2,
    ;
    assert(q < c) by (nonlinear_arith)
        requires
            c == p * q,
            p >= 2,
            q >= 2,
    ;
    assert(c % q == 0) by {
        vstd::arithmetic::div_mod::lemma_mod_multiples_basic(p, q);
    }
    lemma_spf_of_divisor(c, q);
    lemma_spf(q);
}

/// Strictly ascending.
pub open spec fn ascending(s: Seq<u32>) -> bool {
    forall|i: int, j: int| 0 <= i < j < s.len() ==> s[i] < s[j]
}

/// `s` lists, in ascending order, exactly the primes below `bound`.
pub open spec fn primes_below(s: Seq<u32>, bound: int) -> bool {
    &&& ascending(s)
    &&& forall|i: int| 0 <= i < s.len() ==> is_prime(#[trigger] s[i] as int) && s[i] < bound
    &&& forall|n: int| 2 <= n < bound && is_prime(n) ==> s.contains(n as u32)
}

/// Once the pass for `i` stops at `s`, every composite whose cofactor is
/// `i` has been struck out: the pass either ran through all primes found,
/// or reached a prime whose multiple by `i` is too large, or struck out the
/// multiple by the smallest prime factor of `i`.
proof fn lemma_sieve_step_done(primes: Seq<u32>, composites: Set<u32>, i: int, to: int, s: int)
    requires
        2 <= i <= to <= u32::MAX,
        primes_below(primes, i + 1),
        0 <= s <= primes.len(),
        forall|k: int| 0 <= k < s ==> (#[trigger] primes[k]) as int * i <= to
            && composites.contains((primes[k] as int * i) as u32),
        s == primes.len() || (primes[s] as int) * i > to || (s >= 1 && i % (primes[s - 1] as int) == 0),
    ensures
        forall|c: int| 2 <= c <= to && !is_prime(c) && c / spf(c) == i ==> composites.contains(c as u32),
{
    assert forall|c: int| 2 <= c <= to && !is_prime(c) && c / spf(c) == i implies composites.contains(c as u32) by {
        lemma_cofactor(c);
        let p = spf(c);
        lemma_spf(c);
        assert(c % i == 0) by {
            vstd::arithmetic::div_mod::lemma_mod_multiples_basic(p, i);
            assert(c == p * i);
            assert(p * i == i * p) by (nonlinear_arith);
        }
        lemma_spf_of_divisor(c, i);
        lemma_spf(i);
        assert(primes.contains(p as u32));
        let k = choose|k: int| 0 <= k < primes.len() && primes[k] == p as u32;
        assert(primes[k] as int == p);
        if k >= s {
            if s < primes.len() && (primes[s] as int) * i > to {
                if k > s {
                    assert(primes[s] < primes[k]);
                }
                assert((primes[s] as int) * i <= p * i) by (nonlinear_arith)
                    requires
                        primes[s] as int <= p,
                        i >= 0,
                ;
            } else if s >= 1 && i % (primes[s - 1] as int) == 0 {
                let q = primes[s - 1] as int;
                assert(is_prime(q));
                assert(spf(i) <= q);
                assert(primes[s - 1] < primes[k]);
            }
        }
        assert(primes[k] as int * i == c);
    }
}

/// The primes up to `to`, in ascending order. Each number is struck out
/// exactly once, by its smallest prime factor.
pub fn linear_sieve(to: u32) -> (r: Vec<u32>)
    ensures
        primes_below(r@, to + 1),
{
    let mut composites: HashSet<u32> = HashSet::new();
    let mut primes: Vec<u32> = Vec::new();
    if to < 2 {
        proof {
            assert forall|n: int| 2 <= n < to + 1 && is_prime(n) implies primes@.contains(n as u32) by {}
        }
        return primes;
    }
    let mut i: u64 = 2;
    proof {
        assert forall|c: int| 2 <= c <= to && !is_prime(c) && c / spf(c) < i implies composites@.contains(c as u32) by {
            lemma_cofactor(c);
        }
    }
    while i <= to as u64
        invariant
            2 <= i <= to as u64 + 1,
            primes_below(primes@, i as int),
            forall|c: u32| #[trigger] composites@.contains(c) ==> 2 <= c <= to && !is_prime(c as int),
            forall|c: int|
                2 <= c <= to && !is_prime(c) && c / spf(c) < i ==> composites@.contains(c as u32),
        decreases to as u64 + 1 - i,
    {
        let iu = i as u32;
        if !composites.contains(&iu) {
            proof {
                if !is_prime(i as int) {
                    lemma_cofactor(i as int);
                }
                assert forall|n: int| 2 <= n < i + 1 && is_prime(n) implies primes@.push(iu).contains(n as u32) by {
                    if n < i {
                        let k = choose|k: int| 0 <= k < primes@.len() && primes@[k] == n as u32;
                        assert(primes@.push(iu)[k] == n as u32);
                    } else {
                        assert(primes@.push(iu)[primes@.len() as int] == iu);
                    }
                }
            }
            primes.push(iu);
        } else {
            proof {
                assert forall|n: int| 2 <= n < i + 1 && is_prime(n) implies primes@.contains(n as u32) by {
                    if n == i {
                        assert(composites@.contains(iu));
                    }
                }
            }
        }
        let mut j: usize = 0;
        loop
            invariant
                2 <= i <= to as u64,
                iu == i,
                primes_below(primes@, i + 1),
                j <= primes@.len(),
                forall|c: u32| #[trigger] composites@.contains(c) ==> 2 <= c <= to && !is_prime(c as int),
                forall|c: int|
                    2 <= c <= to && !is_prime(c) && c / spf(c) < i ==> composites@.contains(c as u32),
                forall|k: int| 0 <= k < j ==> (#[trigger] primes@[k]) as int * i <= to
                    && composites@.contains((primes@[k] as int * i) as u32),
            ensures
                forall|c: int|
                    2 <= c <= to && !is_prime(c) && c / spf(c) < i ==> composites@.contains(c as u32),
                forall|c: u32| #[trigger] composites@.contains(c) ==> 2 <= c <= to && !is_prime(c as int),
                forall|c: int|
                    2 <= c <= to && !is_prime(c) && c / spf(c) == i ==> composites@.contains(c as u32),
            decreases primes@.len() - j,
        {
            if j >= primes.len() {
                proof {
                    lemma_sieve_step_done(primes@, composites@, i as int, to as int, j as int);
                }
                break;
            }
            let p = primes[j];
            proof {
                assert(is_prime(p as int) && p < i + 1);
                assert(i * (p as u64) <= u64::MAX) by (nonlinear_arith)
                    requires
                        i <= u32::MAX,
                        p <= u32::MAX,
                ;
            }
            let prod: u64 = i * (p as u64);
            if prod > to as u64 {
                proof {
                    lemma_sieve_step_done(primes@, composites@, i as int, to as int, j as int);
                }
                break;
            }
            let ghost c0 = composites@;
            composites.insert(prod as u32);
            proof {
                assert(is_prime(p as int));
                assert(prod >= 4) by (nonlinear_arith)
                    requires
                        prod == i * p,
                        i >= 2,
                        p >= 2,
                ;
                assert((prod as u32) as int == prod as int);
                assert(!is_prime(prod as int)) by {
                    assert((prod as int) % (p as int) == 0) by {
                        vstd::arithmetic::div_mod::lemma_mod_multiples_basic(i as int, p as int);
                    }
                    assert(p < prod) by (nonlinear_arith)
                        requires
                            prod == i * p,
                            i >= 2,
                            p >= 2,
                    ;
                }
                assert forall|c: u32| #[trigger] composites@.contains(c) implies 2 <= c <= to && !is_prime(c as int) by {
                    if c != prod as u32 {
                        assert(c0.contains(c));
                    }
                }
                assert(primes@[j as int] as int * i == prod);
            }
            if i % (p as u64) == 0 {
                proof {
                    lemma_sieve_step_done(primes@, composites@, i as int, to as int, j as int + 1);
                }
                break;
            }
            j = j + 1;
        }
        proof {
            assert forall|c: int| 2 <= c <= to && !is_prime(c) && c / spf(c) < i + 1 implies composites@.contains(c as u32) by {}
        }
        i = i + 1;
    }
    primes
}

} // verus!
