//! Sample-rate ratios in lowest terms.
//!
//! A conversion from one rate to another is driven by the ratio of the two
//! rates with every common factor removed.  This module computes that ratio
//! and proves that it is what it claims to be: the same fraction, written
//! with coprime terms.

use vstd::arithmetic::div_mod::*;
use vstd::arithmetic::mul::*;
use vstd::prelude::*;

use crate::error::ConfigurationError;

verus! {

/// `d` is a positive divisor of `n`.
pub open spec fn divides(d: nat, n: nat) -> bool {
    d > 0 && n % d == 0
}

/// The greatest common divisor, by Euclid's recurrence.  `gcd_of(0, 0)` is 0.
pub open spec fn gcd_of(a: nat, b: nat) -> nat
    decreases a,
{
    if a == 0 {
        b
    } else {
        gcd_of(b % a, a)
    }
}

/// No number but 1 divides both `a` and `b`.
pub open spec fn coprime(a: nat, b: nat) -> bool {
    forall|d: nat| #[trigger] divides(d, a) && divides(d, b) ==> d == 1
}

/// The fraction `a / b` with the common factor of its terms removed.
pub open spec fn lowest_terms(a: nat, b: nat) -> (nat, nat) {
    (a / gcd_of(a, b), b / gcd_of(a, b))
}

/// A divisor of `m` divides `x` exactly when it divides `x % m`.
proof fn lemma_divides_remainder(d: nat, x: nat, m: nat)
    requires
        m > 0,
        divides(d, m),
    ensures
        divides(d, x) <==> divides(d, x % m),
{
    let q = x / m;
    let r = x % m;
    lemma_fundamental_div_mod(x as int, m as int);
    assert(x == m * q + r);
    // m * q is a multiple of d
    lemma_mul_mod_noop_left(m as int, q as int, d as int);
    assert((m * q) % d == 0) by {
        assert(((m % d) * q) == 0) by (nonlinear_arith)
            requires
                m % d == 0,
        ;
        lemma_small_mod(0, d);
    }
    lemma_add_mod_noop((m * q) as int, r as int, d as int);
    lemma_mod_twice(r as int, d as int);
}

/// The common divisors of `a` and `b` are exactly the divisors of
/// `gcd_of(a, b)`.
pub proof fn lemma_gcd_common_divisors(a: nat, b: nat)
    ensures
        forall|d: nat|
            #![trigger divides(d, a)]
            #![trigger divides(d, gcd_of(a, b))]
            divides(d, a) && divides(d, b) <==> divides(d, gcd_of(a, b)),
    decreases a,
{
    if a == 0 {
        assert forall|d: nat|
            #![trigger divides(d, a)]
            #![trigger divides(d, gcd_of(a, b))]
            divides(d, a) && divides(d, b) <==> divides(d, gcd_of(a, b)) by {
            if d > 0 {
                lemma_small_mod(0, d);
            }
        }
    } else {
        lemma_gcd_common_divisors(b % a, a);
        assert forall|d: nat|
            #![trigger divides(d, a)]
            #![trigger divides(d, gcd_of(a, b))]
            divides(d, a) && divides(d, b) <==> divides(d, gcd_of(a, b)) by {
            if divides(d, a) {
                lemma_divides_remainder(d, b, a);
            }
            assert(divides(d, b % a) && divides(d, a) <==> divides(d, gcd_of(b % a, a)));
        }
    }
}

/// The greatest common divisor of two numbers that are not both zero is
/// positive and no larger than either positive one.
pub proof fn lemma_gcd_positive(a: nat, b: nat)
    requires
        a > 0 || b > 0,
    ensures
        gcd_of(a, b) > 0,
        a > 0 ==> gcd_of(a, b) <= a,
        b > 0 ==> gcd_of(a, b) <= b,
{
    let g = gcd_of(a, b);
    lemma_gcd_common_divisors(a, b);
    if g == 0 {
        // every number divides 0, so one larger than both would divide both
        let d = a + b + 1;
        lemma_small_mod(0, d);
        assert(divides(d, g));
        assert(divides(d, a) && divides(d, b));
        lemma_small_mod(a, d);
        lemma_small_mod(b, d);
    } else {
        lemma_mod_self_0(g as int);
        assert(divides(g, g));
        assert(divides(g, a) && divides(g, b));
        if a > 0 && g > a {
            lemma_small_mod(a, g);
        }
        if b > 0 && g > b {
            lemma_small_mod(b, g);
        }
    }
}

/// Dividing both terms of a fraction by their greatest common divisor keeps
/// its value and leaves coprime terms.
pub proof fn lemma_lowest_terms(a: nat, b: nat)
    requires
        a > 0,
        b > 0,
    ensures
        lowest_terms(a, b).0 > 0,
        lowest_terms(a, b).1 > 0,
        lowest_terms(a, b).0 * gcd_of(a, b) == a,
        lowest_terms(a, b).1 * gcd_of(a, b) == b,
        lowest_terms(a, b).0 * b == lowest_terms(a, b).1 * a,
        coprime(lowest_terms(a, b).0, lowest_terms(a, b).1),
{
    let g = gcd_of(a, b);
    let n = a / g;
    let m = b / g;
    lemma_gcd_positive(a, b);
    lemma_gcd_common_divisors(a, b);
    lemma_mod_self_0(g as int);
    assert(divides(g, g));
    assert(divides(g, a) && divides(g, b));
    lemma_fundamental_div_mod(a as int, g as int);
    lemma_fundamental_div_mod(b as int, g as int);
    assert(n * g == a) by {
        lemma_mul_is_commutative(n as int, g as int);
    }
    assert(m * g == b) by {
        lemma_mul_is_commutative(m as int, g as int);
    }
    assert(n > 0 && m > 0) by (nonlinear_arith)
        requires
            n * g == a,
            m * g == b,
            a > 0,
            b > 0,
    ;
    assert(n * b == m * a) by (nonlinear_arith)
        requires
            n * g == a,
            m * g == b,
    ;
    assert forall|d: nat| #[trigger] divides(d, n) && divides(d, m) implies d == 1 by {
        // d * g divides both a and b, so it divides g
        let dg = d * g;
        lemma_fundamental_div_mod(n as int, d as int);
        lemma_fundamental_div_mod(m as int, d as int);
        let nq = n / d;
        let mq = m / d;
        assert(dg > 0) by (nonlinear_arith)
            requires
                dg == d * g,
                d > 0,
                g > 0,
        ;
        assert(a == dg * nq) by (nonlinear_arith)
            requires
                n * g == a,
                n == d * nq,
                dg == d * g,
        ;
        assert(b == dg * mq) by (nonlinear_arith)
            requires
                m * g == b,
                m == d * mq,
                dg == d * g,
        ;
        lemma_mod_multiples_basic(nq as int, dg as int);
        lemma_mod_multiples_basic(mq as int, dg as int);
        assert(a % dg == 0) by {
            lemma_mul_is_commutative(nq as int, dg as int);
        }
        assert(b % dg == 0) by {
            lemma_mul_is_commutative(mq as int, dg as int);
        }
        assert(divides(dg, a) && divides(dg, b));
        assert(divides(dg, g));
        if dg > g {
            lemma_small_mod(g, dg);
        }
        assert(d == 1) by (nonlinear_arith)
            requires
                dg == d * g,
                dg <= g,
                d > 0,
                g > 0,
        ;
    }
}

/// A fraction in lowest terms is left as it is: reducing a reduced fraction
/// changes nothing.
pub proof fn lemma_lowest_terms_stay(a: nat, b: nat)
    requires
        a > 0,
        b > 0,
    ensures
        gcd_of(lowest_terms(a, b).0, lowest_terms(a, b).1) == 1,
        lowest_terms(lowest_terms(a, b).0, lowest_terms(a, b).1) == lowest_terms(a, b),
{
    let n = lowest_terms(a, b).0;
    let d = lowest_terms(a, b).1;
    let g = gcd_of(n, d);
    lemma_lowest_terms(a, b);
    lemma_gcd_positive(n, d);
    lemma_gcd_common_divisors(n, d);
    lemma_mod_self_0(g as int);
    assert(divides(g, g));
    assert(divides(g, n) && divides(g, d));
    assert(g == 1);
    lemma_div_basics_2(n as int);
    lemma_div_basics_2(d as int);
}

/// A ratio of equal terms is one to one.
pub proof fn lemma_equal_terms(a: nat)
    requires
        a > 0,
    ensures
        gcd_of(a, a) == a,
        lowest_terms(a, a) == (1nat, 1nat),
{
    lemma_mod_self_0(a as int);
    assert(gcd_of(a, a) == gcd_of(0, a));
    lemma_div_by_self(a as int);
}

/// Computes the greatest common divisor of two 32-bit integers.
///
/// The result divides both arguments, and every number that divides both
/// arguments divides the result.  `gcd(0, 0)` is 0.
pub fn gcd(a: u32, b: u32) -> (r: u32)
    ensures
        r == gcd_of(a as nat, b as nat),
        forall|d: nat|
            #![trigger divides(d, a as nat)]
            #![trigger divides(d, r as nat)]
            divides(d, a as nat) && divides(d, b as nat) <==> divides(d, r as nat),
        a > 0 || b > 0 ==> r > 0,
{
    proof {
        lemma_gcd_common_divisors(a as nat, b as nat);
        if a > 0 || b > 0 {
            lemma_gcd_positive(a as nat, b as nat);
        }
    }
    if b == 0 {
        assert(gcd_of(a as nat, 0) == a) by {
            if a > 0 {
                lemma_small_mod(0, a as nat);
                assert(gcd_of(a as nat, 0) == gcd_of(0, a as nat));
            }
        }
        return a;
    }
    let mut x: u32 = a;
    let mut y: u32 = b;
    while x != 0
        invariant
            gcd_of(x as nat, y as nat) == gcd_of(a as nat, b as nat),
        decreases x,
    {
        let rest: u32 = y % x;
        y = x;
        x = rest;
    }
    y
}

/// Reduces the ratio `num : den` to lowest terms.
///
/// A ratio with a zero term is undefined and is rejected.  Otherwise the
/// result is `num` and `den`, each divided by their greatest common
/// divisor: a pair of coprime positive integers in the same proportion.
pub fn simplify(num: u32, den: u32) -> (r: Result<(u32, u32), ConfigurationError>)
    ensures
        r is Err <==> num == 0 || den == 0,
        r is Err ==> r == Err::<(u32, u32), ConfigurationError>(ConfigurationError::ZeroRate),
        r is Ok ==> {
            let (n, d) = r->Ok_0;
            &&& n > 0
            &&& d > 0
            &&& n * den == d * num
            &&& coprime(n as nat, d as nat)
            &&& (n as nat, d as nat) == lowest_terms(num as nat, den as nat)
        },
{
    if num == 0 || den == 0 {
        return Err(ConfigurationError::ZeroRate);
    }
    let factor: u32 = gcd(num, den);
    proof {
        lemma_lowest_terms(num as nat, den as nat);
    }
    Ok((num / factor, den / factor))
}

} // verus!
