use vstd::prelude::*;
use vstd::arithmetic::div_mod::{lemma_fundamental_div_mod, lemma_mod_multiples_basic, lemma_small_mod};

verus! {

/// `d` divides `n`: `n` is a multiple of `d`. Only 0 is a multiple of 0.
pub open spec fn divides(d: nat, n: nat) -> bool {
    if d == 0 {
        n == 0
    } else {
        n % d == 0
    }
}

pub open spec fn is_common_divisor(d: nat, a: nat, b: nat) -> bool {
    divides(d, a) && divides(d, b)
}

/// `g` is the greatest common divisor of `a` and `b`: it divides both, and
/// every number that divides both divides `g`. For `a == b == 0` that is 0.
pub open spec fn is_gcd(g: nat, a: nat, b: nat) -> bool {
    &&& is_common_divisor(g, a, b)
    &&& forall|d: nat| #[trigger] is_common_divisor(d, a, b) ==> divides(d, g)
}

/// `a` and `b` have no common divisor but 1.
pub open spec fn coprime(a: nat, b: nat) -> bool {
    forall|d: nat| #[trigger] is_common_divisor(d, a, b) ==> d == 1
}

/// The value that Euclid's algorithm reaches from `(a, b)`.
pub open spec fn euclid(a: nat, b: nat) -> nat
    decreases b,
{
    if b == 0 {
        a
    } else {
        euclid(b, a % b)
    }
}

/// A divisor of `x` and `y` divides `x - q * y`.
proof fn lemma_divides_combination(d: nat, x: nat, y: nat, q: nat)
    requires
        divides(d, x),
        divides(d, y),
        q * y <= x,
    ensures
        divides(d, (x - q * y) as nat),
{
    if d > 0 {
        lemma_fundamental_div_mod(x as int, d as int);
        lemma_fundamental_div_mod(y as int, d as int);
        let m = (x / d) as int - q * (y / d);
        assert(x - q * y == m * d) by (nonlinear_arith)
            requires
                x == d * (x / d),
                y == d * (y / d),
                m == (x / d) as int - q * (y / d),
        ;
        lemma_mod_multiples_basic(m, d as int);
    } else {
        assert(q * y == 0) by (nonlinear_arith)
            requires
                y == 0,
        ;
    }
}

/// A divisor of `x` and `y` divides `x + q * y`.
proof fn lemma_divides_sum(d: nat, x: nat, y: nat, q: nat)
    requires
        divides(d, x),
        divides(d, y),
    ensures
        divides(d, x + q * y),
{
    if d > 0 {
        lemma_fundamental_div_mod(x as int, d as int);
        lemma_fundamental_div_mod(y as int, d as int);
        let m = (x / d) as int + q * (y / d);
        assert(x + q * y == m * d) by (nonlinear_arith)
            requires
                x == d * (x / d),
                y == d * (y / d),
                m == (x / d) as int + q * (y / d),
        ;
        lemma_mod_multiples_basic(m, d as int);
    } else {
        assert(q * y == 0) by (nonlinear_arith)
            requires
                y == 0,
        ;
    }
}

/// One step of Euclid's algorithm keeps the common divisors.
pub proof fn lemma_euclid_step_keeps_divisors(d: nat, a: nat, b: nat)
    requires
        b > 0,
    ensures
        is_common_divisor(d, a, b) <==> is_common_divisor(d, b, a % b),
{
    lemma_fundamental_div_mod(a as int, b as int);
    let q = a / b;
    assert(q * b == b * q) by (nonlinear_arith);
    if is_common_divisor(d, a, b) {
        lemma_divides_combination(d, a, b, q);
    }
    if is_common_divisor(d, b, a % b) {
        lemma_divides_sum(d, a % b, b, q);
    }
}

/// The value that Euclid's algorithm reaches is the greatest common divisor.
pub proof fn lemma_euclid_is_gcd(a: nat, b: nat)
    ensures
        is_gcd(euclid(a, b), a, b),
    decreases b,
{
    if b == 0 {
        if a > 0 {
            lemma_mod_multiples_basic(1, a as int);
        }
    } else {
        let g = euclid(a, b);
        lemma_euclid_is_gcd(b, a % b);
        lemma_euclid_step_keeps_divisors(g, a, b);
        assert forall|d: nat| #[trigger] is_common_divisor(d, a, b) implies divides(d, g) by {
            lemma_euclid_step_keeps_divisors(d, a, b);
        }
    }
}

/// Two numbers have at most one greatest common divisor.
pub proof fn lemma_gcd_is_unique(g: nat, h: nat, a: nat, b: nat)
    requires
        is_gcd(g, a, b),
        is_gcd(h, a, b),
    ensures
        g == h,
{
    assert(divides(g, h));
    assert(divides(h, g));
    if g > 0 && h > 0 {
        if g < h {
            lemma_small_mod(g, h);
        } else if h < g {
            lemma_small_mod(h, g);
        }
    }
}

/// Two numbers are coprime exactly when Euclid's algorithm reaches 1.
pub proof fn lemma_coprime_iff_euclid_is_one(a: nat, b: nat)
    ensures
        coprime(a, b) <==> euclid(a, b) == 1,
{
    let g = euclid(a, b);
    lemma_euclid_is_gcd(a, b);
    if g == 1 {
        assert forall|d: nat| #[trigger] is_common_divisor(d, a, b) implies d == 1 by {
            assert(divides(d, 1));
            if d > 1 {
                lemma_small_mod(1, d);
            }
        }
    }
}

/// The greatest common divisor of `a` and `b`, by Euclid's algorithm:
/// `(a, b)` becomes `(b, a % b)` until `b` is 0, and `a` is the result.
pub fn gcd(a: u64, b: u64) -> (g: u64)
    ensures
        g == euclid(a as nat, b as nat),
        is_gcd(g as nat, a as nat, b as nat),
{
    let mut x: u64 = a;
    let mut y: u64 = b;
    while y != 0
        invariant
            euclid(x as nat, y as nat) == euclid(a as nat, b as nat),
        decreases y,
    {
        let r: u64 = x % y;
        x = y;
        y = r;
    }
    proof {
        lemma_euclid_is_gcd(a as nat, b as nat);
    }
    x
}

/// The sample that a pair of numbers stands for: whether they are coprime.
pub fn is_coprime(a: u64, b: u64) -> (sample: bool)
    ensures
        sample == coprime(a as nat, b as nat),
        sample == (euclid(a as nat, b as nat) == 1),
{
    proof {
        lemma_coprime_iff_euclid_is_one(a as nat, b as nat);
    }
    gcd(a, b) == 1
}

} // verus!
