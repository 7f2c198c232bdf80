//! Divisibility, primality, and products of prime powers: the number theory
//! behind the prime-product encoding of multisets.
use vstd::prelude::*;
use vstd::arithmetic::div_mod::{
    lemma_fundamental_div_mod, lemma_fundamental_div_mod_converse_mod,
};

verus! {

/// `d` divides `n` (for a positive divisor `d`).
pub open spec fn divides(d: int, n: int) -> bool {
    n % d == 0
}

/// A prime: at least 2, and no number in `[2, p)` divides it.
pub open spec fn is_prime(p: int) -> bool {
    2 <= p && forall|d: int| 2 <= d < p ==> !(#[trigger] divides(d, p))
}

/// Euclid's greatest common divisor.
pub open spec fn gcd(a: int, b: int) -> int
    decreases b,
{
    if b <= 0 {
        a
    } else {
        gcd(b, a % b)
    }
}

pub proof fn lemma_gcd_divides(a: int, b: int)
    requires
        a >= 1,
        b >= 0,
    ensures
        gcd(a, b) >= 1,
        divides(gcd(a, b), a),
        divides(gcd(a, b), b),
    decreases b,
{
    if b == 0 {
        assert(a % a == 0) by (nonlinear_arith)
            requires a >= 1;
    } else {
        lemma_gcd_divides(b, a % b);
        let g = gcd(b, a % b);
        lemma_fundamental_div_mod(a, b);
        lemma_fundamental_div_mod(b, g);
        lemma_fundamental_div_mod(a % b, g);
        let q = a / b;
        let k1 = b / g;
        let k2 = (a % b) / g;
        assert(a == (q * k1 + k2) * g) by (nonlinear_arith)
            requires
                a == q * b + a % b,
                b == g * k1,
                a % b == g * k2,
        ;
        lemma_fundamental_div_mod_converse_mod(a, g, q * k1 + k2, 0);
    }
}

/// Bezout coefficients: the gcd is an integer combination of its arguments.
pub proof fn lemma_bezout(a: int, b: int) -> (xy: (int, int))
    requires
        a >= 1,
        b >= 0,
    ensures
        gcd(a, b) == xy.0 * a + xy.1 * b,
    decreases b,
{
    if b == 0 {
        (1, 0)
    } else {
        let (x, y) = lemma_bezout(b, a % b);
        lemma_fundamental_div_mod(a, b);
        let q = a / b;
        assert(x * b + y * (a - q * b) == y * a + (x - y * q) * b) by (nonlinear_arith);
        (y, x - y * q)
    }
}

/// The only positive divisors of a prime are 1 and the prime itself.
pub proof fn lemma_prime_divisor(p: int, d: int)
    requires
        is_prime(p),
        d >= 1,
        divides(d, p),
    ensures
        d == 1 || d == p,
{
    if d != 1 && d != p {
        if 2 <= d && d < p {
            assert(!divides(d, p));
        } else {
            lemma_fundamental_div_mod(p, d);
            let k = p / d;
            assert(false) by (nonlinear_arith)
                requires
                    p == d * k,
                    p >= 2,
                    d > p,
            ;
        }
    }
}

/// Euclid's lemma: a prime dividing a product divides one of the factors.
pub proof fn lemma_euclid(p: int, a: int, b: int)
    requires
        is_prime(p),
        a >= 0,
        b >= 0,
        divides(p, a * b),
        !divides(p, a),
    ensures
        divides(p, b),
{
    if a == 0 {
        assert(divides(p, 0));
    }
    let g = gcd(p, a);
    lemma_gcd_divides(p, a);
    lemma_prime_divisor(p, g);
    if g == p {
        assert(divides(p, a));
    }
    let (x, y) = lemma_bezout(p, a);
    lemma_fundamental_div_mod(a * b, p);
    let k = (a * b) / p;
    assert(b == (x * b + y * k) * p + 0) by (nonlinear_arith)
        requires
            1 == x * p + y * a,
            a * b == p * k,
    ;
    lemma_fundamental_div_mod_converse_mod(b, p, x * b + y * k, 0);
}

/// A prime dividing neither factor does not divide the product.
pub proof fn lemma_prime_nondiv_mul(p: int, a: int, b: int)
    requires
        is_prime(p),
        a >= 0,
        b >= 0,
        !divides(p, a),
        !divides(p, b),
    ensures
        !divides(p, a * b),
{
    if divides(p, a * b) {
        lemma_euclid(p, a, b);
    }
}

/// Distinct primes do not divide one another.
pub proof fn lemma_prime_not_div_prime(p: int, q: int)
    requires
        is_prime(p),
        is_prime(q),
        p != q,
    ensures
        !divides(p, q),
{
    if divides(p, q) {
        lemma_prime_divisor(q, p);
    }
}

/// `b` raised to the power `e`.
pub open spec fn pow(b: int, e: nat) -> int
    decreases e,
{
    if e == 0 {
        1
    } else {
        b * pow(b, (e - 1) as nat)
    }
}

pub proof fn lemma_pow_pos(b: int, e: nat)
    requires
        b >= 1,
    ensures
        pow(b, e) >= 1,
    decreases e,
{
    if e > 0 {
        lemma_pow_pos(b, (e - 1) as nat);
        assert(b * pow(b, (e - 1) as nat) >= 1) by (nonlinear_arith)
            requires
                b >= 1,
                pow(b, (e - 1) as nat) >= 1,
        ;
    }
}

/// A prime does not divide any power of a different prime.
pub proof fn lemma_prime_not_div_pow(p: int, q: int, e: nat)
    requires
        is_prime(p),
        is_prime(q),
        p != q,
    ensures
        pow(q, e) >= 1,
        !divides(p, pow(q, e)),
    decreases e,
{
    lemma_pow_pos(q, e);
    if e == 0 {
        assert(1int % p == 1) by (nonlinear_arith)
            requires p >= 2;
    } else {
        lemma_prime_not_div_pow(p, q, (e - 1) as nat);
        lemma_prime_not_div_prime(p, q);
        lemma_prime_nondiv_mul(p, q, pow(q, (e - 1) as nat));
    }
}

/// The product of the given primes raised to the given exponents, pairwise.
pub open spec fn prod_pows(ps: Seq<int>, es: Seq<nat>) -> int
    decreases ps.len(),
{
    if ps.len() == 0 || es.len() == 0 {
        1
    } else {
        pow(ps[0], es[0]) * prod_pows(ps.drop_first(), es.drop_first())
    }
}

pub proof fn lemma_prod_pows_pos(ps: Seq<int>, es: Seq<nat>)
    requires
        forall|i: int| 0 <= i < ps.len() ==> #[trigger] ps[i] >= 1,
    ensures
        prod_pows(ps, es) >= 1,
    decreases ps.len(),
{
    if ps.len() > 0 && es.len() > 0 {
        lemma_pow_pos(ps[0], es[0]);
        lemma_prod_pows_pos(ps.drop_first(), es.drop_first());
        assert(pow(ps[0], es[0]) * prod_pows(ps.drop_first(), es.drop_first()) >= 1)
            by (nonlinear_arith)
            requires
                pow(ps[0], es[0]) >= 1,
                prod_pows(ps.drop_first(), es.drop_first()) >= 1,
        ;
    }
}

/// A prime not among the given distinct primes does not divide their product.
pub proof fn lemma_prime_not_div_prod_pows(p: int, ps: Seq<int>, es: Seq<nat>)
    requires
        is_prime(p),
        ps.len() == es.len(),
        forall|i: int| 0 <= i < ps.len() ==> is_prime(#[trigger] ps[i]) && ps[i] != p,
    ensures
        prod_pows(ps, es) >= 1,
        !divides(p, prod_pows(ps, es)),
    decreases ps.len(),
{
    assert(forall|i: int| 0 <= i < ps.len() ==> #[trigger] ps[i] >= 1);
    lemma_prod_pows_pos(ps, es);
    if ps.len() == 0 {
        assert(1int % p == 1) by (nonlinear_arith)
            requires p >= 2;
    } else {
        lemma_prime_not_div_pow(p, ps[0], es[0]);
        lemma_prime_not_div_prod_pows(p, ps.drop_first(), es.drop_first());
        lemma_prime_nondiv_mul(p, pow(ps[0], es[0]), prod_pows(ps.drop_first(), es.drop_first()));
    }
}

/// Dividing `pow(p, e) * r` by `p` (for `e >= 1`) strips one factor of `p`.
pub proof fn lemma_pow_mul_div(p: int, e: nat, r: int)
    requires
        p >= 2,
        e >= 1,
        r >= 1,
    ensures
        divides(p, pow(p, e) * r),
        pow(p, e) * r >= 1,
        (pow(p, e) * r) / p == pow(p, (e - 1) as nat) * r,
    decreases e,
{
    lemma_pow_pos(p, e);
    lemma_pow_pos(p, (e - 1) as nat);
    let rest = pow(p, (e - 1) as nat) * r;
    assert(pow(p, e) * r == (pow(p, (e - 1) as nat) * r) * p + 0 && pow(p, (e - 1) as nat) * r
        >= 1) by (nonlinear_arith)
        requires
            pow(p, e) == p * pow(p, (e - 1) as nat),
            pow(p, (e - 1) as nat) >= 1,
            r >= 1,
    ;
    lemma_fundamental_div_mod_converse_mod(pow(p, e) * r, p, rest, 0);
    vstd::arithmetic::div_mod::lemma_fundamental_div_mod_converse_div(pow(p, e) * r, p, rest, 0);
}

/// Bumping one exponent multiplies the product by that prime.
pub proof fn lemma_prod_pows_bump(ps: Seq<int>, es: Seq<nat>, j: int)
    requires
        ps.len() == es.len(),
        0 <= j < ps.len(),
        forall|i: int| 0 <= i < ps.len() ==> #[trigger] ps[i] >= 1,
    ensures
        prod_pows(ps, es.update(j, (es[j] + 1) as nat)) == ps[j] * prod_pows(ps, es),
    decreases ps.len(),
{
    let es2 = es.update(j, (es[j] + 1) as nat);
    if j == 0 {
        assert(es2.drop_first() =~= es.drop_first());
        assert(pow(ps[0], es2[0]) == ps[0] * pow(ps[0], es[0]));
        assert(pow(ps[0], es2[0]) * prod_pows(ps.drop_first(), es.drop_first())
            == ps[0] * (pow(ps[0], es[0]) * prod_pows(ps.drop_first(), es.drop_first())))
            by (nonlinear_arith)
            requires
                pow(ps[0], es2[0]) == ps[0] * pow(ps[0], es[0]),
        ;
    } else {
        assert(es2.drop_first() =~= es.drop_first().update(j - 1, (es.drop_first()[j - 1] + 1) as nat));
        lemma_prod_pows_bump(ps.drop_first(), es.drop_first(), j - 1);
        let head = pow(ps[0], es[0]);
        let rest = prod_pows(ps.drop_first(), es.drop_first());
        assert(head * (ps[j] * rest) == ps[j] * (head * rest)) by (nonlinear_arith);
        assert(es2[0] == es[0]);
    }
}

/// View a vector of machine integers as a sequence of mathematical integers.
pub open spec fn int_view(s: Seq<i128>) -> Seq<int> {
    s.map_values(|x: i128| x as int)
}

/// The unique characterization of "the first primes, in ascending order":
/// every element is prime, they ascend, and no prime below the last is skipped.
pub open spec fn is_first_primes(ps: Seq<int>) -> bool {
    &&& forall|i: int| 0 <= i < ps.len() ==> is_prime(#[trigger] ps[i])
    &&& forall|i: int, j: int| 0 <= i < j < ps.len() ==> ps[i] < ps[j]
    &&& forall|q: int|
        #[trigger] is_prime(q) && ps.len() > 0 && q < ps[ps.len() - 1] ==> ps.contains(q)
}

pub proof fn lemma_first_primes_prefix(a: Seq<int>, b: Seq<int>, i: int)
    requires
        is_first_primes(a),
        is_first_primes(b),
        0 <= i <= a.len(),
        i <= b.len(),
    ensures
        forall|k: int| 0 <= k < i ==> a[k] == b[k],
    decreases i,
{
    if i > 0 {
        lemma_first_primes_prefix(a, b, i - 1);
        let k = i - 1;
        if a[k] < b[k] {
            assert(b[k] <= b[b.len() - 1]);
            assert(b.contains(a[k]));
            let j = choose|j: int| 0 <= j < b.len() && b[j] == a[k];
            if j < k {
                assert(a[j] == b[j]);
                assert(a[j] < a[k]);
            } else {
                assert(b[k] <= b[j]);
            }
            assert(false);
        }
        if b[k] < a[k] {
            assert(a[k] <= a[a.len() - 1]);
            assert(a.contains(b[k]));
            let j = choose|j: int| 0 <= j < a.len() && a[j] == b[k];
            if j < k {
                assert(b[j] == a[j]);
                assert(b[j] < b[k]);
            } else {
                assert(a[k] <= a[j]);
            }
            assert(false);
        }
    }
}

/// Two ascending, gap-free prime sequences of one length are the same sequence.
pub proof fn lemma_first_primes_unique(a: Seq<int>, b: Seq<int>)
    requires
        is_first_primes(a),
        is_first_primes(b),
        a.len() == b.len(),
    ensures
        a == b,
{
    lemma_first_primes_prefix(a, b, a.len() as int);
    assert(a =~= b);
}

/// The first `n` primes, as a sequence of mathematical integers.
pub open spec fn first_primes(n: nat) -> Seq<int> {
    choose|ps: Seq<int>| ps.len() == n && is_first_primes(ps)
}

/// There are at least `n` primes strictly below `i128::MAX`, so a table of the
/// first `n` primes can be held in machine integers.
pub open spec fn primes_fit(n: nat) -> bool {
    exists|ps: Seq<int>|
        ps.len() == n && is_first_primes(ps) && (n == 0 || ps[n - 1] < i128::MAX)
}

} // verus!
