use vstd::prelude::*;
use vstd::arithmetic::div_mod::lemma_div_decreases;
use vstd::arithmetic::div_mod::lemma_div_nonincreasing;
use vstd::arithmetic::div_mod::lemma_fundamental_div_mod;
use vstd::arithmetic::div_mod::lemma_mod_multiples_basic;
use vstd::arithmetic::div_mod::lemma_small_mod;

verus! {

/// `d` divides `n`.
pub open spec fn divides(d: nat, n: nat) -> bool {
    d > 0 && n % d == 0
}

/// `p` is a prime number.
pub open spec fn is_prime(p: nat) -> bool {
    &&& p >= 2
    &&& forall|d: nat| 1 < d < p ==> !#[trigger] divides(d, p)
}

/// The square of `k`.
pub open spec fn square(k: nat) -> nat {
    k * k
}

/// `r` is positive and no square greater than 1 divides it.
pub open spec fn is_square_free(r: nat) -> bool {
    &&& r >= 1
    &&& forall|k: nat| k >= 2 ==> !divides(#[trigger] square(k), r)
}

/// `n` is `s` squared times `r`, where `s` is positive and `r` is square-free:
/// the square root of `n` is `s` times the square root of `r`, and `r` cannot
/// be made smaller.
pub open spec fn is_square_split(n: nat, s: nat, r: nat) -> bool {
    &&& s >= 1
    &&& n == s * s * r
    &&& is_square_free(r)
}

/// The pair `(s, r)` with `n == s * s * r` and `r` square-free. Zero has no
/// prime factor and is given the pair of the empty product, `(1, 1)`.
pub open spec fn square_split(n: nat) -> (nat, nat) {
    if n == 0 {
        (1, 1)
    } else {
        choose|s: nat, r: nat| is_square_split(n, s, r)
    }
}

/// Every number in `factors` is prime.
pub open spec fn all_prime(factors: Seq<u64>) -> bool {
    forall|i: int| 0 <= i < factors.len() ==> is_prime(#[trigger] factors[i] as nat)
}

/// No prime divides both `r` and `m`.
pub open spec fn apart(r: nat, m: nat) -> bool {
    forall|q: nat|
        #![trigger divides(q, r)]
        #![trigger divides(q, m)]
        is_prime(q) && divides(q, r) ==> !divides(q, m)
}

/// A number that is being split: it is `root * root * radicand * rest`,
/// and `rest` is the part that has not been looked at yet.
pub struct Split {
    pub root: nat,
    pub radicand: nat,
    pub rest: nat,
}

impl Split {
    /// The number that is being split.
    pub open spec fn number(self) -> nat {
        self.root * self.root * self.radicand * self.rest
    }

    /// The split of a number of which nothing has been looked at yet.
    pub open spec fn start(n: nat) -> Split {
        Split { root: 1, radicand: 1, rest: n }
    }

    /// The three parts are positive.
    pub open spec fn positive(self) -> bool {
        self.root >= 1 && self.radicand >= 1 && self.rest >= 1
    }

    /// The parts are positive, the radicand is square-free, and no prime
    /// of the radicand is left in the rest.
    pub open spec fn tidy(self) -> bool {
        &&& self.positive()
        &&& is_square_free(self.radicand)
        &&& apart(self.radicand, self.rest)
    }

    /// The split after `factor` has been taken out of the rest as often
    /// as it divides it: two at a time into the root, and a last single one
    /// into the radicand. A factor below 2, and a rest of 0, leave the
    /// split as it is.
    pub open spec fn absorbed(self, factor: nat) -> Split
        decreases self.rest,
    {
        if factor >= 2 && self.rest >= 1 && self.rest % factor == 0 {
            let once = self.rest / factor;
            if once % factor == 0 {
                proof {
                    lemma_div_decreases(self.rest as int, factor as int);
                    lemma_div_nonincreasing(once as int, factor as int);
                }
                Split {
                    root: self.root * factor,
                    radicand: self.radicand,
                    rest: once / factor,
                }.absorbed(factor)
            } else {
                Split { root: self.root, radicand: self.radicand * factor, rest: once }
            }
        } else {
            self
        }
    }

    /// The split after the first `count` of `factors` have been taken out
    /// of the rest, one after the other.
    pub open spec fn absorbed_all(self, factors: Seq<u64>, count: nat) -> Split
        decreases count,
    {
        if count == 0 || count > factors.len() {
            self
        } else {
            self.absorbed_all(factors, (count - 1) as nat).absorbed(factors[count - 1] as nat)
        }
    }
}

/// A number that `d` divides is `d` times the returned quotient.
pub proof fn lemma_quotient(d: nat, n: nat) -> (k: nat)
    requires
        divides(d, n),
    ensures
        n == d * k,
{
    lemma_fundamental_div_mod(n as int, d as int);
    n / d
}

/// `d` divides each of its multiples.
pub proof fn lemma_multiple(d: nat, k: nat)
    requires
        d > 0,
    ensures
        divides(d, d * k),
{
    lemma_mod_multiples_basic(k as int, d as int);
    assert(d * k == k * d) by (nonlinear_arith);
}

/// A positive number that `d` divides is at least `d`.
pub proof fn lemma_divisor_is_smaller(d: nat, n: nat)
    requires
        divides(d, n),
        n > 0,
    ensures
        d <= n,
{
    if n < d {
        lemma_small_mod(n, d);
    }
}

/// Divisibility is transitive.
pub proof fn lemma_divides_transitive(a: nat, b: nat, c: nat)
    requires
        divides(a, b),
        divides(b, c),
    ensures
        divides(a, c),
{
    let k = lemma_quotient(a, b);
    let m = lemma_quotient(b, c);
    assert(c == a * (k * m)) by (nonlinear_arith)
        requires
            b == a * k,
            c == b * m,
    ;
    lemma_multiple(a, k * m);
}

/// Every number from 2 on has a prime divisor.
pub proof fn lemma_prime_divisor(n: nat) -> (p: nat)
    requires
        n >= 2,
    ensures
        is_prime(p),
        divides(p, n),
    decreases n,
{
    if is_prime(n) {
        lemma_multiple(n, 1);
        assert(n * 1 == n);
        n
    } else {
        let d = choose|d: nat| 1 < d < n && divides(d, n);
        let p = lemma_prime_divisor(d);
        lemma_divides_transitive(p, d, n);
        p
    }
}

/// Euclid's lemma for a first factor below the prime: a prime that divides
/// `a * b` with `0 < a < p` divides `b`.
proof fn lemma_euclid_below(p: nat, a: nat, b: nat)
    requires
        is_prime(p),
        0 < a < p,
        divides(p, a * b),
    ensures
        divides(p, b),
    decreases a,
{
    if a == 1 {
        assert(a * b == b) by (nonlinear_arith)
            requires
                a == 1,
        ;
    } else {
        let q = p / a;
        let r = p % a;
        lemma_fundamental_div_mod(p as int, a as int);
        assert(!divides(a, p));
        let k = lemma_quotient(p, a * b);
        assert(r * b == p * (b - q * k) && b - q * k >= 0) by (nonlinear_arith)
            requires
                p == a * q + r,
                a * b == p * k,
                p > 0,
                r > 0,
        ;
        let m = (b - q * k) as nat;
        lemma_multiple(p, m);
        lemma_euclid_below(p, r, b);
    }
}

/// Euclid's lemma: a prime that divides a product divides one of its factors.
pub proof fn lemma_euclid(p: nat, a: nat, b: nat)
    requires
        is_prime(p),
        divides(p, a * b),
    ensures
        divides(p, a) || divides(p, b),
{
    let a1 = a % p;
    if a1 != 0 {
        let q = a / p;
        lemma_fundamental_div_mod(a as int, p as int);
        let k = lemma_quotient(p, a * b);
        assert(a1 * b == p * (k - q * b) && k - q * b >= 0) by (nonlinear_arith)
            requires
                a == p * q + a1,
                a * b == p * k,
                p > 0,
                a1 > 0,
        ;
        lemma_multiple(p, (k - q * b) as nat);
        lemma_euclid_below(p, a1, b);
    }
}

/// A prime that divides another prime is equal to it.
pub proof fn lemma_prime_divides_prime(q: nat, p: nat)
    requires
        is_prime(q),
        is_prime(p),
        divides(q, p),
    ensures
        q == p,
{
    lemma_divisor_is_smaller(q, p);
}

/// Cancels a common positive factor of a divisor and a number.
pub proof fn lemma_divides_cancel(c: nat, d: nat, n: nat)
    requires
        c > 0,
        d > 0,
        divides(c * d, c * n),
    ensures
        divides(d, n),
{
    assert(c * d > 0) by (nonlinear_arith)
        requires
            c > 0,
            d > 0,
    ;
    let k = lemma_quotient(c * d, c * n);
    assert(n == d * k) by (nonlinear_arith)
        requires
            c * n == (c * d) * k,
            c > 0,
    ;
    lemma_multiple(d, k);
}

/// The square of a divisor of `k` divides the square of `k`.
pub proof fn lemma_square_of_divisor(q: nat, k: nat)
    requires
        divides(q, k),
    ensures
        divides(square(q), square(k)),
{
    let m = lemma_quotient(q, k);
    assert(square(k) == square(q) * (m * m)) by (nonlinear_arith)
        requires
            k == q * m,
    ;
    assert(square(q) > 0) by (nonlinear_arith)
        requires
            q > 0,
    ;
    lemma_multiple(square(q), m * m);
}

/// The number 1 is square-free.
pub proof fn lemma_one_is_square_free()
    ensures
        is_square_free(1),
{
    assert forall|k: nat| k >= 2 implies !divides(#[trigger] square(k), 1) by {
        assert(k * k >= 4) by (nonlinear_arith)
            requires
                k >= 2,
        ;
        if divides(square(k), 1) {
            lemma_divisor_is_smaller(square(k), 1);
        }
    }
}

/// A square-free number times a prime that does not divide it is square-free.
pub proof fn lemma_square_free_times_prime(r: nat, p: nat)
    requires
        is_square_free(r),
        is_prime(p),
        !divides(p, r),
    ensures
        is_square_free(r * p),
{
    assert(r * p >= 1) by (nonlinear_arith)
        requires
            r >= 1,
            p >= 2,
    ;
    assert forall|k: nat| k >= 2 implies !divides(#[trigger] square(k), r * p) by {
        if divides(square(k), r * p) {
            let q = lemma_prime_divisor(k);
            lemma_square_of_divisor(q, k);
            lemma_divides_transitive(square(q), square(k), r * p);
            lemma_multiple(q, q);
            lemma_divides_transitive(q, square(q), r * p);
            lemma_euclid(q, r, p);
            if divides(q, p) {
                lemma_prime_divides_prime(q, p);
                assert(r * p == p * r) by (nonlinear_arith);
                lemma_divides_cancel(p, p, r);
            } else {
                let r1 = lemma_quotient(q, r);
                assert(r * p == q * (r1 * p)) by (nonlinear_arith)
                    requires
                        r == q * r1,
                ;
                lemma_divides_cancel(q, q, r1 * p);
                lemma_euclid(q, r1, p);
                let r2 = lemma_quotient(q, r1);
                assert(r == square(q) * r2 && square(q) > 0) by (nonlinear_arith)
                    requires
                        r == q * r1,
                        r1 == q * r2,
                        q >= 2,
                ;
                lemma_multiple(square(q), r2);
            }
        }
    }
}

/// Taking a factor out of the rest keeps the number that is split and
/// keeps the parts positive; the factor does not divide the new rest, and
/// the new rest divides the old one. The radicand stays, or it gains the
/// factor, which then divided the old rest.
pub proof fn lemma_absorbed(split: Split, factor: nat)
    requires
        split.positive(),
    ensures
        split.absorbed(factor).positive(),
        split.absorbed(factor).number() == split.number(),
        divides(split.absorbed(factor).rest, split.rest),
        factor >= 2 ==> !divides(factor, split.absorbed(factor).rest),
        split.absorbed(factor).radicand == split.radicand || (split.absorbed(factor).radicand
            == split.radicand * factor && divides(factor, split.rest)),
    decreases split.rest,
{
    let s = split.root;
    let r = split.radicand;
    let m = split.rest;
    lemma_multiple(m, 1);
    assert(m * 1 == m);
    if factor >= 2 && m % factor == 0 {
        let once = lemma_quotient(factor, m);
        assert(once == m / factor) by {
            lemma_fundamental_div_mod(m as int, factor as int);
            assert(factor * once == factor * (m / factor));
            assert(once == m / factor) by (nonlinear_arith)
                requires
                    factor * once == factor * (m / factor),
                    factor >= 2,
            ;
        }
        assert(once >= 1) by (nonlinear_arith)
            requires
                m == factor * once,
                m >= 1,
                factor >= 2,
        ;
        assert(m == once * factor) by (nonlinear_arith)
            requires
                m == factor * once,
        ;
        lemma_multiple(once, factor);
        if once % factor == 0 {
            let twice = lemma_quotient(factor, once);
            assert(twice == once / factor) by {
                lemma_fundamental_div_mod(once as int, factor as int);
                assert(twice == once / factor) by (nonlinear_arith)
                    requires
                        factor * twice == factor * (once / factor),
                        factor >= 2,
                ;
            }
            assert(twice >= 1 && twice < m && once == twice * factor && (s * factor) * (s
                * factor) * r * twice == s * s * r * m && s * factor >= 1) by (nonlinear_arith)
                requires
                    m == factor * once,
                    once == factor * twice,
                    once >= 1,
                    factor >= 2,
                    s >= 1,
            ;
            let next = Split { root: s * factor, radicand: r, rest: twice };
            lemma_absorbed(next, factor);
            lemma_multiple(twice, factor);
            lemma_divides_transitive(twice, once, m);
            lemma_divides_transitive(next.absorbed(factor).rest, twice, m);
        } else {
            assert(s * s * (r * factor) * once == s * s * r * m && r * factor >= 1)
                by (nonlinear_arith)
                requires
                    m == factor * once,
                    r >= 1,
                    factor >= 2,
            ;
        }
    }
}

/// No prime of `r` is left in a divisor of a number that it is apart from.
proof fn lemma_apart_from_divisor(r: nat, m: nat, part: nat)
    requires
        apart(r, m),
        divides(part, m),
    ensures
        apart(r, part),
{
    assert forall|q: nat| is_prime(q) && divides(q, r) implies !divides(q, part) by {
        if divides(q, part) {
            lemma_divides_transitive(q, part, m);
        }
    }
}

/// Taking a prime out of the rest of a tidy split leaves the split tidy.
pub proof fn lemma_absorbed_prime(split: Split, prime: nat)
    requires
        split.tidy(),
        is_prime(prime),
    ensures
        split.absorbed(prime).tidy(),
{
    lemma_absorbed(split, prime);
    let after = split.absorbed(prime);
    lemma_apart_from_divisor(split.radicand, split.rest, after.rest);
    if after.radicand != split.radicand {
        let r = split.radicand;
        assert(!divides(prime, r));
        lemma_square_free_times_prime(r, prime);
        assert forall|q: nat| is_prime(q) && divides(q, r * prime) implies !divides(
            q,
            after.rest,
        ) by {
            lemma_euclid(q, r, prime);
            if divides(q, prime) {
                lemma_prime_divides_prime(q, prime);
            }
        }
    }
}

/// Taking factors out of the rest one after the other keeps the number
/// that is split and keeps the parts positive. None of the factors from 2
/// on divides the rest that is left. Where every factor is prime, a tidy
/// split stays tidy: the radicand stays square-free.
pub proof fn lemma_absorbed_all(split: Split, factors: Seq<u64>, count: nat)
    requires
        split.positive(),
        count <= factors.len(),
    ensures
        split.absorbed_all(factors, count).positive(),
        split.absorbed_all(factors, count).number() == split.number(),
        divides(split.absorbed_all(factors, count).rest, split.rest),
        forall|i: int|
            0 <= i < count && factors[i] >= 2 ==> !divides(
                #[trigger] factors[i] as nat,
                split.absorbed_all(factors, count).rest,
            ),
        split.tidy() && all_prime(factors) ==> split.absorbed_all(factors, count).tidy(),
    decreases count,
{
    if count == 0 {
        lemma_multiple(split.rest, 1);
        assert(split.rest * 1 == split.rest);
    } else {
        let before = split.absorbed_all(factors, (count - 1) as nat);
        let factor = factors[count - 1] as nat;
        let after = before.absorbed(factor);
        lemma_absorbed_all(split, factors, (count - 1) as nat);
        lemma_absorbed(before, factor);
        lemma_divides_transitive(after.rest, before.rest, split.rest);
        assert forall|i: int| 0 <= i < count && factors[i] >= 2 implies !divides(
            #[trigger] factors[i] as nat,
            after.rest,
        ) by {
            if i < count - 1 && divides(factors[i] as nat, after.rest) {
                lemma_divides_transitive(factors[i] as nat, after.rest, before.rest);
            }
        }
        if split.tidy() && all_prime(factors) {
            assert(is_prime(factors[count - 1] as nat));
            lemma_absorbed_prime(before, factor);
        }
    }
}

/// A number from 2 on that no smaller number from 2 on divides is prime.
pub proof fn lemma_least_divisor_is_prime(p: nat, m: nat)
    requires
        p >= 2,
        divides(p, m),
        forall|d: nat| 2 <= d < p ==> !#[trigger] divides(d, m),
    ensures
        is_prime(p),
{
    assert forall|d: nat| 1 < d < p implies !#[trigger] divides(d, p) by {
        if divides(d, p) {
            lemma_divides_transitive(d, p, m);
        }
    }
}

/// A number from 2 on is prime when nothing from 2 up to a bound divides
/// it and the square of the bound is more than the number.
pub proof fn lemma_no_small_divisor_is_prime(m: nat, bound: nat)
    requires
        m >= 2,
        bound * bound > m,
        forall|d: nat| 2 <= d < bound ==> !#[trigger] divides(d, m),
    ensures
        is_prime(m),
{
    assert forall|d: nat| 1 < d < m implies !#[trigger] divides(d, m) by {
        if divides(d, m) {
            let e = lemma_quotient(d, m);
            assert(m == e * d && e >= 2) by (nonlinear_arith)
                requires
                    m == d * e,
                    d < m,
                    d >= 2,
            ;
            lemma_multiple(e, d);
            assert(d >= bound && e >= bound);
            assert(d * e >= bound * bound) by (nonlinear_arith)
                requires
                    d >= bound,
                    e >= bound,
            ;
        }
    }
}

/// A prime whose square divides `s * s * r`, with `r` square-free, divides `s`.
pub proof fn lemma_prime_divides_root(q: nat, s: nat, r: nat)
    requires
        is_prime(q),
        is_square_free(r),
        divides(square(q), s * s * r),
    ensures
        divides(q, s),
{
    lemma_multiple(q, q);
    lemma_divides_transitive(q, square(q), s * s * r);
    if !divides(q, s) {
        assert(s * s * r == s * (s * r)) by (nonlinear_arith);
        lemma_euclid(q, s, s * r);
        lemma_euclid(q, s, r);
        let r1 = lemma_quotient(q, r);
        assert(s * s * r == q * (s * s * r1)) by (nonlinear_arith)
            requires
                r == q * r1,
        ;
        lemma_divides_cancel(q, q, s * s * r1);
        assert(s * s * r1 == s * (s * r1)) by (nonlinear_arith);
        lemma_euclid(q, s, s * r1);
        lemma_euclid(q, s, r1);
        let r2 = lemma_quotient(q, r1);
        assert(r == square(q) * r2 && square(q) > 0) by (nonlinear_arith)
            requires
                r == q * r1,
                r1 == q * r2,
                q >= 2,
        ;
        lemma_multiple(square(q), r2);
    }
}

/// In `s * s * r` with `r` square-free, `s` is the largest number whose
/// square divides: every `t` whose square divides `s * s * r` is at most `s`.
pub proof fn lemma_square_divisor_bound(t: nat, s: nat, r: nat)
    requires
        t >= 1,
        s >= 1,
        is_square_free(r),
        divides(t * t, s * s * r),
    ensures
        t <= s,
    decreases t,
{
    if t > 1 {
        let q = lemma_prime_divisor(t);
        let t1 = lemma_quotient(q, t);
        lemma_square_of_divisor(q, t);
        lemma_divides_transitive(square(q), square(t), s * s * r);
        lemma_prime_divides_root(q, s, r);
        let s1 = lemma_quotient(q, s);
        assert(t * t == square(q) * (t1 * t1) && s * s * r == square(q) * (s1 * s1 * r)
            && square(q) > 0 && t1 >= 1 && s1 >= 1 && t1 < t) by (nonlinear_arith)
            requires
                t == q * t1,
                s == q * s1,
                q >= 2,
                t >= 1,
                s >= 1,
        ;
        lemma_divides_cancel(square(q), t1 * t1, s1 * s1 * r);
        lemma_square_divisor_bound(t1, s1, r);
        assert(t <= s) by (nonlinear_arith)
            requires
                t == q * t1,
                s == q * s1,
                t1 <= s1,
        ;
    }
}

/// A positive number is split into a square and a square-free number in one
/// way only.
pub proof fn lemma_square_split_unique(n: nat, s1: nat, r1: nat, s2: nat, r2: nat)
    requires
        is_square_split(n, s1, r1),
        is_square_split(n, s2, r2),
    ensures
        s1 == s2,
        r1 == r2,
{
    assert(s1 * s1 > 0 && s2 * s2 > 0) by (nonlinear_arith)
        requires
            s1 >= 1,
            s2 >= 1,
    ;
    lemma_multiple(s1 * s1, r1);
    lemma_multiple(s2 * s2, r2);
    lemma_square_divisor_bound(s2, s1, r1);
    lemma_square_divisor_bound(s1, s2, r2);
    assert(r1 == r2) by (nonlinear_arith)
        requires
            s1 * s1 * r1 == s1 * s1 * r2,
            s1 >= 1,
    ;
}

/// Whatever splits `n` into a square and a square-free number is the split of `n`.
pub proof fn lemma_square_split_is(n: nat, s: nat, r: nat)
    requires
        is_square_split(n, s, r),
    ensures
        square_split(n) == (s, r),
{
    assert(n >= 1) by (nonlinear_arith)
        requires
            n == s * s * r,
            s >= 1,
            r >= 1,
    ;
    let (s0, r0) = choose|s0: nat, r0: nat| is_square_split(n, s0, r0);
    lemma_square_split_unique(n, s, r, s0, r0);
}

/// Every positive number splits into a square and a square-free number.
pub proof fn lemma_square_split_exists(n: nat) -> (split: (nat, nat))
    requires
        n >= 1,
    ensures
        is_square_split(n, split.0, split.1),
        square_split(n) == split,
    decreases n,
{
    if is_square_free(n) {
        assert(n == 1 * 1 * n) by (nonlinear_arith);
        lemma_square_split_is(n, 1, n);
        (1, n)
    } else {
        let k = choose|k: nat| k >= 2 && divides(#[trigger] square(k), n);
        let m = lemma_quotient(square(k), n);
        assert(1 <= m < n) by (nonlinear_arith)
            requires
                n == (k * k) * m,
                k >= 2,
                n >= 1,
        ;
        let (s1, r1) = lemma_square_split_exists(m);
        assert(n == (k * s1) * (k * s1) * r1 && k * s1 >= 1) by (nonlinear_arith)
            requires
                n == (k * k) * m,
                m == s1 * s1 * r1,
                k >= 2,
                s1 >= 1,
        ;
        lemma_square_split_is(n, k * s1, r1);
        (k * s1, r1)
    }
}

/// The square of a positive number `k` splits into `k` squared times 1: its
/// square root has no irrational part.
pub proof fn lemma_perfect_square_split(k: nat)
    requires
        k >= 1,
    ensures
        square_split(k * k) == (k, 1nat),
{
    lemma_one_is_square_free();
    assert(k * k == k * k * 1) by (nonlinear_arith);
    lemma_square_split_is(k * k, k, 1);
}

} // verus!
