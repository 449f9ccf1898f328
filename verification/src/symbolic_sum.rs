use vstd::prelude::*;
use std::collections::HashMap;
use vstd::std_specs::hash::spec_keys_iter;
use vstd::std_specs::iter::IteratorSpec;
use prime_factorization::Factorization;
use crate::error::StitchError;
use crate::grid_cell::GridCell;
use crate::grid_cell::lemma_squared_distance;
use crate::line_segment::floor_sqrt_u128;
use crate::line_segment::lemma_floor_sqrt_unique;
use crate::number_theory::lemma_quotient;
use crate::number_theory::square;
use crate::number_theory::all_prime;
use crate::number_theory::divides;
use crate::number_theory::is_square_free;
use crate::number_theory::lemma_absorbed;
use crate::number_theory::lemma_absorbed_all;
use crate::number_theory::lemma_absorbed_prime;
use crate::number_theory::lemma_least_divisor_is_prime;
use crate::number_theory::lemma_no_small_divisor_is_prime;
use crate::number_theory::lemma_perfect_square_split;
use crate::number_theory::lemma_square_free_times_prime;
use crate::number_theory::lemma_square_split_exists;
use crate::number_theory::lemma_square_split_is;
use crate::number_theory::is_prime;
use crate::number_theory::is_square_split;
use crate::number_theory::lemma_divides_transitive;
use crate::number_theory::lemma_divisor_is_smaller;
use crate::number_theory::lemma_one_is_square_free;
use crate::number_theory::lemma_multiple;
use crate::number_theory::square_split;
use crate::number_theory::Split;
use vstd::arithmetic::div_mod::lemma_fundamental_div_mod;

verus! {

/// Numbers that may help to split `n`: what the outside crate gives as the
/// prime factors of `n`.
///
/// Calls `prime_factorization::Factorization::<u64>::run` and hands out its
/// `factors`. Nothing is taken on trust about the list: it can hold a prime
/// less often than the prime divides `n`, and what is made of it is checked
/// before it is used.
#[verifier::external_body]
fn prime_factors(n: u64) -> (factors: Vec<u64>) {
    Factorization::<u64>::run(n).factors
}

/// `part` times the square of `root`.
pub open spec fn times_square(part: nat, root: nat) -> nat {
    part * (root * root)
}

/// Whether `number` is square-free. It looks at every divisor up to the
/// cube root of the number: a square that divides the number has its root
/// there, or leaves a quotient there.
pub fn has_no_square_divisor(number: u64) -> (free: bool)
    ensures
        free == is_square_free(number as nat),
{
    if number == 0 {
        return false;
    }
    let ghost n = number as nat;
    let mut divisor: u64 = 1;
    let mut cube: u128 = 1;
    while cube <= number as u128
        invariant
            1 <= divisor <= 0x40_0000,
            cube == divisor * divisor * divisor,
            n == number,
            n >= 1,
            forall|e: nat| 2 <= e < divisor ==> !divides(#[trigger] square(e), n),
            forall|e: nat, j: nat| 1 <= e < divisor && j >= 2 ==> n != #[trigger] times_square(e, j),
        decreases 0x40_0000 - divisor,
    {
        let ghost d = divisor as nat;
        proof {
            assert(d < 0x40_0000) by (nonlinear_arith)
                requires
                    d * d * d <= n,
                    n <= 0xffff_ffff_ffff_ffff,
            {
                if d >= 0x40_0000 {
                    assert(d * d * d >= 0x40_0000 * 0x40_0000 * 0x40_0000);
                }
            }
        }
        if number % divisor == 0 {
            let cofactor = number / divisor;
            let ghost c = cofactor as nat;
            proof {
                lemma_fundamental_div_mod(number as int, divisor as int);
                assert(n == d * c);
            }
            if divisor >= 2 && cofactor % divisor == 0 {
                proof {
                    lemma_fundamental_div_mod(cofactor as int, divisor as int);
                    let x = c / d;
                    assert(n == square(d) * x && square(d) > 0) by (nonlinear_arith)
                        requires
                            n == d * c,
                            c == d * x,
                            d >= 2,
                    ;
                    lemma_multiple(square(d), x);
                }
                return false;
            }
            let root = floor_sqrt_u128(cofactor as u128);
            let ghost j = root as nat;
            if root >= 2 && (root as u128) * (root as u128) == cofactor as u128 {
                proof {
                    assert(n == square(j) * d && square(j) > 0) by (nonlinear_arith)
                        requires
                            n == d * c,
                            c == j * j,
                            j >= 2,
                    ;
                    lemma_multiple(square(j), d);
                }
                return false;
            }
            proof {
                assert forall|k: nat| k >= 2 implies n != #[trigger] times_square(d, k) by {
                    if n == times_square(d, k) {
                        assert(c == k * k) by (nonlinear_arith)
                            requires
                                d * c == d * (k * k),
                                d >= 1,
                        ;
                        assert((k + 1) * (k + 1) > k * k) by (nonlinear_arith);
                        lemma_floor_sqrt_unique(c as int, k as int, j as int);
                    }
                }
                if d >= 2 && divides(square(d), n) {
                    let x = lemma_quotient(square(d), n);
                    assert(c == d * x) by (nonlinear_arith)
                        requires
                            d * c == (d * d) * x,
                            d >= 1,
                    ;
                    lemma_multiple(d, x);
                }
            }
        } else {
            proof {
                assert forall|k: nat| k >= 2 implies n != #[trigger] times_square(d, k) by {
                    if n == times_square(d, k) {
                        lemma_multiple(d, k * k);
                    }
                }
                if d >= 2 && divides(square(d), n) {
                    lemma_multiple(d, d);
                    lemma_divides_transitive(d, square(d), n);
                }
            }
        }
        divisor += 1;
        proof {
            let next = divisor as nat;
            assert(next * next <= 0x40_0000 * 0x40_0000 && next * next * next <= 0x40_0000
                * 0x40_0000 * 0x40_0000) by (nonlinear_arith)
                requires
                    next <= 0x40_0000,
            ;
        }
        cube = (divisor as u128) * (divisor as u128) * (divisor as u128);
    }
    proof {
        let d = divisor as nat;
        assert forall|k: nat| k >= 2 implies !divides(#[trigger] square(k), n) by {
            if divides(square(k), n) {
                let u = lemma_quotient(square(k), n);
                if k >= d {
                    assert(1 <= u < d) by (nonlinear_arith)
                        requires
                            n == (k * k) * u,
                            n >= 1,
                            n < d * d * d,
                            k >= d,
                            d >= 1,
                    ;
                    assert(n == times_square(u, k)) by (nonlinear_arith)
                        requires
                            n == (k * k) * u,
                            times_square(u, k) == u * (k * k),
                    ;
                }
            }
        }
    }
    true
}

/// The parts of a split as a mathematical value.
pub open spec fn split_of(parts: (u64, u64, u64)) -> Split {
    Split { root: parts.0 as nat, radicand: parts.1 as nat, rest: parts.2 as nat }
}

/// Takes `factor` out of `rest` as often as it divides it: two at a time
/// into `root`, and a last single one into `radicand`.
fn absorb(root: u64, radicand: u64, rest: u64, factor: u64) -> (parts: (u64, u64, u64))
    requires
        split_of((root, radicand, rest)).positive(),
        split_of((root, radicand, rest)).number() <= u64::MAX,
    ensures
        split_of(parts) == split_of((root, radicand, rest)).absorbed(factor as nat),
{
    if factor < 2 {
        return (root, radicand, rest);
    }
    let ghost number = split_of((root, radicand, rest)).number();
    let ghost target = split_of((root, radicand, rest)).absorbed(factor as nat);
    let mut pairs = root;
    let mut left = rest;
    loop
        invariant
            factor >= 2,
            split_of((pairs, radicand, left)).positive(),
            split_of((pairs, radicand, left)).number() == number,
            number <= u64::MAX,
            split_of((pairs, radicand, left)).absorbed(factor as nat) == target,
            target == split_of((root, radicand, rest)).absorbed(factor as nat),
        decreases left,
    {
        let ghost now = split_of((pairs, radicand, left));
        let ghost s = pairs as nat;
        let ghost r = radicand as nat;
        let ghost c = factor as nat;
        let ghost m = left as nat;
        if left % factor != 0 {
            assert(now.absorbed(c) == now);
            return (pairs, radicand, left);
        }
        let once = left / factor;
        let ghost o = once as nat;
        proof {
            lemma_fundamental_div_mod(left as int, factor as int);
            lemma_fundamental_div_mod(once as int, factor as int);
            assert(o == m / c);
            assert(m == c * o);
        }
        if once % factor == 0 {
            let twice = once / factor;
            let ghost t = twice as nat;
            proof {
                assert(o == c * t);
                assert(m == c * (c * t));
                assert(1 <= t < m && (s * c) * (s * c) * r * t == s * s * r * (c * (c * t)) && 1
                    <= s * c <= (s * c) * (s * c) * r * t) by (nonlinear_arith)
                    requires
                        m == c * (c * t),
                        m >= 1,
                        c >= 2,
                        s >= 1,
                        r >= 1,
                ;
                assert(now.absorbed(c) == (Split { root: s * c, radicand: r, rest: t }).absorbed(
                    c,
                ));
            }
            pairs = pairs * factor;
            left = twice;
        } else {
            proof {
                assert(o >= 1 && s * s * (r * c) * o == s * s * r * (c * o) && 1 <= r * c <= s * s
                    * (r * c) * o) by (nonlinear_arith)
                    requires
                        m == c * o,
                        m >= 1,
                        c >= 2,
                        s >= 1,
                        r >= 1,
                ;
                assert(now.absorbed(c) == (Split { root: s, radicand: r * c, rest: o }));
            }
            return (pairs, radicand * factor, once);
        }
    }
}

/// Splits `number` with the help of `candidates`: takes each candidate
/// from 2 on out of the number as often as it divides what is left, two at
/// a time into the root and a last single one into the radicand. Returns
/// root, radicand and what is left, so that `number` is root times root
/// times radicand times what is left. No candidate from 2 on divides what
/// is left; it is 1 when the candidates hold every prime of `number`, and
/// more than 1 when they miss one. The radicand is square-free when every
/// candidate is prime. For 0, of which nothing is taken out, what is left
/// is 0.
pub fn split_by_candidates(number: u64, candidates: &Vec<u64>) -> (parts: (u64, u64, u64))
    ensures
        split_of(parts) == Split::start(number as nat).absorbed_all(
            candidates@,
            candidates@.len(),
        ),
        parts.0 * parts.0 * parts.1 * parts.2 == number,
        parts.0 >= 1,
        parts.1 >= 1,
        forall|i: int|
            0 <= i < candidates@.len() && candidates@[i] >= 2 && number >= 1 ==> !divides(
                #[trigger] candidates@[i] as nat,
                parts.2 as nat,
            ),
        all_prime(candidates@) ==> is_square_free(parts.1 as nat),
{
    let ghost start = Split::start(number as nat);
    if number == 0 {
        proof {
            lemma_nothing_absorbed_from_zero(start, candidates@, candidates@.len());
            lemma_one_is_square_free();
            assert(1 * 1 * 1 * 0 == 0) by (nonlinear_arith);
        }
        return (1, 1, 0);
    }
    let mut parts: (u64, u64, u64) = (1, 1, number);
    let mut i: usize = 0;
    proof {
        assert(start.number() == number) by (nonlinear_arith)
            requires
                start.number() == 1 * 1 * 1 * (number as nat),
        ;
    }
    while i < candidates.len()
        invariant
            0 <= i <= candidates@.len(),
            number >= 1,
            start == Split::start(number as nat),
            start.number() == number,
            split_of(parts) == start.absorbed_all(candidates@, i as nat),
        decreases candidates@.len() - i,
    {
        proof {
            lemma_absorbed_all(start, candidates@, i as nat);
        }
        parts = absorb(parts.0, parts.1, parts.2, candidates[i]);
        i += 1;
    }
    proof {
        lemma_absorbed_all(start, candidates@, i as nat);
        lemma_one_is_square_free();
        assert(start.tidy()) by {
            assert forall|q: nat| is_prime(q) && divides(q, 1) implies !divides(q, number as nat) by {
                lemma_divisor_is_smaller(q, 1);
            }
        }
    }
    parts
}

/// Splits what is left of a number by dividing by 2, 3, 4 and so on, as
/// far as the square of the divisor is not more than what is left. This is
/// slow for a large rest, and is meant for what the candidates of
/// `split_by_candidates` have missed.
fn finish_by_trial_division(root: u64, radicand: u64, rest: u64) -> (parts: (u64, u64))
    requires
        split_of((root, radicand, rest)).tidy(),
        split_of((root, radicand, rest)).number() <= u64::MAX,
    ensures
        is_square_split(
            split_of((root, radicand, rest)).number(),
            parts.0 as nat,
            parts.1 as nat,
        ),
{
    let ghost number = split_of((root, radicand, rest)).number();
    let mut parts: (u64, u64, u64) = (root, radicand, rest);
    let mut divisor: u64 = 2;
    while divisor <= parts.2 / divisor
        invariant
            2 <= divisor,
            split_of(parts).tidy(),
            split_of(parts).number() == number,
            number <= u64::MAX,
            forall|d: nat| 2 <= d < divisor ==> !#[trigger] divides(d, parts.2 as nat),
        decreases u64::MAX - divisor,
    {
        let ghost before = split_of(parts);
        proof {
            lemma_absorbed(before, divisor as nat);
            if divides(divisor as nat, before.rest) {
                lemma_least_divisor_is_prime(divisor as nat, before.rest);
                lemma_absorbed_prime(before, divisor as nat);
            }
            assert forall|d: nat| 2 <= d < divisor + 1 implies !#[trigger] divides(
                d,
                before.absorbed(divisor as nat).rest,
            ) by {
                if divides(d, before.absorbed(divisor as nat).rest) {
                    lemma_divides_transitive(d, before.absorbed(divisor as nat).rest, before.rest);
                }
            }
        }
        proof {
            let m = parts.2 as nat;
            let c = divisor as nat;
            lemma_fundamental_div_mod(m as int, c as int);
            assert(2 * c <= m) by (nonlinear_arith)
                requires
                    m == c * (m / c) + m % c,
                    c <= m / c,
                    c >= 2,
                    m % c >= 0,
            ;
        }
        parts = absorb(parts.0, parts.1, parts.2, divisor);
        divisor += 1;
    }
    let ghost last = split_of(parts);
    if parts.2 > 1 {
        proof {
            let m = parts.2 as nat;
            let c = divisor as nat;
            lemma_fundamental_div_mod(m as int, c as int);
            assert(c * c > m) by (nonlinear_arith)
                requires
                    m == c * (m / c) + m % c,
                    m % c < c,
                    m / c < c,
                    c >= 2,
            ;
            lemma_no_small_divisor_is_prime(m, c);
            lemma_multiple(m, 1);
            assert(m * 1 == m);
            lemma_square_free_times_prime(last.radicand, m);
            assert(last.root * last.root * (last.radicand * m) == last.number() && last.radicand
                * m <= last.number()) by (nonlinear_arith)
                requires
                    last.number() == last.root * last.root * last.radicand * m,
                    last.root >= 1,
                    last.radicand >= 1,
            ;
        }
        (parts.0, parts.1 * parts.2)
    } else {
        proof {
            assert(last.root * last.root * last.radicand == last.number()) by (nonlinear_arith)
                requires
                    last.number() == last.root * last.root * last.radicand * 1,
            ;
        }
        (parts.0, parts.1)
    }
}

/// Nothing is taken out of the rest 0.
proof fn lemma_nothing_absorbed_from_zero(split: Split, factors: Seq<u64>, count: nat)
    requires
        split.rest == 0,
        count <= factors.len(),
    ensures
        split.absorbed_all(factors, count) == split,
    decreases count,
{
    if count > 0 {
        lemma_nothing_absorbed_from_zero(split, factors, (count - 1) as nat);
    }
}

/// The exact value of a sum of square roots of whole numbers: `constant`
/// plus, for each radicand `r` of `terms`, `terms[r]` times the square root
/// of `r`.
pub struct ExactSum {
    pub constant: nat,
    pub terms: Map<nat, nat>,
}

impl ExactSum {
    /// The empty sum.
    pub open spec fn zero() -> Self {
        ExactSum { constant: 0, terms: Map::empty() }
    }

    /// How often the square root of `radicand` is counted; 0 for a radicand
    /// that the sum does not hold.
    pub open spec fn coefficient(self, radicand: nat) -> nat {
        if self.terms.dom().contains(radicand) {
            self.terms[radicand]
        } else {
            0
        }
    }

    /// The sum with the square root of `n` added. With `n == s * s * r` and
    /// `r` square-free the root is `s` times the root of `r`: for `r == 1`
    /// that is the whole number `s`, which goes to the constant; otherwise
    /// `s` is added to the coefficient of `r`.
    pub open spec fn plus_root(self, n: nat) -> Self {
        let (s, r) = square_split(n);
        if r == 1 {
            ExactSum { constant: self.constant + s, terms: self.terms }
        } else {
            ExactSum { constant: self.constant, terms: self.terms.insert(r, self.coefficient(r) + s) }
        }
    }

    /// Every radicand is square-free and at least 2, and every coefficient
    /// is positive.
    pub open spec fn well_formed(self) -> bool {
        forall|r: nat| #[trigger]
            self.terms.dom().contains(r) ==> r >= 2 && is_square_free(r) && self.terms[r] >= 1
    }

    /// The constant, every radicand and every coefficient fit `usize`.
    pub open spec fn fits(self) -> bool {
        &&& self.constant <= usize::MAX
        &&& forall|r: nat| #[trigger]
            self.terms.dom().contains(r) ==> r <= usize::MAX && self.terms[r] <= usize::MAX
    }

    /// The sum as text: the constant, then the terms in ascending order of
    /// their radicands.
    pub open spec fn rendered(self) -> Seq<char> {
        decimal(self.constant) + rendered_terms(self.terms, (usize::MAX + 1) as nat)
    }

    /// The sum after a distance with the given square has been added, or
    /// `None` where the square does not fit the signed coordinate width or
    /// the new sum does not fit `usize`.
    pub open spec fn plus_squared(self, squared: int) -> Option<Self> {
        if squared > isize::MAX {
            None
        } else if !self.plus_root(squared as nat).fits() {
            None
        } else {
            Some(self.plus_root(squared as nat))
        }
    }

    /// The sum after the distance between two lattice points has been
    /// added, or `None` where that overflows.
    pub open spec fn plus_distance(self, first: GridCell, second: GridCell) -> Option<Self> {
        self.plus_squared(first.squared_distance(second))
    }
}

/// The terms of a sum, read as a map between natural numbers.
pub open spec fn terms_of(stored: Map<usize, usize>) -> Map<nat, nat> {
    Map::new(
        |r: nat| r <= usize::MAX && stored.dom().contains(r as usize),
        |r: nat| stored[r as usize] as nat,
    )
}

/// A sum of whole multiples of square roots, with a whole constant.
#[derive(Debug)]
pub struct SymbolicSum {
    pub constant: usize,
    /// Maps a radicand to the number of times its square root is counted.
    pub square_root_terms: HashMap<usize, usize>,
}

impl View for SymbolicSum {
    type V = ExactSum;

    open spec fn view(&self) -> ExactSum {
        ExactSum { constant: self.constant as nat, terms: terms_of(self.square_root_terms@) }
    }
}

impl Clone for SymbolicSum {
    fn clone(&self) -> (copy: Self)
        ensures
            copy@ == self@,
    {
        SymbolicSum {
            constant: self.constant,
            square_root_terms: self.square_root_terms.clone(),
        }
    }
}

impl Default for SymbolicSum {
    fn default() -> (sum: Self)
        ensures
            sum@ == ExactSum::zero(),
    {
        let sum = SymbolicSum { constant: 0, square_root_terms: HashMap::new() };
        assert(sum@.terms =~= Map::<nat, nat>::empty());
        sum
    }
}

impl SymbolicSum {
    /// Splits `squared_number` into a square and a square-free part: returns
    /// `(s, r)` with `squared_number == s * s * r` and `r` square-free, so
    /// that the square root of `squared_number` is `s` times the root of `r`.
    /// For 0, which has no prime factor, it returns `(1, 1)`.
    pub fn square_root_parts(squared_number: usize) -> (parts: (usize, usize))
        ensures
            (parts.0 as nat, parts.1 as nat) == square_split(squared_number as nat),
            parts.0 >= 1,
            parts.1 >= 1,
    {
        if squared_number == 0 {
            return (1, 1);
        }
        let number = squared_number as u64;
        let factors = prime_factors(number);
        let (root, radicand, rest) = split_by_candidates(number, &factors);
        let (largest_square_divisor, remainder_factor) = if rest == 1 && has_no_square_divisor(
            radicand,
        ) {
            proof {
                assert(root * root * radicand == number) by (nonlinear_arith)
                    requires
                        root * root * radicand * rest == number,
                        rest == 1,
                ;
            }
            (root, radicand)
        } else {
            // The candidates were not what they should be. Start again without them.
            proof {
                let start = Split::start(number as nat);
                lemma_one_is_square_free();
                assert(start.number() == number) by (nonlinear_arith)
                    requires
                        start.number() == 1 * 1 * 1 * (number as nat),
                ;
                assert(start.tidy()) by {
                    assert forall|q: nat| is_prime(q) && divides(q, 1) implies !divides(
                        q,
                        number as nat,
                    ) by {
                        lemma_divisor_is_smaller(q, 1);
                    }
                }
            }
            finish_by_trial_division(1, 1, number)
        };
        proof {
            let s = largest_square_divisor as nat;
            let r = remainder_factor as nat;
            lemma_square_split_is(squared_number as nat, s, r);
            assert(s <= s * s * r && r <= s * s * r) by (nonlinear_arith)
                requires
                    s >= 1,
                    r >= 1,
            ;
        }
        (largest_square_divisor as usize, remainder_factor as usize)
    }

    /// The square root of `squared_number` as a map with one entry, from the
    /// square-free radicand to its whole coefficient. A whole root has the
    /// radicand 1.
    pub fn decompose(squared_number: usize) -> (decomposition: HashMap<usize, usize>)
        ensures
            decomposition@ == Map::<usize, usize>::empty().insert(
                square_split(squared_number as nat).1 as usize,
                square_split(squared_number as nat).0 as usize,
            ),
    {
        let (largest_square_divisor, remainder_factor) = Self::square_root_parts(squared_number);
        let mut decomposition = HashMap::new();
        decomposition.insert(remainder_factor, largest_square_divisor);
        decomposition
    }

    /// Adds the square root of `squared_number` to the sum. Where the sum
    /// would no longer fit, it stays as it is and the error is returned.
    pub fn add_root(&mut self, squared_number: usize) -> (res: Result<(), StitchError>)
        ensures
            old(self)@.plus_root(squared_number as nat).fits() ==> res is Ok && final(self)@ == old(
                self,
            )@.plus_root(squared_number as nat),
            !old(self)@.plus_root(squared_number as nat).fits() ==> res == Err::<(), StitchError>(
                StitchError::ArithmeticOverflow,
            ) && final(self)@ == old(self)@,
            old(self)@.well_formed() ==> final(self)@.well_formed(),
    {
        let (whole, radicand) = Self::square_root_parts(squared_number);
        let ghost next = self@.plus_root(squared_number as nat);
        proof {
            lemma_view_fits(*self);
            if self@.well_formed() {
                lemma_plus_root_keeps_well_formed(self@, squared_number as nat);
            }
        }
        if radicand == 1 {
            match self.constant.checked_add(whole) {
                Some(total) => {
                    self.constant = total;
                    assert(self@ == next);
                    assert(next.fits());
                    Ok(())
                },
                None => {
                    assert(!next.fits());
                    Err(StitchError::ArithmeticOverflow)
                },
            }
        } else {
            let current = match self.square_root_terms.get(&radicand) {
                Some(coefficient) => *coefficient,
                None => 0,
            };
            assert(current == self@.coefficient(radicand as nat));
            match current.checked_add(whole) {
                Some(total) => {
                    let ghost before = self.square_root_terms@;
                    self.square_root_terms.insert(radicand, total);
                    proof {
                        lemma_terms_of_insert(before, radicand, total);
                    }
                    assert(self@ == next);
                    assert(next.fits());
                    Ok(())
                },
                None => {
                    assert(next.terms.dom().contains(radicand as nat));
                    assert(!next.fits());
                    Err(StitchError::ArithmeticOverflow)
                },
            }
        }
    }

    /// Adds the distance between two lattice points to the sum. Where the
    /// squared distance does not fit the signed coordinate width, or the sum
    /// would no longer fit, the sum stays as it is and the error is returned.
    pub fn add_distance(&mut self, first: GridCell, second: GridCell) -> (res: Result<
        (),
        StitchError,
    >)
        ensures
            match old(self)@.plus_distance(first, second) {
                Some(sum) => res is Ok && final(self)@ == sum,
                None => {
                    &&& res == Err::<(), StitchError>(StitchError::ArithmeticOverflow)
                    &&& final(self)@ == old(self)@
                },
            },
            old(self)@.well_formed() ==> final(self)@.well_formed(),
    {
        proof {
            lemma_squared_distance(first, second);
        }
        match first.euclidean_distance_squared(&second) {
            Ok(squared_distance) => self.add_root(squared_distance),
            Err(error) => Err(error),
        }
    }

    /// The sum as text: the constant, then each term with a coefficient
    /// other than 0 in ascending order of its radicand, written as " + ",
    /// the coefficient unless it is 1, "√" and the radicand.
    pub fn to_string(&self) -> (text: String)
        ensures
            text@ == self@.rendered(),
    {
        let keys = sorted_keys(&self.square_root_terms);
        let mut text = decimal_text(self.constant);
        let ghost terms = self@.terms;
        let ghost mut bound: nat = 0;
        let mut i: usize = 0;
        while i < keys.len()
            invariant
                0 <= i <= keys.len(),
                terms == terms_of(self.square_root_terms@),
                strictly_ascending_keys(keys@),
                forall|k: usize| keys@.contains(k) <==> self.square_root_terms@.dom().contains(k),
                text@ == decimal(self.constant as nat) + rendered_terms(terms, bound),
                bound == next_bound(keys@, i as int),
            decreases keys.len() - i,
        {
            let radicand = keys[i];
            assert(keys@.contains(radicand));
            let coefficient = match self.square_root_terms.get(&radicand) {
                Some(stored) => *stored,
                None => 0,
            };
            proof {
                lemma_no_key_between(self.square_root_terms@, keys@, i as int);
                lemma_rendered_terms_gap(terms, bound, radicand as nat);
                lemma_rendered_terms_step(terms, radicand as nat);
                assert(terms.dom().contains(radicand as nat));
                assert(terms[radicand as nat] == coefficient);
            }
            let ghost before = text@;
            append_term(&mut text, radicand, coefficient);
            proof {
                let head = decimal(self.constant as nat);
                let tail = rendered_terms(terms, radicand as nat);
                let term = term_text(radicand as nat, coefficient as nat);
                assert((head + tail) + term =~= head + (tail + term));
                bound = (radicand + 1) as nat;
            }
            i += 1;
        }
        proof {
            lemma_no_key_between(self.square_root_terms@, keys@, i as int);
            lemma_rendered_terms_gap(terms, bound, (usize::MAX + 1) as nat);
        }
        text
    }
}

/// The value of a stored sum fits `usize`.
pub proof fn lemma_view_fits(sum: SymbolicSum)
    ensures
        sum@.fits(),
{
}

/// Storing a coefficient under a radicand stores it in the terms as read
/// between natural numbers.
proof fn lemma_terms_of_insert(stored: Map<usize, usize>, radicand: usize, coefficient: usize)
    ensures
        terms_of(stored.insert(radicand, coefficient)) == terms_of(stored).insert(
            radicand as nat,
            coefficient as nat,
        ),
{
    assert(terms_of(stored.insert(radicand, coefficient)) =~= terms_of(stored).insert(
        radicand as nat,
        coefficient as nat,
    ));
}

/// Adding a root keeps radicands square-free and at least 2, and
/// coefficients positive.
pub proof fn lemma_plus_root_keeps_well_formed(sum: ExactSum, n: nat)
    requires
        sum.well_formed(),
    ensures
        sum.plus_root(n).well_formed(),
{
    if n >= 1 {
        let split = lemma_square_split_exists(n);
    }
}

/// The distance from `first` to `second` adds to a sum what the distance
/// from `second` to `first` adds.
pub proof fn lemma_plus_distance_symmetric(sum: ExactSum, first: GridCell, second: GridCell)
    ensures
        sum.plus_distance(first, second) == sum.plus_distance(second, first),
{
    lemma_squared_distance(first, second);
}

/// The decimal digit for a number below 10.
pub open spec fn digit(d: nat) -> char {
    if d == 0 {
        '0'
    } else if d == 1 {
        '1'
    } else if d == 2 {
        '2'
    } else if d == 3 {
        '3'
    } else if d == 4 {
        '4'
    } else if d == 5 {
        '5'
    } else if d == 6 {
        '6'
    } else if d == 7 {
        '7'
    } else if d == 8 {
        '8'
    } else {
        '9'
    }
}

/// The decimal numeral of `n`, without leading zeros.
pub open spec fn decimal(n: nat) -> Seq<char>
    decreases n,
{
    if n < 10 {
        seq![digit(n)]
    } else {
        decimal(n / 10).push(digit(n % 10))
    }
}

/// The text of one term: nothing for the coefficient 0; otherwise " + ",
/// the coefficient unless it is 1, the root sign and the radicand.
pub open spec fn term_text(radicand: nat, coefficient: nat) -> Seq<char> {
    if coefficient == 0 {
        Seq::empty()
    } else if coefficient == 1 {
        " + "@ + "\u{221a}"@ + decimal(radicand)
    } else {
        " + "@ + decimal(coefficient) + "\u{221a}"@ + decimal(radicand)
    }
}

/// The text of the terms with a radicand below `bound`, in ascending order
/// of their radicands.
pub open spec fn rendered_terms(terms: Map<nat, nat>, bound: nat) -> Seq<char>
    decreases bound,
{
    if bound == 0 {
        Seq::empty()
    } else {
        let radicand = (bound - 1) as nat;
        let coefficient = if terms.dom().contains(radicand) {
            terms[radicand]
        } else {
            0
        };
        rendered_terms(terms, radicand) + term_text(radicand, coefficient)
    }
}

/// The least radicand that has not been written when the keys before
/// place `i` have been: one more than the key before place `i`.
spec fn next_bound(keys: Seq<usize>, i: int) -> nat {
    if i <= 0 {
        0
    } else {
        (keys[i - 1] + 1) as nat
    }
}

/// The radicand up to which nothing is to be written before the key at
/// place `i`: that key, or one more than the largest `usize` behind the
/// last key.
spec fn next_key(keys: Seq<usize>, i: int) -> nat {
    if i < keys.len() {
        keys[i] as nat
    } else {
        (usize::MAX + 1) as nat
    }
}

/// Between one of the ascending keys and the next the terms hold no radicand.
proof fn lemma_no_key_between(stored: Map<usize, usize>, keys: Seq<usize>, i: int)
    requires
        0 <= i <= keys.len(),
        strictly_ascending_keys(keys),
        forall|k: usize| keys.contains(k) <==> stored.dom().contains(k),
    ensures
        next_bound(keys, i) <= next_key(keys, i),
        forall|r: nat|
            next_bound(keys, i) <= r < next_key(keys, i) ==> !terms_of(stored).dom().contains(r),
{
    if 0 < i < keys.len() {
        assert(keys[i - 1] < keys[i]);
    }
    assert forall|r: nat| next_bound(keys, i) <= r < next_key(keys, i) implies !terms_of(
        stored,
    ).dom().contains(r) by {
        if terms_of(stored).dom().contains(r) {
            let k = r as usize;
            assert(stored.dom().contains(k));
            assert(keys.contains(k));
            let j = choose|j: int| 0 <= j < keys.len() && keys[j] == k;
            if j < i - 1 {
                assert(keys[j] < keys[i - 1]);
            } else if j > i {
                assert(keys[i] < keys[j]);
            }
        }
    }
}

/// The text up to and with one radicand is the text before it and the
/// text of its term.
proof fn lemma_rendered_terms_step(terms: Map<nat, nat>, radicand: nat)
    ensures
        rendered_terms(terms, radicand + 1) == rendered_terms(terms, radicand) + term_text(
            radicand,
            if terms.dom().contains(radicand) {
                terms[radicand]
            } else {
                0
            },
        ),
{
}

/// Appends the text of one term.
fn append_term(text: &mut String, radicand: usize, coefficient: usize)
    ensures
        final(text)@ == old(text)@ + term_text(radicand as nat, coefficient as nat),
{
    let ghost before = text@;
    if coefficient != 0 {
        text.append(" + ");
        if coefficient != 1 {
            let number = decimal_text(coefficient);
            text.append(number.as_str());
        }
        text.append("\u{221a}");
        let number = decimal_text(radicand);
        text.append(number.as_str());
    }
    assert(text@ =~= before + term_text(radicand as nat, coefficient as nat));
}

/// Radicands between which the terms hold none add nothing to the text.
proof fn lemma_rendered_terms_gap(terms: Map<nat, nat>, from: nat, to: nat)
    requires
        from <= to,
        forall|r: nat| from <= r < to ==> !terms.dom().contains(r),
    ensures
        rendered_terms(terms, to) == rendered_terms(terms, from),
    decreases to - from,
{
    if from < to {
        lemma_rendered_terms_gap(terms, from, (to - 1) as nat);
        assert(!terms.dom().contains((to - 1) as nat));
    }
}

/// The keys increase strictly.
spec fn strictly_ascending_keys(keys: Seq<usize>) -> bool {
    forall|i: int, j: int| 0 <= i < j < keys.len() ==> keys[i] < keys[j]
}

/// The text of one decimal digit.
fn digit_text(d: usize) -> (text: &'static str)
    requires
        d < 10,
    ensures
        text@ == seq![digit(d as nat)],
{
    proof {
        reveal_strlit("0");
        reveal_strlit("1");
        reveal_strlit("2");
        reveal_strlit("3");
        reveal_strlit("4");
        reveal_strlit("5");
        reveal_strlit("6");
        reveal_strlit("7");
        reveal_strlit("8");
        reveal_strlit("9");
    }
    let text = if d == 0 {
        "0"
    } else if d == 1 {
        "1"
    } else if d == 2 {
        "2"
    } else if d == 3 {
        "3"
    } else if d == 4 {
        "4"
    } else if d == 5 {
        "5"
    } else if d == 6 {
        "6"
    } else if d == 7 {
        "7"
    } else if d == 8 {
        "8"
    } else {
        "9"
    };
    assert(text@ =~= seq![digit(d as nat)]);
    text
}

/// The decimal numeral of `n` as text.
pub fn decimal_text(n: usize) -> (text: String)
    ensures
        text@ == decimal(n as nat),
    decreases n,
{
    if n < 10 {
        String::from_str(digit_text(n))
    } else {
        let mut text = decimal_text(n / 10);
        text.append(digit_text(n % 10));
        assert(text@ =~= decimal((n / 10) as nat).push(digit((n % 10) as nat)));
        text
    }
}

/// Puts `key` into its place among strictly ascending keys.
fn insert_ascending(keys: &mut Vec<usize>, key: usize)
    requires
        strictly_ascending_keys(old(keys)@),
        !old(keys)@.contains(key),
    ensures
        strictly_ascending_keys(final(keys)@),
        forall|k: usize| final(keys)@.contains(k) <==> (old(keys)@.contains(k) || k == key),
{
    let mut place: usize = 0;
    while place < keys.len() && keys[place] < key
        invariant
            0 <= place <= keys.len(),
            forall|j: int| 0 <= j < place ==> keys@[j] < key,
        decreases keys.len() - place,
    {
        place += 1;
    }
    let ghost before = keys@;
    assert(place < before.len() ==> before[place as int] > key) by {
        if place < before.len() {
            assert(before.contains(before[place as int]));
        }
    }
    keys.insert(place, key);
    proof {
        assert forall|k: usize| keys@.contains(k) <==> (before.contains(k) || k == key) by {
            if keys@.contains(k) {
                let j = choose|j: int| 0 <= j < keys@.len() && keys@[j] == k;
                if j < place {
                    assert(before[j] == k);
                } else if j > place {
                    assert(before[j - 1] == k);
                }
            }
            if before.contains(k) {
                let j = choose|j: int| 0 <= j < before.len() && before[j] == k;
                if j < place {
                    assert(keys@[j] == k);
                } else {
                    assert(keys@[j + 1] == k);
                }
            }
            if k == key {
                assert(keys@[place as int] == k);
            }
        }
    }
}

/// The keys of `terms` in strictly ascending order.
fn sorted_keys(terms: &HashMap<usize, usize>) -> (keys: Vec<usize>)
    ensures
        strictly_ascending_keys(keys@),
        forall|k: usize| keys@.contains(k) <==> terms@.dom().contains(k),
{
    let mut keys: Vec<usize> = Vec::new();
    let ghost all = spec_keys_iter(terms).remaining();
    for key in iter: terms.keys()
        invariant
            iter.seq() == all,
            all == spec_keys_iter(terms).remaining(),
            strictly_ascending_keys(keys@),
            forall|k: usize|
                keys@.contains(k) <==> exists|j: int| 0 <= j < iter.index() && *all[j] == k,
    {
        let ghost place = iter.index();
        proof {
            assert(all.no_duplicates());
            if keys@.contains(*key) {
                let j = choose|j: int| 0 <= j < place && *all[j] == *key;
                assert(all[j] == all[place]);
            }
        }
        insert_ascending(&mut keys, *key);
        proof {
            assert forall|k: usize|
                keys@.contains(k) <==> exists|j: int| 0 <= j < place + 1 && *all[j] == k by {
                if exists|j: int| 0 <= j < place + 1 && *all[j] == k {
                    let j = choose|j: int| 0 <= j < place + 1 && *all[j] == k;
                    if j < place {
                    }
                }
                if keys@.contains(k) && k != *key {
                    let j = choose|j: int| 0 <= j < place && *all[j] == k;
                }
            }
        }
    }
    proof {
        assert forall|k: usize| keys@.contains(k) <==> terms@.dom().contains(k) by {
            assert(all.unref().to_set() == terms@.dom());
            if keys@.contains(k) {
                let j = choose|j: int| 0 <= j < all.len() && *all[j] == k;
                assert(all.unref()[j] == k);
                assert(all.unref().to_set().contains(k));
            }
            if terms@.dom().contains(k) {
                assert(all.unref().contains(k));
                let j = choose|j: int| 0 <= j < all.unref().len() && all.unref()[j] == k;
                assert(*all[j] == k);
            }
        }
    }
    keys
}

/// A sum never shrinks: adding a root lowers neither the constant nor any
/// coefficient, and drops no radicand.
pub proof fn lemma_plus_root_never_shrinks(sum: ExactSum, n: nat, radicand: nat)
    ensures
        sum.plus_root(n).constant >= sum.constant,
        sum.plus_root(n).coefficient(radicand) >= sum.coefficient(radicand),
        sum.terms.dom().contains(radicand) ==> sum.plus_root(n).terms.dom().contains(radicand),
{
}

/// The root of a square is whole: adding the root of `k * k`, for a
/// positive `k`, adds `k` to the constant and leaves the terms as they are.
pub proof fn lemma_plus_root_of_square(sum: ExactSum, k: nat)
    requires
        k >= 1,
    ensures
        sum.plus_root(k * k) == (ExactSum { constant: sum.constant + k, terms: sum.terms }),
{
    lemma_perfect_square_split(k);
}

/// The empty sum is written "0".
pub proof fn lemma_zero_rendered()
    ensures
        ExactSum::zero().rendered() == seq!['0'],
{
    lemma_rendered_terms_gap(Map::empty(), 0, (usize::MAX + 1) as nat);
    assert(ExactSum::zero().rendered() =~= seq!['0']);
}

} // verus!
