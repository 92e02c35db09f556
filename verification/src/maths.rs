//! Elementary number theory: trial-division primality, prime factorization,
//! greatest common divisors, factorials, Pascal's triangle, perfect powers.
use vstd::prelude::*;
use vstd::arithmetic::div_mod::lemma_fundamental_div_mod;
use vstd::arithmetic::div_mod::lemma_mod_bound;
use vstd::arithmetic::div_mod::lemma_mod_multiples_basic;
use vstd::arithmetic::power::pow;

verus! {

/// `n` is prime: at least 2, and no divisor strictly between 1 and `n`.
pub open spec fn is_prime_spec(n: int) -> bool {
    2 <= n && forall|d: int| 2 <= d < n ==> #[trigger] (n % d) != 0
}

/// From `d <= n / d` (with `d >= 2`, `n >= 0`) conclude `d * d <= n`.
proof fn lemma_le_quotient_squares(n: int, d: int)
    requires
        2 <= d,
        0 <= n,
        d <= n / d,
    ensures
        d * d <= n,
        d < n,
{
    let q = n / d;
    let r = n % d;
    lemma_fundamental_div_mod(n, d);
    lemma_mod_bound(n, d);
    assert(d * d <= n && d < n) by (nonlinear_arith)
        requires
            2 <= d,
            d <= q,
            0 <= r,
            n == d * q + r,
    ;
}

/// From `d > n / d` (with `d >= 2`, `n >= 0`) conclude `d * d > n`.
proof fn lemma_gt_quotient_squares(n: int, d: int)
    requires
        2 <= d,
        0 <= n,
        d > n / d,
    ensures
        d * d > n,
{
    let q = n / d;
    let r = n % d;
    lemma_fundamental_div_mod(n, d);
    lemma_mod_bound(n, d);
    assert(d * d > n) by (nonlinear_arith)
        requires
            2 <= d,
            q < d,
            r < d,
            n == d * q + r,
    ;
}

/// A divisor no larger than the square root refutes primality.
proof fn lemma_has_small_factor_not_prime(n: int, d: int)
    requires
        2 <= d,
        d <= n / d,
        0 <= n,
        n % d == 0,
    ensures
        !is_prime_spec(n),
        2 <= n,
{
    lemma_le_quotient_squares(n, d);
    assert(2 <= d < n && n % d == 0);
}

/// A proper divisor of `n` yields a divisor at most the square root of `n`.
proof fn lemma_divisor_below_sqrt(n: int, d: int)
    requires
        2 <= n,
        2 <= d < n,
        n % d == 0,
    ensures
        exists|e: int| 2 <= e && e * e <= n && #[trigger] (n % e) == 0,
{
    let q = n / d;
    lemma_fundamental_div_mod(n, d);
    assert(n == d * q);
    assert(2 <= q) by (nonlinear_arith)
        requires
            n == d * q,
            2 <= d < n,
    ;
    lemma_mod_multiples_basic(d, q);
    assert((d * q) % q == 0);
    assert(n % q == 0);
    if d <= q {
        assert(d * d <= d * q) by (nonlinear_arith)
            requires
                2 <= d,
                d <= q,
        ;
        assert(2 <= d && d * d <= n && n % d == 0);
    } else {
        assert(q * q <= d * q) by (nonlinear_arith)
            requires
                2 <= q,
                q <= d,
        ;
        assert(2 <= q && q * q <= n && n % q == 0);
    }
}

/// If nothing up to the square root divides `n`, then `n` is prime.
proof fn lemma_no_small_factor_is_prime(n: int, bound: int)
    requires
        2 <= n,
        2 <= bound,
        bound * bound > n,
        forall|e: int| 2 <= e < bound ==> #[trigger] (n % e) != 0,
    ensures
        is_prime_spec(n),
{
    assert forall|d: int| 2 <= d < n implies #[trigger] (n % d) != 0 by {
        if n % d == 0 {
            lemma_divisor_below_sqrt(n, d);
            let e = choose|e: int| 2 <= e && e * e <= n && #[trigger] (n % e) == 0;
            assert(e < bound) by (nonlinear_arith)
                requires
                    e * e <= n,
                    n < bound * bound,
                    2 <= e,
                    2 <= bound,
            ;
        }
    }
}

/// Primality by trial division up to the square root.
/// By this convention 0 and 1 are reported "prime", because no candidate
/// divisor is ever tried on them.
pub fn is_prime(n: u128) -> (r: bool)
    ensures
        r == (n < 2 || is_prime_spec(n as int)),
{
    let mut div: u128 = 2;
    while div <= n / div
        invariant
            2 <= div,
            div <= n + 2,
            forall|e: int| 2 <= e < div ==> #[trigger] ((n as int) % e) != 0,
        decreases n + 2 - div,
    {
        if n % div == 0 {
            proof {
                lemma_has_small_factor_not_prime(n as int, div as int);
            }
            return false;
        }
        proof {
            lemma_le_quotient_squares(n as int, div as int);
        }
        div += 1;
    }
    proof {
        if n >= 2 {
            lemma_gt_quotient_squares(n as int, div as int);
            lemma_no_small_factor_is_prime(n as int, div as int);
        }
    }
    true
}

/// Product of a sequence of factors, 1 for the empty sequence.
pub open spec fn product(s: Seq<u128>) -> int
    decreases s.len(),
{
    if s.len() == 0 {
        1
    } else {
        product(s.drop_last()) * s.last()
    }
}

proof fn lemma_product_push(s: Seq<u128>, x: u128)
    ensures
        product(s.push(x)) == product(s) * x,
{
    assert(s.push(x).drop_last() =~= s);
    assert(s.push(x).last() == x);
}

proof fn lemma_product_at_least_one(s: Seq<u128>)
    requires
        forall|i: int| 0 <= i < s.len() ==> 1 <= #[trigger] s[i],
    ensures
        1 <= product(s),
    decreases s.len(),
{
    if s.len() > 0 {
        lemma_product_at_least_one(s.drop_last());
        assert(1 <= product(s.drop_last()) * s.last()) by (nonlinear_arith)
            requires
                1 <= product(s.drop_last()),
                1 <= s.last(),
        ;
    }
}

/// Divisibility is transitive: if `b` divides `c` and `a` divides `b`,
/// then `a` divides `c`.
proof fn lemma_divides_transitive(a: int, b: int, c: int)
    requires
        1 <= a,
        1 <= b,
        b % a == 0,
        c % b == 0,
    ensures
        c % a == 0,
{
    let k = b / a;
    let m = c / b;
    lemma_fundamental_div_mod(b, a);
    lemma_fundamental_div_mod(c, b);
    assert(c == (k * m) * a) by (nonlinear_arith)
        requires
            b == a * k,
            c == b * m,
    ;
    lemma_mod_multiples_basic(k * m, a);
}

/// The smallest divisor (at least 2) of a number is prime.
proof fn lemma_smallest_divisor_prime(n: int, d: int)
    requires
        2 <= n,
        2 <= d,
        n % d == 0,
        forall|e: int| 2 <= e < d ==> #[trigger] (n % e) != 0,
    ensures
        is_prime_spec(d),
{
    assert forall|e: int| 2 <= e < d implies #[trigger] (d % e) != 0 by {
        if d % e == 0 {
            lemma_divides_transitive(e, d, n);
        }
    }
}

/// Prime factorization by repeated trial division, smallest factor first.
/// The result lists the prime factors of `n` in ascending order with
/// multiplicity, so that their product is `n`; for `n <= 1` it is empty.
pub fn prime_factors(n: u128) -> (r: Vec<u128>)
    ensures
        1 <= n ==> product(r@) == n as int,
        n <= 1 ==> r@.len() == 0,
        forall|i: int| 0 <= i < r@.len() ==> is_prime_spec(r@[i] as int),
        forall|i: int, j: int| 0 <= i <= j < r@.len() ==> r@[i] <= r@[j],
    decreases n,
{
    let mut cur: u128 = n;
    let mut div: u128 = 2;
    let mut result: Vec<u128> = Vec::new();
    while cur > 1
        invariant
            product(result@) * cur == n as int,
            cur <= n,
            2 <= div,
            div <= n + 2,
            forall|e: int| 2 <= e < div ==> #[trigger] ((cur as int) % e) != 0,
            forall|i: int| 0 <= i < result@.len() ==> is_prime_spec(#[trigger] result@[i] as int),
            forall|i: int, p: int|
                0 <= i < result@.len() && 2 <= p && #[trigger] ((cur as int) % p) == 0
                    ==> #[trigger] result@[i] <= p,
            forall|i: int, j: int| 0 <= i <= j < result@.len() ==> result@[i] <= result@[j],
            n <= 1 ==> result@.len() == 0,
        decreases cur, n + 2 - div,
    {
        if div > n / div {
            // `div` has passed the square root of the original `n`, and no
            // candidate below it divides `cur`: what is left is prime.
            proof {
                lemma_gt_quotient_squares(n as int, div as int);
                assert(forall|i: int|
                    0 <= i < result@.len() ==> 1 <= #[trigger] result@[i]);
                lemma_product_at_least_one(result@);
                assert(cur <= n) by (nonlinear_arith)
                    requires
                        product(result@) * cur == n as int,
                        1 <= product(result@),
                        1 <= cur,
                ;
                lemma_no_small_factor_is_prime(cur as int, div as int);
                lemma_product_push(result@, cur);
                vstd::arithmetic::div_mod::lemma_mod_self_0(cur as int);
            }
            result.push(cur);
            cur = 1;
            proof {
                assert forall|e: int| 2 <= e implies #[trigger] ((cur as int) % e) != 0 by {
                    vstd::arithmetic::div_mod::lemma_small_mod(1nat, e as nat);
                }
            }
        } else if cur % div == 0 {
            proof {
                lemma_smallest_divisor_prime(cur as int, div as int);
                lemma_product_push(result@, div);
                lemma_fundamental_div_mod(cur as int, div as int);
                lemma_div_decreases_strict(cur as int, div as int);
            }
            let next = cur / div;
            proof {
                assert(product(result@.push(div)) * next == n as int) by (nonlinear_arith)
                    requires
                        product(result@.push(div)) == product(result@) * div,
                        cur as int == div as int * (next as int),
                        product(result@) * cur == n as int,
                ;
                assert(1 <= next) by (nonlinear_arith)
                    requires
                        cur as int == div as int * (next as int),
                        2 <= cur,
                ;
                // every divisor (>= 2) of `next` divides `cur` and so is at
                // least `div`: the pushed factor keeps the order and bounds.
                lemma_mod_multiples_basic(div as int, next as int);
                assert forall|p: int| 2 <= p && #[trigger] ((next as int) % p) == 0
                    implies div as int <= p by {
                    lemma_divides_transitive(p, next as int, cur as int);
                }
            }
            result.push(div);
            cur = next;
            div = 2;
        } else {
            proof {
                lemma_le_quotient_squares(n as int, div as int);
            }
            div += 1;
        }
    }
    proof {
        if cur == 1 {
            assert(product(result@) * 1 == product(result@));
        } else {
            assert(cur == 0);
            assert(product(result@) * 0 == 0);
        }
    }
    result
}

/// Euclid's greatest common divisor of a pair, by repeated remainders.
pub open spec fn gcd_pair(a: int, b: int) -> int
    recommends
        0 <= a,
        0 <= b,
    decreases b,
{
    if b <= 0 {
        a
    } else {
        gcd_pair(b, a % b)
    }
}

/// Greatest common divisor of a nonempty sequence, folded from the left:
/// the first element paired with the divisor of the rest.
pub open spec fn gcd_seq(s: Seq<u128>) -> int
    recommends
        1 <= s.len(),
    decreases s.len(),
{
    if s.len() <= 1 {
        s[0] as int
    } else {
        gcd_pair(s[0] as int, gcd_seq(s.drop_first()))
    }
}

/// Euclid's algorithm on a pair.
pub fn gcd_of_two_numbers(a: u128, b: u128) -> (r: u128)
    ensures
        r as int == gcd_pair(a as int, b as int),
    decreases b,
{
    if b == 0 {
        return a;
    }
    gcd_of_two_numbers(b, a % b)
}

/// Greatest common divisor of all the numbers given; at least one is needed.
pub fn gcd(numbers: Vec<u128>) -> (r: u128)
    requires
        1 <= numbers@.len(),
    ensures
        r as int == gcd_seq(numbers@),
{
    let mut i: usize = numbers.len() - 1;
    let mut acc: u128 = numbers[i];
    proof {
        assert(numbers@.subrange(i as int, numbers@.len() as int).len() == 1);
    }
    while 0 < i
        invariant
            i < numbers@.len(),
            acc as int == gcd_seq(numbers@.subrange(i as int, numbers@.len() as int)),
        decreases i,
    {
        i -= 1;
        acc = gcd_of_two_numbers(numbers[i], acc);
        proof {
            let s = numbers@;
            let sub = s.subrange(i as int, s.len() as int);
            assert(sub.drop_first() =~= s.subrange(i as int + 1, s.len() as int));
            assert(sub[0] == s[i as int]);
        }
    }
    proof {
        assert(numbers@.subrange(0, numbers@.len() as int) =~= numbers@);
    }
    acc
}

/// The factorial of `n`.
pub open spec fn fact(n: nat) -> nat
    decreases n,
{
    if n == 0 {
        1
    } else {
        n * fact((n - 1) as nat)
    }
}

pub proof fn lemma_fact_at_least_one(n: nat)
    ensures
        1 <= fact(n),
    decreases n,
{
    if n > 0 {
        lemma_fact_at_least_one((n - 1) as nat);
        assert(1 <= n * fact((n - 1) as nat)) by (nonlinear_arith)
            requires
                1 <= n,
                1 <= fact((n - 1) as nat),
        ;
    }
}

/// The factorial never shrinks as its argument grows.
pub proof fn lemma_fact_monotone(i: nat, j: nat)
    requires
        i <= j,
    ensures
        fact(i) <= fact(j),
    decreases j,
{
    if i < j {
        lemma_fact_monotone(i, (j - 1) as nat);
        lemma_fact_at_least_one((j - 1) as nat);
        assert(fact((j - 1) as nat) <= j * fact((j - 1) as nat)) by (nonlinear_arith)
            requires
                1 <= j,
                1 <= fact((j - 1) as nat),
        ;
    }
}

/// The factorial of `n`, by a running product. The product is taken in
/// the machine's word size, so the result must fit there.
pub fn factorial(n: usize) -> (r: u128)
    requires
        fact(n as nat) <= usize::MAX as nat,
    ensures
        r == fact(n as nat),
{
    let mut acc: usize = 1;
    let mut i: usize = 0;
    while i < n
        invariant
            i <= n,
            acc == fact(i as nat),
            fact(n as nat) <= usize::MAX as nat,
        decreases n - i,
    {
        i += 1;
        proof {
            lemma_fact_monotone(i as nat, n as nat);
            assert(fact(i as nat) == i * fact((i - 1) as nat));
            assert(acc * i == fact(i as nat)) by (nonlinear_arith)
                requires
                    acc == fact((i - 1) as nat),
                    fact(i as nat) == i * fact((i - 1) as nat),
            ;
        }
        acc = acc * i;
    }
    acc as u128
}

/// The binomial coefficient, by Pascal's recurrence.
pub open spec fn binom(n: nat, k: nat) -> nat
    decreases n,
{
    if k == 0 {
        1
    } else if k > n {
        0
    } else {
        binom((n - 1) as nat, (k - 1) as nat) + binom((n - 1) as nat, k)
    }
}

pub proof fn lemma_binom_diagonal(n: nat)
    ensures
        binom(n, n) == 1,
    decreases n,
{
    if n > 0 {
        lemma_binom_diagonal((n - 1) as nat);
        assert(binom((n - 1) as nat, n) == 0);
    }
}

/// The factorial identity: `binom(n, k) * (k! * (n-k)!) == n!`.
pub proof fn lemma_binom_fact(n: nat, k: nat)
    requires
        k <= n,
    ensures
        binom(n, k) * (fact(k) * fact((n - k) as nat)) == fact(n),
    decreases n,
{
    if k == 0 {
        assert(binom(n, 0) == 1);
        assert(1 * (fact(0) * fact(n)) == fact(n)) by (nonlinear_arith)
            requires
                fact(0) == 1,
        ;
    } else if k == n {
        lemma_binom_diagonal(n);
        assert(1 * (fact(n) * fact(0)) == fact(n)) by (nonlinear_arith)
            requires
                fact(0) == 1,
        ;
    } else {
        let n1 = (n - 1) as nat;
        lemma_binom_fact(n1, (k - 1) as nat);
        lemma_binom_fact(n1, k);
        let a = binom(n1, (k - 1) as nat);
        let b = binom(n1, k);
        assert(binom(n, k) == a + b);
        assert(fact(k) == k * fact((k - 1) as nat));
        assert(fact((n - k) as nat) == (n - k) * fact((n - k - 1) as nat));
        assert(fact(n) == n * fact(n1));
        let fk = fact(k);
        let fnk = fact((n - k) as nat);
        let fk1 = fact((k - 1) as nat);
        let fnk1 = fact((n - k - 1) as nat);
        let fn1 = fact(n1);
        assert(a * (fk * fnk) == k * fn1) by (nonlinear_arith)
            requires
                fk == k * fk1,
                a * (fk1 * fnk) == fn1,
        ;
        assert(b * (fk * fnk) == (n - k) * fn1) by (nonlinear_arith)
            requires
                fnk == (n - k) * fnk1,
                b * (fk * fnk1) == fn1,
        ;
        assert((a + b) * (fk * fnk) == a * (fk * fnk) + b * (fk * fnk)) by (nonlinear_arith);
        assert(k * fn1 + (n - k) * fn1 == n * fn1) by (nonlinear_arith);
    }
}

/// A binomial coefficient never shrinks when its row grows.
pub proof fn lemma_binom_rows_monotone(m: nat, mm: nat, k: nat)
    requires
        m <= mm,
    ensures
        binom(m, k) <= binom(mm, k),
    decreases mm - m,
{
    if m < mm {
        lemma_binom_rows_monotone(m, (mm - 1) as nat, k);
    }
}

/// A sequence of machine words read as a sequence of naturals.
pub open spec fn as_nat_seq(s: Seq<usize>) -> Seq<nat> {
    s.map_values(|x: usize| x as nat)
}

/// Row `m` of Pascal's triangle.
pub open spec fn row_seq(m: int) -> Seq<nat> {
    Seq::new((m + 1) as nat, |i: int| binom(m as nat, i as nat))
}

/// The first `n` rows of Pascal's triangle, concatenated.
pub open spec fn triangle_seq(n: int) -> Seq<nat>
    decreases n,
{
    if n <= 0 {
        Seq::empty()
    } else {
        triangle_seq(n - 1) + row_seq(n - 1)
    }
}

/// Row `n` of Pascal's triangle, computed through factorials. The row's
/// factorial must fit in the machine's word size (as `factorial` asks).
pub fn pascal_row(n: usize) -> (r: Vec<usize>)
    requires
        fact(n as nat) <= usize::MAX as nat,
    ensures
        as_nat_seq(r@) == row_seq(n as int),
        r@.len() == n + 1,
{
    proof {
        // `n` itself is far below the word limit: its factorial fits there.
        if n >= 3 {
            lemma_fact_monotone(2, (n - 1) as nat);
            assert(fact(2) == 2 * fact(1) && fact(1) == 1 * fact(0) && fact(0) == 1);
            assert(fact(n as nat) == n * fact((n - 1) as nat));
            assert(2 * n <= n * fact((n - 1) as nat)) by (nonlinear_arith)
                requires
                    2 <= fact((n - 1) as nat),
                    3 <= n,
            ;
        }
        assert(n < usize::MAX);
    }
    let mut r: Vec<usize> = Vec::new();
    let mut i: usize = 0;
    while i <= n
        invariant
            i <= n + 1,
            n < usize::MAX,
            r@.len() == i,
            fact(n as nat) <= usize::MAX as nat,
            forall|j: int| 0 <= j < i ==> #[trigger] (r@[j] as nat) == binom(n as nat, j as nat),
        decreases n + 1 - i,
    {
        proof {
            lemma_fact_monotone(i as nat, n as nat);
            lemma_fact_monotone((n - i) as nat, n as nat);
            lemma_fact_at_least_one(i as nat);
            lemma_fact_at_least_one((n - i) as nat);
            lemma_fact_at_least_one(n as nat);
            lemma_binom_fact(n as nat, i as nat);
        }
        let fi = factorial(i);
        let fni = factorial(n - i);
        let fall = factorial(n);
        let ghost bin = binom(n as nat, i as nat);
        proof {
            assert(1 <= bin && 1 <= fi * fni && fi * fni <= fact(n as nat) && bin <= fact(
                n as nat,
            )) by (nonlinear_arith)
                requires
                    bin * (fi * fni) == fact(n as nat),
                    1 <= fi,
                    1 <= fni,
                    1 <= fact(n as nat),
            ;
        }
        let denom = fi * fni;
        let c = fall / denom;
        proof {
            vstd::arithmetic::div_mod::lemma_div_multiples_vanish(bin as int, denom as int);
            assert(bin * denom == denom * bin) by (nonlinear_arith);
            assert(c == bin);
        }
        r.push(c as usize);
        i += 1;
    }
    proof {
        assert(as_nat_seq(r@) =~= row_seq(n as int));
    }
    r
}

/// The first `n` rows of Pascal's triangle, concatenated, each row
/// computed through factorials.
pub fn pascals_triangle(n: usize) -> (r: Vec<usize>)
    requires
        1 <= n ==> fact((n - 1) as nat) <= usize::MAX as nat,
    ensures
        as_nat_seq(r@) == triangle_seq(n as int),
{
    let mut result: Vec<usize> = Vec::new();
    let mut i: usize = 0;
    while i < n
        invariant
            i <= n,
            1 <= n ==> fact((n - 1) as nat) <= usize::MAX as nat,
            as_nat_seq(result@) == triangle_seq(i as int),
        decreases n - i,
    {
        proof {
            lemma_fact_monotone(i as nat, (n - 1) as nat);
        }
        let mut row = pascal_row(i);
        let ghost before = result@;
        let ghost row_view = row@;
        result.append(&mut row);
        proof {
            assert(as_nat_seq(result@) =~= as_nat_seq(before) + as_nat_seq(row_view));
            assert(as_nat_seq(row_view) == row_seq(i as int));
            assert(as_nat_seq(result@) == triangle_seq(i as int + 1));
        }
        i += 1;
    }
    result
}

/// The first `n` rows of Pascal's triangle (at least one), concatenated,
/// each row built from the previous one by Pascal's recurrence. Every
/// entry of the last row must fit in the machine's word size.
pub fn pascals_triangle_2(n: usize) -> (r: Vec<usize>)
    requires
        forall|k: nat| 2 <= n ==> #[trigger] binom((n - 1) as nat, k) <= usize::MAX as nat,
    ensures
        as_nat_seq(r@) == triangle_seq(
            if n == 0 {
                1int
            } else {
                n as int
            },
        ),
{
    let mut rows: Vec<Vec<usize>> = Vec::new();
    let mut first: Vec<usize> = Vec::new();
    first.push(1);
    proof {
        assert(as_nat_seq(first@) =~= row_seq(0));
    }
    rows.push(first);
    while rows.len() < n
        invariant
            1 <= rows@.len(),
            rows@.len() <= if n == 0 {
                1int
            } else {
                n as int
            },
            forall|k: nat| 2 <= n ==> #[trigger] binom((n - 1) as nat, k) <= usize::MAX as nat,
            forall|t: int|
                0 <= t < rows@.len() ==> as_nat_seq(#[trigger] rows@[t]@) == row_seq(t),
            forall|t: int| 0 <= t < rows@.len() ==> #[trigger] rows@[t]@.len() == t + 1,
        decreases n - rows@.len(),
    {
        let m = rows.len();
        let mut next: Vec<usize> = Vec::new();
        next.push(1);
        let mut j: usize = 1;
        while j < m
            invariant
                1 <= j <= m,
                1 <= m,
                m < n,
                next@.len() == j,
                forall|k: nat| 2 <= n ==> #[trigger] binom((n - 1) as nat, k) <= usize::MAX as nat,
                forall|t: int|
                    0 <= t < rows@.len() ==> as_nat_seq(#[trigger] rows@[t]@) == row_seq(t),
                forall|t: int| 0 <= t < rows@.len() ==> #[trigger] rows@[t]@.len() == t + 1,
                m == rows@.len(),
                forall|i: int| 0 <= i < j ==> #[trigger] (next@[i] as nat) == binom(m as nat, i as nat),
            decreases m - j,
        {
            proof {
                assert(as_nat_seq(rows@[m - 1]@)[j - 1] == binom((m - 1) as nat, (j - 1) as nat));
                assert(as_nat_seq(rows@[m - 1]@)[j as int] == binom((m - 1) as nat, j as nat));
                lemma_binom_rows_monotone(m as nat, (n - 1) as nat, j as nat);
            }
            let prev_left = rows[m - 1][j - 1];
            let prev_right = rows[m - 1][j];
            let s = prev_left + prev_right;
            next.push(s);
            j += 1;
        }
        proof {
            lemma_binom_diagonal(m as nat);
        }
        next.push(1);
        proof {
            assert(as_nat_seq(next@) =~= row_seq(m as int));
        }
        rows.push(next);
    }
    let mut result: Vec<usize> = Vec::new();
    let mut t: usize = 0;
    while t < rows.len()
        invariant
            t <= rows@.len(),
            forall|u: int| 0 <= u < rows@.len() ==> as_nat_seq(#[trigger] rows@[u]@) == row_seq(u),
            forall|u: int| 0 <= u < rows@.len() ==> #[trigger] rows@[u]@.len() == u + 1,
            as_nat_seq(result@) == triangle_seq(t as int),
        decreases rows@.len() - t,
    {
        let row_len = rows[t].len();
        let mut j: usize = 0;
        while j < row_len
            invariant
                j <= row_len,
                t < rows@.len(),
                row_len == rows@[t as int]@.len(),
                forall|u: int|
                    0 <= u < rows@.len() ==> as_nat_seq(#[trigger] rows@[u]@) == row_seq(u),
                forall|u: int| 0 <= u < rows@.len() ==> #[trigger] rows@[u]@.len() == u + 1,
                as_nat_seq(result@) == triangle_seq(t as int) + row_seq(t as int).take(j as int),
            decreases row_len - j,
        {
            let x = rows[t][j];
            let ghost before = result@;
            result.push(x);
            proof {
                assert(as_nat_seq(rows@[t as int]@)[j as int] == binom(t as nat, j as nat));
                assert(as_nat_seq(result@) =~= as_nat_seq(before).push(x as nat));
                assert(row_seq(t as int).take(j as int + 1) =~= row_seq(t as int).take(
                    j as int,
                ).push(binom(t as nat, j as nat)));
            }
            j += 1;
        }
        proof {
            assert(row_seq(t as int).take(row_len as int) =~= row_seq(t as int));
            assert(as_nat_seq(result@) == triangle_seq(t as int + 1));
        }
        t += 1;
    }
    result
}

/// Raising never shrinks when the base grows; powers of naturals are
/// never negative.
proof fn lemma_pow_base_monotone(a: nat, b: nat, e: nat)
    requires
        a <= b,
    ensures
        0 <= pow(a as int, e) <= pow(b as int, e),
    decreases e,
{
    reveal(vstd::arithmetic::power::pow);
    if e > 0 {
        lemma_pow_base_monotone(a, b, (e - 1) as nat);
        assert(0 <= a as int * pow(a as int, (e - 1) as nat) <= b as int * pow(
            b as int,
            (e - 1) as nat,
        )) by (nonlinear_arith)
            requires
                0 <= a <= b,
                0 <= pow(a as int, (e - 1) as nat) <= pow(b as int, (e - 1) as nat),
        ;
    }
}

proof fn lemma_pow_one_base(e: nat)
    ensures
        pow(1, e) == 1,
    decreases e,
{
    reveal(vstd::arithmetic::power::pow);
    if e > 0 {
        lemma_pow_one_base((e - 1) as nat);
    }
}

proof fn lemma_pow_zero_base(e: nat)
    requires
        1 <= e,
    ensures
        pow(0, e) == 0,
{
    reveal(vstd::arithmetic::power::pow);
}

/// No 64-bit value of 2 or more is a 64th or higher power.
proof fn lemma_no_root_above_63(n: u64, m: u64, e: nat)
    requires
        2 <= n,
        64 <= e,
    ensures
        pow(m as int, e) != n as int,
{
    if m == 0 {
        lemma_pow_zero_base(e);
    } else if m == 1 {
        lemma_pow_one_base(e);
    } else {
        lemma_pow_base_monotone(2, m as nat, e);
        vstd::arithmetic::power::lemma_pow_increases(2, 64, e);
        vstd::arithmetic::power2::lemma2_to64();
        vstd::arithmetic::power::lemma_pow_positive(2, 64);
        assert(vstd::arithmetic::power2::pow2(64) == pow(2, 64));
        assert(pow(2, 64) == 0x10000000000000000);
    }
}

/// `m` to the power `e` when it fits in 64 bits, `None` when it does not.
fn pow_checked(m: u64, e: u32) -> (r: Option<u64>)
    ensures
        r matches Some(p) ==> p as int == pow(m as int, e as nat),
        r is None ==> pow(m as int, e as nat) > u64::MAX as int,
{
    let mut acc: u128 = 1;
    let mut i: u32 = 0;
    proof {
        vstd::arithmetic::power::lemma_pow0(m as int);
    }
    while i < e
        invariant
            i <= e,
            acc as int == pow(m as int, i as nat),
            acc <= u64::MAX as u128,
        decreases e - i,
    {
        proof {
            assert(acc * (m as u128) <= u64::MAX as u128 * u64::MAX as u128) by (nonlinear_arith)
                requires
                    acc <= u64::MAX as u128,
                    (m as u128) <= u64::MAX as u128,
            ;
        }
        let next_acc = acc * (m as u128);
        proof {
            reveal(vstd::arithmetic::power::pow);
            assert(pow(m as int, (i + 1) as nat) == m as int * pow(m as int, i as nat));
            assert(acc as int * m as int == m as int * acc as int) by (nonlinear_arith);
        }
        if next_acc > u64::MAX as u128 {
            proof {
                assert(1 <= m) by (nonlinear_arith)
                    requires
                        acc as int * m as int > u64::MAX as int,
                        0 <= m,
                ;
                vstd::arithmetic::power::lemma_pow_increases(m as nat, (i + 1) as nat, e as nat);
            }
            return None;
        }
        acc = next_acc;
        i += 1;
    }
    Some(acc as u64)
}

/// The integer `e`-th root of `n` when `n` is an exact `e`-th power,
/// `None` when no 64-bit base reaches `n`; by binary search.
fn exact_root(n: u64, e: u32) -> (r: Option<u64>)
    requires
        2 <= n,
        1 <= e,
    ensures
        r matches Some(m) ==> pow(m as int, e as nat) == n as int,
        r is None ==> forall|m: u64| pow(m as int, e as nat) != n as int,
{
    let mut lo: u64 = 1;
    let mut hi: u64 = n;
    proof {
        lemma_pow_zero_base(e as nat);
        assert forall|m: u64| m > n implies pow(m as int, e as nat) != n as int by {
            vstd::arithmetic::power::lemma_pow1(m as int);
            vstd::arithmetic::power::lemma_pow_increases(m as nat, 1, e as nat);
        }
    }
    while lo <= hi
        invariant
            1 <= lo,
            hi <= n,
            2 <= n,
            1 <= e,
            forall|m: u64| m < lo ==> pow(m as int, e as nat) != n as int,
            forall|m: u64| m > hi ==> pow(m as int, e as nat) != n as int,
        decreases hi + 1 - lo,
    {
        let mid = lo + (hi - lo) / 2;
        match pow_checked(mid, e) {
            Some(p) => {
                if p == n {
                    return Some(mid);
                } else if p < n {
                    proof {
                        vstd::arithmetic::power::lemma_pow1(mid as int);
                        vstd::arithmetic::power::lemma_pow_increases(mid as nat, 1, e as nat);
                        assert(mid < u64::MAX);
                        assert forall|m: u64| m < mid + 1 implies pow(m as int, e as nat)
                            != n as int by {
                            if lo <= m {
                                lemma_pow_base_monotone(m as nat, mid as nat, e as nat);
                            }
                        }
                    }
                    lo = mid + 1;
                } else {
                    proof {
                        assert forall|m: u64| m > mid - 1 implies pow(m as int, e as nat)
                            != n as int by {
                            if m <= hi {
                                lemma_pow_base_monotone(mid as nat, m as nat, e as nat);
                            }
                        }
                    }
                    hi = mid - 1;
                }
            },
            None => {
                proof {
                    assert forall|m: u64| m > mid - 1 implies pow(m as int, e as nat)
                        != n as int by {
                        if m <= hi {
                            lemma_pow_base_monotone(mid as nat, m as nat, e as nat);
                        }
                    }
                }
                hi = mid - 1;
            },
        }
    }
    proof {
        assert forall|m: u64| pow(m as int, e as nat) != n as int by {
            if lo <= m {
                assert(m > hi);
            }
        }
    }
    None
}

/// The largest way to write `n` as a nontrivial power: `Some((m, e))`
/// with `m^e == n` and `e` the greatest exponent of 2 or more for which
/// an exact root exists; `None` when `n` is no such power at all.
pub fn is_perfect_power(n: u64) -> (r: Option<(u64, u32)>)
    requires
        2 <= n,
    ensures
        r matches Some(p) ==> 2 <= p.1 && pow(p.0 as int, p.1 as nat) == n as int && (forall|
            m2: u64,
            e2: u32,
        |
            p.1 < e2 ==> pow(m2 as int, e2 as nat) != n as int),
        r is None ==> forall|m2: u64, e2: u32| 2 <= e2 ==> pow(m2 as int, e2 as nat) != n as int,
{
    let mut e: u32 = 63;
    proof {
        assert forall|m2: u64, e2: u32| 63 < e2 implies pow(m2 as int, e2 as nat) != n as int by {
            lemma_no_root_above_63(n, m2, e2 as nat);
        }
    }
    while e >= 2
        invariant
            1 <= e <= 63,
            2 <= n,
            forall|m2: u64, e2: u32| e < e2 ==> pow(m2 as int, e2 as nat) != n as int,
        decreases e,
    {
        match exact_root(n, e) {
            Some(m) => {
                return Some((m, e));
            },
            None => {},
        }
        e -= 1;
    }
    None
}

/// Division by at least 2 strictly shrinks a positive number.
proof fn lemma_div_decreases_strict(x: int, d: int)
    requires
        1 <= x,
        2 <= d,
    ensures
        x / d < x,
        0 <= x / d,
{
    vstd::arithmetic::div_mod::lemma_div_decreases(x, d);
    vstd::arithmetic::div_mod::lemma_div_pos_is_pos(x, d);
}

} // verus!
