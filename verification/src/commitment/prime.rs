//! Prime numbers, and how powers with a large order show that a number is one.

use vstd::arithmetic::div_mod::*;
use vstd::arithmetic::mul::*;
use vstd::arithmetic::power::*;
use vstd::prelude::*;

verus! {

/// A number above one that only one and itself divide.
pub open spec fn is_prime(n: int) -> bool {
    n >= 2 && forall|d: int| 2 <= d < n ==> #[trigger] (n % d) != 0
}

/// No number from two up to `d` divides `n`.
pub open spec fn no_divisor_upto(n: int, d: int) -> bool
    decreases d,
{
    d < 2 || (n % d != 0 && no_divisor_upto(n, d - 1))
}

proof fn lemma_no_divisor(n: int, k: int, d: int)
    requires
        no_divisor_upto(n, k),
        2 <= d <= k,
    ensures
        n % d != 0,
    decreases k,
{
    if d < k {
        lemma_no_divisor(n, k - 1, d);
    }
}

/// None of four numbers in a row divides `n`.
pub proof fn lemma_no_divisor_of_four(n: int, a: int, b: int, c: int, d: int)
    requires
        no_divisor_upto(n, a - 1),
        b == a + 1,
        c == a + 2,
        d == a + 3,
        n % a != 0,
        n % b != 0,
        n % c != 0,
        n % d != 0,
    ensures
        no_divisor_upto(n, d),
{
    assert(no_divisor_upto(n, a));
    assert(no_divisor_upto(n, b));
    assert(no_divisor_upto(n, c));
}

/// Of two factors, the smaller one is no larger than the square root.
proof fn lemma_small_divisor(n: int, d: int) -> (r: int)
    requires
        2 <= d < n,
        n % d == 0,
    ensures
        2 <= r < n,
        n % r == 0,
        r * r <= n,
{
    let s = n / d;
    lemma_fundamental_div_mod(n, d);
    assert(n == d * s);
    assert(2 <= s < n) by (nonlinear_arith)
        requires
            n == d * s,
            2 <= d < n,
    ;
    if d <= s {
        assert(d * d <= n) by (nonlinear_arith)
            requires
                n == d * s,
                2 <= d <= s,
        ;
        d
    } else {
        assert(s * s <= n) by (nonlinear_arith)
            requires
                n == d * s,
                2 <= s <= d,
        ;
        lemma_mod_multiples_basic(d, s);
        s
    }
}

/// A number that nothing up to its square root divides is prime.
pub proof fn lemma_prime_by_trial(n: int, k: int)
    requires
        n >= 2,
        k >= 1,
        no_divisor_upto(n, k),
        (k + 1) * (k + 1) > n,
    ensures
        is_prime(n),
{
    assert forall|d: int| 2 <= d < n implies #[trigger] (n % d) != 0 by {
        if n % d == 0 {
            let r = lemma_small_divisor(n, d);
            assert(r <= k) by (nonlinear_arith)
                requires
                    r * r <= n,
                    (k + 1) * (k + 1) > n,
                    r >= 2,
                    k >= 1,
            ;
            lemma_no_divisor(n, k, r);
        }
    }
}

/// The least positive number whose multiple of `y` the number `q` divides.
proof fn lemma_least_multiplier(q: int, y: int, m: int) -> (least: int)
    requires
        q >= 2,
        m >= 1,
        (m * y) % q == 0,
    ensures
        1 <= least <= m,
        (least * y) % q == 0,
        forall|k: int| 1 <= k < least ==> #[trigger] ((k * y) % q) != 0,
    decreases m,
{
    if exists|k: int| 1 <= k < m && #[trigger] ((k * y) % q) == 0 {
        let k = choose|k: int| 1 <= k < m && #[trigger] ((k * y) % q) == 0;
        lemma_least_multiplier(q, y, k)
    } else {
        m
    }
}

proof fn lemma_multiplier_divides(q: int, y: int, least: int, x: int)
    requires
        q >= 2,
        least >= 1,
        x >= 0,
        (least * y) % q == 0,
        (x * y) % q == 0,
        forall|k: int| 1 <= k < least ==> #[trigger] ((k * y) % q) != 0,
    ensures
        x % least == 0,
{
    let k = x % least;
    let c = x / least;
    lemma_fundamental_div_mod(x, least);
    lemma_mod_bound(x, least);
    assert(k * y == x * y - c * (least * y)) by (nonlinear_arith)
        requires
            x == least * c + k,
    ;
    lemma_mul_mod_noop_right(c, least * y, q);
    assert(c * 0 == 0);
    lemma_sub_mod_noop(x * y, c * (least * y), q);
    assert((k * y) % q == 0);
}

/// A prime that divides a product divides a factor.
pub proof fn lemma_prime_divides_a_factor(q: int, x: int, y: int)
    requires
        is_prime(q),
        x >= 0,
        (x * y) % q == 0,
    ensures
        x % q == 0 || y % q == 0,
{
    lemma_mod_multiples_basic(y, q);
    assert((q * y) % q == 0) by {
        lemma_mul_is_commutative(q, y);
    }
    let least = lemma_least_multiplier(q, y, q);
    lemma_multiplier_divides(q, y, least, q);
    lemma_multiplier_divides(q, y, least, x);
    if least == 1 {
        assert(1 * y == y);
    } else {
        assert(least == q) by {
            if least < q {
                assert(q % least != 0);
            }
        }
    }
}

/// A divisor above one of a product of two primes is divided by one of them.
proof fn lemma_divisor_of_two_primes(qa: int, qb: int, k: int)
    requires
        is_prime(qa),
        qb == 1 || is_prime(qb),
        k >= 2,
        (qa * qb) % k == 0,
    ensures
        k % qa == 0 || (qb != 1 && k % qb == 0),
{
    let e = (qa * qb) / k;
    lemma_fundamental_div_mod(qa * qb, k);
    assert(e >= 0) by (nonlinear_arith)
        requires
            k * e == qa * qb,
            k >= 2,
            qa >= 2,
            qb >= 1,
    ;
    lemma_mul_is_commutative(k, e);
    lemma_mul_is_commutative(qa, qb);
    lemma_mod_multiples_basic(qb, qa);
    lemma_prime_divides_a_factor(qa, e, k);
    if k % qa != 0 {
        let f = e / qa;
        lemma_fundamental_div_mod(e, qa);
        assert(qb == f * k) by (nonlinear_arith)
            requires
                k * e == qa * qb,
                e == qa * f,
                qa >= 2,
        ;
        lemma_mod_multiples_basic(f, k);
        assert(k <= qb) by (nonlinear_arith)
            requires
                qb == f * k,
                qb >= 1,
                k >= 2,
        ;
        if k < qb {
            assert(qb % k != 0);
        }
        lemma_mod_self_0(k);
    }
}

/// The order of `b`: the least positive exponent of a power that is one.
proof fn lemma_order(b: int, r: int, f: int) -> (e: int)
    requires
        r >= 2,
        f >= 1,
        pow(b, f as nat) % r == 1,
    ensures
        1 <= e <= f,
        pow(b, e as nat) % r == 1,
        forall|k: int| 1 <= k < e ==> #[trigger] (pow(b, k as nat) % r) != 1,
    decreases f,
{
    if exists|k: int| 1 <= k < f && #[trigger] (pow(b, k as nat) % r) == 1 {
        let k = choose|k: int| 1 <= k < f && #[trigger] (pow(b, k as nat) % r) == 1;
        lemma_order(b, r, k)
    } else {
        f
    }
}

/// Powers of a power that is one are one.
proof fn lemma_one_stays(b: int, r: int, e: int, m: int)
    requires
        r >= 2,
        e >= 0,
        m >= 0,
        pow(b, e as nat) % r == 1,
    ensures
        e * m >= 0,
        pow(b, (e * m) as nat) % r == 1,
    decreases m,
{
    if m == 0 {
        lemma_pow0(b);
        lemma_small_mod(1, r as nat);
        assert(e * 0 == 0);
    } else {
        lemma_one_stays(b, r, e, m - 1);
        assert(e * m == e * (m - 1) + e) by (nonlinear_arith);
        lemma_pow_adds(b, (e * (m - 1)) as nat, e as nat);
        lemma_mul_mod_noop(pow(b, (e * (m - 1)) as nat), pow(b, e as nat), r);
        lemma_small_mod(1, r as nat);
    }
}

/// The order divides every exponent of a power that is one.
proof fn lemma_order_divides(b: int, r: int, e: int, f: int)
    requires
        r >= 2,
        1 <= e <= f,
        pow(b, e as nat) % r == 1,
        pow(b, f as nat) % r == 1,
        forall|k: int| 1 <= k < e ==> #[trigger] (pow(b, k as nat) % r) != 1,
    ensures
        f % e == 0,
{
    let m = f / e;
    let k = f % e;
    lemma_fundamental_div_mod(f, e);
    lemma_mod_bound(f, e);
    lemma_div_pos_is_pos(f, e);
    lemma_one_stays(b, r, e, m);
    lemma_pow_adds(b, (e * m) as nat, k as nat);
    lemma_mul_mod_noop(pow(b, (e * m) as nat), pow(b, k as nat), r);
    lemma_mod_twice(pow(b, k as nat), r);
    assert(1 * (pow(b, k as nat) % r) == pow(b, k as nat) % r);
    assert(pow(b, k as nat) % r == 1);
}

/// A divisor of the modulus is a modulus of the congruences too.
proof fn lemma_divisor_modulus(x: int, n: int, r: int)
    requires
        r >= 2,
        n >= 2,
        n % r == 0,
        x % n == 1,
    ensures
        x % r == 1,
{
    lemma_fundamental_div_mod(n, r);
    let s = n / r;
    assert(s >= 1) by (nonlinear_arith)
        requires
            n == r * s,
            n >= 2,
            r >= 2,
    ;
    lemma_mod_mod(x, r, s);
    lemma_small_mod(1, r as nat);
}

/// A power that differs from one by a number with an inverse is not one.
proof fn lemma_not_one(x: int, c: int, n: int, r: int)
    requires
        r >= 2,
        n >= 2,
        n % r == 0,
        (c * (x - 1)) % n == 1,
    ensures
        x % r != 1,
{
    lemma_divisor_modulus(c * (x - 1), n, r);
    if x % r == 1 {
        lemma_sub_mod_noop(x, 1, r);
        lemma_small_mod(1, r as nat);
        lemma_small_mod(0, r as nat);
        assert((x - 1) % r == 0);
        lemma_mul_mod_noop_right(c, x - 1, r);
        assert(c * 0 == 0);
    }
}

/// The residues of powers below the order are distinct and not zero, so the
/// modulus exceeds the order.
proof fn lemma_order_below_modulus(b: int, r: int, f: int)
    requires
        r >= 2,
        f >= 1,
        pow(b, f as nat) % r == 1,
        forall|k: int| 1 <= k < f ==> #[trigger] (pow(b, k as nat) % r) != 1,
    ensures
        f < r,
{
    let s = Seq::new(f as nat, |i: int| pow(b, i as nat) % r);
    assert forall|i: int, j: int| 0 <= i < s.len() && 0 <= j < s.len() && i != j implies s[i]
        != s[j] by {
        let (x, y) = if i < j {
            (i, j)
        } else {
            (j, i)
        };
        if s[i] == s[j] {
            let up = pow(b, (f - x) as nat);
            lemma_pow_adds(b, x as nat, (f - x) as nat);
            lemma_pow_adds(b, y as nat, (f - x) as nat);
            lemma_mul_mod_noop_left(pow(b, x as nat), up, r);
            lemma_mul_mod_noop_left(pow(b, y as nat), up, r);
            lemma_pow_adds(b, f as nat, (y - x) as nat);
            let z = pow(b, (y - x) as nat);
            lemma_mul_mod_noop_left(pow(b, f as nat), z, r);
            assert(1 * z == z);
            assert(y + (f - x) == f + (y - x));
            assert(z % r == 1);
        }
    }
    s.unique_seq_to_set();
    let range = vstd::set_lib::set_int_range(1, r);
    vstd::set_lib::lemma_int_range(1, r);
    assert forall|x: int| s.to_set().contains(x) implies range.contains(x) by {
        let i = choose|i: int| 0 <= i < s.len() && s[i] == x;
        let p = pow(b, i as nat);
        lemma_mod_bound(p, r);
        if x == 0 {
            let up = pow(b, (f - i) as nat);
            lemma_pow_adds(b, i as nat, (f - i) as nat);
            lemma_mul_mod_noop_left(p, up, r);
            assert(0 * up == 0);
            lemma_small_mod(0, r as nat);
        }
    }
    vstd::set_lib::lemma_len_subset(s.to_set(), range);
}

/// A number is prime when some power of `b` with exponent `qa * qb` is one
/// modulo it, the powers with exponents `qa` and `qb` differ from one by
/// numbers with an inverse, `qa` is prime, `qb` is prime or one, and the product
/// is no smaller than the number's square root.
pub proof fn lemma_prime_by_order(n: int, b: int, f: int, qa: int, qb: int, ca: int, cb: int)
    requires
        n >= 2,
        is_prime(qa),
        qb == 1 || is_prime(qb),
        f == qa * qb,
        f * f >= n,
        pow(b, f as nat) % n == 1,
        (ca * (pow(b, qb as nat) - 1)) % n == 1,
        qb == 1 || (cb * (pow(b, qa as nat) - 1)) % n == 1,
    ensures
        is_prime(n),
{
    assert(f >= 2) by (nonlinear_arith)
        requires
            f == qa * qb,
            qa >= 2,
            qb >= 1,
    ;
    assert forall|d: int| 2 <= d < n implies #[trigger] (n % d) != 0 by {
        if n % d == 0 {
            let r = lemma_small_divisor(n, d);
            lemma_divisor_modulus(pow(b, f as nat), n, r);
            lemma_not_one(pow(b, qb as nat), ca, n, r);
            if qb != 1 {
                lemma_not_one(pow(b, qa as nat), cb, n, r);
            }
            let e = lemma_order(b, r, f);
            lemma_order_divides(b, r, e, f);
            let k = f / e;
            lemma_fundamental_div_mod(f, e);
            if e != f {
                assert(k >= 2) by (nonlinear_arith)
                    requires
                        f == e * k,
                        1 <= e < f,
                ;
                lemma_mod_multiples_basic(e, k);
                lemma_divisor_of_two_primes(qa, qb, k);
                let (q, other) = if k % qa == 0 {
                    (qa, qb)
                } else {
                    (qb, qa)
                };
                let m = k / q;
                lemma_fundamental_div_mod(k, q);
                lemma_mul_is_commutative(qa, qb);
                assert(other == e * m && m >= 0) by (nonlinear_arith)
                    requires
                        q * other == e * k,
                        k == q * m,
                        k >= 2,
                        q >= 2,
                ;
                lemma_one_stays(b, r, e, m);
            }
            lemma_order_below_modulus(b, r, f);
            assert(f * f < r * r) by (nonlinear_arith)
                requires
                    1 <= f < r,
            ;
        }
    }
}

/// The square of `x`, times `b` where `odd`.
pub open spec fn squared(b: int, x: int, odd: bool) -> int {
    if odd {
        x * x * b
    } else {
        x * x
    }
}

/// A binary digit is put behind the exponent of a power.
proof fn lemma_binary_digit(b: int, n: int, e: int, x: int, odd: bool)
    requires
        n >= 2,
        e >= 0,
        pow(b, e as nat) % n == x,
    ensures
        pow(b, (if odd {
            2 * e + 1
        } else {
            2 * e
        }) as nat) % n == squared(b, x, odd) % n,
{
    let p = pow(b, e as nat);
    lemma_pow_adds(b, e as nat, e as nat);
    lemma_mul_mod_noop(p, p, n);
    if odd {
        lemma_pow_adds(b, (2 * e) as nat, 1);
        lemma_pow1(b);
        lemma_mul_mod_noop_left(p * p, b, n);
        lemma_mul_mod_noop_left(x * x, b, n);
    }
}

/// One step of raising to a power: a hexadecimal digit `d` is put behind the
/// exponent `e`. `x` is the power with exponent `e`, and `s`, `t` and `u` are the
/// powers on the way to `y`, a binary digit further each.
pub proof fn lemma_digit(b: int, n: int, e: int, x: int, d: int, s: int, t: int, u: int, y: int)
    requires
        n >= 2,
        e >= 0,
        0 <= d < 16,
        pow(b, e as nat) % n == x,
        s == squared(b, x, d >= 8) % n,
        t == squared(b, s, d % 8 >= 4) % n,
        u == squared(b, t, d % 4 >= 2) % n,
        y == squared(b, u, d % 2 == 1) % n,
    ensures
        pow(b, (16 * e + d) as nat) % n == y,
{
    lemma_binary_digit(b, n, e, x, d >= 8);
    lemma_binary_digit(b, n, 2 * e + d / 8, s, d % 8 >= 4);
    lemma_binary_digit(b, n, 4 * e + d / 4, t, d % 4 >= 2);
    lemma_binary_digit(b, n, 8 * e + d / 2, u, d % 2 == 1);
}

} // verus!
