//! Arithmetic helpers: the library's modulo, the extended Euclidean algorithm,
//! and the facts about them that the protocols rely on.
use vstd::prelude::*;
use vstd::arithmetic::div_mod::*;
use vstd::arithmetic::mul::*;

verus! {

/// Remainder of Rust's truncating division: it has the sign of `x`.
pub open spec fn trunc_rem(x: int, y: int) -> int {
    if x >= 0 {
        x % y
    } else {
        -((-x) % y)
    }
}

/// Rust's truncating division, for a positive divisor.
pub open spec fn trunc_div(x: int, y: int) -> int {
    if x >= 0 {
        x / y
    } else {
        -((-x) / y)
    }
}

/// The library's modulo: the truncating remainder, moved up by `y` when it is
/// negative. For a positive `y` the result is the remainder in `[0, y)`.
pub open spec fn mod_f(x: int, y: int) -> int {
    if x < 0 && trunc_rem(x, y) != 0 {
        trunc_rem(x, y) + y
    } else {
        trunc_rem(x, y)
    }
}

/// The inputs on which `modF` runs without a panic or an overflow.
pub open spec fn mod_f_ok(x: int, y: int) -> bool {
    &&& i64::MIN <= x <= i64::MAX
    &&& y != 0
    &&& i64::MIN <= y <= i64::MAX
    &&& !(x == i64::MIN && y == -1)
    &&& i64::MIN <= mod_f(x, y)
}

/// The modulo of the library: `x % y`, plus `y` when that is negative; for a
/// positive `y` the remainder in `[0, y)`.
pub fn modF(x: i64, y: i64) -> (r: i64)
    requires
        mod_f_ok(x as int, y as int),
    ensures
        r == mod_f(x as int, y as int),
        y > 0 ==> 0 <= r < y && r == (x as int) % (y as int),
{
    proof {
        if y > 0 {
            lemma_mod_f_pos(x as int, y as int);
        }
    }
    let r = x % y;
    if x < 0 && r != 0 {
        return r + y;
    }
    r
}

/// For a positive modulus, `mod_f` is the remainder `x % y`, in `[0, y)`, and is
/// congruent to `x`.
pub proof fn lemma_mod_f_pos(x: int, y: int)
    requires
        y > 0,
    ensures
        0 <= mod_f(x, y) < y,
        mod_f(x, y) == x % y,
        (mod_f(x, y) - x) % y == 0,
        mod_f(x, y) % y == x % y,
        x >= 0 ==> mod_f(x, y) == x % y,
        i64::MIN <= x <= i64::MAX && y <= i64::MAX ==> mod_f_ok(x, y),
{
    if x >= 0 {
        lemma_mod_bound(x, y);
        lemma_fundamental_div_mod(x, y);
        lemma_mod_multiples_basic(-(x / y), y);
        assert(x % y - x == (-(x / y)) * y) by (nonlinear_arith)
            requires
                x == y * (x / y) + x % y,
        ;
        lemma_mod_twice(x, y);
    } else {
        let nx = -x;
        lemma_mod_bound(nx, y);
        lemma_fundamental_div_mod(nx, y);
        let m = nx % y;
        if m == 0 {
            assert(mod_f(x, y) == 0);
            assert(x == (-(nx / y)) * y) by (nonlinear_arith)
                requires
                    nx == y * (nx / y) + m,
                    m == 0,
                    x == -nx,
            ;
            lemma_mod_multiples_basic(-(nx / y), y);
            lemma_mod_self_0(y);
            lemma_small_mod(0, y as nat);
        } else {
            assert(mod_f(x, y) == y - m);
            assert(mod_f(x, y) - x == (nx / y + 1) * y) by (nonlinear_arith)
                requires
                    nx == y * (nx / y) + m,
                    mod_f(x, y) == y - m,
                    x == -nx,
            ;
            lemma_mod_multiples_basic(nx / y + 1, y);
            lemma_mod_multiples_vanish(nx / y + 1, x, y);
            assert(y * (nx / y + 1) + x == y - m) by (nonlinear_arith)
                requires
                    nx == y * (nx / y) + m,
                    x == -nx,
            ;
            lemma_small_mod((y - m) as nat, y as nat);
        }
    }
}

/// Whether `n` is a prime number.
pub open spec fn is_prime_spec(n: nat) -> bool {
    n > 1 && forall|d: nat| 2 <= d < n ==> #[trigger] (n % d) != 0
}

/// `u` and `v` are congruent modulo `p`.
pub open spec fn congruent(u: int, v: int, p: int) -> bool {
    (u - v) % p == 0
}

/// Congruence is an equivalence relation compatible with `+`, `-` and `*`.
pub proof fn lemma_cong_refl(u: int, p: int)
    requires
        p > 0,
    ensures
        congruent(u, u, p),
{
    lemma_mod_self_0(p);
    lemma_mod_multiples_basic(0, p);
}

proof fn lemma_cong_witness(u: int, v: int, p: int) -> (k: int)
    requires
        p > 0,
        congruent(u, v, p),
    ensures
        u - v == p * k,
{
    lemma_fundamental_div_mod(u - v, p);
    (u - v) / p
}

proof fn lemma_cong_from_witness(u: int, v: int, p: int, k: int)
    requires
        p > 0,
        u - v == p * k,
    ensures
        congruent(u, v, p),
{
    lemma_mod_multiples_basic(k, p);
    lemma_mul_is_commutative(p, k);
}

pub proof fn lemma_cong_sym(u: int, v: int, p: int)
    requires
        p > 0,
        congruent(u, v, p),
    ensures
        congruent(v, u, p),
{
    let k = lemma_cong_witness(u, v, p);
    assert(v - u == p * (-k)) by (nonlinear_arith)
        requires
            u - v == p * k,
    ;
    lemma_cong_from_witness(v, u, p, -k);
}

pub proof fn lemma_cong_trans(u: int, v: int, w: int, p: int)
    requires
        p > 0,
        congruent(u, v, p),
        congruent(v, w, p),
    ensures
        congruent(u, w, p),
{
    let k1 = lemma_cong_witness(u, v, p);
    let k2 = lemma_cong_witness(v, w, p);
    assert(u - w == p * (k1 + k2)) by (nonlinear_arith)
        requires
            u - v == p * k1,
            v - w == p * k2,
    ;
    lemma_cong_from_witness(u, w, p, k1 + k2);
}

pub proof fn lemma_cong_add(u1: int, v1: int, u2: int, v2: int, p: int)
    requires
        p > 0,
        congruent(u1, v1, p),
        congruent(u2, v2, p),
    ensures
        congruent(u1 + u2, v1 + v2, p),
        congruent(u1 - u2, v1 - v2, p),
{
    let k1 = lemma_cong_witness(u1, v1, p);
    let k2 = lemma_cong_witness(u2, v2, p);
    assert((u1 + u2) - (v1 + v2) == p * (k1 + k2)) by (nonlinear_arith)
        requires
            u1 - v1 == p * k1,
            u2 - v2 == p * k2,
    ;
    assert((u1 - u2) - (v1 - v2) == p * (k1 - k2)) by (nonlinear_arith)
        requires
            u1 - v1 == p * k1,
            u2 - v2 == p * k2,
    ;
    lemma_cong_from_witness(u1 + u2, v1 + v2, p, k1 + k2);
    lemma_cong_from_witness(u1 - u2, v1 - v2, p, k1 - k2);
}

pub proof fn lemma_cong_mul(u1: int, v1: int, u2: int, v2: int, p: int)
    requires
        p > 0,
        congruent(u1, v1, p),
        congruent(u2, v2, p),
    ensures
        congruent(u1 * u2, v1 * v2, p),
{
    let k1 = lemma_cong_witness(u1, v1, p);
    let k2 = lemma_cong_witness(u2, v2, p);
    assert(u1 * u2 - v1 * v2 == p * (k1 * u2 + v1 * k2)) by (nonlinear_arith)
        requires
            u1 - v1 == p * k1,
            u2 - v2 == p * k2,
    ;
    lemma_cong_from_witness(u1 * u2, v1 * v2, p, k1 * u2 + v1 * k2);
}

/// `mod_f(x, p)` is congruent to `x`.
pub proof fn lemma_cong_mod_f(x: int, p: int)
    requires
        p > 0,
    ensures
        congruent(mod_f(x, p), x, p),
{
    lemma_mod_f_pos(x, p);
}

/// Congruent numbers have the same `mod_f` for a positive modulus.
pub proof fn lemma_cong_mod_f_eq(u: int, v: int, p: int)
    requires
        p > 0,
        congruent(u, v, p),
    ensures
        mod_f(u, p) == mod_f(v, p),
{
    lemma_mod_f_pos(u, p);
    lemma_mod_f_pos(v, p);
    lemma_mod_equivalence(u, v, p);
}

/// A number in `[0, p)` congruent to `v` is the remainder of `v`.
pub proof fn lemma_cong_small_eq(u: int, v: int, p: int)
    requires
        p > 0,
        0 <= u < p,
        congruent(u, v, p),
    ensures
        u == v % p,
{
    lemma_cong_mod_f_eq(u, v, p);
    lemma_mod_f_pos(u, p);
    lemma_mod_f_pos(v, p);
    lemma_small_mod(u as nat, p as nat);
}

/// The extended Euclidean algorithm of the library, for a non-negative modulus `b`.
/// Returns `(x, y, d)`.
pub open spec fn egcd(a: int, b: int) -> (int, int, int)
    decreases b, (if a < 0 {
        1int
    } else {
        0int
    }),
    when b >= 0
{
    if b == 0 {
        (1, 0, a)
    } else {
        proof {
            lemma_mod_f_pos(a, b);
        }
        let r = egcd(b, mod_f(a, b));
        (r.1, r.0 - trunc_div(a, b) * r.1, r.2)
    }
}

/// The inputs on which `extended_gcd` runs without overflow.
pub open spec fn egcd_ok(a: int, b: int) -> bool {
    &&& 0 <= b <= i64::MAX
    &&& i64::MIN <= a <= i64::MAX
    &&& a < 0 ==> b - a <= i64::MAX
}

/// Bounds on the coefficients returned by `egcd`.
pub proof fn lemma_egcd_bounds(a: int, b: int)
    requires
        b > 0,
    ensures
        -b <= egcd(a, b).0 <= b,
        a >= 0 ==> -a <= egcd(a, b).1 <= a || -1 <= egcd(a, b).1 <= 1,
        a < 0 ==> a - b <= egcd(a, b).1 <= b - a,
    decreases b, (if a < 0 {
        1int
    } else {
        0int
    }),
{
    lemma_mod_f_pos(a, b);
    let m = mod_f(a, b);
    let q = trunc_div(a, b);
    let r = egcd(b, m);
    if a >= 0 {
        lemma_fundamental_div_mod(a, b);
        assert(q >= 0) by {
            lemma_div_pos_is_pos(a, b);
        }
    } else {
        lemma_fundamental_div_mod(-a, b);
        assert(-q >= 0) by {
            lemma_div_pos_is_pos(-a, b);
        }
    }
    if m == 0 {
        assert(r == (1int, 0int, b));
    } else {
        lemma_egcd_bounds(b, m);
        assert(-m <= r.0 <= m);
        assert(-b <= r.1 <= b);
        if a >= 0 {
            assert(m == a % b);
            assert(-(q * b) <= q * r.1 <= q * b) by (nonlinear_arith)
                requires
                    q >= 0,
                    -b <= r.1 <= b,
            ;
            assert(q * b + m == a) by (nonlinear_arith)
                requires
                    a == b * (a / b) + a % b,
                    q == a / b,
                    m == a % b,
            ;
        } else {
            let nq = -q;
            assert(-(nq * b) <= nq * r.1 <= nq * b) by (nonlinear_arith)
                requires
                    nq >= 0,
                    -b <= r.1 <= b,
            ;
            assert(nq * b <= -a) by (nonlinear_arith)
                requires
                    -a == b * ((-a) / b) + (-a) % b,
                    nq == (-a) / b,
                    (-a) % b >= 0,
            ;
            assert(q * r.1 == -(nq * r.1)) by (nonlinear_arith)
                requires
                    q == -nq,
            ;
        }
    }
}

/// The `d` of `egcd` divides both arguments, and for a positive modulus it is positive.
pub proof fn lemma_egcd_divides(a: int, b: int)
    requires
        b > 0,
    ensures
        egcd(a, b).2 > 0,
        a % egcd(a, b).2 == 0,
        b % egcd(a, b).2 == 0,
    decreases b, (if a < 0 {
        1int
    } else {
        0int
    }),
{
    lemma_mod_f_pos(a, b);
    let m = mod_f(a, b);
    let d = egcd(a, b).2;
    if m == 0 {
        assert(egcd(b, m) == (1int, 0int, b));
        assert(d == b);
        lemma_mod_self_0(b);
    } else {
        lemma_egcd_divides(b, m);
        // d divides b and m, and a = m - (m - a) with (m - a) a multiple of b
        lemma_fundamental_div_mod(b, d);
        lemma_fundamental_div_mod(m, d);
        lemma_fundamental_div_mod(m - a, b);
        let kb = b / d;
        let km = m / d;
        let k = (m - a) / b;
        assert(a == d * (km - k * kb)) by (nonlinear_arith)
            requires
                b == d * kb,
                m == d * km,
                m - a == b * k,
        ;
        lemma_mod_multiples_basic(km - k * kb, d);
        lemma_mul_is_commutative(d, km - k * kb);
    }
}

/// Bezout's identity for a non-negative `a`: `a * x + b * y == d`.
pub proof fn lemma_egcd_bezout(a: int, b: int)
    requires
        a >= 0,
        b >= 0,
    ensures
        a * egcd(a, b).0 + b * egcd(a, b).1 == egcd(a, b).2,
    decreases b,
{
    if b > 0 {
        lemma_mod_f_pos(a, b);
        let m = mod_f(a, b);
        lemma_egcd_bezout(b, m);
        let r = egcd(b, m);
        lemma_fundamental_div_mod(a, b);
        let q = a / b;
        assert(a * r.1 + b * (r.0 - q * r.1) == b * r.0 + m * r.1) by (nonlinear_arith)
            requires
                a == b * q + m,
        ;
        assert(m == a % b);
        assert(trunc_div(a, b) == q);
        assert(egcd(a, b) == (r.1, r.0 - q * r.1, r.2));
    } else {
        assert(egcd(a, b) == (1int, 0int, a));
    }
}

/// For a positive modulus `b`, `a * x` is congruent to `d` modulo `b`:
/// when `d` is 1, `x` is the inverse of `a` modulo `b`.
pub proof fn lemma_egcd_inverse(a: int, b: int)
    requires
        b > 0,
    ensures
        (a * egcd(a, b).0 - egcd(a, b).2) % b == 0,
{
    lemma_mod_f_pos(a, b);
    let m = mod_f(a, b);
    lemma_egcd_bezout(b, m);
    let r = egcd(b, m);
    lemma_fundamental_div_mod(m - a, b);
    let k = (m - a) / b;
    assert(a * r.1 - r.2 == b * (-(k * r.1) - r.0)) by (nonlinear_arith)
        requires
            b * r.0 + m * r.1 == r.2,
            m - a == b * k,
    ;
    lemma_mod_multiples_basic(-(k * r.1) - r.0, b);
    lemma_mul_is_commutative(b, -(k * r.1) - r.0);
}

/// Extended Euclidean algorithm. Returns `(x, y, d)` where `d` is the greatest common
/// divisor of `a` and `b`; for `b > 0`, `a * x` is congruent to `d` modulo `b`, so `x`
/// is the inverse of `a` modulo `b` when `d == 1`.
pub fn extended_gcd(a: i64, b: i64) -> (r: (i64, i64, i64))
    requires
        egcd_ok(a as int, b as int),
    ensures
        (r.0 as int, r.1 as int, r.2 as int) == egcd(a as int, b as int),
    decreases b, (if a < 0 {
        1int
    } else {
        0int
    }),
{
    if b == 0 {
        return (1, 0, a);
    }
    proof {
        lemma_mod_f_pos(a as int, b as int);
        lemma_egcd_bounds(a as int, b as int);
    }
    let m = modF(a, b);
    proof {
        if m > 0 {
            lemma_egcd_bounds(b as int, m as int);
        }
    }
    let temp = extended_gcd(b, m);
    let x = temp.0;
    let y = temp.1;
    let d = temp.2;
    let q = a / b;
    proof {
        assert(q == trunc_div(a as int, b as int));
        if m == 0 {
            assert(y == 0);
        }
        let qq = q as int;
        if a >= 0 {
            assert(0 <= qq <= a) by {
                lemma_div_is_ordered_by_denominator(a as int, 1, b as int);
                lemma_div_pos_is_pos(a as int, b as int);
            }
            assert(-(qq * b) <= qq * y <= qq * b) by (nonlinear_arith)
                requires
                    qq >= 0,
                    -b <= y <= b,
            ;
            lemma_fundamental_div_mod(a as int, b as int);
            assert(qq * b <= a) by (nonlinear_arith)
                requires
                    a == b * qq + (a as int) % (b as int),
                    (a as int) % (b as int) >= 0,
            ;
        } else {
            let nq = -qq;
            lemma_div_pos_is_pos(-(a as int), b as int);
            assert(-(nq * b) <= nq * y <= nq * b) by (nonlinear_arith)
                requires
                    nq >= 0,
                    -b <= y <= b,
            ;
            lemma_fundamental_div_mod(-(a as int), b as int);
            assert(nq * b <= -a) by (nonlinear_arith)
                requires
                    -a == b * nq + (-(a as int)) % (b as int),
                    (-(a as int)) % (b as int) >= 0,
            ;
            assert(qq * y == -(nq * y)) by (nonlinear_arith)
                requires
                    qq == -nq,
            ;
        }
    }
    (y, x - q * y, d)
}

} // verus!
