//! Shamir secret shares and the arithmetic that each party does on its own shares.
use vstd::prelude::*;
use crate::helper::{
    congruent, egcd, egcd_ok, extended_gcd, lemma_cong_add, lemma_cong_mod_f, lemma_cong_mul,
    lemma_cong_refl, lemma_cong_trans, lemma_egcd_inverse, lemma_mod_f_pos, mod_f, mod_f_ok, modF,
    lemma_cong_mod_f_eq,
};

verus! {

/// One party's share of a secret value in the field `Zp`.
#[derive(Debug)]
pub struct SecretShare {
    pub holders: Vec<i64>,
    pub threshold: i64,
    pub Zp: i64,
    pub value: i64,
}

/// The larger of two thresholds.
pub open spec fn max_threshold(a: i64, b: i64) -> i64 {
    if a >= b {
        a
    } else {
        b
    }
}

/// The share value of a Beaver multiplication, from the opened values `d` and `e`
/// and the triple shares `a`, `b`, `c`: `(b * d + d * e) + a * e + c`, each step reduced.
pub open spec fn beaver_value(a: int, b: int, c: int, d: int, e: int, p: int) -> int {
    mod_f(mod_f(mod_f(mod_f(b * d, p) + mod_f(d * e, p), p) + mod_f(a * e, p), p) + c, p)
}

/// A copy of a list of party ids.
pub fn copy_ids(v: &Vec<i64>) -> (r: Vec<i64>)
    ensures
        r@ == v@,
{
    let mut r: Vec<i64> = Vec::new();
    let mut i: usize = 0;
    while i < v.len()
        invariant
            i <= v.len(),
            r@ == v@.subrange(0, i as int),
        decreases v.len() - i,
    {
        r.push(v[i]);
        i = i + 1;
        assert(r@ =~= v@.subrange(0, i as int));
    }
    assert(v@.subrange(0, v.len() as int) =~= v@);
    r
}

impl SecretShare {
    /// Creates a share.
    pub fn new(value: i64, holders: Vec<i64>, threshold: i64, Zp: i64) -> (r: SecretShare)
        ensures
            r.value == value,
            r.holders == holders,
            r.threshold == threshold,
            r.Zp == Zp,
    {
        SecretShare { value: value, holders: holders, threshold: threshold, Zp: Zp }
    }

    /// A share with the same holders, threshold and field, and the given value.
    fn with_value(&self, value: i64) -> (r: SecretShare)
        ensures
            r.value == value,
            r.holders@ == self.holders@,
            r.threshold == self.threshold,
            r.Zp == self.Zp,
    {
        SecretShare { value: value, holders: copy_ids(&self.holders), threshold: self.threshold, Zp: self.Zp }
    }

    /// Adds a public constant.
    pub fn cadd(&self, cst: i64) -> (r: SecretShare)
        requires
            mod_f_ok(self.value + cst, self.Zp as int),
        ensures
            r.value == mod_f(self.value + cst, self.Zp as int),
            r.holders@ == self.holders@,
            r.threshold == self.threshold,
            r.Zp == self.Zp,
    {
        let sum = self.value + cst;
        let afterMod = modF(sum, self.Zp);
        self.with_value(afterMod)
    }

    /// Subtracts a public constant.
    pub fn csub(&self, cst: i64) -> (r: SecretShare)
        requires
            mod_f_ok(self.value - cst, self.Zp as int),
        ensures
            r.value == mod_f(self.value - cst, self.Zp as int),
            r.holders@ == self.holders@,
            r.threshold == self.threshold,
            r.Zp == self.Zp,
    {
        let sum = self.value - cst;
        let afterMod = modF(sum, self.Zp);
        self.with_value(afterMod)
    }

    /// Multiplies by a public constant.
    pub fn cmult(&self, cst: i64) -> (r: SecretShare)
        requires
            mod_f_ok(self.value * cst, self.Zp as int),
        ensures
            r.value == mod_f(self.value * cst, self.Zp as int),
            r.holders@ == self.holders@,
            r.threshold == self.threshold,
            r.Zp == self.Zp,
    {
        let product = self.value * cst;
        let afterMod = modF(product, self.Zp);
        self.with_value(afterMod)
    }

    /// Divides by a public constant: multiplies by its inverse modulo `Zp`.
    pub fn cdivfac(&self, cst: i64) -> (r: SecretShare)
        requires
            egcd_ok(cst as int, self.Zp as int),
            mod_f_ok(self.value * egcd(cst as int, self.Zp as int).0, self.Zp as int),
        ensures
            r.value == mod_f(self.value * egcd(cst as int, self.Zp as int).0, self.Zp as int),
            egcd(cst as int, self.Zp as int).2 == 1 ==> (r.value * cst - self.value) % (
            self.Zp as int) == 0,
            r.holders@ == self.holders@,
            r.threshold == self.threshold,
            r.Zp == self.Zp,
    {
        let inv = extended_gcd(cst, self.Zp).0;
        let product = self.value * inv;
        let afterMod = modF(product, self.Zp);
        proof {
            let p = self.Zp as int;
            lemma_mod_f_pos(product as int, p);
            lemma_egcd_inverse(cst as int, p);
            if egcd(cst as int, p).2 == 1 {
                let x = self.value as int;
                let c = cst as int;
                let i = inv as int;
                // afterMod ≡ x * i, so afterMod * c ≡ x * (c * i) ≡ x
                lemma_cong_mod_f(product as int, p);
                lemma_cong_refl(c, p);
                lemma_cong_mul(afterMod as int, x * i, c, c, p);
                lemma_cong_refl(x, p);
                assert(c * i - 1 == c * i - egcd(c, p).2);
                lemma_cong_mul(x, x, c * i, 1, p);
                assert(x * i * c == x * (c * i)) by (nonlinear_arith);
                lemma_cong_trans(afterMod as int * c, x * i * c, x, p);
            }
        }
        self.with_value(afterMod)
    }

    /// Adds two shares held by the same parties in the same field.
    pub fn sadd(&self, o: &SecretShare) -> (r: SecretShare)
        requires
            self.Zp == o.Zp,
            self.holders@ == o.holders@,
            mod_f_ok(self.value + o.value, self.Zp as int),
        ensures
            r.value == mod_f(self.value + o.value, self.Zp as int),
            r.holders@ == self.holders@,
            r.threshold == max_threshold(self.threshold, o.threshold),
            r.Zp == self.Zp,
    {
        let sum = self.value + o.value;
        let afterMod = modF(sum, self.Zp);
        let threshold = if self.threshold >= o.threshold {
            self.threshold
        } else {
            o.threshold
        };
        SecretShare { value: afterMod, holders: copy_ids(&self.holders), threshold: threshold, Zp: self.Zp }
    }

    /// Subtracts a share held by the same parties in the same field.
    pub fn ssub(&self, o: &SecretShare) -> (r: SecretShare)
        requires
            self.Zp == o.Zp,
            self.holders@ == o.holders@,
            mod_f_ok(self.value - o.value, self.Zp as int),
        ensures
            r.value == mod_f(self.value - o.value, self.Zp as int),
            r.holders@ == self.holders@,
            r.threshold == max_threshold(self.threshold, o.threshold),
            r.Zp == self.Zp,
    {
        let sum = self.value - o.value;
        let afterMod = modF(sum, self.Zp);
        let threshold = if self.threshold >= o.threshold {
            self.threshold
        } else {
            o.threshold
        };
        SecretShare { value: afterMod, holders: copy_ids(&self.holders), threshold: threshold, Zp: self.Zp }
    }

    /// Re-randomizes this share by adding a share of zero; holders, threshold and field stay.
    pub fn refresh(&self, zero: &SecretShare) -> (r: SecretShare)
        requires
            self.Zp == zero.Zp,
            self.holders@ == zero.holders@,
            mod_f_ok(self.value + zero.value, self.Zp as int),
        ensures
            r.value == mod_f(self.value + zero.value, self.Zp as int),
            r.holders@ == self.holders@,
            r.threshold == self.threshold,
            r.Zp == self.Zp,
    {
        let sum = self.sadd(zero);
        self.with_value(sum.value)
    }

    /// The local step of multiplication by the BGW protocol: the product of the two
    /// shares, on a polynomial whose degree is the sum of both degrees.
    pub fn smult_bgw(&self, o: &SecretShare) -> (r: SecretShare)
        requires
            self.Zp == o.Zp,
            self.holders@ == o.holders@,
            (self.threshold - 1) + (o.threshold - 1) <= self.holders@.len() - 1,
            self.threshold > i64::MIN,
            o.threshold > i64::MIN,
            i64::MIN <= (self.threshold - 1) + (o.threshold - 1) < i64::MAX,
            mod_f_ok(self.value * o.value, self.Zp as int),
        ensures
            r.value == mod_f(self.value * o.value, self.Zp as int),
            r.holders@ == self.holders@,
            r.threshold == (self.threshold - 1) + (o.threshold - 1) + 1,
            r.Zp == self.Zp,
    {
        let new_threshold = (self.threshold - 1) + (o.threshold - 1) + 1;
        let result_value = modF(self.value * o.value, self.Zp);
        SecretShare::new(result_value, copy_ids(&self.holders), new_threshold, self.Zp)
    }

    /// The first local step of a Beaver multiplication with the triple shares `a` and `b`:
    /// the masked shares `d = self - a` and `e = o - b`, which the parties then open.
    pub fn smult_mask(&self, o: &SecretShare, a: &SecretShare, b: &SecretShare) -> (r: (
        SecretShare,
        SecretShare,
    ))
        requires
            self.Zp > 0,
            o.Zp == self.Zp,
            a.Zp == self.Zp,
            b.Zp == self.Zp,
            o.holders@ == self.holders@,
            a.holders@ == self.holders@,
            b.holders@ == self.holders@,
            a.value > i64::MIN,
            b.value > i64::MIN,
            self.value <= i64::MAX - self.Zp,
            o.value <= i64::MAX - self.Zp,
        ensures
            r.0.value == mod_f(self.value + mod_f(-a.value, self.Zp as int), self.Zp as int),
            r.1.value == mod_f(o.value + mod_f(-b.value, self.Zp as int), self.Zp as int),
            r.0.holders@ == self.holders@,
            r.1.holders@ == self.holders@,
            r.0.threshold == max_threshold(self.threshold, a.threshold),
            r.1.threshold == max_threshold(o.threshold, b.threshold),
            r.0.Zp == self.Zp,
            r.1.Zp == self.Zp,
            congruent(r.0.value as int, self.value - a.value, self.Zp as int),
            congruent(r.1.value as int, o.value - b.value, self.Zp as int),
    {
        let ghost p = self.Zp as int;
        proof {
            lemma_mod_f_pos(-a.value, p);
            lemma_mod_f_pos(-b.value, p);
            assert(a.value * -1 == -a.value);
            assert(b.value * -1 == -b.value);
        }
        let na = a.cmult(-1);
        let nb = b.cmult(-1);
        proof {
            lemma_mod_f_pos(self.value + na.value, p);
            lemma_mod_f_pos(o.value + nb.value, p);
            lemma_cong_refl(self.value as int, p);
            lemma_cong_refl(o.value as int, p);
            lemma_cong_mod_f(-a.value, p);
            lemma_cong_mod_f(-b.value, p);
            lemma_cong_add(self.value as int, self.value as int, na.value as int, -a.value, p);
            lemma_cong_add(o.value as int, o.value as int, nb.value as int, -b.value, p);
            lemma_cong_mod_f(self.value + na.value, p);
            lemma_cong_mod_f(o.value + nb.value, p);
            lemma_cong_trans(
                mod_f(self.value + na.value, p),
                self.value + na.value,
                self.value - a.value,
                p,
            );
            lemma_cong_trans(mod_f(o.value + nb.value, p), o.value + nb.value, o.value - b.value, p);
        }
        let d = self.sadd(&na);
        let e = o.sadd(&nb);
        (d, e)
    }

    /// The last local step of a Beaver multiplication: from the opened values `d` and
    /// `e` and the triple shares `a`, `b`, `c`, the share `b * d + d * e + a * e + c`.
    pub fn smult_combine(
        &self,
        a: &SecretShare,
        b: &SecretShare,
        c: &SecretShare,
        d_value: i64,
        e_value: i64,
    ) -> (r: SecretShare)
        requires
            0 < self.Zp <= i64::MAX / 2,
            a.Zp == self.Zp,
            b.Zp == self.Zp,
            c.Zp == self.Zp,
            a.holders@ == b.holders@,
            c.holders@ == b.holders@,
            i64::MIN <= d_value * e_value <= i64::MAX,
            i64::MIN <= b.value * d_value <= i64::MAX,
            i64::MIN <= a.value * e_value <= i64::MAX,
            c.value <= i64::MAX - self.Zp,
        ensures
            r.value == beaver_value(
                a.value as int,
                b.value as int,
                c.value as int,
                d_value as int,
                e_value as int,
                self.Zp as int,
            ),
            r.holders@ == b.holders@,
            r.threshold == max_threshold(max_threshold(b.threshold, a.threshold), c.threshold),
            r.Zp == self.Zp,
    {
        let ghost p = self.Zp as int;
        proof {
            lemma_mod_f_pos(d_value * e_value, p);
            lemma_mod_f_pos(b.value * d_value, p);
            lemma_mod_f_pos(a.value * e_value, p);
        }
        let t1 = modF(d_value * e_value, self.Zp);
        let t2 = b.cmult(d_value);
        let t3 = a.cmult(e_value);
        proof {
            lemma_mod_f_pos(t2.value + t1, p);
        }
        let s1 = t2.cadd(t1);
        proof {
            lemma_mod_f_pos(s1.value + t3.value, p);
        }
        let s2 = s1.sadd(&t3);
        proof {
            lemma_mod_f_pos(s2.value + c.value, p);
        }
        s2.sadd(c)
    }
}

/// Adding a share and then subtracting it gives the first value back (as `sadd`
/// then `ssub` compute it, for the same field `p`).
pub proof fn law_sadd_ssub(x: int, y: int, p: int)
    requires
        p > 0,
    ensures
        mod_f(mod_f(x + y, p) - y, p) == mod_f(x, p),
{
    lemma_cong_mod_f(x + y, p);
    lemma_cong_refl(y, p);
    lemma_cong_add(mod_f(x + y, p), x + y, y, y, p);
    assert(x + y - y == x);
    lemma_cong_mod_f_eq(mod_f(x + y, p) - y, x, p);
}

/// Dividing by a public constant and then multiplying by it gives the value back,
/// modulo `p`, when the constant has an inverse (as `cdivfac` then `cmult` compute it).
pub proof fn law_cdivfac_cmult(x: int, c: int, p: int)
    requires
        p > 0,
        egcd(c, p).2 == 1,
    ensures
        mod_f(mod_f(x * egcd(c, p).0, p) * c, p) == mod_f(x, p),
{
    let i = egcd(c, p).0;
    lemma_egcd_inverse(c, p);
    lemma_cong_mod_f(x * i, p);
    lemma_cong_refl(c, p);
    lemma_cong_mul(mod_f(x * i, p), x * i, c, c, p);
    lemma_cong_refl(x, p);
    lemma_cong_mul(x, x, c * i, 1, p);
    assert(x * i * c == x * (c * i)) by (nonlinear_arith);
    assert(x * 1 == x);
    lemma_cong_trans(mod_f(x * i, p) * c, x * i * c, x, p);
    lemma_cong_mod_f_eq(mod_f(x * i, p) * c, x, p);
}

/// In a prime field, dividing by a constant that is not a multiple of the field undoes
/// multiplying by it and the other way round (as `cmult` and `cdivfac` compute them):
/// for a value `x` in `[0, p)`, both orders give `x` back.
pub proof fn law_cdivfac_in_prime_field(x: int, c: int, p: int)
    requires
        p > 1,
        crate::helper::is_prime_spec(p as nat),
        c % p != 0,
        0 <= x < p,
    ensures
        egcd(c, p).2 == 1,
        mod_f(mod_f(x * egcd(c, p).0, p) * c, p) == x,
        mod_f(mod_f(x * c, p) * egcd(c, p).0, p) == x,
{
    crate::lagrange::lemma_prime_inverse(c, p);
    law_cdivfac_cmult(x, c, p);
    let i = egcd(c, p).0;
    lemma_mod_f_pos(x, p);
    vstd::arithmetic::div_mod::lemma_small_mod(x as nat, p as nat);
    // (x * c mod p) * i ≡ x * (c * i) ≡ x
    lemma_cong_mod_f(x * c, p);
    lemma_cong_refl(i, p);
    lemma_cong_mul(mod_f(x * c, p), x * c, i, i, p);
    lemma_cong_refl(x, p);
    lemma_cong_mul(x, x, c * i, 1, p);
    assert(x * c * i == x * (c * i)) by (nonlinear_arith);
    assert(x * 1 == x);
    lemma_cong_trans(mod_f(x * c, p) * i, x * c * i, x, p);
    lemma_cong_mod_f_eq(mod_f(x * c, p) * i, x, p);
}

/// A Beaver multiplication yields the product: when the triple satisfies `c ≡ a * b`
/// and the opened values are `d ≡ x - a` and `e ≡ y - b`, the combined value is
/// congruent to `x * y`.
pub proof fn law_beaver_product(x: int, y: int, a: int, b: int, c: int, d: int, e: int, p: int)
    requires
        p > 0,
        congruent(c, a * b, p),
        congruent(d, x - a, p),
        congruent(e, y - b, p),
    ensures
        congruent(beaver_value(a, b, c, d, e, p), x * y, p),
{
    lemma_cong_refl(a, p);
    lemma_cong_refl(b, p);
    let m1 = mod_f(b * d, p);
    let m2 = mod_f(d * e, p);
    let m3 = mod_f(a * e, p);
    let s1 = mod_f(m1 + m2, p);
    let s2 = mod_f(s1 + m3, p);
    // m1 ≡ b * (x - a)
    lemma_cong_mul(b, b, d, x - a, p);
    lemma_cong_mod_f(b * d, p);
    lemma_cong_trans(m1, b * d, b * (x - a), p);
    // m2 ≡ (x - a) * (y - b)
    lemma_cong_mul(d, x - a, e, y - b, p);
    lemma_cong_mod_f(d * e, p);
    lemma_cong_trans(m2, d * e, (x - a) * (y - b), p);
    // m3 ≡ a * (y - b)
    lemma_cong_mul(a, a, e, y - b, p);
    lemma_cong_mod_f(a * e, p);
    lemma_cong_trans(m3, a * e, a * (y - b), p);
    // s1 ≡ m1 + m2
    lemma_cong_add(m1, b * (x - a), m2, (x - a) * (y - b), p);
    lemma_cong_mod_f(m1 + m2, p);
    lemma_cong_trans(s1, m1 + m2, b * (x - a) + (x - a) * (y - b), p);
    // s2 ≡ s1 + m3
    lemma_cong_add(s1, b * (x - a) + (x - a) * (y - b), m3, a * (y - b), p);
    lemma_cong_mod_f(s1 + m3, p);
    lemma_cong_trans(s2, s1 + m3, b * (x - a) + (x - a) * (y - b) + a * (y - b), p);
    // result ≡ s2 + c
    lemma_cong_add(s2, b * (x - a) + (x - a) * (y - b) + a * (y - b), c, a * b, p);
    lemma_cong_mod_f(s2 + c, p);
    lemma_cong_trans(
        beaver_value(a, b, c, d, e, p),
        s2 + c,
        b * (x - a) + (x - a) * (y - b) + a * (y - b) + a * b,
        p,
    );
    assert(b * (x - a) + (x - a) * (y - b) + a * (y - b) + a * b == x * y) by (nonlinear_arith);
}

} // verus!
