//! Shamir sharing: evaluating the sharing polynomial at each party's number,
//! and reconstructing a secret from opened shares by Lagrange interpolation at 0.
use vstd::prelude::*;
use vstd::arithmetic::power::pow;
use crate::helper::{
    congruent, egcd, egcd_ok, extended_gcd, lemma_cong_add, lemma_cong_mod_f, lemma_cong_mul,
    lemma_cong_refl, lemma_cong_trans, lemma_mod_f_pos, mod_f, mod_f_ok, modF, lemma_cong_small_eq,
};

verus! {

/// The state `(share, power)` after adding the terms `1..=j` of the polynomial at `x`,
/// each term and each power reduced with `mod_f`.
pub open spec fn share_step(poly: Seq<int>, x: int, p: int, j: nat) -> (int, int)
    decreases j,
{
    if j == 0 {
        (poly[0], x)
    } else {
        let prev = share_step(poly, x, p, (j - 1) as nat);
        let tmp = mod_f(poly[j as int] * prev.1, p);
        (mod_f(prev.0 + tmp, p), mod_f(prev.1 * x, p))
    }
}

/// The share of the party with number `x`: the polynomial evaluated at `x` modulo `p`.
pub open spec fn share_value(poly: Seq<int>, x: int, p: int) -> int {
    share_step(poly, x, p, (poly.len() - 1) as nat).0
}

/// No step of the evaluation up to term `j` overflows.
pub open spec fn share_fits(poly: Seq<int>, x: int, p: int, j: nat) -> bool
    decreases j,
{
    if j == 0 {
        true
    } else {
        let prev = share_step(poly, x, p, (j - 1) as nat);
        &&& share_fits(poly, x, p, (j - 1) as nat)
        &&& mod_f_ok(poly[j as int] * prev.1, p)
        &&& mod_f_ok(prev.0 + mod_f(poly[j as int] * prev.1, p), p)
        &&& mod_f_ok(prev.1 * x, p)
    }
}

/// The sum of the terms `poly[k] * x^k` for `k <= j`.
pub open spec fn poly_prefix(poly: Seq<int>, x: int, j: nat) -> int
    decreases j,
{
    if j == 0 {
        poly[0]
    } else {
        poly_prefix(poly, x, (j - 1) as nat) + poly[j as int] * pow(x, j)
    }
}

/// The polynomial with coefficients `poly` evaluated at `x`.
pub open spec fn poly_eval(poly: Seq<int>, x: int) -> int {
    poly_prefix(poly, x, (poly.len() - 1) as nat)
}

/// The sharing polynomial: the secret, then the random coefficients.
pub open spec fn sharing_poly(secret: i64, coefficients: Seq<i64>) -> Seq<int> {
    seq![secret as int] + coefficients.map_values(|c: i64| c as int)
}

/// Each step of the evaluation stays congruent to the polynomial.
proof fn lemma_share_step(poly: Seq<int>, x: int, p: int, j: nat)
    requires
        p > 0,
        j < poly.len(),
    ensures
        congruent(share_step(poly, x, p, j).0, poly_prefix(poly, x, j), p),
        congruent(share_step(poly, x, p, j).1, pow(x, j + 1), p),
    decreases j,
{
    vstd::arithmetic::power::lemma_pow1(x);
    if j == 0 {
        lemma_cong_refl(poly[0], p);
        lemma_cong_refl(x, p);
    } else {
        let jm = (j - 1) as nat;
        lemma_share_step(poly, x, p, jm);
        let prev = share_step(poly, x, p, jm);
        let c = poly[j as int];
        lemma_cong_refl(c, p);
        lemma_cong_refl(x, p);
        lemma_cong_mul(c, c, prev.1, pow(x, j), p);
        lemma_cong_mod_f(c * prev.1, p);
        lemma_cong_trans(mod_f(c * prev.1, p), c * prev.1, c * pow(x, j), p);
        lemma_cong_add(
            prev.0,
            poly_prefix(poly, x, jm),
            mod_f(c * prev.1, p),
            c * pow(x, j),
            p,
        );
        lemma_cong_mod_f(prev.0 + mod_f(c * prev.1, p), p);
        lemma_cong_trans(
            mod_f(prev.0 + mod_f(c * prev.1, p), p),
            prev.0 + mod_f(c * prev.1, p),
            poly_prefix(poly, x, j),
            p,
        );
        lemma_cong_mul(prev.1, pow(x, j), x, x, p);
        lemma_cong_mod_f(prev.1 * x, p);
        vstd::arithmetic::power::lemma_pow_adds(x, j, 1);
        lemma_cong_trans(mod_f(prev.1 * x, p), prev.1 * x, pow(x, j) * x, p);
    }
}

/// A share is congruent to the sharing polynomial evaluated at the party's number.
pub proof fn law_share_is_polynomial_value(poly: Seq<int>, x: int, p: int)
    requires
        p > 0,
        poly.len() >= 1,
    ensures
        congruent(share_value(poly, x, p), poly_eval(poly, x), p),
{
    lemma_share_step(poly, x, p, (poly.len() - 1) as nat);
}

/// With small enough values, no step of the evaluation overflows.
pub proof fn lemma_share_fits_small(poly: Seq<int>, x: int, p: int, j: nat)
    requires
        0 < p <= 3037000499,
        j < poly.len(),
        0 <= poly[0] <= i64::MAX - p,
        forall|k: int| 1 <= k < poly.len() ==> 0 <= #[trigger] poly[k] < p,
        -3037000499 <= x <= 3037000499,
    ensures
        share_fits(poly, x, p, j),
        0 <= share_step(poly, x, p, j).0 <= (if j == 0 { poly[0] } else { p }),
        -3037000499 <= share_step(poly, x, p, j).1 <= 3037000499,
        j > 0 ==> 0 <= share_step(poly, x, p, j).1,
    decreases j,
{
    if j > 0 {
        let jm = (j - 1) as nat;
        lemma_share_fits_small(poly, x, p, jm);
        let prev = share_step(poly, x, p, jm);
        let c = poly[j as int];
        assert(-(3037000499 * 3037000499) <= c * prev.1 <= 3037000499 * 3037000499) by (nonlinear_arith)
            requires
                0 <= c < p,
                p <= 3037000499,
                -3037000499 <= prev.1 <= 3037000499,
        ;
        assert(-(3037000499 * 3037000499) <= prev.1 * x <= 3037000499 * 3037000499) by (nonlinear_arith)
            requires
                -3037000499 <= x <= 3037000499,
                -3037000499 <= prev.1 <= 3037000499,
        ;
        lemma_mod_f_pos(c * prev.1, p);
        lemma_mod_f_pos(prev.0 + mod_f(c * prev.1, p), p);
        lemma_mod_f_pos(prev.1 * x, p);
    }
}

/// Computes the share of each party in `parties_list`: the polynomial whose constant
/// term is `secret` and whose other coefficients are `coefficients`, evaluated at the
/// party's number modulo `Zp`. The coefficients are the random values of the sharing
/// (there are `threshold - 1` of them).
pub fn jiff_compute_shares(
    secret: i64,
    parties_list: &Vec<i64>,
    threshold: u64,
    Zp: i64,
    coefficients: &Vec<i64>,
) -> (r: Vec<i64>)
    requires
        threshold >= 1,
        coefficients@.len() == threshold - 1,
        forall|i: int|
            0 <= i < parties_list@.len() ==> share_fits(
                sharing_poly(secret, coefficients@),
                #[trigger] parties_list@[i] as int,
                Zp as int,
                coefficients@.len(),
            ),
    ensures
        r@.len() == parties_list@.len(),
        forall|i: int|
            0 <= i < parties_list@.len() ==> #[trigger] r@[i] == share_value(
                sharing_poly(secret, coefficients@),
                parties_list@[i] as int,
                Zp as int,
            ),
{
    let ghost poly = sharing_poly(secret, coefficients@);
    let mut polynomial: Vec<i64> = Vec::new();
    polynomial.push(secret);
    let mut k: usize = 0;
    while k < coefficients.len()
        invariant
            k <= coefficients@.len(),
            polynomial@.len() == k + 1,
            forall|m: int| 0 <= m < polynomial@.len() ==> #[trigger] polynomial@[m] as int == poly[m],
            poly == sharing_poly(secret, coefficients@),
        decreases coefficients.len() - k,
    {
        polynomial.push(coefficients[k]);
        k = k + 1;
    }
    let mut shares: Vec<i64> = Vec::new();
    let mut i: usize = 0;
    while i < parties_list.len()
        invariant
            i <= parties_list@.len(),
            shares@.len() == i,
            polynomial@.len() == coefficients@.len() + 1,
            poly.len() == coefficients@.len() + 1,
            forall|m: int| 0 <= m < polynomial@.len() ==> #[trigger] polynomial@[m] as int == poly[m],
            poly == sharing_poly(secret, coefficients@),
            forall|m: int|
                0 <= m < parties_list@.len() ==> share_fits(
                    poly,
                    #[trigger] parties_list@[m] as int,
                    Zp as int,
                    coefficients@.len(),
                ),
            forall|m: int|
                0 <= m < i ==> #[trigger] shares@[m] == share_value(
                    poly,
                    parties_list@[m] as int,
                    Zp as int,
                ),
        decreases parties_list.len() - i,
    {
        let x = parties_list[i];
        let mut share = polynomial[0];
        let mut power = x;
        let mut j: usize = 1;
        while j < polynomial.len()
            invariant
                1 <= j <= polynomial@.len(),
                polynomial@.len() == coefficients@.len() + 1,
                poly.len() == polynomial@.len(),
                forall|m: int| 0 <= m < polynomial@.len() ==> #[trigger] polynomial@[m] as int == poly[m],
                share_fits(poly, x as int, Zp as int, coefficients@.len()),
                (share as int, power as int) == share_step(poly, x as int, Zp as int, (j - 1) as nat),
            decreases polynomial.len() - j,
        {
            proof {
                lemma_share_fits_prefix(poly, x as int, Zp as int, j as nat, coefficients@.len());
            }
            let tmp = modF(polynomial[j] * power, Zp);
            share = modF(share + tmp, Zp);
            power = modF(power * x, Zp);
            j = j + 1;
        }
        shares.push(share);
        i = i + 1;
    }
    shares
}

/// Fitting up to term `n` implies fitting up to any earlier term.
proof fn lemma_share_fits_prefix(poly: Seq<int>, x: int, p: int, j: nat, n: nat)
    requires
        j <= n,
        share_fits(poly, x, p, n),
    ensures
        share_fits(poly, x, p, j),
    decreases n - j,
{
    if j < n {
        lemma_share_fits_prefix(poly, x, p, j, (n - 1) as nat);
    }
}

/// A share received while opening: its value, the number of the party that sent it,
/// and its field.
pub struct OpenedShare {
    pub value: i64,
    pub sender_id: i64,
    pub Zp: i64,
}

/// The Lagrange coefficient at 0 of the party `pi`, after the factors of the first
/// `j` shares, computed modulo `p`.
pub open spec fn lagrange_in(senders: Seq<int>, pi: int, p: int, j: nat) -> int
    decreases j,
{
    if j == 0 {
        1
    } else {
        let c = lagrange_in(senders, pi, p, (j - 1) as nat);
        let pj = senders[j - 1];
        if pj != pi {
            mod_f(mod_f(c * (0 - pj), p) * egcd(pi - pj, p).0, p)
        } else {
            c
        }
    }
}

/// The senders of a list of opened shares.
pub open spec fn senders_of(shares: Seq<OpenedShare>) -> Seq<int> {
    shares.map_values(|s: OpenedShare| s.sender_id as int)
}

/// The table of coefficients, indexed by party number, after the first `n` shares.
pub open spec fn coeff_table(shares: Seq<OpenedShare>, n: nat) -> Seq<int>
    decreases n,
{
    if n == 0 {
        Seq::new(100, |i: int| 0)
    } else {
        let s = shares[n - 1];
        coeff_table(shares, (n - 1) as nat).update(
            s.sender_id as int,
            lagrange_in(senders_of(shares), s.sender_id as int, s.Zp as int, shares.len()),
        )
    }
}

/// The reconstruction sum over the first `n` shares, with the coefficients `table`.
pub open spec fn recons(shares: Seq<OpenedShare>, table: Seq<int>, n: nat) -> int
    decreases n,
{
    if n == 0 {
        0
    } else {
        let s = shares[n - 1];
        let acc = recons(shares, table, (n - 1) as nat);
        mod_f(acc + mod_f(s.value * table[s.sender_id as int], s.Zp as int), s.Zp as int)
    }
}

/// The secret that `jiff_lagrange` reconstructs from the opened shares.
pub open spec fn lagrange_value(shares: Seq<OpenedShare>) -> int {
    recons(shares, coeff_table(shares, shares.len()), shares.len())
}

/// The bounds under which the reconstruction neither overflows nor leaves its table.
pub open spec fn opened_shares_ok(shares: Seq<OpenedShare>) -> bool {
    forall|i: int|
        0 <= i < shares.len() ==> {
            &&& 0 <= #[trigger] shares[i].sender_id < 100
            &&& 0 < shares[i].Zp <= 3037000499
            &&& -3037000499 <= shares[i].value <= 3037000499
        }
}

proof fn lemma_lagrange_in_bounds(senders: Seq<int>, pi: int, p: int, j: nat)
    requires
        0 < p <= 3037000499,
        0 <= pi < 100,
        j <= senders.len(),
        forall|k: int| 0 <= k < senders.len() ==> 0 <= #[trigger] senders[k] < 100,
    ensures
        0 <= lagrange_in(senders, pi, p, j) <= p,
    decreases j,
{
    if j > 0 {
        lemma_lagrange_in_bounds(senders, pi, p, (j - 1) as nat);
        let c = lagrange_in(senders, pi, p, (j - 1) as nat);
        let pj = senders[j - 1];
        if pj != pi {
            lemma_mod_f_pos(c * (0 - pj), p);
            lemma_mod_f_pos(mod_f(c * (0 - pj), p) * egcd(pi - pj, p).0, p);
        }
    }
}

proof fn lemma_coeff_table_bounds(shares: Seq<OpenedShare>, n: nat)
    requires
        opened_shares_ok(shares),
        n <= shares.len(),
    ensures
        coeff_table(shares, n).len() == 100,
        forall|k: int| 0 <= k < 100 ==> 0 <= #[trigger] coeff_table(shares, n)[k] <= 3037000499,
    decreases n,
{
    if n > 0 {
        lemma_coeff_table_bounds(shares, (n - 1) as nat);
        let s = shares[n - 1];
        assert(0 <= s.sender_id < 100 && 0 < s.Zp <= 3037000499);
        let senders = senders_of(shares);
        assert forall|k: int| 0 <= k < senders.len() implies 0 <= #[trigger] senders[k] < 100 by {
            assert(0 <= shares[k].sender_id < 100);
        }
        lemma_lagrange_in_bounds(senders, s.sender_id as int, s.Zp as int, shares.len());
    }
}

/// Reconstructs the secret from the opened shares by Lagrange interpolation at 0.
pub fn jiff_lagrange(shares: &Vec<OpenedShare>) -> (r: i64)
    requires
        opened_shares_ok(shares@),
    ensures
        r == lagrange_value(shares@),
{
    let ghost sh = shares@;
    let ghost senders = senders_of(sh);
    proof {
        assert forall|k: int| 0 <= k < senders.len() implies 0 <= #[trigger] senders[k] < 100 by {
            assert(0 <= sh[k].sender_id < 100);
        }
    }
    let mut lagrange_coeff: Vec<i64> = Vec::new();
    let mut z: usize = 0;
    while z < 100
        invariant
            z <= 100,
            lagrange_coeff@.len() == z,
            forall|k: int| 0 <= k < z ==> #[trigger] lagrange_coeff@[k] == 0,
        decreases 100 - z,
    {
        lagrange_coeff.push(0);
        z = z + 1;
    }
    proof {
        assert(lagrange_coeff@.map_values(|v: i64| v as int) =~= coeff_table(sh, 0));
    }
    // Compute the Lagrange coefficients at 0.
    let mut o: usize = 0;
    while o < shares.len()
        invariant
            sh == shares@,
            senders == senders_of(sh),
            opened_shares_ok(sh),
            forall|k: int| 0 <= k < senders.len() ==> 0 <= #[trigger] senders[k] < 100,
            o <= sh.len(),
            lagrange_coeff@.len() == 100,
            lagrange_coeff@.map_values(|v: i64| v as int) == coeff_table(sh, o as nat),
        decreases shares.len() - o,
    {
        let pi = shares[o].sender_id;
        let zp = shares[o].Zp;
        assert(0 <= pi < 100 && 0 < zp <= 3037000499);
        let mut coeff: i64 = 1;
        let mut n: usize = 0;
        while n < shares.len()
            invariant
                sh == shares@,
                senders == senders_of(sh),
                forall|k: int| 0 <= k < senders.len() ==> 0 <= #[trigger] senders[k] < 100,
                n <= sh.len(),
                0 <= pi < 100,
                0 < zp <= 3037000499,
                coeff == lagrange_in(senders, pi as int, zp as int, n as nat),
            decreases shares.len() - n,
        {
            proof {
                lemma_lagrange_in_bounds(senders, pi as int, zp as int, n as nat);
            }
            let pj = shares[n].sender_id;
            assert(senders[n as int] == pj);
            if pj != pi {
                let inv = extended_gcd(pi - pj, zp).0;
                proof {
                    crate::helper::lemma_egcd_bounds((pi - pj) as int, zp as int);
                    assert(-(100 * 3037000499) <= coeff * (0 - pj) <= 0) by (nonlinear_arith)
                        requires
                            0 <= coeff <= zp,
                            zp <= 3037000499,
                            0 <= pj < 100,
                    ;
                    lemma_mod_f_pos(coeff * (0 - pj), zp as int);
                    let m = mod_f(coeff * (0 - pj), zp as int);
                    assert(-(3037000499 * 3037000499) <= m * inv <= 3037000499 * 3037000499)
                        by (nonlinear_arith)
                        requires
                            0 <= m <= zp,
                            -zp <= inv <= zp,
                            zp <= 3037000499,
                    ;
                    lemma_mod_f_pos(m * inv, zp as int);
                }
                let c1 = modF(coeff * (0 - pj), zp) * inv;
                coeff = modF(c1, zp);
            }
            n = n + 1;
        }
        lagrange_coeff.set(pi as usize, coeff);
        o = o + 1;
        proof {
            assert(lagrange_coeff@.map_values(|v: i64| v as int) =~= coeff_table(sh, o as nat));
        }
    }
    proof {
        lemma_coeff_table_bounds(sh, sh.len());
    }
    let ghost table = coeff_table(sh, sh.len());
    // Reconstruct the secret.
    let mut recons_secret: i64 = 0;
    let mut i: usize = 0;
    while i < shares.len()
        invariant
            sh == shares@,
            opened_shares_ok(sh),
            i <= sh.len(),
            lagrange_coeff@.len() == 100,
            lagrange_coeff@.map_values(|v: i64| v as int) == table,
            table.len() == 100,
            forall|k: int| 0 <= k < 100 ==> 0 <= #[trigger] table[k] <= 3037000499,
            recons_secret == recons(sh, table, i as nat),
            0 <= recons_secret <= 3037000499,
        decreases shares.len() - i,
    {
        let party = shares[i].sender_id;
        let value = shares[i].value;
        let zp = shares[i].Zp;
        assert(0 <= party < 100 && 0 < zp <= 3037000499 && -3037000499 <= value <= 3037000499);
        let c = lagrange_coeff[party as usize];
        assert(c == table[party as int]);
        proof {
            assert(-(3037000499 * 3037000499) <= value * c <= 3037000499 * 3037000499)
                by (nonlinear_arith)
                requires
                    0 <= c <= 3037000499,
                    -3037000499 <= value <= 3037000499,
            ;
            lemma_mod_f_pos(value * c, zp as int);
        }
        let tmp = modF(value * c, zp);
        proof {
            lemma_mod_f_pos(recons_secret + tmp, zp as int);
        }
        recons_secret = modF(recons_secret + tmp, zp);
        i = i + 1;
    }
    recons_secret
}

/// With one field `p`, the value an opening reconstructs lies in `[0, p)`.
pub proof fn lemma_lagrange_value_range(shares: Seq<OpenedShare>, p: int)
    requires
        p > 0,
        shares.len() >= 1,
        all_in_field(shares, p),
    ensures
        0 <= lagrange_value(shares) < p,
{
    let n = shares.len();
    let table = coeff_table(shares, n);
    let s = shares[n - 1];
    assert(s.Zp == p);
    let acc = recons(shares, table, (n - 1) as nat);
    let t = s.value * table[s.sender_id as int];
    lemma_mod_f_pos(acc + mod_f(t, p), p);
}

/// The weighted sum `sum value_i * table[sender_i]` over the first `n` shares.
pub open spec fn weighted_sum(shares: Seq<OpenedShare>, table: Seq<int>, n: nat) -> int
    decreases n,
{
    if n == 0 {
        0
    } else {
        let s = shares[n - 1];
        weighted_sum(shares, table, (n - 1) as nat) + s.value * table[s.sender_id as int]
    }
}

/// All shares of the list lie in the field `p`.
pub open spec fn all_in_field(shares: Seq<OpenedShare>, p: int) -> bool {
    forall|i: int| 0 <= i < shares.len() ==> #[trigger] shares[i].Zp == p
}

/// With a single field, the reconstruction is congruent to the weighted sum.
pub(crate) proof fn lemma_recons_weighted(shares: Seq<OpenedShare>, table: Seq<int>, p: int, n: nat)
    requires
        p > 0,
        n <= shares.len(),
        all_in_field(shares, p),
    ensures
        congruent(recons(shares, table, n), weighted_sum(shares, table, n), p),
    decreases n,
{
    if n == 0 {
        lemma_cong_refl(0, p);
    } else {
        let nm = (n - 1) as nat;
        lemma_recons_weighted(shares, table, p, nm);
        let s = shares[n - 1];
        assert(s.Zp == p);
        let t = s.value * table[s.sender_id as int];
        let acc = recons(shares, table, nm);
        lemma_cong_mod_f(t, p);
        lemma_cong_add(acc, weighted_sum(shares, table, nm), mod_f(t, p), t, p);
        lemma_cong_mod_f(acc + mod_f(t, p), p);
        lemma_cong_trans(
            mod_f(acc + mod_f(t, p), p),
            acc + mod_f(t, p),
            weighted_sum(shares, table, n),
            p,
        );
    }
}

/// The coefficient table depends only on the senders and the fields of the shares.
proof fn lemma_coeff_table_same(u: Seq<OpenedShare>, v: Seq<OpenedShare>, n: nat)
    requires
        u.len() == v.len(),
        n <= u.len(),
        forall|i: int|
            0 <= i < u.len() ==> #[trigger] u[i].sender_id == v[i].sender_id && u[i].Zp == v[i].Zp,
    ensures
        coeff_table(u, n) == coeff_table(v, n),
    decreases n,
{
    assert(senders_of(u) =~= senders_of(v));
    if n > 0 {
        lemma_coeff_table_same(u, v, (n - 1) as nat);
    }
}

/// Weighted sums are linear in the values.
proof fn lemma_weighted_linear(
    u: Seq<OpenedShare>,
    v: Seq<OpenedShare>,
    w: Seq<OpenedShare>,
    table: Seq<int>,
    p: int,
    n: nat,
)
    requires
        p > 0,
        n <= u.len(),
        u.len() == v.len(),
        u.len() == w.len(),
        forall|i: int|
            0 <= i < u.len() ==> #[trigger] u[i].sender_id == v[i].sender_id && u[i].sender_id
                == w[i].sender_id && congruent(u[i].value as int, v[i].value + w[i].value, p),
    ensures
        congruent(
            weighted_sum(u, table, n),
            weighted_sum(v, table, n) + weighted_sum(w, table, n),
            p,
        ),
    decreases n,
{
    if n == 0 {
        lemma_cong_refl(0, p);
    } else {
        let nm = (n - 1) as nat;
        lemma_weighted_linear(u, v, w, table, p, nm);
        let k = n - 1;
        assert(u[k].sender_id == v[k].sender_id && u[k].sender_id == w[k].sender_id);
        let c = table[u[k].sender_id as int];
        lemma_cong_refl(c, p);
        lemma_cong_mul(u[k].value as int, v[k].value + w[k].value, c, c, p);
        assert((v[k].value + w[k].value) * c == v[k].value * c + w[k].value * c) by (nonlinear_arith);
        lemma_cong_add(
            weighted_sum(u, table, nm),
            weighted_sum(v, table, nm) + weighted_sum(w, table, nm),
            u[k].value * c,
            v[k].value * c + w[k].value * c,
            p,
        );
    }
}

/// Opening is linear: when every opened share of `u` is congruent to the sum of the
/// matching shares of `v` and `w` (same senders, one field `p`), the value that `u`
/// reconstructs is congruent to the sum of the values that `v` and `w` reconstruct.
/// So opening the sum of two shared secrets gives the sum of the secrets.
pub proof fn law_open_linear(u: Seq<OpenedShare>, v: Seq<OpenedShare>, w: Seq<OpenedShare>, p: int)
    requires
        p > 0,
        u.len() == v.len(),
        u.len() == w.len(),
        all_in_field(u, p),
        all_in_field(v, p),
        all_in_field(w, p),
        forall|i: int|
            0 <= i < u.len() ==> #[trigger] u[i].sender_id == v[i].sender_id && u[i].sender_id
                == w[i].sender_id && congruent(u[i].value as int, v[i].value + w[i].value, p),
    ensures
        congruent(lagrange_value(u), lagrange_value(v) + lagrange_value(w), p),
{
    let n = u.len();
    assert forall|i: int| 0 <= i < u.len() implies #[trigger] u[i].sender_id == v[i].sender_id
        && u[i].Zp == v[i].Zp by {
        assert(u[i].Zp == p && v[i].Zp == p);
    }
    lemma_coeff_table_same(u, v, n);
    assert forall|i: int| 0 <= i < u.len() implies #[trigger] u[i].sender_id == w[i].sender_id
        && u[i].Zp == w[i].Zp by {
        assert(u[i].Zp == p && w[i].Zp == p);
    }
    lemma_coeff_table_same(u, w, n);
    let table = coeff_table(u, n);
    lemma_recons_weighted(u, table, p, n);
    lemma_recons_weighted(v, table, p, n);
    lemma_recons_weighted(w, table, p, n);
    lemma_weighted_linear(u, v, w, table, p, n);
    lemma_cong_add(
        recons(v, table, n),
        weighted_sum(v, table, n),
        recons(w, table, n),
        weighted_sum(w, table, n),
        p,
    );
    crate::helper::lemma_cong_sym(
        recons(v, table, n) + recons(w, table, n),
        weighted_sum(v, table, n) + weighted_sum(w, table, n),
        p,
    );
    lemma_cong_trans(
        recons(u, table, n),
        weighted_sum(u, table, n),
        weighted_sum(v, table, n) + weighted_sum(w, table, n),
        p,
    );
    lemma_cong_trans(
        recons(u, table, n),
        weighted_sum(v, table, n) + weighted_sum(w, table, n),
        recons(v, table, n) + recons(w, table, n),
        p,
    );
}

/// Refreshing keeps the secret: when every share of `u` is congruent to the matching
/// share of `v` plus the matching share of a sharing `z` of zero (same senders, one field
/// `p`), `u` opens to what `v` opens to.
pub proof fn law_refresh_opens_same(u: Seq<OpenedShare>, v: Seq<OpenedShare>, z: Seq<OpenedShare>, p: int)
    requires
        p > 0,
        u.len() == v.len(),
        u.len() == z.len(),
        all_in_field(u, p),
        all_in_field(v, p),
        all_in_field(z, p),
        forall|i: int|
            0 <= i < u.len() ==> #[trigger] u[i].sender_id == v[i].sender_id && u[i].sender_id
                == z[i].sender_id && congruent(u[i].value as int, v[i].value + z[i].value, p),
        congruent(lagrange_value(z), 0, p),
    ensures
        congruent(lagrange_value(u), lagrange_value(v), p),
        u.len() >= 1 ==> lagrange_value(u) == lagrange_value(v),
{
    law_open_linear(u, v, z, p);
    lemma_cong_refl(lagrange_value(v), p);
    lemma_cong_add(lagrange_value(v), lagrange_value(v), lagrange_value(z), 0, p);
    lemma_cong_trans(lagrange_value(u), lagrange_value(v) + lagrange_value(z), lagrange_value(v) + 0, p);
    if u.len() >= 1 {
        lemma_lagrange_value_range(u, p);
        lemma_lagrange_value_range(v, p);
        lemma_cong_small_eq(lagrange_value(u), lagrange_value(v), p);
        vstd::arithmetic::div_mod::lemma_small_mod(lagrange_value(v) as nat, p as nat);
    }
}

/// Opening the sum of three shared secrets gives the sum of the three openings: when
/// every share of `u` is congruent to the sum of the matching shares of `a`, `b` and `c`
/// (same senders, one field `p`, which fits an `i64`).
pub proof fn law_open_sum3(
    u: Seq<OpenedShare>,
    a: Seq<OpenedShare>,
    b: Seq<OpenedShare>,
    c: Seq<OpenedShare>,
    p: int,
)
    requires
        0 < p <= i64::MAX,
        u.len() == a.len(),
        u.len() == b.len(),
        u.len() == c.len(),
        all_in_field(u, p),
        all_in_field(a, p),
        all_in_field(b, p),
        all_in_field(c, p),
        forall|i: int|
            0 <= i < u.len() ==> #[trigger] u[i].sender_id == a[i].sender_id && u[i].sender_id
                == b[i].sender_id && u[i].sender_id == c[i].sender_id && congruent(
                u[i].value as int,
                a[i].value + b[i].value + c[i].value,
                p,
            ),
    ensures
        congruent(lagrange_value(u), lagrange_value(a) + lagrange_value(b) + lagrange_value(c), p),
        u.len() >= 1 ==> lagrange_value(u) == (lagrange_value(a) + lagrange_value(b) + lagrange_value(c))
            % p,
{
    let n = u.len();
    let t = Seq::new(
        n,
        |i: int|
            OpenedShare {
                value: mod_f(a[i].value + b[i].value, p) as i64,
                sender_id: a[i].sender_id,
                Zp: p as i64,
            },
    );
    assert forall|i: int| 0 <= i < n implies #[trigger] t[i].sender_id == a[i].sender_id
        && t[i].sender_id == b[i].sender_id && congruent(t[i].value as int, a[i].value + b[i].value, p)
        && t[i].Zp == p by {
        lemma_mod_f_pos(a[i].value + b[i].value, p);
        lemma_cong_mod_f(a[i].value + b[i].value, p);
        assert(u[i].sender_id == a[i].sender_id);
    }
    assert(all_in_field(t, p));
    law_open_linear(t, a, b, p);
    assert forall|i: int| 0 <= i < n implies #[trigger] u[i].sender_id == t[i].sender_id
        && u[i].sender_id == c[i].sender_id && congruent(u[i].value as int, t[i].value + c[i].value, p) by {
        assert(u[i].sender_id == a[i].sender_id);
        lemma_mod_f_pos(a[i].value + b[i].value, p);
        lemma_cong_mod_f(a[i].value + b[i].value, p);
        lemma_cong_refl(c[i].value as int, p);
        lemma_cong_add(t[i].value as int, a[i].value + b[i].value, c[i].value as int, c[i].value as int, p);
        crate::helper::lemma_cong_sym(t[i].value + c[i].value, a[i].value + b[i].value + c[i].value, p);
        lemma_cong_trans(u[i].value as int, a[i].value + b[i].value + c[i].value, t[i].value + c[i].value, p);
    }
    law_open_linear(u, t, c, p);
    lemma_cong_refl(lagrange_value(c), p);
    lemma_cong_add(lagrange_value(t), lagrange_value(a) + lagrange_value(b), lagrange_value(c), lagrange_value(c), p);
    lemma_cong_trans(
        lagrange_value(u),
        lagrange_value(t) + lagrange_value(c),
        lagrange_value(a) + lagrange_value(b) + lagrange_value(c),
        p,
    );
    if u.len() >= 1 {
        lemma_lagrange_value_range(u, p);
        lemma_cong_small_eq(lagrange_value(u), lagrange_value(a) + lagrange_value(b) + lagrange_value(c), p);
    }
}

} // verus!
