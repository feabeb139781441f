//! Why opening works: Lagrange interpolation at 0 over a prime field gives back the
//! constant term of any polynomial of degree below the number of points, so the
//! reconstruction of shares of a secret gives the secret.
use vstd::prelude::*;
use vstd::arithmetic::div_mod::*;
use vstd::arithmetic::mul::*;
use crate::helper::{
    congruent, egcd, is_prime_spec, lemma_cong_add, lemma_cong_mul, lemma_cong_refl, lemma_cong_sym,
    lemma_cong_trans, lemma_egcd_divides, lemma_egcd_inverse, lemma_cong_mod_f, mod_f,
};
use crate::shamir::{
    all_in_field, coeff_table, lagrange_in, lagrange_value, lemma_recons_weighted, opened_shares_ok,
    poly_eval, poly_prefix, recons, senders_of, weighted_sum, OpenedShare, share_value,
    law_share_is_polynomial_value,
};
use vstd::arithmetic::power::{lemma_pow1, lemma_pow_adds, pow};
use crate::secret_share::beaver_value;

verus! {

/// The sum of a sequence.
pub open spec fn ssum(s: Seq<int>) -> int
    decreases s.len(),
{
    if s.len() == 0 {
        0
    } else {
        ssum(s.drop_last()) + s.last()
    }
}

/// Removing an element takes it out of the sum.
proof fn lemma_ssum_remove(s: Seq<int>, k: int)
    requires
        0 <= k < s.len(),
    ensures
        ssum(s) == ssum(s.remove(k)) + s[k],
    decreases s.len(),
{
    if k == s.len() - 1 {
        assert(s.remove(k) =~= s.drop_last());
    } else {
        lemma_ssum_remove(s.drop_last(), k);
        assert(s.remove(k).drop_last() =~= s.drop_last().remove(k));
        assert(s.remove(k).last() == s.last());
    }
}

/// Sums of termwise congruent sequences are congruent.
proof fn lemma_ssum_cong(s: Seq<int>, t: Seq<int>, p: int)
    requires
        p > 0,
        s.len() == t.len(),
        forall|i: int| 0 <= i < s.len() ==> congruent(#[trigger] s[i], t[i], p),
    ensures
        congruent(ssum(s), ssum(t), p),
    decreases s.len(),
{
    if s.len() == 0 {
        lemma_cong_refl(0, p);
    } else {
        lemma_ssum_cong(s.drop_last(), t.drop_last(), p);
        assert(congruent(s.last(), t.last(), p)) by {
            assert(s.last() == s[s.len() - 1]);
        }
        lemma_cong_add(ssum(s.drop_last()), ssum(t.drop_last()), s.last(), t.last(), p);
    }
}

/// The sum of termwise sums is the sum of the sums; a factor comes out of a sum.
proof fn lemma_ssum_linear(s: Seq<int>, t: Seq<int>, u: Seq<int>, a: int, b: int)
    requires
        s.len() == t.len(),
        s.len() == u.len(),
        forall|i: int| 0 <= i < s.len() ==> #[trigger] u[i] == a * s[i] + b * t[i],
    ensures
        ssum(u) == a * ssum(s) + b * ssum(t),
    decreases s.len(),
{
    if s.len() > 0 {
        lemma_ssum_linear(s.drop_last(), t.drop_last(), u.drop_last(), a, b);
        assert(u.last() == a * s.last() + b * t.last()) by {
            assert(u.last() == u[u.len() - 1]);
        }
        assert(a * ssum(s.drop_last()) + a * s.last() == a * (ssum(s.drop_last()) + s.last())) by (nonlinear_arith);
        assert(b * ssum(t.drop_last()) + b * t.last() == b * (ssum(t.drop_last()) + t.last())) by (nonlinear_arith);
    }
}

/// The sum of zeros is zero.
proof fn lemma_ssum_zero(s: Seq<int>)
    requires
        forall|i: int| 0 <= i < s.len() ==> #[trigger] s[i] == 0,
    ensures
        ssum(s) == 0,
    decreases s.len(),
{
    if s.len() > 0 {
        lemma_ssum_zero(s.drop_last());
        assert(s.last() == s[s.len() - 1]);
    }
}

/// A positive divisor of a positive number is at most that number.
proof fn lemma_divisor_le(d: int, n: int)
    requires
        d > 0,
        n > 0,
        n % d == 0,
    ensures
        d <= n,
{
    lemma_fundamental_div_mod(n, d);
    let q = n / d;
    assert(n == d * q);
    if q <= 0 {
        assert(d * q <= 0) by (nonlinear_arith)
            requires
                d > 0,
                q <= 0,
        ;
    } else {
        assert(d * q >= d) by (nonlinear_arith)
            requires
                d > 0,
                q >= 1,
        ;
    }
}

/// Modulo a prime, a number that is not a multiple of it has an inverse.
pub proof fn lemma_prime_inverse(a: int, p: int)
    requires
        p > 1,
        is_prime_spec(p as nat),
        a % p != 0,
    ensures
        egcd(a, p).2 == 1,
        congruent(a * egcd(a, p).0, 1, p),
{
    let d = egcd(a, p).2;
    lemma_egcd_divides(a, p);
    lemma_egcd_inverse(a, p);
    lemma_divisor_le(d, p);
    if d != 1 {
        if d < p {
            let pn = p as nat;
            let dn = d as nat;
            assert(2 <= dn < pn);
            assert(pn % dn != 0);
            assert(false);
        } else {
            assert(d == p);
        }
    }
}

/// Modulo a prime, a factor that is not a multiple of it can be cancelled.
pub proof fn lemma_prime_cancel(a: int, b: int, p: int)
    requires
        p > 1,
        is_prime_spec(p as nat),
        a % p != 0,
        congruent(a * b, 0, p),
    ensures
        congruent(b, 0, p),
{
    let x = egcd(a, p).0;
    lemma_prime_inverse(a, p);
    lemma_cong_refl(x, p);
    lemma_cong_mul(a * b, 0, x, x, p);
    assert((a * b) * x == (a * x) * b) by (nonlinear_arith);
    lemma_cong_refl(b, p);
    lemma_cong_mul(a * x, 1, b, b, p);
    lemma_cong_sym((a * x) * b, b, p);
    lemma_cong_trans(b, (a * x) * b, 0, p);
}

/// The factor that the point `xk` contributes to the Lagrange coefficient at 0 of the
/// point `xi`: `(0 - xk) / (xi - xk)`, the division taken as a product with the inverse
/// modulo `p`.
pub open spec fn lfactor(xi: int, xk: int, p: int) -> int {
    (0 - xk) * egcd(xi - xk, p).0
}

/// The product of the factors of all points of `xs` other than `xi`.
pub open spec fn lprod(xs: Seq<int>, xi: int, p: int) -> int
    decreases xs.len(),
{
    if xs.len() == 0 {
        1
    } else if xs.last() != xi {
        lprod(xs.drop_last(), xi, p) * lfactor(xi, xs.last(), p)
    } else {
        lprod(xs.drop_last(), xi, p)
    }
}

/// The Lagrange coefficient at 0 of the `i`-th point of `xs`.
pub open spec fn lcoef(xs: Seq<int>, i: int, p: int) -> int {
    lprod(xs, xs[i], p)
}

/// The terms `vs[i] * lcoef(xs, i)` of the interpolation at 0.
pub open spec fn lterms(xs: Seq<int>, vs: Seq<int>, p: int) -> Seq<int> {
    Seq::new(xs.len(), |i: int| vs[i] * lcoef(xs, i, p))
}

/// The Lagrange interpolation at 0 of the values `vs` at the points `xs`.
pub open spec fn lcomb(xs: Seq<int>, vs: Seq<int>, p: int) -> int {
    ssum(lterms(xs, vs, p))
}

/// The sum of the Lagrange coefficients at 0 of the points `xs`.
pub open spec fn lsum(xs: Seq<int>, p: int) -> int {
    ssum(Seq::new(xs.len(), |i: int| lcoef(xs, i, p)))
}

/// The points are pairwise distinct modulo `p`.
pub open spec fn distinct_mod(xs: Seq<int>, p: int) -> bool {
    forall|i: int, j: int|
        0 <= i < xs.len() && 0 <= j < xs.len() && i != j ==> (#[trigger] xs[i] - #[trigger] xs[j])
            % p != 0
}

/// Taking one point out of `xs` takes its factor out of the product.
proof fn lemma_lprod_remove(xs: Seq<int>, xi: int, p: int, k: int)
    requires
        0 <= k < xs.len(),
    ensures
        xs[k] != xi ==> lprod(xs, xi, p) == lprod(xs.remove(k), xi, p) * lfactor(xi, xs[k], p),
        xs[k] == xi ==> lprod(xs, xi, p) == lprod(xs.remove(k), xi, p),
    decreases xs.len(),
{
    if k == xs.len() - 1 {
        assert(xs.remove(k) =~= xs.drop_last());
    } else {
        let d = xs.drop_last();
        lemma_lprod_remove(d, xi, p, k);
        assert(xs.remove(k).drop_last() =~= d.remove(k));
        assert(xs.remove(k).last() == xs.last());
        assert(xs.remove(k).len() > 0);
        let r = lprod(d.remove(k), xi, p);
        let fk = lfactor(xi, xs[k], p);
        let fl = lfactor(xi, xs.last(), p);
        assert(d[k] == xs[k]);
        assert(r * fk * fl == r * fl * fk) by (nonlinear_arith);
    }
}

/// A polynomial in Horner form: `g[0] + x * (g[1] + x * (...))`.
pub open spec fn heval(g: Seq<int>, x: int) -> int
    decreases g.len(),
{
    if g.len() == 0 {
        0
    } else {
        g[0] + x * heval(g.drop_first(), x)
    }
}

/// The quotient of `g(x) - g(a)` by `x - a`.
pub open spec fn quot(g: Seq<int>, a: int) -> Seq<int>
    decreases g.len(),
{
    if g.len() <= 1 {
        Seq::empty()
    } else {
        seq![heval(g.drop_first(), a)] + quot(g.drop_first(), a)
    }
}

/// `g(x) - g(a) == (x - a) * quot(g, a)(x)`, and the quotient is one shorter.
proof fn lemma_quot(g: Seq<int>, a: int, x: int)
    ensures
        heval(g, x) - heval(g, a) == (x - a) * heval(quot(g, a), x),
        g.len() >= 1 ==> quot(g, a).len() == g.len() - 1,
        g.len() == 0 ==> quot(g, a).len() == 0,
    decreases g.len(),
{
    if g.len() <= 1 {
        assert(heval(quot(g, a), x) == 0);
        assert((x - a) * 0 == 0);
        if g.len() == 1 {
            assert(g.drop_first().len() == 0);
            assert(x * 0 == 0 && a * 0 == 0);
            assert(heval(g.drop_first(), x) == 0);
            assert(heval(g.drop_first(), a) == 0);
            assert(heval(g, x) == g[0] + x * 0);
            assert(heval(g, a) == g[0] + a * 0);
        }
    } else {
        let h = g.drop_first();
        lemma_quot(h, a, x);
        let qh = quot(h, a);
        let q = quot(g, a);
        assert(q.drop_first() =~= qh);
        assert(q[0] == heval(h, a));
        let ha = heval(h, a);
        let hx = heval(h, x);
        let qx = heval(qh, x);
        assert(heval(q, x) == ha + x * qx);
        assert(x * hx - a * ha == (x - a) * (ha + x * qx)) by (nonlinear_arith)
            requires
                hx - ha == (x - a) * qx,
        ;
    }
}

/// Points that are distinct modulo `p` stay so when one of them is taken out.
proof fn lemma_distinct_remove(xs: Seq<int>, p: int, k: int)
    requires
        distinct_mod(xs, p),
        0 <= k < xs.len(),
    ensures
        distinct_mod(xs.remove(k), p),
{
    let xr = xs.remove(k);
    assert forall|i: int, j: int|
        0 <= i < xr.len() && 0 <= j < xr.len() && i != j implies (#[trigger] xr[i]
        - #[trigger] xr[j]) % p != 0 by {
        let ii = if i < k {
            i
        } else {
            i + 1
        };
        let jj = if j < k {
            j
        } else {
            j + 1
        };
        assert(xr[i] == xs[ii]);
        assert(xr[j] == xs[jj]);
    }
}

/// The interpolation at 0 splits at the point `xs[k]`: with `q` the quotient of `g` by
/// `x - xs[k]`, and the interpolation of `q` over the other points giving `q(0)`, the
/// interpolation of `g` gives `g(0)` plus `g(xs[k])` times the excess of the sum of the
/// coefficients over 1.
proof fn lemma_pivot(xs: Seq<int>, g: Seq<int>, vs: Seq<int>, vq: Seq<int>, p: int, k: int)
    requires
        p > 1,
        is_prime_spec(p as nat),
        distinct_mod(xs, p),
        0 <= k < xs.len(),
        vs.len() == xs.len(),
        forall|i: int| 0 <= i < xs.len() ==> #[trigger] vs[i] == heval(g, xs[i]),
        vq.len() == xs.len() - 1,
        forall|j: int|
            0 <= j < xs.len() - 1 ==> #[trigger] vq[j] == heval(quot(g, xs[k]), xs.remove(k)[j]),
        congruent(lcomb(xs.remove(k), vq, p), heval(quot(g, xs[k]), 0), p),
    ensures
        congruent(lcomb(xs, vs, p), heval(g, 0) + heval(g, xs[k]) * (lsum(xs, p) - 1), p),
{
    let n = xs.len();
    let a = xs[k];
    let xr = xs.remove(k);
    let q = quot(g, a);
    let ga = heval(g, a);
    let ls = Seq::new(n, |i: int| lcoef(xs, i, p));
    let ws = Seq::new(n, |i: int| (xs[i] - a) * heval(q, xs[i]) * lcoef(xs, i, p));
    let ts = lterms(xs, vs, p);
    assert forall|i: int| 0 <= i < n implies #[trigger] ts[i] == ga * ls[i] + 1 * ws[i] by {
        lemma_quot(g, a, xs[i]);
        let d = xs[i] - a;
        let h = heval(q, xs[i]);
        let c = lcoef(xs, i, p);
        assert(vs[i] == ga + d * h);
        assert((ga + d * h) * c == ga * c + 1 * (d * h * c)) by (nonlinear_arith);
    }
    lemma_ssum_linear(ls, ws, ts, ga, 1);
    assert(ws[k] == 0) by {
        assert(xs[k] - a == 0);
        assert(0 * heval(q, a) * lcoef(xs, k, p) == 0) by (nonlinear_arith);
    }
    lemma_ssum_remove(ws, k);
    let wr = ws.remove(k);
    let tq = lterms(xr, vq, p);
    let sq = Seq::new((n - 1) as nat, |j: int| (0 - a) * tq[j]);
    assert forall|j: int| 0 <= j < n - 1 implies congruent(#[trigger] wr[j], sq[j], p) by {
        let jj = if j < k {
            j
        } else {
            j + 1
        };
        assert(wr[j] == ws[jj]);
        assert(xr[j] == xs[jj]);
        let xj = xs[jj];
        assert((xs[jj] - xs[k]) % p != 0);
        lemma_lprod_remove(xs, xj, p, k);
        let pr = lprod(xr, xj, p);
        let inv = egcd(xj - a, p).0;
        let h = heval(q, xj);
        assert(lcoef(xs, jj, p) == pr * ((0 - a) * inv));
        assert(lcoef(xr, j, p) == pr);
        assert(tq[j] == h * pr);
        lemma_prime_inverse(xj - a, p);
        assert((xj - a) * h * (pr * ((0 - a) * inv)) == ((xj - a) * inv) * ((0 - a) * (h * pr)))
            by (nonlinear_arith);
        lemma_cong_refl((0 - a) * (h * pr), p);
        lemma_cong_mul((xj - a) * inv, 1, (0 - a) * (h * pr), (0 - a) * (h * pr), p);
        assert(1 * ((0 - a) * (h * pr)) == (0 - a) * (h * pr));
    }
    lemma_ssum_cong(wr, sq, p);
    assert forall|j: int| 0 <= j < sq.len() implies #[trigger] sq[j] == (0 - a) * tq[j] + 0 * tq[j]
        by {
        assert(0 * tq[j] == 0) by (nonlinear_arith);
    }
    lemma_ssum_linear(tq, tq, sq, 0 - a, 0);
    assert(0 * ssum(tq) == 0) by (nonlinear_arith);
    // The interpolation of the quotient over the other points gives q(0).
    lemma_cong_refl(0 - a, p);
    lemma_cong_mul(0 - a, 0 - a, ssum(tq), heval(q, 0), p);
    lemma_quot(g, a, 0);
    lemma_cong_trans(ssum(wr), ssum(sq), (0 - a) * heval(q, 0), p);
    lemma_cong_refl(ga * ssum(ls), p);
    lemma_cong_add(ga * ssum(ls), ga * ssum(ls), ssum(wr), (0 - a) * heval(q, 0), p);
    assert(ga * ssum(ls) + (0 - a) * heval(q, 0) == heval(g, 0) + ga * (ssum(ls) - 1))
        by (nonlinear_arith)
        requires
            heval(g, 0) - ga == (0 - a) * heval(q, 0),
    ;
    assert(ssum(ts) == ga * ssum(ls) + ssum(wr));
}

/// The identity polynomial `x`.
proof fn lemma_heval_id(x: int)
    ensures
        heval(seq![0int, 1int], x) == x,
{
    let gid = seq![0int, 1int];
    let g1 = gid.drop_first();
    assert(g1 =~= seq![1int]);
    assert(g1.drop_first().len() == 0);
    assert(heval(g1.drop_first(), x) == 0);
    assert(x * 0 == 0) by (nonlinear_arith);
    assert(heval(g1, x) == 1);
    assert(x * 1 == x) by (nonlinear_arith);
}

/// Lagrange interpolation at 0: over points that are distinct modulo a prime `p`, the
/// interpolation of the values of a polynomial with at most as many coefficients as
/// there are points gives its value at 0, modulo `p`.
pub proof fn lemma_interpolate(xs: Seq<int>, g: Seq<int>, vs: Seq<int>, p: int)
    requires
        p > 1,
        is_prime_spec(p as nat),
        distinct_mod(xs, p),
        g.len() <= xs.len(),
        vs.len() == xs.len(),
        forall|i: int| 0 <= i < xs.len() ==> #[trigger] vs[i] == heval(g, xs[i]),
    ensures
        congruent(lcomb(xs, vs, p), heval(g, 0), p),
    decreases xs.len(),
{
    let n = xs.len();
    let ts = lterms(xs, vs, p);
    if g.len() == 0 {
        assert forall|i: int| 0 <= i < n implies #[trigger] ts[i] == 0 by {
            assert(vs[i] == 0);
            assert(0 * lcoef(xs, i, p) == 0) by (nonlinear_arith);
        }
        lemma_ssum_zero(ts);
        lemma_cong_refl(0, p);
    } else if n == 1 {
        assert(g.drop_first().len() == 0);
        assert forall|x: int| #[trigger] heval(g, x) == g[0] by {
            assert(heval(g.drop_first(), x) == 0);
            assert(x * 0 == 0) by (nonlinear_arith);
        }
        assert(xs.drop_last().len() == 0);
        assert(xs.last() == xs[0]);
        assert(lprod(xs.drop_last(), xs[0], p) == 1);
        assert(lcoef(xs, 0, p) == 1);
        assert(ts[0] == vs[0] * 1);
        assert(ts.drop_last().len() == 0);
        assert(ssum(ts.drop_last()) == 0);
        assert(ts.last() == ts[0]);
        assert(ssum(ts) == ts[0]);
        assert(vs[0] == heval(g, xs[0]));
        assert(heval(g, 0) == g[0]);
        lemma_cong_refl(g[0], p);
    } else {
        let gid = seq![0int, 1int];
        let vid = Seq::new(n, |i: int| xs[i]);
        assert forall|i: int| 0 <= i < n implies #[trigger] vid[i] == heval(gid, xs[i]) by {
            lemma_heval_id(xs[i]);
        }
        lemma_heval_id(0);
        let ls = lsum(xs, p);
        // Pivot at the last point and at the one before: both give a multiple of `ls - 1`.
        let a = xs[n - 1];
        let b = xs[n - 2];
        lemma_distinct_remove(xs, p, n - 1);
        lemma_distinct_remove(xs, p, n - 2);
        let xa = xs.remove(n - 1);
        let xb = xs.remove(n - 2);
        let qa = quot(gid, a);
        let qb = quot(gid, b);
        lemma_quot(gid, a, 0);
        lemma_quot(gid, b, 0);
        let va = Seq::new((n - 1) as nat, |j: int| heval(qa, xa[j]));
        let vb = Seq::new((n - 1) as nat, |j: int| heval(qb, xb[j]));
        lemma_interpolate(xa, qa, va, p);
        lemma_interpolate(xb, qb, vb, p);
        lemma_pivot(xs, gid, vid, va, p, n - 1);
        lemma_pivot(xs, gid, vid, vb, p, n - 2);
        lemma_heval_id(a);
        lemma_heval_id(b);
        let c = lcomb(xs, vid, p);
        assert(congruent(c, 0 + a * (ls - 1), p));
        assert(congruent(c, 0 + b * (ls - 1), p));
        lemma_cong_sym(c, 0 + a * (ls - 1), p);
        lemma_cong_trans(0 + a * (ls - 1), c, 0 + b * (ls - 1), p);
        assert((a - b) * (ls - 1) - 0 == (0 + a * (ls - 1)) - (0 + b * (ls - 1)))
            by (nonlinear_arith);
        assert((xs[n - 1] - xs[n - 2]) % p != 0);
        lemma_prime_cancel(a - b, ls - 1, p);
        // Pivot at the last point for `g`.
        let q = quot(g, a);
        lemma_quot(g, a, 0);
        let vq = Seq::new((n - 1) as nat, |j: int| heval(q, xa[j]));
        lemma_interpolate(xa, q, vq, p);
        lemma_pivot(xs, g, vs, vq, p, n - 1);
        let ga = heval(g, a);
        let g0 = heval(g, 0);
        lemma_cong_refl(ga, p);
        lemma_cong_mul(ga, ga, ls - 1, 0, p);
        assert(ga * 0 == 0) by (nonlinear_arith);
        lemma_cong_refl(g0, p);
        lemma_cong_add(g0, g0, ga * (ls - 1), 0, p);
        lemma_cong_trans(lcomb(xs, vs, p), g0 + ga * (ls - 1), g0 + 0, p);
    }
}

/// A polynomial's sum of powers, shifted by one coefficient: `g[0] + x * h(x)`.
proof fn lemma_prefix_shift(g: Seq<int>, x: int, j: nat)
    requires
        1 <= j < g.len(),
    ensures
        poly_prefix(g, x, j) == g[0] + x * poly_prefix(g.drop_first(), x, (j - 1) as nat),
    decreases j,
{
    let h = g.drop_first();
    lemma_pow1(x);
    if j == 1 {
        assert(poly_prefix(h, x, 0) == g[1]);
        assert(poly_prefix(g, x, 0) == g[0]);
        assert(pow(x, 1) == x);
        assert(poly_prefix(g, x, 1) == g[0] + g[1] * x);
        assert(g[1] * x == x * g[1]) by (nonlinear_arith);
    } else {
        lemma_prefix_shift(g, x, (j - 1) as nat);
        lemma_pow_adds(x, (j - 1) as nat, 1);
        assert(pow(x, j) == pow(x, (j - 1) as nat) * pow(x, 1));
        let pj = pow(x, (j - 1) as nat);
        let r = poly_prefix(h, x, (j - 2) as nat);
        assert(h[j - 1] == g[j as int]);
        assert(poly_prefix(h, x, (j - 1) as nat) == r + h[j - 1] * pj);
        assert(g[j as int] * (pj * x) + x * r == x * (r + g[j as int] * pj)) by (nonlinear_arith);
    }
}

/// Horner's form and the sum of powers agree.
pub proof fn lemma_heval_poly_eval(g: Seq<int>, x: int)
    requires
        g.len() >= 1,
    ensures
        heval(g, x) == poly_eval(g, x),
    decreases g.len(),
{
    let h = g.drop_first();
    if g.len() == 1 {
        assert(heval(h, x) == 0);
        assert(x * 0 == 0) by (nonlinear_arith);
    } else {
        lemma_heval_poly_eval(h, x);
        lemma_prefix_shift(g, x, (g.len() - 1) as nat);
    }
}

/// The coefficient that `jiff_lagrange` computes is congruent to the product of the factors.
proof fn lemma_lagrange_in(senders: Seq<int>, pi: int, p: int, j: nat)
    requires
        p > 0,
        j <= senders.len(),
    ensures
        congruent(lagrange_in(senders, pi, p, j), lprod(senders.take(j as int), pi, p), p),
    decreases j,
{
    let t = senders.take(j as int);
    if j == 0 {
        lemma_cong_refl(1, p);
    } else {
        let jm = (j - 1) as nat;
        lemma_lagrange_in(senders, pi, p, jm);
        assert(t.drop_last() =~= senders.take(jm as int));
        assert(t.last() == senders[j - 1]);
        let c = lagrange_in(senders, pi, p, jm);
        let l = lprod(senders.take(jm as int), pi, p);
        let pj = senders[j - 1];
        if pj != pi {
            let inv = egcd(pi - pj, p).0;
            lemma_cong_refl(0 - pj, p);
            lemma_cong_mul(c, l, 0 - pj, 0 - pj, p);
            lemma_cong_mod_f(c * (0 - pj), p);
            lemma_cong_trans(mod_f(c * (0 - pj), p), c * (0 - pj), l * (0 - pj), p);
            lemma_cong_refl(inv, p);
            lemma_cong_mul(mod_f(c * (0 - pj), p), l * (0 - pj), inv, inv, p);
            lemma_cong_mod_f(mod_f(c * (0 - pj), p) * inv, p);
            lemma_cong_trans(
                mod_f(mod_f(c * (0 - pj), p) * inv, p),
                mod_f(c * (0 - pj), p) * inv,
                l * (0 - pj) * inv,
                p,
            );
            assert(l * (0 - pj) * inv == l * lfactor(pi, pj, p)) by (nonlinear_arith)
                requires
                    lfactor(pi, pj, p) == (0 - pj) * inv,
            ;
        }
    }
}

/// With one field, the table holds at each sender the coefficient of that sender.
proof fn lemma_coeff_table_at(shares: Seq<OpenedShare>, p: int, n: nat)
    requires
        n <= shares.len(),
        all_in_field(shares, p),
        opened_shares_ok(shares),
    ensures
        coeff_table(shares, n).len() == 100,
        forall|i: int|
            0 <= i < n ==> coeff_table(shares, n)[#[trigger] shares[i].sender_id as int]
                == lagrange_in(senders_of(shares), shares[i].sender_id as int, p, shares.len()),
    decreases n,
{
    if n > 0 {
        let nm = (n - 1) as nat;
        lemma_coeff_table_at(shares, p, nm);
        let s = shares[n - 1];
        assert(s.Zp == p);
        assert(0 <= s.sender_id < 100);
        assert forall|i: int| 0 <= i < n implies coeff_table(shares, n)[#[trigger] shares[i].sender_id
            as int] == lagrange_in(senders_of(shares), shares[i].sender_id as int, p, shares.len()) by {
            assert(0 <= shares[i].sender_id < 100);
        }
    }
}

/// The weighted sum over all shares is a sum of terms.
proof fn lemma_weighted_ssum(shares: Seq<OpenedShare>, table: Seq<int>, n: nat)
    requires
        n <= shares.len(),
    ensures
        weighted_sum(shares, table, n) == ssum(
            Seq::new(n, |i: int| shares[i].value * table[shares[i].sender_id as int]),
        ),
    decreases n,
{
    if n > 0 {
        lemma_weighted_ssum(shares, table, (n - 1) as nat);
        let f = Seq::new(n, |i: int| shares[i].value * table[shares[i].sender_id as int]);
        assert(f.drop_last() =~= Seq::new(
            (n - 1) as nat,
            |i: int| shares[i].value * table[shares[i].sender_id as int],
        ));
    }
}

/// Termwise congruent values interpolate to congruent results.
proof fn lemma_lcomb_cong(xs: Seq<int>, us: Seq<int>, vs: Seq<int>, p: int)
    requires
        p > 0,
        us.len() == xs.len(),
        vs.len() == xs.len(),
        forall|i: int| 0 <= i < xs.len() ==> congruent(#[trigger] us[i], vs[i], p),
    ensures
        congruent(lcomb(xs, us, p), lcomb(xs, vs, p), p),
{
    let a = lterms(xs, us, p);
    let b = lterms(xs, vs, p);
    assert forall|i: int| 0 <= i < a.len() implies congruent(#[trigger] a[i], b[i], p) by {
        lemma_cong_refl(lcoef(xs, i, p), p);
        lemma_cong_mul(us[i], vs[i], lcoef(xs, i, p), lcoef(xs, i, p), p);
    }
    lemma_ssum_cong(a, b, p);
}

/// Opening reconstructs the secret: when the opened shares, all in one prime field `p`,
/// come from senders whose numbers are distinct modulo `p`, and each share is congruent
/// to one polynomial evaluated at its sender's number, with at most as many coefficients
/// as there are shares, the value that the opening reconstructs is congruent to the
/// polynomial's constant term, the secret; and equal to it when the secret lies in
/// `[0, p)`.
pub proof fn law_open_reconstructs(shares: Seq<OpenedShare>, poly: Seq<int>, p: int)
    requires
        p > 1,
        is_prime_spec(p as nat),
        opened_shares_ok(shares),
        all_in_field(shares, p),
        1 <= poly.len() <= shares.len(),
        distinct_mod(senders_of(shares), p),
        forall|i: int|
            0 <= i < shares.len() ==> congruent(
                #[trigger] shares[i].value as int,
                poly_eval(poly, shares[i].sender_id as int),
                p,
            ),
    ensures
        congruent(lagrange_value(shares), poly[0], p),
        0 <= poly[0] < p ==> lagrange_value(shares) == poly[0],
{
    let n = shares.len();
    let xs = senders_of(shares);
    let table = coeff_table(shares, n);
    let us = shares.map_values(|s: OpenedShare| s.value as int);
    let vs = Seq::new(n, |i: int| heval(poly, xs[i]));
    // The reconstruction is the weighted sum, modulo p.
    lemma_recons_weighted(shares, table, p, n);
    lemma_weighted_ssum(shares, table, n);
    lemma_coeff_table_at(shares, p, n);
    let ws = Seq::new(n, |i: int| shares[i].value * table[shares[i].sender_id as int]);
    let ts = lterms(xs, us, p);
    assert(xs.take(n as int) =~= xs);
    assert forall|i: int| 0 <= i < n implies congruent(#[trigger] ws[i], ts[i], p) by {
        lemma_lagrange_in(xs, xs[i], p, n);
        assert(xs[i] == shares[i].sender_id);
        let c = table[shares[i].sender_id as int];
        assert(c == lagrange_in(xs, xs[i], p, n));
        lemma_cong_refl(shares[i].value as int, p);
        lemma_cong_mul(shares[i].value as int, us[i], c, lcoef(xs, i, p), p);
    }
    lemma_ssum_cong(ws, ts, p);
    // The shares are the values of the polynomial.
    assert forall|i: int| 0 <= i < n implies congruent(#[trigger] us[i], vs[i], p) by {
        lemma_heval_poly_eval(poly, xs[i]);
        assert(us[i] == shares[i].value);
    }
    lemma_lcomb_cong(xs, us, vs, p);
    lemma_interpolate(xs, poly, vs, p);
    lemma_heval_poly_eval(poly, 0);
    assert(heval(poly, 0) == poly[0]) by {
        assert(0 * heval(poly.drop_first(), 0) == 0) by (nonlinear_arith);
    }
    let r = lagrange_value(shares);
    lemma_cong_trans(r, weighted_sum(shares, table, n), lcomb(xs, us, p), p);
    lemma_cong_trans(r, lcomb(xs, us, p), lcomb(xs, vs, p), p);
    lemma_cong_trans(r, lcomb(xs, vs, p), poly[0], p);
    if 0 <= poly[0] < p {
        // The reconstruction lies in [0, p).
        let s = shares[n - 1];
        assert(s.Zp == p);
        let acc = recons(shares, table, (n - 1) as nat);
        if n > 1 {
            let s2 = shares[n - 2];
            assert(s2.Zp == p);
            let acc2 = recons(shares, table, (n - 2) as nat);
            crate::helper::lemma_mod_f_pos(
                acc2 + mod_f(s2.value * table[s2.sender_id as int], p),
                p,
            );
        }
        assert(acc >= 0);
        let t = s.value * table[s.sender_id as int];
        crate::helper::lemma_mod_f_pos(t, p);
        crate::helper::lemma_mod_f_pos(acc + mod_f(t, p), p);
        assert(r == mod_f(acc + mod_f(t, p), p));
        assert(0 <= r < p);
        let d = r - poly[0];
        assert(d % p == 0);
        if d > 0 {
            lemma_small_mod(d as nat, p as nat);
        } else if d < 0 {
            lemma_small_mod((d + p) as nat, p as nat);
            lemma_mod_add_multiples_vanish(d, p);
        }
    }
}

/// Sharing then opening gives the secret back: when each opened share is the share that
/// the sharing polynomial `poly` (the secret, then the random coefficients) gives its
/// sender in the prime field `p`, the senders are distinct modulo `p` and at least as
/// many as the coefficients, the opening reconstructs the secret modulo `p`, and the
/// secret itself when it lies in `[0, p)`.
pub proof fn law_share_then_open(shares: Seq<OpenedShare>, poly: Seq<int>, p: int)
    requires
        p > 1,
        is_prime_spec(p as nat),
        opened_shares_ok(shares),
        all_in_field(shares, p),
        1 <= poly.len() <= shares.len(),
        distinct_mod(senders_of(shares), p),
        forall|i: int|
            0 <= i < shares.len() ==> #[trigger] shares[i].value == share_value(
                poly,
                shares[i].sender_id as int,
                p,
            ),
    ensures
        congruent(lagrange_value(shares), poly[0], p),
        0 <= poly[0] < p ==> lagrange_value(shares) == poly[0],
{
    assert forall|i: int| 0 <= i < shares.len() implies congruent(
        #[trigger] shares[i].value as int,
        poly_eval(poly, shares[i].sender_id as int),
        p,
    ) by {
        law_share_is_polynomial_value(poly, shares[i].sender_id as int, p);
    }
    law_open_reconstructs(shares, poly, p);
}

/// The values of a list of opened shares.
pub open spec fn values_of(shares: Seq<OpenedShare>) -> Seq<int> {
    shares.map_values(|s: OpenedShare| s.value as int)
}

/// With one field, the opening is congruent to the interpolation at 0 of the values.
proof fn lemma_open_is_lcomb(shares: Seq<OpenedShare>, p: int)
    requires
        p > 0,
        opened_shares_ok(shares),
        all_in_field(shares, p),
    ensures
        congruent(lagrange_value(shares), lcomb(senders_of(shares), values_of(shares), p), p),
{
    let n = shares.len();
    let xs = senders_of(shares);
    let table = coeff_table(shares, n);
    let us = values_of(shares);
    lemma_recons_weighted(shares, table, p, n);
    lemma_weighted_ssum(shares, table, n);
    lemma_coeff_table_at(shares, p, n);
    let ws = Seq::new(n, |i: int| shares[i].value * table[shares[i].sender_id as int]);
    let ts = lterms(xs, us, p);
    assert(xs.take(n as int) =~= xs);
    assert forall|i: int| 0 <= i < n implies congruent(#[trigger] ws[i], ts[i], p) by {
        lemma_lagrange_in(xs, xs[i], p, n);
        assert(xs[i] == shares[i].sender_id);
        let c = table[shares[i].sender_id as int];
        assert(c == lagrange_in(xs, xs[i], p, n));
        lemma_cong_refl(shares[i].value as int, p);
        lemma_cong_mul(shares[i].value as int, us[i], c, lcoef(xs, i, p), p);
    }
    lemma_ssum_cong(ws, ts, p);
    lemma_cong_trans(lagrange_value(shares), weighted_sum(shares, table, n), lcomb(xs, us, p), p);
}

/// Over distinct points, the Lagrange coefficients at 0 add up to 1.
proof fn lemma_lsum_one(xs: Seq<int>, p: int)
    requires
        p > 1,
        is_prime_spec(p as nat),
        distinct_mod(xs, p),
        xs.len() >= 1,
    ensures
        congruent(lsum(xs, p), 1, p),
{
    let g = seq![1int];
    let ones = Seq::new(xs.len(), |i: int| 1int);
    assert forall|i: int| 0 <= i < xs.len() implies #[trigger] ones[i] == heval(g, xs[i]) by {
        assert(g.drop_first().len() == 0);
        assert(heval(g.drop_first(), xs[i]) == 0);
        assert(xs[i] * 0 == 0) by (nonlinear_arith);
    }
    lemma_interpolate(xs, g, ones, p);
    assert(heval(g.drop_first(), 0) == 0);
    assert(heval(g, 0) == 1);
    assert forall|i: int| 0 <= i < xs.len() implies #[trigger] lterms(xs, ones, p)[i] == Seq::new(
        xs.len(),
        |i: int| lcoef(xs, i, p),
    )[i] by {
        assert(1 * lcoef(xs, i, p) == lcoef(xs, i, p));
    }
    assert(lterms(xs, ones, p) =~= Seq::new(xs.len(), |i: int| lcoef(xs, i, p)));
}

/// A Beaver value is congruent to `b * d + d * e + a * e + c`.
proof fn lemma_beaver_value_cong(a: int, b: int, c: int, d: int, e: int, p: int)
    requires
        p > 0,
    ensures
        congruent(beaver_value(a, b, c, d, e, p), b * d + d * e + a * e + c, p),
{
    let m1 = mod_f(b * d, p);
    let m2 = mod_f(d * e, p);
    let m3 = mod_f(a * e, p);
    let s1 = mod_f(m1 + m2, p);
    let s2 = mod_f(s1 + m3, p);
    lemma_cong_mod_f(b * d, p);
    lemma_cong_mod_f(d * e, p);
    lemma_cong_mod_f(a * e, p);
    lemma_cong_add(m1, b * d, m2, d * e, p);
    lemma_cong_mod_f(m1 + m2, p);
    lemma_cong_trans(s1, m1 + m2, b * d + d * e, p);
    lemma_cong_add(s1, b * d + d * e, m3, a * e, p);
    lemma_cong_mod_f(s1 + m3, p);
    lemma_cong_trans(s2, s1 + m3, b * d + d * e + a * e, p);
    lemma_cong_refl(c, p);
    lemma_cong_add(s2, b * d + d * e + a * e, c, c, p);
    lemma_cong_mod_f(s2 + c, p);
    lemma_cong_trans(beaver_value(a, b, c, d, e, p), s2 + c, b * d + d * e + a * e + c, p);
}

/// Beaver multiplication opens to the product: when the holders' shares of the triple
/// `a`, `b`, `c` open to `A`, `B` and a value congruent to `A * B`, the opened masks are
/// `d ≡ X - A` and `e ≡ Y - B` for secrets `X` and `Y`, and each holder combines its
/// triple shares with `d` and `e` as `smult_combine` does, the combined shares open to a
/// value congruent to `X * Y` (one prime field, senders distinct modulo it).
pub proof fn law_beaver_opens_product(
    a: Seq<OpenedShare>,
    b: Seq<OpenedShare>,
    c: Seq<OpenedShare>,
    z: Seq<OpenedShare>,
    x: int,
    y: int,
    d: int,
    e: int,
    p: int,
)
    requires
        p > 1,
        is_prime_spec(p as nat),
        a.len() >= 1,
        a.len() == b.len(),
        a.len() == c.len(),
        a.len() == z.len(),
        opened_shares_ok(a),
        opened_shares_ok(b),
        opened_shares_ok(c),
        opened_shares_ok(z),
        all_in_field(a, p),
        all_in_field(b, p),
        all_in_field(c, p),
        all_in_field(z, p),
        distinct_mod(senders_of(a), p),
        senders_of(b) == senders_of(a),
        senders_of(c) == senders_of(a),
        senders_of(z) == senders_of(a),
        congruent(lagrange_value(c), lagrange_value(a) * lagrange_value(b), p),
        congruent(d, x - lagrange_value(a), p),
        congruent(e, y - lagrange_value(b), p),
        forall|i: int|
            0 <= i < z.len() ==> #[trigger] z[i].value == beaver_value(
                a[i].value as int,
                b[i].value as int,
                c[i].value as int,
                d,
                e,
                p,
            ),
    ensures
        congruent(lagrange_value(z), x * y, p),
        lagrange_value(z) == (x * y) % p,
{
    let n = a.len();
    let xs = senders_of(a);
    lemma_open_is_lcomb(a, p);
    lemma_open_is_lcomb(b, p);
    lemma_open_is_lcomb(c, p);
    lemma_open_is_lcomb(z, p);
    let va = values_of(a);
    let vb = values_of(b);
    let vc = values_of(c);
    let vz = values_of(z);
    let w = Seq::new(n, |i: int| vb[i] * d + d * e + va[i] * e + vc[i]);
    assert forall|i: int| 0 <= i < n implies congruent(#[trigger] vz[i], w[i], p) by {
        lemma_beaver_value_cong(va[i], vb[i], vc[i], d, e, p);
        assert(vz[i] == z[i].value);
    }
    lemma_lcomb_cong(xs, vz, w, p);
    // Split the interpolation of w into its four parts.
    let l = Seq::new(n, |i: int| lcoef(xs, i, p));
    let q1 = lterms(xs, vb, p);
    let q2 = lterms(xs, va, p);
    let q3 = lterms(xs, vc, p);
    let r1 = Seq::new(n, |i: int| d * q1[i] + e * q2[i]);
    let r2 = Seq::new(n, |i: int| 1 * q3[i] + (d * e) * l[i]);
    let tw = lterms(xs, w, p);
    assert forall|i: int| 0 <= i < n implies #[trigger] tw[i] == 1 * r1[i] + 1 * r2[i] by {
        let li = lcoef(xs, i, p);
        assert((vb[i] * d + d * e + va[i] * e + vc[i]) * li == 1 * (d * (vb[i] * li) + e * (va[i] * li))
            + 1 * (1 * (vc[i] * li) + (d * e) * li)) by (nonlinear_arith);
    }
    assert forall|i: int| 0 <= i < n implies #[trigger] r1[i] == d * q1[i] + e * q2[i] by {}
    assert forall|i: int| 0 <= i < n implies #[trigger] r2[i] == 1 * q3[i] + (d * e) * l[i] by {}
    lemma_ssum_linear(q1, q2, r1, d, e);
    lemma_ssum_linear(q3, l, r2, 1, d * e);
    lemma_ssum_linear(r1, r2, tw, 1, 1);
    lemma_lsum_one(xs, p);
    // Replace each part by the opening it stands for.
    let la = lagrange_value(a);
    let lb = lagrange_value(b);
    let lc = lagrange_value(c);
    assert(xs == senders_of(b) && xs == senders_of(c));
    crate::helper::lemma_cong_sym(lagrange_value(b), ssum(q1), p);
    crate::helper::lemma_cong_sym(la, ssum(q2), p);
    crate::helper::lemma_cong_sym(lc, ssum(q3), p);
    lemma_cong_refl(d, p);
    lemma_cong_refl(e, p);
    lemma_cong_refl(d * e, p);
    lemma_cong_mul(d, d, ssum(q1), lb, p);
    lemma_cong_mul(e, e, ssum(q2), la, p);
    lemma_cong_mul(d * e, d * e, ssum(l), 1, p);
    lemma_cong_add(d * ssum(q1), d * lb, e * ssum(q2), e * la, p);
    lemma_cong_add(ssum(q3), lc, (d * e) * ssum(l), (d * e) * 1, p);
    assert(ssum(tw) == (d * ssum(q1) + e * ssum(q2)) + (ssum(q3) + (d * e) * ssum(l))) by (nonlinear_arith)
        requires
            ssum(tw) == 1 * ssum(r1) + 1 * ssum(r2),
            ssum(r1) == d * ssum(q1) + e * ssum(q2),
            ssum(r2) == 1 * ssum(q3) + (d * e) * ssum(l),
    ;
    lemma_cong_add(
        d * ssum(q1) + e * ssum(q2),
        d * lb + e * la,
        ssum(q3) + (d * e) * ssum(l),
        lc + (d * e) * 1,
        p,
    );
    // Now the algebra: d * B + e * A + C + d * e with d ≡ X - A, e ≡ Y - B, C ≡ A * B.
    lemma_cong_refl(lb, p);
    lemma_cong_refl(la, p);
    lemma_cong_mul(d, x - la, lb, lb, p);
    lemma_cong_mul(e, y - lb, la, la, p);
    lemma_cong_mul(d, x - la, e, y - lb, p);
    lemma_cong_add(d * lb, (x - la) * lb, e * la, (y - lb) * la, p);
    assert((d * e) * 1 == d * e) by (nonlinear_arith);
    lemma_cong_add(lc, la * lb, d * e, (x - la) * (y - lb), p);
    lemma_cong_add(
        d * lb + e * la,
        (x - la) * lb + (y - lb) * la,
        lc + d * e,
        la * lb + (x - la) * (y - lb),
        p,
    );
    assert((x - la) * lb + (y - lb) * la + (la * lb + (x - la) * (y - lb)) == x * y) by (nonlinear_arith);
    let sw = ssum(tw);
    lemma_cong_trans(sw, (d * lb + e * la) + (lc + (d * e) * 1), x * y, p);
    lemma_cong_trans(lcomb(xs, vz, p), lcomb(xs, w, p), x * y, p);
    lemma_cong_trans(lagrange_value(z), lcomb(xs, vz, p), x * y, p);
    crate::shamir::lemma_lagrange_value_range(z, p);
    crate::helper::lemma_cong_small_eq(lagrange_value(z), x * y, p);
}

/// Three parties share their inputs, add the three shares they hold and open the sum:
/// when `a`, `b` and `c` are opened shares of the sharing polynomials `pa`, `pb`, `pc`
/// (whose constant terms are the inputs), and each share of `u` is congruent to the sum
/// of the matching shares, `u` opens to the sum of the inputs modulo `p`.
pub proof fn law_shared_sum_opens(
    u: Seq<OpenedShare>,
    a: Seq<OpenedShare>,
    b: Seq<OpenedShare>,
    c: Seq<OpenedShare>,
    pa: Seq<int>,
    pb: Seq<int>,
    pc: Seq<int>,
    p: int,
)
    requires
        1 < p <= i64::MAX,
        is_prime_spec(p as nat),
        u.len() == a.len(),
        u.len() == b.len(),
        u.len() == c.len(),
        all_in_field(u, p),
        opened_shares_ok(a),
        opened_shares_ok(b),
        opened_shares_ok(c),
        all_in_field(a, p),
        all_in_field(b, p),
        all_in_field(c, p),
        distinct_mod(senders_of(a), p),
        senders_of(b) == senders_of(a),
        senders_of(c) == senders_of(a),
        1 <= pa.len() <= a.len(),
        1 <= pb.len() <= a.len(),
        1 <= pc.len() <= a.len(),
        forall|i: int|
            0 <= i < a.len() ==> {
                &&& #[trigger] a[i].value == share_value(pa, a[i].sender_id as int, p)
                &&& b[i].value == share_value(pb, a[i].sender_id as int, p)
                &&& c[i].value == share_value(pc, a[i].sender_id as int, p)
                &&& u[i].sender_id == a[i].sender_id
                &&& congruent(u[i].value as int, a[i].value + b[i].value + c[i].value, p)
            },
    ensures
        lagrange_value(u) == (pa[0] + pb[0] + pc[0]) % p,
{
    assert forall|i: int| 0 <= i < b.len() implies #[trigger] b[i].value == share_value(
        pb,
        b[i].sender_id as int,
        p,
    ) by {
        assert(a[i].value == share_value(pa, a[i].sender_id as int, p));
        assert(senders_of(b)[i] == senders_of(a)[i]);
        assert(senders_of(b)[i] == b[i].sender_id as int);
        assert(senders_of(a)[i] == a[i].sender_id as int);
    }
    assert forall|i: int| 0 <= i < c.len() implies #[trigger] c[i].value == share_value(
        pc,
        c[i].sender_id as int,
        p,
    ) by {
        assert(a[i].value == share_value(pa, a[i].sender_id as int, p));
        assert(senders_of(c)[i] == senders_of(a)[i]);
        assert(senders_of(c)[i] == c[i].sender_id as int);
        assert(senders_of(a)[i] == a[i].sender_id as int);
    }
    law_share_then_open(a, pa, p);
    law_share_then_open(b, pb, p);
    law_share_then_open(c, pc, p);
    assert forall|i: int|
        0 <= i < u.len() implies #[trigger] u[i].sender_id == a[i].sender_id && u[i].sender_id
            == b[i].sender_id && u[i].sender_id == c[i].sender_id && congruent(
            u[i].value as int,
            a[i].value + b[i].value + c[i].value,
            p,
        ) by {
        assert(a[i].value == share_value(pa, a[i].sender_id as int, p));
        assert(senders_of(b)[i] == senders_of(a)[i]);
        assert(senders_of(c)[i] == senders_of(a)[i]);
        assert(senders_of(b)[i] == b[i].sender_id as int);
        assert(senders_of(c)[i] == c[i].sender_id as int);
        assert(senders_of(a)[i] == a[i].sender_id as int);
    }
    crate::shamir::law_open_sum3(u, a, b, c, p);
    let la = lagrange_value(a);
    let lb = lagrange_value(b);
    let lc = lagrange_value(c);
    lemma_cong_add(la, pa[0], lb, pb[0], p);
    lemma_cong_add(la + lb, pa[0] + pb[0], lc, pc[0], p);
    lemma_cong_trans(lagrange_value(u), la + lb + lc, pa[0] + pb[0] + pc[0], p);
    crate::shamir::lemma_lagrange_value_range(u, p);
    crate::helper::lemma_cong_small_eq(lagrange_value(u), pa[0] + pb[0] + pc[0], p);
}

} // verus!
