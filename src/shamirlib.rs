//! Integer helpers for Lagrange coefficients over small abscissae.
use vstd::prelude::*;
use crate::group::{
    Point, Scalar, md, scalar_add, scalar_mul, scalar_sub, scalar_from_u64, scalar_invert, identity,
    plus, times, point_eq, lemma_md_add, lemma_md_mul, lemma_md_mul_cong, lemma_md_small,
    lemma_scalar_bound, lemma_log_bounds, lemma_md_sub,
};
use crate::replicated::vals;
use crate::util::{random_scalars, scalar_one, scalar_zero};

verus! {

/// `p(x)` for the coefficients `p`, constant term first, unreduced.
pub open spec fn poly_eval(p: Seq<int>, x: int) -> int
    decreases p.len(),
{
    if p.len() == 0 {
        0
    } else {
        p[0] + poly_eval(p.subrange(1, p.len() as int), x) * x
    }
}

/// The value at `x` of the polynomial with coefficients `p`.
pub fn eval_poly_at(p: &[Scalar], x: Scalar) -> (r: Scalar)
    ensures
        r.val() == md(poly_eval(vals(p@), x.val())),
{
    let mut result = scalar_zero();
    let mut i: usize = p.len();
    proof {
        lemma_md_small(0);
        assert(vals(p@).subrange(p.len() as int, p.len() as int) =~= Seq::<int>::empty());
    }
    while i > 0
        invariant
            i <= p.len(),
            result.val() == md(poly_eval(vals(p@).subrange(i as int, p.len() as int), x.val())),
        decreases i,
    {
        i = i - 1;
        let rx = scalar_mul(&result, &x);
        let next = scalar_add(&rx, &p[i]);
        proof {
            let n = p.len() as int;
            let tail = vals(p@).subrange(i + 1, n);
            let cur = vals(p@).subrange(i as int, n);
            assert(cur.subrange(1, cur.len() as int) =~= tail);
            assert(cur[0] == p@[i as int].val());
            let e = poly_eval(tail, x.val());
            lemma_md_mul(e, x.val());
            lemma_scalar_bound(x);
            lemma_md_add(e * x.val(), p@[i as int].val());
            lemma_scalar_bound(p@[i as int]);
            assert(p@[i as int].val() + e * x.val() == cur[0] + e * x.val());
        }
        result = next;
    }
    assert(vals(p@).subrange(0, p.len() as int) =~= vals(p@));
    result
}

/// The values at `1, 2, ..., n` of the polynomial with coefficients `p`.
pub fn eval_poly_at_1_n(p: &[Scalar], n: usize) -> (r: Vec<Scalar>)
    requires
        n < u64::MAX,
        n < usize::MAX,
    ensures
        r.len() == n,
        forall|k: int| 0 <= k < n ==> (#[trigger] r@[k]).val() == md(poly_eval(vals(p@), k + 1)),
{
    let mut result: Vec<Scalar> = Vec::new();
    let mut i: usize = 1;
    while i <= n
        invariant
            n < u64::MAX,
            n < usize::MAX,
            1 <= i <= n + 1,
            result.len() == i - 1,
            forall|k: int| 0 <= k < i - 1 ==> (#[trigger] result@[k]).val() == md(poly_eval(vals(p@), k + 1)),
        decreases n + 1 - i,
    {
        let x = scalar_from_u64(i as u64);
        result.push(eval_poly_at(p, x));
        i = i + 1;
    }
    result
}

/// `prod_{j < k, j != i} xs[j]`, unreduced.
pub open spec fn others_prod(xs: Seq<int>, i: int, k: int) -> int
    decreases k,
{
    if k <= 0 {
        1
    } else if k - 1 == i {
        others_prod(xs, i, k - 1)
    } else {
        others_prod(xs, i, k - 1) * xs[k - 1]
    }
}

/// `prod_{j < k, j != i} (xs[j] - xs[i])`, unreduced.
pub open spec fn others_diff_prod(xs: Seq<int>, i: int, k: int) -> int
    decreases k,
{
    if k <= 0 {
        1
    } else if k - 1 == i {
        others_diff_prod(xs, i, k - 1)
    } else {
        others_diff_prod(xs, i, k - 1) * (xs[k - 1] - xs[i])
    }
}

/// `lam` are the Lagrange coefficients at zero of the abscissae `xs`:
/// `lam[i] * prod_{j != i} (xs[j] - xs[i]) = prod_{j != i} xs[j]`.
pub open spec fn lagrange_rel(xs: Seq<int>, lam: Seq<int>) -> bool {
    &&& lam.len() == xs.len()
    &&& forall|i: int|
        0 <= i < xs.len() ==> md(#[trigger] lam[i] * others_diff_prod(xs, i, xs.len() as int)) == md(
            others_prod(xs, i, xs.len() as int),
        )
}

/// The abscissae are pairwise distinct field elements.
pub open spec fn distinct_vals(xs: Seq<Scalar>) -> bool {
    forall|a: int, b: int| 0 <= a < xs.len() && 0 <= b < xs.len() && a != b ==> xs[a].val() != xs[b].val()
}

/// The Lagrange coefficients at zero of the abscissae `xs`.
pub fn lagrange_coefficients(xs: &[Scalar]) -> (r: Vec<Scalar>)
    requires
        distinct_vals(xs@),
    ensures
        lagrange_rel(vals(xs@), vals(r@)),
{
    let n = xs.len();
    let mut lambda: Vec<Scalar> = Vec::new();
    let mut i: usize = 0;
    while i < n
        invariant
            n == xs.len(),
            distinct_vals(xs@),
            i <= n,
            lambda.len() == i,
            forall|k: int| 0 <= k < i ==> md(#[trigger] lambda@[k].val() * others_diff_prod(vals(xs@), k, n as int))
                == md(others_prod(vals(xs@), k, n as int)),
        decreases n - i,
    {
        let mut li = scalar_one();
        let mut j: usize = 0;
        proof {
            lemma_md_small(1);
        }
        while j < n
            invariant
                n == xs.len(),
                distinct_vals(xs@),
                i < n,
                j <= n,
                md(li.val() * others_diff_prod(vals(xs@), i as int, j as int)) == md(
                    others_prod(vals(xs@), i as int, j as int),
                ),
            decreases n - j,
        {
            if i != j {
                let d = scalar_sub(&xs[j], &xs[i]);
                let inv = scalar_invert(&d);
                let t = scalar_mul(&li, &xs[j]);
                let next = scalar_mul(&t, &inv);
                proof {
                    let ys = vals(xs@);
                    let lam = li.val();
                    let dp = others_diff_prod(ys, i as int, j as int);
                    let op = others_prod(ys, i as int, j as int);
                    let xj = xs@[j as int].val();
                    let xi = xs@[i as int].val();
                    assert(ys[j as int] == xj && ys[i as int] == xi);
                    lemma_scalar_bound(xs@[j as int]);
                    lemma_scalar_bound(xs@[i as int]);
                    lemma_md_sub(xj, xi);
                    lemma_md_bound_ne(xj, xi);
                    let iv = inv.val();
                    // next = lam * xj * iv
                    lemma_md_mul(lam * xj, iv);
                    assert(md(next.val()) == md(lam * xj * iv)) by {
                        lemma_scalar_bound(next);
                        lemma_scalar_bound(t);
                        crate::group::lemma_md_bound(lam * xj);
                        lemma_md_small(md(lam * xj));
                        lemma_md_mul_cong(t.val(), lam * xj, iv);
                    }
                    lemma_md_mul_cong(next.val(), lam * xj * iv, dp * (xj - xi));
                    assert((lam * xj * iv) * (dp * (xj - xi)) == (lam * dp) * (xj * (iv * (xj - xi))))
                        by (nonlinear_arith);
                    lemma_md_mul_cong(lam * dp, op, xj * (iv * (xj - xi)));
                    // iv * (xj - xi) has residue 1
                    lemma_md_mul(iv, xj - xi);
                    assert(md(iv * (xj - xi)) == 1) by {
                        assert(md(iv * md(xj - xi)) == md(iv * (xj - xi)));
                        assert(md(iv * d.val()) == 1) by {
                            assert(md(inv.val() * d.val()) == 1);
                        }
                    }
                    lemma_md_mul(xj, iv * (xj - xi));
                    lemma_md_small(1);
                    assert(md(xj * (iv * (xj - xi))) == md(xj * 1));
                    lemma_md_mul(op, xj * (iv * (xj - xi)));
                    lemma_md_mul(op, xj);
                    assert(md(op * (xj * (iv * (xj - xi)))) == md(op * xj)) by {
                        assert(md(op * md(xj * (iv * (xj - xi)))) == md(op * md(xj * 1)));
                    }
                }
                li = next;
            }
            j = j + 1;
        }
        lambda.push(li);
        i = i + 1;
    }
    proof {
        assert(vals(lambda@).len() == n);
        assert forall|k: int| 0 <= k < n implies md(#[trigger] vals(lambda@)[k] * others_diff_prod(vals(xs@), k, n as int))
            == md(others_prod(vals(xs@), k, n as int)) by {
            assert(vals(lambda@)[k] == lambda@[k].val());
        }
    }
    lambda
}

/// `sum_{i < k} a[i] * lam[i]`, unreduced.
pub open spec fn dot(a: Seq<int>, lam: Seq<int>, k: int) -> int
    decreases k,
{
    if k <= 0 {
        0
    } else {
        dot(a, lam, k - 1) + a[k - 1] * lam[k - 1]
    }
}

/// The value at zero of the polynomial through `(xs[i], share[i])`.
pub fn recon(share: &[Scalar], xs: &[Scalar]) -> (r: Scalar)
    requires
        distinct_vals(xs@),
        share.len() >= xs.len(),
    ensures
        exists|lam: Seq<int>|
            #[trigger] lagrange_rel(vals(xs@), lam) && r.val() == md(dot(vals(share@), lam, xs.len() as int)),
{
    let n = xs.len();
    let lambda = lagrange_coefficients(xs);
    let mut result = scalar_zero();
    let mut i: usize = 0;
    proof {
        lemma_md_small(0);
    }
    while i < n
        invariant
            n == xs.len(),
            share.len() >= n,
            lambda.len() == n,
            i <= n,
            result.val() == md(dot(vals(share@), vals(lambda@), i as int)),
        decreases n - i,
    {
        let term = scalar_mul(&share[i], &lambda[i]);
        let next = scalar_add(&result, &term);
        proof {
            let d = dot(vals(share@), vals(lambda@), i as int);
            let t = share@[i as int].val() * lambda@[i as int].val();
            lemma_md_add(d, t);
            assert(vals(share@)[i as int] == share@[i as int].val());
            assert(vals(lambda@)[i as int] == lambda@[i as int].val());
        }
        result = next;
        i = i + 1;
    }
    result
}

/// The abscissae as scalars.
fn scalars_of(xs: &[u64]) -> (r: Vec<Scalar>)
    ensures
        r.len() == xs.len(),
        forall|k: int| 0 <= k < xs.len() ==> (#[trigger] r@[k]).val() == xs@[k] as int,
{
    let mut r: Vec<Scalar> = Vec::new();
    let mut i: usize = 0;
    while i < xs.len()
        invariant
            i <= xs.len(),
            r.len() == i,
            forall|k: int| 0 <= k < i ==> (#[trigger] r@[k]).val() == xs@[k] as int,
        decreases xs.len() - i,
    {
        r.push(scalar_from_u64(xs[i]));
        i = i + 1;
    }
    r
}

/// The integers of `xs`.
pub open spec fn ints(xs: Seq<u64>) -> Seq<int> {
    xs.map_values(|x: u64| x as int)
}

/// `recon` with integer abscissae.
pub fn recon_u64(share: &[Scalar], xs: &[u64]) -> (r: Scalar)
    requires
        forall|a: int, b: int| 0 <= a < xs.len() && 0 <= b < xs.len() && a != b ==> xs@[a] != xs@[b],
        share.len() >= xs.len(),
    ensures
        exists|lam: Seq<int>|
            #[trigger] lagrange_rel(ints(xs@), lam) && r.val() == md(dot(vals(share@), lam, xs.len() as int)),
{
    let new_xs = scalars_of(xs);
    assert(vals(new_xs@) =~= ints(xs@));
    recon(share, new_xs.as_slice())
}

/// The commitment at zero interpolated from commitments `coms` at `xs`.
pub fn recon_com(coms: &[Point], xs: &[Scalar]) -> (r: Point)
    requires
        distinct_vals(xs@),
        coms.len() >= xs.len(),
        forall|k: int| 0 <= k < coms.len() ==> (#[trigger] coms@[k]).wf(),
    ensures
        r.wf(),
        exists|lam: Seq<int>|
            #[trigger] lagrange_rel(vals(xs@), lam) && r.log() == md(
                dot(crate::replicated::point_logs(coms@), lam, xs.len() as int),
            ),
{
    let n = xs.len();
    let lambda = lagrange_coefficients(xs);
    let mut result = identity();
    let mut i: usize = 0;
    proof {
        lemma_md_small(0);
    }
    while i < n
        invariant
            n == xs.len(),
            coms.len() >= n,
            forall|k: int| 0 <= k < coms.len() ==> (#[trigger] coms@[k]).wf(),
            lambda.len() == n,
            i <= n,
            result.wf(),
            result.log() == md(dot(crate::replicated::point_logs(coms@), vals(lambda@), i as int)),
        decreases n - i,
    {
        let term = times(&coms[i], &lambda[i]);
        let next = plus(&result, &term);
        proof {
            let d = dot(crate::replicated::point_logs(coms@), vals(lambda@), i as int);
            let t = coms@[i as int].log() * lambda@[i as int].val();
            lemma_md_add(d, t);
            assert(crate::replicated::point_logs(coms@)[i as int] == coms@[i as int].log());
            assert(vals(lambda@)[i as int] == lambda@[i as int].val());
        }
        result = next;
        i = i + 1;
    }
    result
}

/// `recon_com` with integer abscissae.
pub fn recon_com_u64(coms: &[Point], xs: &[u64]) -> (r: Point)
    requires
        forall|a: int, b: int| 0 <= a < xs.len() && 0 <= b < xs.len() && a != b ==> xs@[a] != xs@[b],
        coms.len() >= xs.len(),
        forall|k: int| 0 <= k < coms.len() ==> (#[trigger] coms@[k]).wf(),
    ensures
        r.wf(),
        exists|lam: Seq<int>|
            #[trigger] lagrange_rel(ints(xs@), lam) && r.log() == md(
                dot(crate::replicated::point_logs(coms@), lam, xs.len() as int),
            ),
{
    let new_xs = scalars_of(xs);
    assert(vals(new_xs@) =~= ints(xs@));
    recon_com(coms, new_xs.as_slice())
}

/// `prod_{j < k, j != i} ((i + 1) - (j + 1))`, unreduced.
pub open spec fn index_diff_prod(i: int, k: int) -> int
    decreases k,
{
    if k <= 0 {
        0int + 1
    } else if k - 1 == i {
        index_diff_prod(i, k - 1)
    } else {
        index_diff_prod(i, k - 1) * (i - (k - 1))
    }
}

/// The weight of commitment `i` in the low-degree test: the random dual
/// polynomial `z` at `i + 1` times the inverse Lagrange denominator `lam`.
pub open spec fn ldt_weight(z: Seq<int>, lam: int, i: int) -> int {
    md(poly_eval(z, i + 1) * lam)
}

/// The weighted sum of the logs of `coms` in the low-degree test, unreduced.
pub open spec fn ldt_sum(logs: Seq<int>, z: Seq<int>, lam: Seq<int>, k: int) -> int
    decreases k,
{
    if k <= 0 {
        0
    } else {
        ldt_sum(logs, z, lam, k - 1) + logs[k - 1] * ldt_weight(z, lam[k - 1], k - 1)
    }
}

/// Whether the committed values at `1..n` look like the evaluations of a
/// polynomial of degree at most `degree`: a random polynomial of degree
/// `n - degree - 2`, weighted by the Lagrange denominators, is orthogonal to
/// them.
pub fn low_degree_test(coms: &[Point], degree: usize) -> (r: bool)
    requires
        coms.len() >= degree + 2,
        coms.len() < u64::MAX,
        coms.len() < usize::MAX,
        forall|k: int| 0 <= k < coms.len() ==> (#[trigger] coms@[k]).wf(),
    ensures
        exists|z: Seq<int>, lam: Seq<int>|
            z.len() == coms.len() - degree - 1 && lam.len() == coms.len() && (forall|i: int|
                0 <= i < coms.len() && md(index_diff_prod(i, coms.len() as int)) != 0 ==> md(
                    #[trigger] lam[i] * index_diff_prod(i, coms.len() as int),
                ) == 1) && r == (md(
                ldt_sum(crate::replicated::point_logs(coms@), z, lam, coms.len() as int),
            ) == 0),
{
    let n = coms.len();
    let new_degree = n - degree - 2;
    let z_poly = random_scalars(new_degree + 1);
    let z_evals = eval_poly_at_1_n(z_poly.as_slice(), n);
    let mut lambda: Vec<Scalar> = Vec::new();
    let mut i: usize = 0;
    while i < n
        invariant
            n == coms.len(),
            n < u64::MAX,
            i <= n,
            lambda.len() == i,
            forall|k: int|
                0 <= k < i && md(index_diff_prod(k, n as int)) != 0 ==> md(
                    #[trigger] lambda@[k].val() * index_diff_prod(k, n as int),
                ) == 1,
        decreases n - i,
    {
        let mut li = scalar_one();
        let mut j: usize = 0;
        proof {
            lemma_md_small(1);
        }
        while j < n
            invariant
                n == coms.len(),
                n < u64::MAX,
                i < n,
                j <= n,
                li.val() == md(index_diff_prod(i as int, j as int)),
            decreases n - j,
        {
            if i != j {
                let a = scalar_from_u64((i as u64) + 1);
                let b = scalar_from_u64((j as u64) + 1);
                let d = scalar_sub(&a, &b);
                let next = scalar_mul(&li, &d);
                proof {
                    let p = index_diff_prod(i as int, j as int);
                    lemma_md_sub(i + 1, j + 1);
                    lemma_md_mul(p, (i + 1) - (j + 1));
                    assert((i + 1) - (j + 1) == i - j);
                }
                li = next;
            }
            j = j + 1;
        }
        let inv = scalar_invert(&li);
        proof {
            let p = index_diff_prod(i as int, n as int);
            if md(p) != 0 {
                lemma_md_mul(inv.val(), p);
                assert(md(inv.val() * li.val()) == 1);
            }
        }
        lambda.push(inv);
        i = i + 1;
    }
    let mut product = identity();
    let mut k: usize = 0;
    proof {
        lemma_md_small(0);
    }
    while k < n
        invariant
            n == coms.len(),
            forall|q: int| 0 <= q < coms.len() ==> (#[trigger] coms@[q]).wf(),
            z_evals.len() == n,
            forall|q: int| 0 <= q < n ==> (#[trigger] z_evals@[q]).val() == md(poly_eval(vals(z_poly@), q + 1)),
            lambda.len() == n,
            k <= n,
            product.wf(),
            product.log() == md(ldt_sum(crate::replicated::point_logs(coms@), vals(z_poly@), vals(lambda@), k as int)),
        decreases n - k,
    {
        let w = scalar_mul(&z_evals[k], &lambda[k]);
        let term = times(&coms[k], &w);
        let next = plus(&product, &term);
        proof {
            let zs = vals(z_poly@);
            let pe = poly_eval(zs, k + 1);
            assert(vals(lambda@)[k as int] == lambda@[k as int].val());
            lemma_md_mul(pe, lambda@[k as int].val());
            assert(w.val() == ldt_weight(zs, vals(lambda@)[k as int], k as int));
            assert(crate::replicated::point_logs(coms@)[k as int] == coms@[k as int].log());
            lemma_md_add(
                ldt_sum(crate::replicated::point_logs(coms@), zs, vals(lambda@), k as int),
                coms@[k as int].log() * w.val(),
            );
        }
        product = next;
        k = k + 1;
    }
    let zero = identity();
    let r = point_eq(&product, &zero);
    proof {
        lemma_log_bounds(product);
        assert(r == (md(ldt_sum(crate::replicated::point_logs(coms@), vals(z_poly@), vals(lambda@), n as int)) == 0));
        assert(vals(lambda@).len() == n);
        assert forall|i: int|
            0 <= i < n && md(index_diff_prod(i, n as int)) != 0 implies md(
                #[trigger] vals(lambda@)[i] * index_diff_prod(i, n as int),
            ) == 1 by {
            assert(vals(lambda@)[i] == lambda@[i].val());
        }
    }
    r
}

pub proof fn lemma_md_bound_ne(a: int, b: int)
    requires
        0 <= a < crate::group::group_order(),
        0 <= b < crate::group::group_order(),
        a != b,
    ensures
        md(a - b) != 0,
{
    reveal(md);
    let l = crate::group::group_order() as int;
    vstd::arithmetic::div_mod::lemma_fundamental_div_mod(a - b, l);
    if md(a - b) == 0 {
        let q = (a - b) / l;
        assert(a - b == l * q);
        if q >= 1 {
            vstd::arithmetic::mul::lemma_mul_increases(q, l);
            vstd::arithmetic::mul::lemma_mul_is_commutative(q, l);
        } else if q <= -1 {
            vstd::arithmetic::mul::lemma_mul_increases(-q, l);
            vstd::arithmetic::mul::lemma_mul_is_commutative(-q, l);
            vstd::arithmetic::mul::lemma_mul_unary_negation(l, q);
        }
    }
}

/// Euclid's greatest common divisor.
pub open spec fn spec_gcd(a: nat, b: nat) -> nat
    decreases b,
{
    if b == 0 {
        a
    } else {
        spec_gcd(b, a % b)
    }
}

/// `d` divides `x`.
pub open spec fn divides(d: nat, x: nat) -> bool {
    exists|q: nat| #[trigger] (d * q) == x
}

/// The greatest common divisor of `a` and `b` (`a` when `b` is zero).
pub fn gcd(a: u64, b: u64) -> (r: u64)
    ensures
        r == spec_gcd(a as nat, b as nat),
        divides(r as nat, a as nat),
        divides(r as nat, b as nat),
    decreases b,
{
    if b == 0 {
        proof {
            assert(a as nat * 1 == a);
            assert(a as nat * 0 == 0);
        }
        a
    } else {
        let r = gcd(b, a % b);
        proof {
            let q1 = choose|q: nat| #[trigger] (r as nat * q) == b as nat;
            let q2 = choose|q: nat| #[trigger] (r as nat * q) == (a % b) as nat;
            let k = (a / b) as nat;
            assert(a as nat == b as nat * k + (a % b) as nat) by {
                vstd::arithmetic::div_mod::lemma_fundamental_div_mod(a as int, b as int);
            }
            assert(r as nat * (q1 * k + q2) == a as nat) by (nonlinear_arith)
                requires
                    r as nat * q1 == b as nat,
                    r as nat * q2 == (a % b) as nat,
                    a as nat == b as nat * k + (a % b) as nat,
            ;
        }
        r
    }
}

/// `|a - b|`.
pub open spec fn abs_diff(a: u64, b: u64) -> int {
    if a >= b {
        a - b
    } else {
        b - a
    }
}

/// `prod_{j < k, j != i} |xs[j] - xs[i]|`.
pub open spec fn den_prod(xs: Seq<u64>, i: int, k: int) -> int
    decreases k,
{
    if k <= 0 {
        1
    } else if k - 1 == i {
        den_prod(xs, i, k - 1)
    } else {
        den_prod(xs, i, k - 1) * abs_diff(xs[k - 1], xs[i])
    }
}

/// The Lagrange denominator of abscissa `i`: `prod_{j != i} |xs[j] - xs[i]|`.
pub open spec fn lagrange_den(xs: Seq<u64>, i: int) -> int {
    den_prod(xs, i, xs.len() as int)
}

/// The least common multiple of the Lagrange denominators of the first `n`
/// abscissae, built one step at a time: `lcm(d, p) = d * (p / gcd(d, p))`.
pub open spec fn denominator(xs: Seq<u64>, n: int) -> int
    decreases n,
{
    if n <= 0 {
        1
    } else {
        let d = denominator(xs, n - 1);
        let p = lagrange_den(xs, n - 1);
        d * (p / spec_gcd(d as nat, p as nat) as int)
    }
}

/// The abscissae are pairwise distinct.
pub open spec fn distinct_u64(xs: Seq<u64>) -> bool {
    forall|a: int, b: int| 0 <= a < xs.len() && 0 <= b < xs.len() && a != b ==> xs[a] != xs[b]
}

/// Every partial product and every running multiple fits in a `u64`.
pub open spec fn denominator_fits(xs: Seq<u64>) -> bool {
    &&& forall|i: int, k: int|
        0 <= i < xs.len() && 0 <= k <= xs.len() ==> #[trigger] den_prod(xs, i, k) <= u64::MAX
    &&& forall|n: int| 0 <= n <= xs.len() ==> #[trigger] denominator(xs, n) <= u64::MAX
}

pub proof fn lemma_den_prod_pos(xs: Seq<u64>, i: int, k: int)
    requires
        0 <= i < xs.len(),
        k <= xs.len(),
        distinct_u64(xs),
    ensures
        den_prod(xs, i, k) >= 1,
    decreases k,
{
    if k > 0 {
        lemma_den_prod_pos(xs, i, k - 1);
        if k - 1 != i {
            assert(abs_diff(xs[k - 1], xs[i]) >= 1);
            vstd::arithmetic::mul::lemma_mul_increases(abs_diff(xs[k - 1], xs[i]), den_prod(xs, i, k - 1));
            vstd::arithmetic::mul::lemma_mul_is_commutative(abs_diff(xs[k - 1], xs[i]), den_prod(xs, i, k - 1));
        }
    }
}

pub proof fn lemma_gcd_pos(a: nat, b: nat)
    requires
        a > 0,
    ensures
        spec_gcd(a, b) > 0,
    decreases b,
{
    if b > 0 {
        if a % b > 0 {
            lemma_gcd_pos(b, a % b);
        }
    }
}

pub proof fn lemma_denominator_pos(xs: Seq<u64>, n: int)
    requires
        n <= xs.len(),
        distinct_u64(xs),
    ensures
        denominator(xs, n) >= 1,
    decreases n,
{
    if n > 0 {
        lemma_denominator_pos(xs, n - 1);
        let d = denominator(xs, n - 1);
        let p = lagrange_den(xs, n - 1);
        lemma_den_prod_pos(xs, n - 1, xs.len() as int);
        lemma_gcd_pos(d as nat, p as nat);
        let g = spec_gcd(d as nat, p as nat);
        lemma_gcd_divides(d as nat, p as nat);
        let q = choose|q: nat| #[trigger] (g * q) == p as nat;
        assert(q >= 1) by (nonlinear_arith)
            requires
                g * q == p,
                p >= 1,
        ;
        vstd::arithmetic::div_mod::lemma_div_multiples_vanish(q as int, g as int);
        assert(p / g as int == q);
        vstd::arithmetic::mul::lemma_mul_increases(q as int, d);
        vstd::arithmetic::mul::lemma_mul_is_commutative(q as int, d);
    }
}

/// One lcm step keeps every earlier multiple and adds the new one.
pub proof fn lemma_lcm_step(d: nat, p: nat, x: nat)
    requires
        d >= 1,
        divides(x, d),
    ensures
        divides(x, d * (p / spec_gcd(d, p))),
        divides(p, d * (p / spec_gcd(d, p))),
{
    lemma_gcd_pos(d, p);
    lemma_gcd_divides(d, p);
    let g = spec_gcd(d, p);
    let q = choose|q: nat| #[trigger] (g * q) == p;
    let m = choose|m: nat| #[trigger] (g * m) == d;
    vstd::arithmetic::div_mod::lemma_div_multiples_vanish(q as int, g as int);
    assert(p / g == q);
    let a = choose|a: nat| #[trigger] (x * a) == d;
    assert(x * (a * q) == d * q) by (nonlinear_arith)
        requires
            x * a == d,
    ;
    assert(p * m == d * q) by (nonlinear_arith)
        requires
            g * q == p,
            g * m == d,
    ;
}

pub proof fn lemma_gcd_divides(a: nat, b: nat)
    ensures
        divides(spec_gcd(a, b), a),
        divides(spec_gcd(a, b), b),
    decreases b,
{
    if b == 0 {
        assert(a * 1 == a);
        assert(a * 0 == 0);
    } else {
        lemma_gcd_divides(b, a % b);
        let r = spec_gcd(a, b);
        let q1 = choose|q: nat| #[trigger] (r * q) == b;
        let q2 = choose|q: nat| #[trigger] (r * q) == a % b;
        let k = a / b;
        vstd::arithmetic::div_mod::lemma_fundamental_div_mod(a as int, b as int);
        assert(r * (q1 * k + q2) == a) by (nonlinear_arith)
            requires
                r * q1 == b,
                r * q2 == a % b,
                a == b * k + a % b,
        ;
    }
}

/// A common multiple of the Lagrange denominators of the pairwise distinct
/// abscissae `xs`: the least one, the lcm over `i` of
/// `prod_{j != i} |xs[j] - xs[i]|`.
pub fn get_denominator(xs: &[u64]) -> (r: u64)
    requires
        distinct_u64(xs@),
        denominator_fits(xs@),
    ensures
        r == denominator(xs@, xs@.len() as int),
        forall|i: int| 0 <= i < xs@.len() ==> divides(#[trigger] lagrange_den(xs@, i) as nat, r as nat),
{
    let n = xs.len();
    let mut result: u64 = 1;
    let mut i: usize = 0;
    while i < n
        invariant
            n == xs@.len(),
            distinct_u64(xs@),
            denominator_fits(xs@),
            i <= n,
            result == denominator(xs@, i as int),
            forall|k: int| 0 <= k < i ==> divides(#[trigger] lagrange_den(xs@, k) as nat, result as nat),
        decreases n - i,
    {
        let mut temp: u64 = 1;
        let mut j: usize = 0;
        while j < n
            invariant
                n == xs@.len(),
                distinct_u64(xs@),
                denominator_fits(xs@),
                i < n,
                j <= n,
                temp == den_prod(xs@, i as int, j as int),
            decreases n - j,
        {
            if j != i {
                let diff: u64 = if xs[j] >= xs[i] { xs[j] - xs[i] } else { xs[i] - xs[j] };
                proof {
                    assert(den_prod(xs@, i as int, j + 1) <= u64::MAX);
                }
                temp = temp * diff;
            }
            j = j + 1;
        }
        proof {
            lemma_denominator_pos(xs@, i as int);
            lemma_gcd_pos(result as nat, temp as nat);
            assert(denominator(xs@, i + 1) <= u64::MAX);
            let newr: nat = result as nat * (temp as nat / spec_gcd(result as nat, temp as nat));
            assert forall|k: int| 0 <= k < i + 1 implies divides(#[trigger] lagrange_den(xs@, k) as nat, newr) by {
                if k < i {
                    lemma_lcm_step(result as nat, temp as nat, lagrange_den(xs@, k) as nat);
                } else {
                    assert(result as nat * 1 == result as nat);
                    lemma_lcm_step(result as nat, temp as nat, result as nat);
                }
            }
            assert(denominator(xs@, i + 1) == newr);
        }
        let g = gcd(result, temp);
        result = result * (temp / g);
        i = i + 1;
    }
    result
}

} // verus!
