//! Dense polynomials over Z251: index `i` of the coefficient sequence holds
//! the coefficient of `x^i`.
use super::z251::{FieldError, Z251};
use vstd::arithmetic::power::pow;
use vstd::prelude::*;

verus! {

/// Every coefficient is a reduced field element.
pub open spec fn poly_wf(s: Seq<Z251>) -> bool {
    forall|i: int| 0 <= i < s.len() ==> (#[trigger] s[i]).wf()
}

/// Every coefficient is zero (the empty sequence included).
pub open spec fn is_zero_poly(s: Seq<Z251>) -> bool {
    forall|i: int| 0 <= i < s.len() ==> (#[trigger] s[i]).inner == 0
}

/// Index of the highest nonzero coefficient; 0 for a polynomial with no
/// nonzero coefficient.
pub open spec fn degree_of(s: Seq<Z251>) -> nat
    decreases s.len(),
{
    if s.len() <= 1 {
        0
    } else if s.last().inner != 0 {
        (s.len() - 1) as nat
    } else {
        degree_of(s.drop_last())
    }
}

/// The direct weighted sum `Σ s[i]·x^i` over the integers.
pub open spec fn eval_sum(s: Seq<Z251>, x: int) -> int
    decreases s.len(),
{
    if s.len() == 0 {
        0
    } else {
        eval_sum(s.drop_last(), x) + s.last().val() * pow(x, (s.len() - 1) as nat)
    }
}

/// The coefficients up to the degree: trailing zeros removed, at least one
/// coefficient kept.
pub open spec fn trimmed(s: Seq<Z251>) -> Seq<Z251> {
    if s.len() == 0 {
        seq![Z251 { inner: 0 }]
    } else {
        s.take(degree_of(s) + 1int)
    }
}

/// The degree lies below the length, and every coefficient above it is zero.
pub proof fn lemma_degree_bounds(s: Seq<Z251>)
    ensures
        s.len() > 0 ==> degree_of(s) < s.len(),
        forall|i: int| degree_of(s) < i < s.len() ==> (#[trigger] s[i]).inner == 0,
        degree_of(s) > 0 ==> s[degree_of(s) as int].inner != 0,
    decreases s.len(),
{
    if s.len() > 1 && s.last().inner == 0 {
        lemma_degree_bounds(s.drop_last());
        assert forall|i: int| degree_of(s) < i < s.len() implies (#[trigger] s[i]).inner == 0 by {
            if i < s.len() - 1 {
                assert(s.drop_last()[i] == s[i]);
            }
        }
    }
}

/// Dropping coefficients above the degree keeps the degree.
pub proof fn lemma_degree_take(s: Seq<Z251>, k: int)
    requires
        degree_of(s) < k <= s.len(),
    ensures
        degree_of(s.take(k)) == degree_of(s),
    decreases s.len(),
{
    lemma_degree_bounds(s);
    if k < s.len() {
        assert(s.last().inner == 0);
        assert(s.drop_last().take(k) =~= s.take(k));
        lemma_degree_take(s.drop_last(), k);
    } else {
        assert(s.take(k) =~= s);
    }
}

/// Horner's step: `Σ s[i]·x^i == s[0] + x·Σ s[i+1]·x^i`.
pub proof fn lemma_eval_sum_front(s: Seq<Z251>, x: int)
    requires
        s.len() > 0,
    ensures
        eval_sum(s, x) == s[0].val() + x * eval_sum(s.drop_first(), x),
    decreases s.len(),
{
    if s.len() == 1 {
        assert(s.drop_first().len() == 0);
        assert(s.drop_last().len() == 0);
        assert(pow(x, 0) == 1) by {
            vstd::arithmetic::power::lemma_pow0(x);
        }
        assert(eval_sum(s, x) == eval_sum(s.drop_last(), x) + s.last().val() * pow(x, 0));
    } else {
        let n = s.len();
        lemma_eval_sum_front(s.drop_last(), x);
        assert(s.drop_last().drop_first() =~= s.drop_first().drop_last());
        let e1 = eval_sum(s.drop_first().drop_last(), x);
        let c = s.last().val();
        assert(s.drop_last()[0] == s[0]);
        assert(s.drop_first().last() == s.last());
        assert(eval_sum(s.drop_first(), x) == e1 + c * pow(x, (n - 2) as nat));
        assert(eval_sum(s, x) == eval_sum(s.drop_last(), x) + c * pow(x, (n - 1) as nat));
        assert(pow(x, (n - 1) as nat) == x * pow(x, (n - 2) as nat)) by {
            vstd::arithmetic::power::lemma_pow_adds(x, 1, (n - 2) as nat);
            vstd::arithmetic::power::lemma_pow1(x);
        }
        assert(x * (e1 + c * pow(x, (n - 2) as nat)) == x * e1 + c * (x * pow(x, (n - 2) as nat)))
            by (nonlinear_arith);
    }
}

/// Coefficient of `x^k`, zero outside the stored range.
pub open spec fn coef(s: Seq<Z251>, k: int) -> int {
    if 0 <= k < s.len() {
        s[k].val()
    } else {
        0
    }
}

/// `Σ_{i < t} q[i]·d[m - i]`: the part of the coefficient of `x^m` in `q·d`
/// that comes from the first `t` coefficients of `q`.
pub open spec fn conv_upto(q: Seq<Z251>, d: Seq<Z251>, m: int, t: nat) -> int
    decreases t,
{
    if t == 0 {
        0
    } else {
        conv_upto(q, d, m, (t - 1) as nat) + coef(q, t - 1) * coef(d, m - (t - 1))
    }
}

/// Coefficient of `x^m` in the product `q·d`, over the integers.
pub open spec fn product_coef(q: Seq<Z251>, d: Seq<Z251>, m: int) -> int {
    conv_upto(q, d, m, q.len())
}

/// `n == q·d + r` coefficient by coefficient modulo 251, with the remainder
/// zero or of lower degree than `d`.
pub open spec fn is_division(n: Seq<Z251>, d: Seq<Z251>, q: Seq<Z251>, r: Seq<Z251>) -> bool {
    &&& forall|m: int| #[trigger] coef(n, m) % 251 == (product_coef(q, d, m) + coef(r, m)) % 251
    &&& (is_zero_poly(r) || degree_of(r) < degree_of(d))
}

/// Trimming changes no coefficient.
pub proof fn lemma_coef_trimmed(s: Seq<Z251>)
    ensures
        forall|m: int| #[trigger] coef(trimmed(s), m) == coef(s, m),
        trimmed(s).len() == degree_of(s) + 1,
        degree_of(trimmed(s)) == degree_of(s),
{
    lemma_degree_bounds(s);
    if s.len() > 0 {
        lemma_degree_take(s, degree_of(s) + 1int);
    }
}

/// A product with an all-zero factor has zero coefficients.
pub proof fn lemma_conv_zero(q: Seq<Z251>, d: Seq<Z251>, m: int, t: nat)
    requires
        is_zero_poly(q),
        t <= q.len(),
    ensures
        conv_upto(q, d, m, t) == 0,
    decreases t,
{
    if t > 0 {
        lemma_conv_zero(q, d, m, (t - 1) as nat);
    }
}

/// Setting a zero coefficient `q[j]` to `s` adds `s·d[m - j]` to the
/// coefficient of `x^m` in `q·d`.
pub proof fn lemma_conv_update(q: Seq<Z251>, d: Seq<Z251>, m: int, t: nat, j: int, s: Z251)
    requires
        0 <= j < q.len(),
        q[j].inner == 0,
        t <= q.len(),
    ensures
        conv_upto(q.update(j, s), d, m, t) == conv_upto(q, d, m, t) + (if j < t {
            s.val() * coef(d, m - j)
        } else {
            0
        }),
    decreases t,
{
    if t > 0 {
        lemma_conv_update(q, d, m, (t - 1) as nat, j, s);
        let i = t - 1;
        if i == j {
            assert(coef(q.update(j, s), i) == s.val());
            assert(coef(q, i) == 0);
        } else {
            assert(coef(q.update(j, s), i) == coef(q, i));
        }
    }
}

/// A trimmed sequence is the zero polynomial exactly when it is `[0]`.
pub proof fn lemma_trimmed_zero(s: Seq<Z251>)
    requires
        s.len() == degree_of(s) + 1,
    ensures
        is_zero_poly(s) <==> (s.len() == 1 && s[0].inner == 0),
{
    lemma_degree_bounds(s);
    if s.len() > 1 {
        assert(s[degree_of(s) as int].inner != 0);
    }
}

/// Whether every coefficient is zero. The zero polynomial has degree 0 like
/// a nonzero constant; this is the check that tells them apart.
pub fn is_zero_polynomial(p: &[Z251]) -> (r: bool)
    ensures
        r == is_zero_poly(p@),
{
    let mut i: usize = 0;
    while i < p.len()
        invariant
            i <= p@.len(),
            forall|k: int| 0 <= k < i ==> (#[trigger] p@[k]).inner == 0,
        decreases p@.len() - i,
    {
        if p[i].inner != 0 {
            return false;
        }
        i = i + 1;
    }
    true
}

/// Long division of `dividend` by `divisor`. Fails with `MalformedInput` when
/// the divisor has no nonzero coefficient. When the divisor's degree exceeds
/// the dividend's, the result is `([0], [0])`. Otherwise the quotient has
/// `deg(dividend) + 1 - deg(divisor)` coefficients, the remainder is trimmed,
/// and together they satisfy the division law.
pub fn polynomial_division(dividend: Vec<Z251>, divisor: Vec<Z251>) -> (res: Result<
    (Vec<Z251>, Vec<Z251>),
    FieldError,
>)
    requires
        poly_wf(dividend@),
        poly_wf(divisor@),
    ensures
        is_zero_poly(divisor@) <==> res == Err::<(Vec<Z251>, Vec<Z251>), FieldError>(
            FieldError::MalformedInput,
        ),
        !is_zero_poly(divisor@) ==> res is Ok,
        res is Ok && degree_of(divisor@) > degree_of(dividend@) ==> res->Ok_0.0@ == seq![
            Z251 { inner: 0 },
        ] && res->Ok_0.1@ == seq![Z251 { inner: 0 }],
        res is Ok && degree_of(divisor@) <= degree_of(dividend@) ==> {
            let (q, r) = res->Ok_0;
            &&& is_division(dividend@, divisor@, q@, r@)
            &&& q@.len() == degree_of(dividend@) + 1 - degree_of(divisor@)
            &&& r@.len() == degree_of(r@) + 1
            &&& poly_wf(q@)
            &&& poly_wf(r@)
        },
{
    if is_zero_polynomial(&divisor) {
        return Err(FieldError::MalformedInput);
    }
    let ghost n0 = dividend@;
    let ghost d0 = divisor@;
    if divisor.degree() > dividend.degree() {
        return Ok((vec![Z251 { inner: 0 }], vec![Z251 { inner: 0 }]));
    }
    let mut poly = dividend;
    let mut div = divisor;
    poly.remove_leading_zeros();
    div.remove_leading_zeros();
    proof {
        lemma_coef_trimmed(n0);
        lemma_coef_trimmed(d0);
        lemma_degree_bounds(d0);
        lemma_degree_bounds(n0);
        assert(poly_wf(poly@));
        assert(poly_wf(div@));
    }
    let d = div.degree();
    let c = div[d];
    proof {
        if d == 0 {
            if c.inner == 0 {
                assert forall|k: int| 0 <= k < d0.len() implies (#[trigger] d0[k]).inner == 0 by {
                    if k > 0 {
                        assert(degree_of(d0) < k);
                    }
                }
            }
        }
    }
    // the quotient has deg(dividend) + 1 - deg(divisor) coefficients
    let qlen: usize = poly.len() - d;
    let mut q: Vec<Z251> = Vec::new();
    while q.len() < qlen
        invariant
            q.len() <= qlen,
            is_zero_poly(q@),
            poly_wf(q@),
        decreases qlen - q.len(),
    {
        q.push(Z251 { inner: 0 });
    }
    let mut r = poly.coefficients();
    proof {
        assert forall|m: int| #[trigger] coef(n0, m) % 251 == (product_coef(q@, d0, m) + coef(
            r@,
            m,
        )) % 251 by {
            lemma_conv_zero(q@, d0, m, q@.len());
            assert(coef(trimmed(n0), m) == coef(n0, m));
        }
    }
    while !(r.len() == 1 && r[0].inner == 0) && r.degree() >= d
        invariant
            poly_wf(q@),
            poly_wf(r@),
            poly_wf(div@),
            div@ == trimmed(d0),
            d == degree_of(d0),
            d == degree_of(div@),
            div@.len() == d + 1,
            c == div@[d as int],
            c.inner != 0,
            q@.len() == qlen,
            qlen == degree_of(n0) + 1 - d,
            r@.len() == degree_of(r@) + 1,
            r@.len() <= degree_of(n0) + 1,
            !is_zero_poly(r@) ==> forall|k: int|
                0 <= k && k + d <= degree_of(r@) ==> (#[trigger] q@[k]).inner == 0,
            forall|m: int| #[trigger] coef(n0, m) % 251 == (product_coef(q@, d0, m) + coef(r@, m)) % 251,
        decreases r@.len() + (if is_zero_poly(r@) {
            0int
        } else {
            1int
        }),
    {
        proof {
            lemma_trimmed_zero(r@);
        }
        let k = r.degree();
        let s = r[k].div(c);
        let j = k - d;
        let ghost q_old = q@;
        let ghost r_old = r@;
        q.set(j, s);
        proof {
            lemma_coef_trimmed(d0);
            assert forall|m: int| #[trigger] product_coef(q@, d0, m) == product_coef(q_old, d0, m)
                + s.val() * coef(d0, m - j) by {
                lemma_conv_update(q_old, d0, m, q_old.len(), j as int, s);
                assert(coef(trimmed(d0), m - j) == coef(d0, m - j));
            }
        }
        let mut t: usize = 0;
        while t <= d
            invariant
                t <= d + 1,
                d < div.len(),
                j + d == k,
                k < r@.len(),
                r@.len() == r_old.len(),
                div@.len() == d + 1,
                poly_wf(div@),
                poly_wf(r_old),
                s.wf(),
                forall|m: int|
                    0 <= m < r@.len() ==> #[trigger] r@[m] == if j <= m < j + t {
                        Z251::of(r_old[m].val() - Z251::of(s.val() * div@[m - j].val()).val())
                    } else {
                        r_old[m]
                    },
            decreases d + 1 - t,
        {
            let e = r[j + t].sub(s.mul(div[t]));
            r.set(j + t, e);
            t = t + 1;
        }
        proof {
            assert(poly_wf(r@));
            // the coefficient of x^k cancels
            assert((s.val() * c.val()) % 251 == r_old[k as int].val());
            assert(r@[k as int].inner == 0) by {
                vstd::arithmetic::div_mod::lemma_small_mod((s.val() * c.val()) as nat % 251, 251);
            }
            lemma_coef_trimmed(d0);
            lemma_degree_bounds(d0);
            assert forall|m: int| #[trigger] coef(r@, m) % 251 == (coef(r_old, m) - s.val() * coef(
                d0,
                m - j,
            )) % 251 by {
                assert(coef(trimmed(d0), m - j) == coef(d0, m - j));
                if j <= m < j + d + 1 {
                    vstd::arithmetic::div_mod::lemma_sub_mod_noop_right(
                        r_old[m].val(),
                        s.val() * div@[m - j].val(),
                        251,
                    );
                    vstd::arithmetic::div_mod::lemma_mod_twice(
                        r_old[m].val() - Z251::of(s.val() * div@[m - j].val()).val(),
                        251,
                    );
                } else {
                    assert(coef(d0, m - j) == 0) by {
                        if 0 <= m - j < d0.len() {
                            assert(m - j > degree_of(d0));
                        }
                    }
                }
            }
            assert forall|m: int| #[trigger] coef(n0, m) % 251 == (product_coef(q@, d0, m) + coef(
                r@,
                m,
            )) % 251 by {
                let a = product_coef(q_old, d0, m);
                let b = s.val() * coef(d0, m - j);
                vstd::arithmetic::div_mod::lemma_add_mod_noop(a + b, coef(r@, m), 251);
                vstd::arithmetic::div_mod::lemma_add_mod_noop(a + b, coef(r_old, m) - b, 251);
                assert(a + b + (coef(r_old, m) - b) == a + coef(r_old, m));
            }
        }
        let ghost r_mid = r@;
        r.remove_leading_zeros();
        proof {
            lemma_coef_trimmed(r_mid);
            lemma_degree_bounds(r_mid);
            lemma_trimmed_zero(r@);
            if k == 0 {
                assert(r@[0] == r_mid[0]);
                assert(is_zero_poly(r@));
            } else {
                assert(r_mid.last().inner == 0);
                lemma_degree_bounds(r_mid.drop_last());
                assert(degree_of(r@) < k);
                if !is_zero_poly(r@) {
                    assert(!is_zero_poly(r_old)) by {
                        lemma_trimmed_zero(r_old);
                    }
                    assert forall|k2: int| 0 <= k2 && k2 + d <= degree_of(r@) implies (
                    #[trigger] q@[k2]).inner == 0 by {
                        assert(k2 != j);
                        assert(q_old[k2].inner == 0);
                    }
                }
            }
        }
    }
    proof {
        lemma_trimmed_zero(r@);
    }
    Ok((q, r))
}

/// Operations shared by polynomial representations.
pub trait Polynomial {
    /// The coefficient sequence, lowest power first.
    spec fn coeffs(&self) -> Seq<Z251>;

    fn coefficients(&self) -> (r: Vec<Z251>)
        ensures
            r@ == self.coeffs(),
    ;

    fn degree(&self) -> (r: usize)
        ensures
            r == degree_of(self.coeffs()),
    ;

    /// Evaluation at `x` by Horner's method.
    fn evaluate(&self, x: Z251) -> (r: Z251)
        requires
            poly_wf(self.coeffs()),
            x.wf(),
        ensures
            r == Z251::of(eval_sum(self.coeffs(), x.val())),
    ;

    /// Drops the zero coefficients above the degree, keeping at least one.
    fn remove_leading_zeros(&mut self)
        ensures
            final(self).coeffs() == trimmed(old(self).coeffs()),
    ;
}

impl Polynomial for Vec<Z251> {
    open spec fn coeffs(&self) -> Seq<Z251> {
        self@
    }

    fn coefficients(&self) -> (r: Vec<Z251>) {
        let mut r: Vec<Z251> = Vec::new();
        let mut i: usize = 0;
        while i < self.len()
            invariant
                i <= self.len(),
                r@ == self@.take(i as int),
            decreases self.len() - i,
        {
            r.push(self[i]);
            i = i + 1;
            assert(r@ =~= self@.take(i as int));
        }
        assert(self@.take(self.len() as int) =~= self@);
        r
    }

    fn degree(&self) -> (r: usize) {
        let n = self.len();
        if n == 0 {
            return 0;
        }
        let mut d: usize = n - 1;
        assert(self@.take(n as int) =~= self@);
        while d > 0 && self[d].inner == 0
            invariant
                d < n,
                n == self.len(),
                degree_of(self@.take(d + 1)) == degree_of(self@),
            decreases d,
        {
            assert(self@.take(d + 1).drop_last() =~= self@.take(d as int));
            d = d - 1;
        }
        d
    }

    fn evaluate(&self, x: Z251) -> (r: Z251) {
        let n = self.len();
        let mut acc = Z251 { inner: 0 };
        let mut i: usize = n;
        assert(self@.subrange(n as int, n as int).len() == 0);
        while i > 0
            invariant
                i <= n,
                n == self.len(),
                x.wf(),
                poly_wf(self@),
                acc == Z251::of(eval_sum(self@.subrange(i as int, n as int), x.val())),
            decreases i,
        {
            let ghost tail = self@.subrange(i as int, n as int);
            let ghost e = eval_sum(tail, x.val());
            let c = self[i - 1];
            proof {
                vstd::arithmetic::div_mod::lemma_mod_bound(e, 251);
            }
            acc = acc.mul(x).add(c);
            i = i - 1;
            proof {
                let s2 = self@.subrange(i as int, n as int);
                assert(s2.drop_first() =~= tail);
                lemma_eval_sum_front(s2, x.val());
                let p = 251int;
                vstd::arithmetic::div_mod::lemma_mul_mod_noop_left(e, x.val(), p);
                vstd::arithmetic::div_mod::lemma_add_mod_noop(e * x.val(), c.val(), p);
                vstd::arithmetic::div_mod::lemma_mod_twice(e * x.val(), p);
                vstd::arithmetic::div_mod::lemma_small_mod(c.inner as nat, 251);
                vstd::arithmetic::div_mod::lemma_add_mod_noop(
                    (e * x.val()) % p,
                    c.val(),
                    p,
                );
                assert(e * x.val() == x.val() * e) by (nonlinear_arith);
            }
        }
        assert(self@.subrange(0, n as int) =~= self@);
        acc
    }

    fn remove_leading_zeros(&mut self) {
        if self.len() == 0 {
            self.push(Z251 { inner: 0 });
            assert(self@ =~= seq![Z251 { inner: 0 }]);
        } else {
            let d = self.degree();
            proof {
                lemma_degree_bounds(old(self)@);
            }
            self.truncate(d + 1);
        }
    }
}

} // verus!
