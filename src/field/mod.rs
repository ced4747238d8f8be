//! Finite-field arithmetic, dense polynomials over the field, and the
//! Fourier-domain transforms between coefficients and evaluations.
use vstd::arithmetic::div_mod::{lemma_fundamental_div_mod, lemma_mod_multiples_basic};
use vstd::prelude::*;

pub mod fourier;
pub mod fourier_law;
pub mod polynomial;
pub mod z251;

pub use fourier::{dft, idft, powers};
pub use polynomial::{is_zero_polynomial, polynomial_division, Polynomial};

verus! {

/// Types with an additive identity `zero()` and a multiplicative identity
/// `one()`. Kept apart from [`Field`] so that types without inverses, such as
/// `isize`, can provide the two constants.
pub trait FieldIdentity: Sized {
    fn zero() -> Self;

    fn one() -> Self;
}

impl FieldIdentity for isize {
    fn zero() -> (r: isize)
        ensures
            r == 0,
    {
        0
    }

    fn one() -> (r: isize)
        ensures
            r == 1,
    {
        1
    }
}

/// A field: every element has an additive inverse and every nonzero element
/// a multiplicative inverse.
pub trait Field:
    Sized
    + std::ops::Add<Output = Self>
    + std::ops::Neg<Output = Self>
    + std::ops::Sub<Output = Self>
    + std::ops::Mul<Output = Self>
    + std::ops::Div<Output = Self>
    + FieldIdentity
    + Copy
{
    /// The value is a well-formed element of the field.
    spec fn valid(self) -> bool;

    /// The value is the additive identity.
    spec fn is_zero(self) -> bool;

    fn mul_inv(self) -> Self
        requires
            self.valid(),
            !self.is_zero(),
    ;

    fn add_inv(self) -> Self
        requires
            self.valid(),
    ;
}

/// Greatest common divisor of two non-negative integers, by Euclid's recursion.
pub open spec fn gcd(x: int, y: int) -> int
    decreases
            (if y >= 0 {
                y
            } else {
                0
            }),
{
    if y <= 0 || x < 0 {
        x
    } else {
        gcd(y, x % y)
    }
}

/// The positive integer `d` divides `x`.
pub open spec fn divides(d: int, x: int) -> bool {
    d > 0 && x % d == 0
}

/// `|x|`.
pub open spec fn abs(x: int) -> int {
    if x < 0 {
        -x
    } else {
        x
    }
}

/// A common divisor of `x` and `y` divides every integer combination of them.
pub proof fn lemma_divides_combination(d: int, x: int, y: int, u: int, v: int)
    requires
        divides(d, x),
        divides(d, y),
    ensures
        divides(d, x * u + y * v),
{
    lemma_fundamental_div_mod(x, d);
    lemma_fundamental_div_mod(y, d);
    let k = (x / d) * u + (y / d) * v;
    assert(x * u + y * v == k * d) by (nonlinear_arith)
        requires
            x == d * (x / d),
            y == d * (y / d),
            k == (x / d) * u + (y / d) * v,
    ;
    lemma_mod_multiples_basic(k, d);
}

/// A positive `g` that divides a number in `1..n` is at most that number.
pub proof fn lemma_divisor_le(g: int, x: int)
    requires
        g > 0,
        x > 0,
        x % g == 0,
    ensures
        g <= x,
{
    lemma_fundamental_div_mod(x, g);
    assert(x / g >= 1) by (nonlinear_arith)
        requires
            x == g * (x / g),
            x > 0,
            g > 0,
    ;
    assert(g <= x) by (nonlinear_arith)
        requires
            x == g * (x / g),
            x / g >= 1,
            g > 0,
    ;
}

/// `gcd(x, y)` divides both `x` and `y`, and is zero only when both are.
pub proof fn lemma_gcd_divides(x: int, y: int)
    requires
        x >= 0,
        y >= 0,
    ensures
        gcd(x, y) >= 0,
        gcd(x, y) == 0 <==> (x == 0 && y == 0),
        gcd(x, y) > 0 ==> divides(gcd(x, y), x) && divides(gcd(x, y), y),
    decreases y,
{
    if y == 0 {
        if x > 0 {
            lemma_mod_multiples_basic(1, x);
            lemma_mod_multiples_basic(0, x);
        }
    } else {
        lemma_fundamental_div_mod(x, y);
        lemma_gcd_divides(y, x % y);
        let g = gcd(x, y);
        assert(g == gcd(y, x % y));
        lemma_divides_combination(g, y, x % y, x / y, 1);
        assert(y * (x / y) + (x % y) * 1 == x);
    }
}

/// Extended Euclidean algorithm on non-negative `a` and `b`: returns
/// `(g, s, t)` with `g == gcd(a, b)` and the Bézout identity `a·s + b·t == g`.
pub fn ext_euc_alg(a: isize, b: isize) -> (r: (isize, isize, isize))
    requires
        a >= 0,
        b >= 0,
    ensures
        r.0 == gcd(a as int, b as int),
        a * r.1 + b * r.2 == r.0,
        abs(r.1 as int) <= if b > 0 {
            b as int
        } else {
            1
        },
        abs(r.2 as int) <= if a > 0 {
            a as int
        } else {
            1
        },
{
    let (mut r0, mut r1): (isize, isize) = (a, b);
    let (mut s0, mut s1): (isize, isize) = (1, 0);
    let (mut t0, mut t1): (isize, isize) = (0, 1);
    let ghost sb: int = if b > 0 {
        b as int
    } else {
        1
    };
    let ghost ta: int = if a > 0 {
        a as int
    } else {
        1
    };

    while r1 != 0
        invariant
            a >= 0,
            b >= 0,
            r0 >= 0,
            r1 >= 0,
            gcd(r0 as int, r1 as int) == gcd(a as int, b as int),
            a * s0 + b * t0 == r0,
            a * s1 + b * t1 == r1,
            s0 * s1 <= 0,
            t0 * t1 <= 0,
            abs(s1 as int) * r0 + abs(s0 as int) * r1 == b,
            abs(t1 as int) * r0 + abs(t0 as int) * r1 == a,
            abs(s0 as int) <= sb,
            abs(s1 as int) <= sb,
            abs(t0 as int) <= ta,
            abs(t1 as int) <= ta,
            sb == (if b > 0 {
                b as int
            } else {
                1
            }),
            ta == (if a > 0 {
                a as int
            } else {
                1
            }),
        decreases r1,
    {
        let q: isize = r0 / r1;
        proof {
            lemma_fundamental_div_mod(r0 as int, r1 as int);
            assert(q * r1 <= r0) by (nonlinear_arith)
                requires
                    r0 == r1 * q + r0 % r1,
                    r0 % r1 >= 0,
            ;
            assert(q >= 0) by (nonlinear_arith)
                requires
                    r0 >= 0,
                    r1 > 0,
                    q == r0 / r1,
            ;
        }
        let r: isize = r0 - q * r1;
        proof {
            assert(r == r0 % r1) by (nonlinear_arith)
                requires
                    r0 == r1 * q + r0 % r1,
                    r == r0 - q * r1,
            ;
            let as0 = abs(s0 as int);
            let as1 = abs(s1 as int);
            let ns = s0 - q * s1;
            assert(abs(ns) == as0 + q * as1) by (nonlinear_arith)
                requires
                    s0 * s1 <= 0,
                    q >= 0,
                    ns == s0 - q * s1,
                    as0 == abs(s0 as int),
                    as1 == abs(s1 as int),
            ;
            assert(abs(ns) * r1 + as1 * r == b) by (nonlinear_arith)
                requires
                    abs(ns) == as0 + q * as1,
                    as1 * r0 + as0 * r1 == b,
                    r == r0 - q * r1,
            ;
            assert(abs(ns) <= sb) by (nonlinear_arith)
                requires
                    abs(ns) * r1 + as1 * r == b,
                    r1 >= 1,
                    r >= 0,
                    as1 >= 0,
                    b <= sb,
            ;
            assert(abs(q * s1) <= abs(ns)) by (nonlinear_arith)
                requires
                    abs(ns) == as0 + q * as1,
                    q >= 0,
                    as0 >= 0,
                    as1 == abs(s1 as int),
            ;
            assert(s1 * ns <= 0) by (nonlinear_arith)
                requires
                    s0 * s1 <= 0,
                    q >= 0,
                    ns == s0 - q * s1,
            ;
            let at0 = abs(t0 as int);
            let at1 = abs(t1 as int);
            let nt = t0 - q * t1;
            assert(abs(nt) == at0 + q * at1) by (nonlinear_arith)
                requires
                    t0 * t1 <= 0,
                    q >= 0,
                    nt == t0 - q * t1,
                    at0 == abs(t0 as int),
                    at1 == abs(t1 as int),
            ;
            assert(abs(nt) * r1 + at1 * r == a) by (nonlinear_arith)
                requires
                    abs(nt) == at0 + q * at1,
                    at1 * r0 + at0 * r1 == a,
                    r == r0 - q * r1,
            ;
            assert(abs(nt) <= ta) by (nonlinear_arith)
                requires
                    abs(nt) * r1 + at1 * r == a,
                    r1 >= 1,
                    r >= 0,
                    at1 >= 0,
                    a <= ta,
            ;
            assert(abs(q * t1) <= abs(nt)) by (nonlinear_arith)
                requires
                    abs(nt) == at0 + q * at1,
                    q >= 0,
                    at0 >= 0,
                    at1 == abs(t1 as int),
            ;
            assert(t1 * nt <= 0) by (nonlinear_arith)
                requires
                    t0 * t1 <= 0,
                    q >= 0,
                    nt == t0 - q * t1,
            ;
            assert(a * ns + b * nt == r) by (nonlinear_arith)
                requires
                    a * s0 + b * t0 == r0,
                    a * s1 + b * t1 == r1,
                    ns == s0 - q * s1,
                    nt == t0 - q * t1,
                    r == r0 - q * r1,
            ;
        }
        let s: isize = s0 - q * s1;
        let t: isize = t0 - q * t1;

        r0 = r1;
        r1 = r;
        s0 = s1;
        s1 = s;
        t0 = t1;
        t1 = t;
    }

    (r0, s0, t0)
}

/// Product of the entries.
pub open spec fn prod_seq(s: Seq<isize>) -> int
    decreases s.len(),
{
    if s.len() == 0 {
        1
    } else {
        prod_seq(s.drop_last()) * s.last()
    }
}

/// Sum of the absolute values of the entries.
pub open spec fn sum_abs(s: Seq<isize>) -> int
    decreases s.len(),
{
    if s.len() == 0 {
        0
    } else {
        sum_abs(s.drop_last()) + abs(s.last() as int)
    }
}

/// Every entry is positive and any two entries at different positions are
/// coprime.
pub open spec fn pairwise_coprime(s: Seq<isize>) -> bool {
    &&& forall|i: int| 0 <= i < s.len() ==> #[trigger] s[i] > 0
    &&& forall|i: int, j: int|
        0 <= i < s.len() && 0 <= j < s.len() && i != j ==> gcd(#[trigger] s[i] as int, #[trigger] s[j] as int) == 1
}

/// Bézout's identity for the recursive `gcd`: some integer combination of
/// `x` and `y` equals `gcd(x, y)`.
pub proof fn lemma_bezout(x: int, y: int) -> (st: (int, int))
    requires
        x >= 0,
        y >= 0,
    ensures
        x * st.0 + y * st.1 == gcd(x, y),
    decreases y,
{
    if y == 0 {
        (1, 0)
    } else {
        lemma_fundamental_div_mod(x, y);
        let (s1, t1) = lemma_bezout(y, x % y);
        let q = x / y;
        assert(x * t1 + y * (s1 - q * t1) == y * s1 + (x % y) * t1) by (nonlinear_arith)
            requires
                x == y * q + x % y,
        ;
        (t1, s1 - q * t1)
    }
}

/// A positive divisor of 1 is 1.
proof fn lemma_divides_one(g: int)
    requires
        divides(g, 1),
    ensures
        g == 1,
{
    lemma_divisor_le(g, 1);
}

/// If `a` and `b` are both coprime with `m`, so is `a·b`.
pub proof fn lemma_coprime_mul(a: int, b: int, m: int)
    requires
        a >= 0,
        b >= 0,
        m > 0,
        gcd(a, m) == 1,
        gcd(b, m) == 1,
    ensures
        gcd(a * b, m) == 1,
{
    let (s1, t1) = lemma_bezout(a, m);
    let (s2, t2) = lemma_bezout(b, m);
    assert(a * b >= 0) by (nonlinear_arith)
        requires
            a >= 0,
            b >= 0,
    ;
    lemma_gcd_divides(a * b, m);
    let g = gcd(a * b, m);
    let u = s1 * s2;
    let v = a * s1 * t2 + t1 * b * s2 + m * t1 * t2;
    assert((a * s1 + m * t1) * (b * s2 + m * t2) == 1) by (nonlinear_arith)
        requires
            a * s1 + m * t1 == 1,
            b * s2 + m * t2 == 1,
    ;
    let (pa, pb, pc, pd) = (a * s1, m * t1, b * s2, m * t2);
    assert((pa + pb) * (pc + pd) == pa * pc + pa * pd + pb * pc + pb * pd) by (nonlinear_arith);
    assert(pa * pc == (a * b) * (s1 * s2)) by (nonlinear_arith)
        requires
            pa == a * s1,
            pc == b * s2,
    ;
    assert(pa * pd == m * (a * s1 * t2)) by (nonlinear_arith)
        requires
            pa == a * s1,
            pd == m * t2,
    ;
    assert(pb * pc == m * (t1 * b * s2)) by (nonlinear_arith)
        requires
            pb == m * t1,
            pc == b * s2,
    ;
    assert(pb * pd == m * (m * t1 * t2)) by (nonlinear_arith)
        requires
            pb == m * t1,
            pd == m * t2,
    ;
    assert(m * (a * s1 * t2) + m * (t1 * b * s2) + m * (m * t1 * t2) == m * v) by (nonlinear_arith)
        requires
            v == a * s1 * t2 + t1 * b * s2 + m * t1 * t2,
    ;
    lemma_divides_combination(g, a * b, m, u, v);
    lemma_divides_one(g);
}

/// Splitting one factor out of a product.
pub proof fn lemma_prod_remove(s: Seq<isize>, i: int)
    requires
        0 <= i < s.len(),
    ensures
        prod_seq(s) == prod_seq(s.remove(i)) * s[i],
    decreases s.len(),
{
    if i == s.len() - 1 {
        assert(s.remove(i) =~= s.drop_last());
    } else {
        lemma_prod_remove(s.drop_last(), i);
        assert(s.remove(i).drop_last() =~= s.drop_last().remove(i));
        assert(s.remove(i).last() == s.last());
        let p = prod_seq(s.drop_last().remove(i));
        assert((p * s[i]) * s.last() == (p * s.last()) * s[i]) by (nonlinear_arith);
    }
}

/// A product of positive entries is positive, and at least each prefix product.
pub proof fn lemma_prod_prefix(s: Seq<isize>, k: int)
    requires
        0 <= k <= s.len(),
        forall|i: int| 0 <= i < s.len() ==> #[trigger] s[i] > 0,
    ensures
        1 <= prod_seq(s.take(k)) <= prod_seq(s),
    decreases s.len(),
{
    if s.len() == 0 {
        assert(s.take(k) =~= s);
    } else if k == s.len() {
        assert(s.take(k) =~= s);
        lemma_prod_prefix(s.drop_last(), 0);
        assert(s.take(k).drop_last() =~= s.drop_last());
        let p = prod_seq(s.drop_last());
        assert(p * s.last() >= 1) by (nonlinear_arith)
            requires
                p >= 1,
                s.last() >= 1,
        ;
    } else {
        lemma_prod_prefix(s.drop_last(), k);
        assert(s.drop_last().take(k) =~= s.take(k));
        let p = prod_seq(s.drop_last());
        assert(p <= p * s.last()) by (nonlinear_arith)
            requires
                p >= 1,
                s.last() >= 1,
        ;
    }
}

/// Every entry divides the product of the entries.
pub proof fn lemma_entry_divides_prod(s: Seq<isize>, j: int)
    requires
        0 <= j < s.len(),
        s[j] > 0,
    ensures
        divides(s[j] as int, prod_seq(s)),
{
    lemma_prod_remove(s, j);
    lemma_mod_multiples_basic(prod_seq(s.remove(j)), s[j] as int);
}

/// A product of entries that are each coprime with `m` is coprime with `m`.
pub proof fn lemma_prod_coprime(s: Seq<isize>, m: int)
    requires
        m > 0,
        forall|i: int| 0 <= i < s.len() ==> #[trigger] s[i] > 0,
        forall|i: int| 0 <= i < s.len() ==> gcd(#[trigger] s[i] as int, m) == 1,
    ensures
        gcd(prod_seq(s), m) == 1,
    decreases s.len(),
{
    if s.len() == 0 {
        lemma_gcd_divides(1, m);
        lemma_divides_one(gcd(1, m));
    } else {
        lemma_prod_coprime(s.drop_last(), m);
        lemma_prod_prefix(s.drop_last(), 0);
        assert(gcd(s.last() as int, m) == 1);
        lemma_coprime_mul(prod_seq(s.drop_last()), s.last() as int, m);
    }
}

/// Chinese remainder reconstruction: for pairwise coprime positive moduli and
/// one residue per modulus, returns a value congruent to each residue modulo
/// its modulus, hence unique modulo the product of the moduli.
pub fn chinese_remainder(rems: &[isize], moduli: &[isize]) -> (r: isize)
    requires
        rems@.len() == moduli@.len(),
        pairwise_coprime(moduli@),
        prod_seq(moduli@) <= isize::MAX,
        prod_seq(moduli@) * sum_abs(rems@) <= isize::MAX,
    ensures
        forall|i: int|
            0 <= i < moduli@.len() ==> (r - rems@[i]) % (#[trigger] moduli@[i] as int) == 0,
{
    let n = moduli.len();
    let ghost ms = moduli@;
    let ghost rs = rems@;
    let mut prod: isize = 1;
    let mut k: usize = 0;
    assert(ms.take(0).len() == 0);
    while k < n
        invariant
            k <= n,
            n == ms.len(),
            ms == moduli@,
            pairwise_coprime(ms),
            prod_seq(ms) <= isize::MAX,
            prod == prod_seq(ms.take(k as int)),
        decreases n - k,
    {
        proof {
            lemma_prod_prefix(ms, k + 1);
            assert(ms.take(k + 1).drop_last() =~= ms.take(k as int));
        }
        prod = prod * moduli[k];
        k = k + 1;
    }
    proof {
        assert(ms.take(n as int) =~= ms);
        lemma_prod_prefix(ms, 0);
        assert(sum_abs(rs.take(0)) == 0);
        lemma_sum_abs_prefix(rs, 0);
        assert forall|i: int| 0 <= i < n implies 0int % (#[trigger] ms[i] as int) == 0 by {
            lemma_mod_multiples_basic(0, ms[i] as int);
        }
    }
    let mut acc: isize = 0;
    let mut k: usize = 0;
    while k < n
        invariant
            k <= n,
            n == ms.len(),
            n == rs.len(),
            ms == moduli@,
            rs == rems@,
            pairwise_coprime(ms),
            prod == prod_seq(ms),
            1 <= prod <= isize::MAX,
            prod * sum_abs(rs) <= isize::MAX,
            abs(acc as int) <= prod * sum_abs(rs.take(k as int)),
            sum_abs(rs.take(k as int)) <= sum_abs(rs),
            forall|i: int|
                0 <= i < n ==> (acc - (if i < k {
                    rs[i] as int
                } else {
                    0
                })) % (#[trigger] ms[i] as int) == 0,
        decreases n - k,
    {
        let m = moduli[k];
        let ghost rest = ms.remove(k as int);
        proof {
            lemma_prod_remove(ms, k as int);
            vstd::arithmetic::div_mod::lemma_div_multiples_vanish(prod_seq(rest), m as int);
            assert(prod_seq(rest) * m == m * prod_seq(rest)) by (nonlinear_arith);
        }
        let x: isize = prod / m;
        proof {
            assert(x == prod_seq(rest));
            assert forall|i: int| 0 <= i < rest.len() implies #[trigger] rest[i] > 0 by {
                if i < k {
                    assert(rest[i] == ms[i]);
                } else {
                    assert(rest[i] == ms[i + 1]);
                }
            }
            assert forall|i: int| 0 <= i < rest.len() implies gcd(#[trigger] rest[i] as int, m as int)
                == 1 by {
                if i < k {
                    assert(rest[i] == ms[i]);
                    assert(gcd(ms[i] as int, ms[k as int] as int) == 1);
                } else {
                    assert(rest[i] == ms[i + 1]);
                    assert(gcd(ms[i + 1] as int, ms[k as int] as int) == 1);
                }
            }
            lemma_prod_coprime(rest, m as int);
            lemma_prod_prefix(rest, 0);
        }
        let (_, s, _t) = ext_euc_alg(x, m);
        proof {
            assert(abs(s as int) * x <= m * x) by (nonlinear_arith)
                requires
                    abs(s as int) <= m,
                    x >= 0,
            ;
            assert(abs(s * x) == abs(s as int) * x) by (nonlinear_arith)
                requires
                    x >= 0,
            ;
        }
        let sx: isize = s * x;
        let ghost rk = rs[k as int] as int;
        proof {
            assert(abs(sx * rk) <= prod * abs(rk)) by (nonlinear_arith)
                requires
                    abs(sx as int) <= prod,
            ;
            assert(rs.take(k + 1).drop_last() =~= rs.take(k as int));
            assert(prod * sum_abs(rs.take(k + 1)) == prod * sum_abs(rs.take(k as int)) + prod * abs(
                rk,
            )) by (nonlinear_arith)
                requires
                    sum_abs(rs.take(k + 1)) == sum_abs(rs.take(k as int)) + abs(rk),
            ;
            lemma_sum_abs_prefix(rs, k + 1);
            assert(prod * sum_abs(rs.take(k + 1)) <= prod * sum_abs(rs)) by (nonlinear_arith)
                requires
                    sum_abs(rs.take(k + 1)) <= sum_abs(rs),
                    prod >= 1,
            ;
        }
        let term: isize = sx * rems[k];
        let ghost old_acc = acc as int;
        acc = acc + term;
        proof {
            assert forall|i: int| 0 <= i < n implies (acc - (if i < k + 1 {
                rs[i] as int
            } else {
                0
            })) % (#[trigger] ms[i] as int) == 0 by {
                let mi = ms[i] as int;
                let prev = old_acc - (if i < k {
                    rs[i] as int
                } else {
                    0
                });
                assert(divides(mi, prev));
                if i == k {
                    // s·x ≡ 1 (mod m), so the new term is ≡ rems[k]
                    assert(term - rk == m * (-_t * rk)) by (nonlinear_arith)
                        requires
                            x * s + m * _t == 1,
                            term == sx * rk,
                            sx == s * x,
                    ;
                    lemma_mod_multiples_basic(-_t * rk, m as int);
                    assert(m * (-_t * rk) == (-_t * rk) * m) by (nonlinear_arith);
                    lemma_divides_combination(mi, prev, term - rk, 1, 1);
                } else {
                    let ii = if i < k {
                        i
                    } else {
                        i - 1
                    };
                    assert(rest[ii] == ms[i]);
                    lemma_entry_divides_prod(rest, ii);
                    lemma_divides_combination(mi, prev, x as int, 1, s * rk);
                    assert(term == x * (s * rk)) by (nonlinear_arith)
                        requires
                            term == sx * rk,
                            sx == s * x,
                    ;
                }
            }
        }
        k = k + 1;
    }
    proof {
        assert forall|i: int| 0 <= i < moduli@.len() implies (acc - rems@[i]) % (
        #[trigger] moduli@[i] as int) == 0 by {
            assert(ms[i] == moduli@[i]);
        }
    }
    acc
}

/// The sum of absolute values over a prefix is at most the whole sum.
pub proof fn lemma_sum_abs_prefix(s: Seq<isize>, k: int)
    requires
        0 <= k <= s.len(),
    ensures
        0 <= sum_abs(s.take(k)) <= sum_abs(s),
    decreases s.len(),
{
    if k == s.len() {
        assert(s.take(k) =~= s);
        if s.len() > 0 {
            lemma_sum_abs_prefix(s.drop_last(), 0);
            lemma_sum_abs_prefix(s.drop_last(), s.len() - 1);
        }
    } else {
        lemma_sum_abs_prefix(s.drop_last(), k);
        assert(s.drop_last().take(k) =~= s.take(k));
    }
}

} // verus!
