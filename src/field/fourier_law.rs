//! The inverse transform undoes the forward transform at a primitive root of
//! unity.
use super::fourier::{dft_entry, dft_seq, idft_seq};
use super::polynomial::{eval_sum, poly_wf};
use super::z251::{inverse, lemma_inverse_exists, Z251};
use vstd::arithmetic::div_mod::{
    lemma_add_mod_noop, lemma_mod_bound, lemma_mod_twice, lemma_mul_mod_noop_left,
    lemma_mul_mod_noop_right, lemma_small_mod,
};
use vstd::arithmetic::power::{
    lemma1_pow, lemma_pow0, lemma_pow1, lemma_pow_adds, lemma_pow_distributes, lemma_pow_mod_noop,
    lemma_pow_multiplies, pow,
};
use vstd::prelude::*;

verus! {

/// `w` is a primitive `n`-th root of unity modulo 251.
pub open spec fn is_primitive_root(w: int, n: nat) -> bool {
    &&& pow(w, n) % 251 == 1
    &&& forall|m: nat| 0 < m < n ==> #[trigger] pow(w, m) % 251 != 1
}

/// `Σ_{j < m} h(i, j)`.
pub open spec fn row_sum(h: spec_fn(int, int) -> int, i: int, m: nat) -> int
    decreases m,
{
    if m == 0 {
        0
    } else {
        row_sum(h, i, (m - 1) as nat) + h(i, m - 1)
    }
}

/// `Σ_{i < n} h(i, j)`.
pub open spec fn col_sum(h: spec_fn(int, int) -> int, j: int, n: nat) -> int
    decreases n,
{
    if n == 0 {
        0
    } else {
        col_sum(h, j, (n - 1) as nat) + h(n - 1, j)
    }
}

/// `Σ_{i < n} Σ_{j < m} h(i, j)`, rows first.
pub open spec fn sum_rows(h: spec_fn(int, int) -> int, n: nat, m: nat) -> int
    decreases n,
{
    if n == 0 {
        0
    } else {
        sum_rows(h, (n - 1) as nat, m) + row_sum(h, n - 1, m)
    }
}

/// `Σ_{j < m} Σ_{i < n} h(i, j)`, columns first.
pub open spec fn sum_cols(h: spec_fn(int, int) -> int, n: nat, m: nat) -> int
    decreases m,
{
    if m == 0 {
        0
    } else {
        sum_cols(h, n, (m - 1) as nat) + col_sum(h, m - 1, n)
    }
}

/// `Σ_{j < n} y^j`.
pub open spec fn geo(y: int, n: nat) -> int
    decreases n,
{
    if n == 0 {
        0
    } else {
        geo(y, (n - 1) as nat) + pow(y, (n - 1) as nat)
    }
}

proof fn lemma_sum_cols_peel(h: spec_fn(int, int) -> int, n: nat, m: nat)
    requires
        n > 0,
    ensures
        sum_cols(h, n, m) == sum_cols(h, (n - 1) as nat, m) + row_sum(h, n - 1, m),
    decreases m,
{
    if m > 0 {
        lemma_sum_cols_peel(h, n, (m - 1) as nat);
    }
}

/// A finite double sum may be taken in either order.
pub proof fn lemma_sum_swap(h: spec_fn(int, int) -> int, n: nat, m: nat)
    ensures
        sum_rows(h, n, m) == sum_cols(h, n, m),
    decreases n,
{
    if n == 0 {
        lemma_sum_cols_zero(h, m);
    } else {
        lemma_sum_swap(h, (n - 1) as nat, m);
        lemma_sum_cols_peel(h, n, m);
    }
}

proof fn lemma_sum_cols_zero(h: spec_fn(int, int) -> int, m: nat)
    ensures
        sum_cols(h, 0, m) == 0,
    decreases m,
{
    if m > 0 {
        lemma_sum_cols_zero(h, (m - 1) as nat);
    }
}

/// `Σ s[i]·x^i` is determined by `x` modulo 251, up to a multiple of 251.
proof fn lemma_eval_sum_mod(s: Seq<Z251>, x: int)
    ensures
        eval_sum(s, x % 251) % 251 == eval_sum(s, x) % 251,
    decreases s.len(),
{
    if s.len() > 0 {
        let e = (s.len() - 1) as nat;
        lemma_eval_sum_mod(s.drop_last(), x);
        let a1 = eval_sum(s.drop_last(), x % 251);
        let a2 = eval_sum(s.drop_last(), x);
        let c = s.last().val();
        lemma_pow_mod_noop(x, e, 251);
        lemma_mul_mod_noop_right(c, pow(x % 251, e), 251);
        lemma_mul_mod_noop_right(c, pow(x, e), 251);
        lemma_add_mod_noop(a1, c * pow(x % 251, e), 251);
        lemma_add_mod_noop(a2, c * pow(x, e), 251);
    }
}

/// A column of `h` that lists `s[i]·x^i·c` sums to `(Σ s[i]·x^i)·c`.
proof fn lemma_col_eval(h: spec_fn(int, int) -> int, s: Seq<Z251>, x: int, c: int, j: int, t: nat)
    requires
        t <= s.len(),
        forall|i: int| 0 <= i < s.len() ==> #[trigger] h(i, j) == s[i].val() * pow(x, i as nat) * c,
    ensures
        col_sum(h, j, t) == eval_sum(s.take(t as int), x) * c,
    decreases t,
{
    if t > 0 {
        lemma_col_eval(h, s, x, c, j, (t - 1) as nat);
        assert(s.take(t as int).drop_last() =~= s.take(t - 1));
        let a = eval_sum(s.take(t - 1), x);
        let b = s[t - 1].val() * pow(x, (t - 1) as nat);
        assert((a + b) * c == a * c + s[t - 1].val() * pow(x, (t - 1) as nat) * c)
            by (nonlinear_arith)
            requires
                b == s[t - 1].val() * pow(x, (t - 1) as nat),
        ;
    }
}

/// A row of `f` that lists `s[j]·x^j` sums to `Σ s[j]·x^j`.
proof fn lemma_row_eval(f: spec_fn(int, int) -> int, s: Seq<Z251>, x: int, i: int, t: nat)
    requires
        t <= s.len(),
        forall|j: int| 0 <= j < s.len() ==> #[trigger] f(i, j) == s[j].val() * pow(x, j as nat),
    ensures
        row_sum(f, i, t) == eval_sum(s.take(t as int), x),
    decreases t,
{
    if t > 0 {
        lemma_row_eval(f, s, x, i, (t - 1) as nat);
        assert(s.take(t as int).drop_last() =~= s.take(t - 1));
    }
}

/// Rows that agree modulo 251 with the column sums of `h` add up to the same
/// total modulo 251.
proof fn lemma_row_cols_mod(f: spec_fn(int, int) -> int, h: spec_fn(int, int) -> int, i0: int, n: nat, m: nat)
    requires
        forall|j: int| 0 <= j < m ==> #[trigger] f(i0, j) % 251 == col_sum(h, j, n) % 251,
    ensures
        row_sum(f, i0, m) % 251 == sum_cols(h, n, m) % 251,
    decreases m,
{
    if m > 0 {
        lemma_row_cols_mod(f, h, i0, n, (m - 1) as nat);
        let a = row_sum(f, i0, (m - 1) as nat);
        let b = sum_cols(h, n, (m - 1) as nat);
        lemma_add_mod_noop(a, f(i0, m - 1), 251);
        lemma_add_mod_noop(b, col_sum(h, m - 1, n), 251);
    }
}

/// A row of the form `c·y^j` sums to `c·Σ y^j`.
proof fn lemma_row_geo(h: spec_fn(int, int) -> int, i: int, c: int, y: int, t: nat)
    requires
        forall|j: int| 0 <= j < t ==> #[trigger] h(i, j) == c * pow(y, j as nat),
    ensures
        row_sum(h, i, t) == c * geo(y, t),
    decreases t,
{
    if t > 0 {
        lemma_row_geo(h, i, c, y, (t - 1) as nat);
        let g = geo(y, (t - 1) as nat);
        assert(c * g + c * pow(y, (t - 1) as nat) == c * (g + pow(y, (t - 1) as nat)))
            by (nonlinear_arith);
    }
}

/// Telescoping: `(Σ_{j<n} y^j)·(y - 1) == y^n - 1`.
proof fn lemma_geo_telescope(y: int, n: nat)
    ensures
        geo(y, n) * (y - 1) == pow(y, n) - 1,
    decreases n,
{
    if n == 0 {
        lemma_pow0(y);
    } else {
        lemma_geo_telescope(y, (n - 1) as nat);
        let g = geo(y, (n - 1) as nat);
        let q = pow(y, (n - 1) as nat);
        lemma_pow_adds(y, (n - 1) as nat, 1);
        lemma_pow1(y);
        assert((g + q) * (y - 1) == g * (y - 1) + q * y - q) by (nonlinear_arith);
    }
}

/// At `y ≡ 1`, the geometric sum of `n` terms is `n` modulo 251.
proof fn lemma_geo_one(y: int, n: nat)
    requires
        y % 251 == 1,
    ensures
        geo(y, n) % 251 == n as int % 251,
    decreases n,
{
    if n > 0 {
        let e = (n - 1) as nat;
        lemma_geo_one(y, e);
        lemma_pow_mod_noop(y, e, 251);
        lemma1_pow(e);
        lemma_add_mod_noop(geo(y, e), pow(y, e), 251);
        lemma_add_mod_noop(e as int, 1, 251);
        lemma_small_mod(1, 251);
    }
}

/// At an `n`-th root of unity `y ≢ 1`, the geometric sum of `n` terms is
/// divisible by 251.
proof fn lemma_geo_vanishes(y: int, n: nat)
    requires
        pow(y, n) % 251 == 1,
        y % 251 != 1,
    ensures
        geo(y, n) % 251 == 0,
{
    let g = geo(y, n);
    lemma_geo_telescope(y, n);
    // (y - 1)·g ≡ 0 and y - 1 is invertible
    assert((g * (y - 1)) % 251 == 0) by {
        lemma_add_mod_noop(pow(y, n), -1, 251);
        lemma_mod_bound(pow(y, n), 251);
    }
    let a = (y - 1) % 251;
    lemma_mod_bound(y - 1, 251);
    assert(a != 0) by {
        lemma_add_mod_noop(y - 1, 1, 251);
        lemma_mod_bound(y, 251);
        lemma_small_mod(1, 251);
        if a == 0 {
            lemma_mod_twice(y - 1, 251);
        }
    }
    lemma_inverse_exists(a);
    let u = inverse(a);
    lemma_mul_mod_noop_right(g, y - 1, 251);
    // g ≡ g·(a·u) ≡ (g·a)·u ≡ 0
    lemma_mul_mod_noop_right(g, a * u, 251);
    assert(g * (a * u) == (g * a) * u) by (nonlinear_arith);
    lemma_mul_mod_noop_left(g * a, u, 251);
    assert(g * 1 == g);
}

/// Rows that are each `≡ [i == k]·v` add up to `v` modulo 251.
proof fn lemma_sum_rows_indicator(h: spec_fn(int, int) -> int, t: nat, m: nat, k: int, v: int)
    requires
        forall|i: int| 0 <= i < t ==> #[trigger] row_sum(h, i, m) % 251 == (if i == k {
            v
        } else {
            0
        }) % 251,
    ensures
        sum_rows(h, t, m) % 251 == (if 0 <= k < t {
            v
        } else {
            0
        }) % 251,
    decreases t,
{
    if t > 0 {
        lemma_sum_rows_indicator(h, (t - 1) as nat, m, k, v);
        let a = sum_rows(h, (t - 1) as nat, m);
        let b = row_sum(h, t - 1, m);
        lemma_add_mod_noop(a, b, 251);
        let va = (if 0 <= k < t - 1 {
            v
        } else {
            0
        });
        let vb = (if t - 1 == k {
            v
        } else {
            0
        });
        lemma_add_mod_noop(va, vb, 251);
    }
}

/// `(a·b) % 251` depends only on `a % 251` and `b % 251`.
proof fn lemma_mul_mod(a: int, b: int)
    ensures
        ((a % 251) * (b % 251)) % 251 == (a * b) % 251,
{
    lemma_mul_mod_noop_left(a, b % 251, 251);
    lemma_mul_mod_noop_right(a, b, 251);
}

/// The `m`-th power of an inverse of `w` is 1 only where `w^m` is.
proof fn lemma_inverse_pow(w: int, wi: int, m: nat)
    requires
        (w * wi) % 251 == 1,
    ensures
        pow(w * wi, m) % 251 == 1,
        pow(wi, m) % 251 == 1 ==> pow(w, m) % 251 == 1,
{
    lemma_pow_mod_noop(w * wi, m, 251);
    lemma1_pow(m);
    lemma_small_mod(1, 251);
    lemma_pow_distributes(w, wi, m);
    if pow(wi, m) % 251 == 1 {
        lemma_mul_mod(pow(w, m), pow(wi, m));
        lemma_mod_twice(pow(w, m), 251);
        assert((pow(w, m) % 251) * 1 == pow(w, m) % 251);
    }
}

/// With `z = wi^k` for an inverse `wi` of a primitive `n`-th root `w`, the
/// point `w^i·z` is an `n`-th root of unity, equal to 1 exactly when `i == k`.
proof fn lemma_twiddle(w: int, wi: int, n: nat, i: nat, k: nat)
    requires
        is_primitive_root(w, n),
        (w * wi) % 251 == 1,
        i < n,
        k < n,
    ensures
        pow(pow(w, i) * (pow(wi, k) % 251), n) % 251 == 1,
        (pow(w, i) * (pow(wi, k) % 251)) % 251 == 1 <==> i == k,
{
    let z = pow(wi, k) % 251;
    let y = pow(w, i) * z;
    // y^n ≡ 1
    lemma_pow_distributes(pow(w, i), z, n);
    lemma_pow_multiplies(w, i, n);
    lemma_pow_multiplies(w, n, i);
    assert(i * n == n * i) by (nonlinear_arith);
    lemma_pow_mod_noop(pow(w, n), i, 251);
    lemma1_pow(i);
    lemma_small_mod(1, 251);
    lemma_pow_mod_noop(pow(wi, k), n, 251);
    lemma_pow_multiplies(wi, k, n);
    lemma_pow_multiplies(wi, n, k);
    assert(k * n == n * k) by (nonlinear_arith);
    lemma_inverse_pow(w, wi, n);
    // wi^n ≡ 1 since w^n·wi^n ≡ 1 and w^n ≡ 1
    assert(pow(wi, n) % 251 == 1) by {
        lemma_pow_distributes(w, wi, n);
        lemma_mul_mod(pow(w, n), pow(wi, n));
        lemma_mod_twice(pow(wi, n), 251);
        assert(1 * (pow(wi, n) % 251) == pow(wi, n) % 251);
    }
    lemma_pow_mod_noop(pow(wi, n), k, 251);
    lemma1_pow(k);
    lemma_mul_mod(pow(pow(w, i), n), pow(z, n));
    // y ≡ w^(i-k) or wi^(k-i)
    lemma_mul_mod_noop_right(pow(w, i), pow(wi, k), 251);
    if i >= k {
        let d = (i - k) as nat;
        lemma_pow_adds(w, d, k);
        lemma_inverse_pow(w, wi, k);
        lemma_pow_distributes(w, wi, k);
        assert(pow(w, i) * pow(wi, k) == pow(w, d) * pow(w * wi, k)) by (nonlinear_arith)
            requires
                pow(w, i) == pow(w, d) * pow(w, k),
                pow(w * wi, k) == pow(w, k) * pow(wi, k),
        ;
        lemma_mul_mod(pow(w, d), pow(w * wi, k));
        lemma_mod_twice(pow(w, d), 251);
        assert((pow(w, d) % 251) * 1 == pow(w, d) % 251);
        lemma_mod_twice(pow(w, d), 251);
        if d == 0 {
            lemma_pow0(w);
        }
    } else {
        let d = (k - i) as nat;
        lemma_pow_adds(wi, d, i);
        lemma_inverse_pow(w, wi, i);
        lemma_pow_distributes(w, wi, i);
        assert(pow(w, i) * pow(wi, k) == pow(wi, d) * pow(w * wi, i)) by (nonlinear_arith)
            requires
                pow(wi, k) == pow(wi, d) * pow(wi, i),
                pow(w * wi, i) == pow(w, i) * pow(wi, i),
        ;
        lemma_mul_mod(pow(wi, d), pow(w * wi, i));
        lemma_mod_twice(pow(wi, d), 251);
        assert((pow(wi, d) % 251) * 1 == pow(wi, d) % 251);
        lemma_inverse_pow(w, wi, d);
    }
}

/// Row `i` of the matrix `p[i]·w^(i·j)·z^j` sums to `p[k]·n` modulo 251 at
/// `i == k` and to 0 elsewhere.
proof fn lemma_row_of_h(
    p: Seq<Z251>,
    w: int,
    wi: int,
    z: int,
    h: spec_fn(int, int) -> int,
    i: nat,
    k: nat,
)
    requires
        is_primitive_root(w, p.len()),
        (w * wi) % 251 == 1,
        i < p.len(),
        k < p.len(),
        z == pow(wi, k) % 251,
        forall|a: int, b: int|
            #[trigger] h(a, b) == p[a].val() * pow(pow(w, b as nat), a as nat) * pow(z, b as nat),
    ensures
        row_sum(h, i as int, p.len()) % 251 == (if i == k {
            p[k as int].val() * p.len()
        } else {
            0
        }) % 251,
{
    let n = p.len();
    let c = p[i as int].val();
    let y = pow(w, i) * z;
    assert forall|j: int| 0 <= j < n implies #[trigger] h(i as int, j) == c * pow(y, j as nat) by {
        lemma_pow_multiplies(w, j as nat, i);
        lemma_pow_multiplies(w, i, j as nat);
        assert(j * i == i * j) by (nonlinear_arith);
        lemma_pow_distributes(pow(w, i), z, j as nat);
        assert(c * pow(pow(w, i), j as nat) * pow(z, j as nat) == c * (pow(pow(w, i), j as nat)
            * pow(z, j as nat))) by (nonlinear_arith);
    }
    lemma_row_geo(h, i as int, c, y, n);
    lemma_twiddle(w, wi, n, i, k);
    if i == k {
        lemma_geo_one(y, n);
        lemma_mul_mod_noop_right(c, geo(y, n), 251);
        lemma_mul_mod_noop_right(c, n as int, 251);
    } else {
        lemma_geo_vanishes(y, n);
        lemma_mul_mod_noop_right(c, geo(y, n), 251);
    }
}

/// Inverting the transform undoes it: for a primitive `n`-th root of unity
/// `root`, with `n = p.len()` between 1 and 250, the inverse transform of
/// the transform of `p` is `p`.
pub proof fn lemma_dft_round_trip(p: Seq<Z251>, root: Z251)
    requires
        poly_wf(p),
        root.wf(),
        0 < p.len() < 251,
        is_primitive_root(root.val(), p.len()),
    ensures
        idft_seq(dft_seq(p, root.val()), root.val()) == p,
{
    let n = p.len();
    let w = root.val();
    assert(w != 0) by {
        if w == 0 {
            vstd::arithmetic::power::lemma0_pow(n);
            lemma_small_mod(0, 251);
        }
    }
    lemma_inverse_exists(w);
    let wi = inverse(w);
    lemma_inverse_exists(n as int);
    let ni = inverse(n as int);
    let d = dft_seq(p, w);
    assert forall|k: int| 0 <= k < n implies #[trigger] idft_seq(d, w)[k] == p[k] by {
        let z = pow(wi, k as nat) % 251;
        let h = |i: int, j: int| p[i].val() * pow(pow(w, j as nat), i as nat) * pow(z, j as nat);
        let f = |i: int, j: int| d[j].val() * pow(z, j as nat);
        // the transform entry at k, as one row of f
        lemma_row_eval(f, d, z, 0, n);
        assert(d.take(n as int) =~= d);
        // each term agrees with a column of h
        assert forall|j: int| 0 <= j < n implies #[trigger] f(0, j) % 251 == col_sum(h, j, n) % 251 by {
            let x = pow(w, j as nat);
            assert forall|i: int| 0 <= i < p.len() implies #[trigger] h(i, j) == p[i].val() * pow(
                x,
                i as nat,
            ) * pow(z, j as nat) by {}
            lemma_col_eval(h, p, x, pow(z, j as nat), j, n);
            assert(p.take(n as int) =~= p);
            lemma_eval_sum_mod(p, x);
            lemma_mod_bound(eval_sum(p, x % 251), 251);
            assert(d[j].val() == eval_sum(p, x % 251) % 251);
            lemma_mul_mod_noop_left(eval_sum(p, x % 251), pow(z, j as nat), 251);
            lemma_mul_mod_noop_left(eval_sum(p, x), pow(z, j as nat), 251);
        }
        lemma_row_cols_mod(f, h, 0, n, n);
        lemma_sum_swap(h, n, n);
        // each row of h is p[i]·Σ (w^i·z)^j
        assert forall|i: int| 0 <= i < n implies #[trigger] row_sum(h, i, n) % 251 == (if i == k {
            p[k].val() * n
        } else {
            0
        }) % 251 by {
            lemma_row_of_h(p, w, wi, z, h, i as nat, k as nat);
        }
        lemma_sum_rows_indicator(h, n, n, k, p[k].val() * n);
        // scale by the inverse of n
        let t = eval_sum(d, z);
        assert(t % 251 == (p[k].val() * n) % 251);
        assert(dft_entry(d, wi, k).val() == t % 251) by {
            lemma_mod_bound(t, 251);
        }
        lemma_mul_mod_noop_left(t, ni, 251);
        lemma_mul_mod_noop_left(p[k].val() * n, ni, 251);
        assert((p[k].val() * n) * ni == p[k].val() * (n * ni)) by (nonlinear_arith);
        lemma_mul_mod_noop_right(p[k].val(), n * ni, 251);
        lemma_small_mod(p[k].inner as nat, 251);
        lemma_mod_bound(t % 251 * ni, 251);
    }
    assert(idft_seq(d, w) =~= p);
}

} // verus!
