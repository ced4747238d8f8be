//! Evaluation of a polynomial at the powers of a root of unity, and the
//! inverse interpolation.
use super::polynomial::{eval_sum, poly_wf};
use super::z251::{inverse, Z251};
use vstd::arithmetic::power::pow;
use vstd::prelude::*;

verus! {

/// The polynomial `s` evaluated at `w^k`, as a field element.
pub open spec fn dft_entry(s: Seq<Z251>, w: int, k: int) -> Z251 {
    Z251::of(eval_sum(s, pow(w, k as nat) % 251))
}

/// The transform of `s` at `w`: entry `k` is `s` evaluated at `w^k`.
pub open spec fn dft_seq(s: Seq<Z251>, w: int) -> Seq<Z251> {
    Seq::new(s.len(), |k: int| dft_entry(s, w, k))
}

/// The inverse transform of `s` at `w`: entry `k` is `s` evaluated at
/// `w^-k`, times the inverse of `s.len()`.
pub open spec fn idft_seq(s: Seq<Z251>, w: int) -> Seq<Z251> {
    Seq::new(
        s.len(),
        |k: int| Z251::of(dft_entry(s, inverse(w), k).val() * inverse(s.len() as int)),
    )
}

/// `x^0, x^1, …, x^(n-1)`. Each call starts again at `x^0`.
pub fn powers(x: Z251, n: usize) -> (r: Vec<Z251>)
    requires
        x.wf(),
    ensures
        r@.len() == n,
        forall|i: int| 0 <= i < n ==> #[trigger] r@[i] == Z251::of(pow(x.val(), i as nat)),
{
    let mut r: Vec<Z251> = Vec::new();
    let mut cur = Z251 { inner: 1 };
    proof {
        vstd::arithmetic::power::lemma_pow0(x.val());
    }
    while r.len() < n
        invariant
            r@.len() <= n,
            x.wf(),
            cur == Z251::of(pow(x.val(), r@.len())),
            forall|i: int| 0 <= i < r@.len() ==> #[trigger] r@[i] == Z251::of(pow(x.val(), i as nat)),
        decreases n - r@.len(),
    {
        let ghost i = r@.len();
        r.push(cur);
        proof {
            vstd::arithmetic::div_mod::lemma_mod_bound(pow(x.val(), i), 251);
        }
        cur = cur.mul(x);
        proof {
            vstd::arithmetic::power::lemma_pow_adds(x.val(), i, 1);
            vstd::arithmetic::power::lemma_pow1(x.val());
            vstd::arithmetic::div_mod::lemma_mul_mod_noop_left(pow(x.val(), i), x.val(), 251);
        }
    }
    r
}

/// One step of the direct weighted sum.
proof fn lemma_eval_sum_take(s: Seq<Z251>, x: int, j: int)
    requires
        0 <= j < s.len(),
    ensures
        eval_sum(s.take(j + 1), x) == eval_sum(s.take(j), x) + s[j].val() * pow(x, j as nat),
{
    assert(s.take(j + 1).drop_last() =~= s.take(j));
}

/// `Σ seq[j]·x^j`, pairing the coefficients with the powers of `x`.
fn weighted_sum(seq: &[Z251], x: Z251) -> (r: Z251)
    requires
        poly_wf(seq@),
        x.wf(),
    ensures
        r == Z251::of(eval_sum(seq@, x.val())),
{
    let n = seq.len();
    let pw = powers(x, n);
    let mut acc = Z251 { inner: 0 };
    let mut j: usize = 0;
    assert(seq@.take(0).len() == 0);
    while j < n
        invariant
            j <= n,
            n == seq@.len(),
            pw@.len() == n,
            poly_wf(seq@),
            forall|i: int| 0 <= i < n ==> #[trigger] pw@[i] == Z251::of(pow(x.val(), i as nat)),
            acc == Z251::of(eval_sum(seq@.take(j as int), x.val())),
        decreases n - j,
    {
        let ghost e = eval_sum(seq@.take(j as int), x.val());
        let ghost p = pow(x.val(), j as nat);
        let ghost c = seq@[j as int].val();
        proof {
            vstd::arithmetic::div_mod::lemma_mod_bound(e, 251);
            vstd::arithmetic::div_mod::lemma_mod_bound(p, 251);
            vstd::arithmetic::div_mod::lemma_mod_bound(c * (p % 251), 251);
        }
        let term = seq[j].mul(pw[j]);
        acc = acc.add(term);
        proof {
            lemma_eval_sum_take(seq@, x.val(), j as int);
            vstd::arithmetic::div_mod::lemma_mul_mod_noop_right(c, p, 251);
            vstd::arithmetic::div_mod::lemma_add_mod_noop(e, c * p, 251);
        }
        j = j + 1;
    }
    assert(seq@.take(n as int) =~= seq@);
    acc
}

/// Discrete Fourier transform: entry `k` is the polynomial `seq` evaluated at
/// `root^k`. The caller provides a primitive `seq.len()`-th root of unity;
/// that is not checked.
pub fn dft(seq: &[Z251], root: Z251) -> (r: Vec<Z251>)
    requires
        poly_wf(seq@),
        root.wf(),
    ensures
        r@ == dft_seq(seq@, root.val()),
        forall|k: int| 0 <= k < seq@.len() ==> #[trigger] r@[k] == dft_entry(seq@, root.val(), k),
{
    let n = seq.len();
    let rs = powers(root, n);
    let mut r: Vec<Z251> = Vec::new();
    while r.len() < n
        invariant
            r@.len() <= n,
            n == seq@.len(),
            rs@.len() == n,
            poly_wf(seq@),
            forall|i: int| 0 <= i < n ==> #[trigger] rs@[i] == Z251::of(pow(root.val(), i as nat)),
            forall|k: int| 0 <= k < r@.len() ==> #[trigger] r@[k] == dft_entry(seq@, root.val(), k),
        decreases n - r@.len(),
    {
        let k = r.len();
        proof {
            vstd::arithmetic::div_mod::lemma_mod_bound(pow(root.val(), k as nat), 251);
        }
        let v = weighted_sum(seq, rs[k]);
        r.push(v);
    }
    assert(r@ =~= dft_seq(seq@, root.val()));
    r
}

/// Inverse discrete Fourier transform: entry `k` is `seq` evaluated at
/// `root^-k`, scaled by the inverse of `seq.len()`. The caller provides a
/// primitive `seq.len()`-th root of unity; that is not checked.
pub fn idft(seq: &[Z251], root: Z251) -> (r: Vec<Z251>)
    requires
        poly_wf(seq@),
        root.wf(),
        root.inner != 0,
        seq@.len() < 251,
    ensures
        r@ == idft_seq(seq@, root.val()),
{
    let n = seq.len();
    let mut r: Vec<Z251> = Vec::new();
    if n == 0 {
        assert(r@ =~= idft_seq(seq@, root.val()));
        return r;
    }
    let rinv = root.mul_inv();
    let ninv = Z251::from(n).mul_inv();
    let rs = powers(rinv, n);
    while r.len() < n
        invariant
            r@.len() <= n,
            n == seq@.len(),
            n < 251,
            rs@.len() == n,
            poly_wf(seq@),
            rinv.wf(),
            rinv.val() == inverse(root.val()),
            ninv.wf(),
            ninv.val() == inverse(n as int),
            forall|i: int| 0 <= i < n ==> #[trigger] rs@[i] == Z251::of(pow(rinv.val(), i as nat)),
            forall|k: int|
                0 <= k < r@.len() ==> #[trigger] r@[k] == Z251::of(
                    dft_entry(seq@, inverse(root.val()), k).val() * inverse(n as int),
                ),
        decreases n - r@.len(),
    {
        let k = r.len();
        proof {
            vstd::arithmetic::div_mod::lemma_mod_bound(pow(rinv.val(), k as nat), 251);
        }
        let v = weighted_sum(seq, rs[k]).mul(ninv);
        r.push(v);
    }
    assert(r@ =~= idft_seq(seq@, root.val()));
    r
}

} // verus!
