//! The integers modulo the prime 251, a small field for exercising the
//! protocol logic.
use super::{
    ext_euc_alg, gcd, lemma_bezout, lemma_divisor_le, lemma_gcd_divides, Field, FieldIdentity,
};
use vstd::prelude::*;

verus! {

/// An element of the integers modulo 251, held as its representative in `0..251`.
#[derive(Clone, Copy, Debug, PartialEq, Eq, Structural, Hash)]
pub struct Z251 {
    pub inner: u8,
}

/// Errors of the field and polynomial layer.
#[derive(Clone, Copy, Debug, PartialEq, Eq, Structural)]
pub enum FieldError {
    /// The inverse of zero was asked for.
    DivisionByZero,
    /// An argument had the wrong shape: a zero divisor polynomial, or point
    /// sets over different indices.
    MalformedInput,
}

/// 251 has no divisor strictly between 1 and itself.
pub proof fn lemma_251_prime(d: int)
    requires
        1 < d < 251,
    ensures
        251int % d != 0,
{
    let dd = d as u16;
    assert(forall|x: u16| 1 < x && x < 251 ==> #[trigger] (251u16 % x) != 0u16) by (bit_vector);
    assert(251u16 % dd != 0u16);
}

/// `b` is the representative in `0..251` of an inverse of `a` modulo 251.
pub open spec fn is_inverse(a: int, b: int) -> bool {
    0 <= b < 251 && (a * b) % 251 == 1
}

/// The inverse of `a` modulo 251, for `a` not divisible by 251.
pub open spec fn inverse(a: int) -> int {
    choose|b: int| is_inverse(a, b)
}

/// An inverse modulo 251 is unique.
pub proof fn lemma_inverse_unique(a: int, b: int)
    requires
        is_inverse(a, b),
    ensures
        inverse(a) == b,
{
    let c = inverse(a);
    assert(is_inverse(a, c));
    // b ≡ b·(a·c) ≡ (a·b)·c ≡ c
    vstd::arithmetic::div_mod::lemma_mul_mod_noop_right(b, a * c, 251);
    vstd::arithmetic::div_mod::lemma_mul_mod_noop_left(a * b, c, 251);
    assert(b * (a * c) == (a * b) * c) by (nonlinear_arith);
    vstd::arithmetic::div_mod::lemma_small_mod(b as nat, 251);
    vstd::arithmetic::div_mod::lemma_small_mod(c as nat, 251);
}

/// Every `a` in `1..251` is coprime with 251.
pub proof fn lemma_coprime_251(a: int)
    requires
        0 < a < 251,
    ensures
        gcd(a, 251) == 1,
{
    lemma_gcd_divides(a, 251);
    lemma_divisor_le(gcd(a, 251), a);
    if gcd(a, 251) != 1 {
        lemma_251_prime(gcd(a, 251));
    }
}

/// Every `a` in `1..251` has an inverse modulo 251.
pub proof fn lemma_inverse_exists(a: int)
    requires
        0 < a < 251,
    ensures
        is_inverse(a, inverse(a)),
{
    lemma_coprime_251(a);
    let (s, t) = lemma_bezout(a, 251);
    let b = s % 251;
    vstd::arithmetic::div_mod::lemma_mod_bound(s, 251);
    vstd::arithmetic::div_mod::lemma_mul_mod_noop_right(a, s, 251);
    assert(a * s == 1 + 251 * (-t)) by (nonlinear_arith)
        requires
            a * s + 251 * t == 1,
    ;
    vstd::arithmetic::div_mod::lemma_mod_multiples_vanish(-t, 1, 251);
    assert(is_inverse(a, b));
}

/// A nonzero element times its inverse is one.
pub proof fn lemma_mul_inv_law(a: Z251)
    requires
        a.wf(),
        a.inner != 0,
    ensures
        Z251::of(a.val() * inverse(a.val())) == (Z251 { inner: 1 }),
{
    lemma_inverse_exists(a.val());
}

/// Subtracting `b` and adding it back returns `a`.
pub proof fn lemma_sub_add_law(a: Z251, b: Z251)
    requires
        a.wf(),
        b.wf(),
    ensures
        Z251::of(Z251::of(a.val() - b.val()).val() + b.val()) == a,
{
    vstd::arithmetic::div_mod::lemma_add_mod_noop(a.val() - b.val(), b.val(), 251);
    vstd::arithmetic::div_mod::lemma_mod_twice(b.val(), 251);
    vstd::arithmetic::div_mod::lemma_small_mod(b.inner as nat, 251);
    vstd::arithmetic::div_mod::lemma_small_mod(a.inner as nat, 251);
    vstd::arithmetic::div_mod::lemma_mod_bound(a.val() - b.val(), 251);
}

/// Sum of the representatives.
pub open spec fn sum_vals(s: Seq<Z251>) -> int
    decreases s.len(),
{
    if s.len() == 0 {
        0
    } else {
        sum_vals(s.drop_last()) + s.last().val()
    }
}

impl Z251 {
    /// Sum of all the elements, modulo 251.
    pub fn sum(elems: &[Z251]) -> (r: Z251)
        ensures
            r == Z251::of(sum_vals(elems@)),
    {
        let mut acc = Z251 { inner: 0 };
        let mut i: usize = 0;
        assert(elems@.take(0).len() == 0);
        while i < elems.len()
            invariant
                i <= elems@.len(),
                acc == Z251::of(sum_vals(elems@.take(i as int))),
            decreases elems@.len() - i,
        {
            let ghost e = sum_vals(elems@.take(i as int));
            assert(elems@.take(i + 1).drop_last() =~= elems@.take(i as int));
            proof {
                vstd::arithmetic::div_mod::lemma_mod_bound(e, 251);
                vstd::arithmetic::div_mod::lemma_add_mod_noop(e, elems@[i as int].val(), 251);
                vstd::arithmetic::div_mod::lemma_add_mod_noop(e % 251, elems@[i as int].val(), 251);
                vstd::arithmetic::div_mod::lemma_mod_twice(e, 251);
            }
            acc = acc.add(elems[i]);
            i = i + 1;
        }
        assert(elems@.take(elems@.len() as int) =~= elems@);
        acc
    }
}

impl Z251 {
    /// The element is reduced below the modulus.
    pub open spec fn wf(self) -> bool {
        self.inner < 251
    }

    /// The element as an integer in `0..251`.
    pub open spec fn val(self) -> int {
        self.inner as int
    }

    /// The element whose representative is `x mod 251`.
    pub open spec fn of(x: int) -> Z251 {
        Z251 { inner: (x % 251) as u8 }
    }

    /// Embeds an integer below 251.
    pub fn from(n: usize) -> (r: Z251)
        requires
            n < 251,
        ensures
            r.inner == n,
    {
        Z251 { inner: n as u8 }
    }

    /// The representative as a `usize`.
    pub fn into(self) -> (r: usize)
        ensures
            r == self.inner,
    {
        self.inner as usize
    }

    /// Sum modulo 251.
    pub fn add(self, rhs: Z251) -> (r: Z251)
        ensures
            r == Z251::of(self.val() + rhs.val()),
            r.wf(),
    {
        let sum: u16 = self.inner as u16 + rhs.inner as u16;
        Z251 { inner: (sum % 251) as u8 }
    }

    /// Additive inverse modulo 251.
    pub fn neg(self) -> (r: Z251)
        requires
            self.wf(),
        ensures
            r == Z251::of(-self.val()),
            r.wf(),
    {
        if self.inner == 0 {
            Z251 { inner: 0 }
        } else {
            proof {
                assert((-self.val()) % 251 == 251 - self.val()) by {
                    vstd::arithmetic::div_mod::lemma_mod_add_multiples_vanish(-self.val(), 251);
                    vstd::arithmetic::div_mod::lemma_small_mod((251 - self.val()) as nat, 251);
                }
            }
            Z251 { inner: 251 - self.inner }
        }
    }

    /// Difference modulo 251.
    pub fn sub(self, rhs: Z251) -> (r: Z251)
        requires
            self.wf(),
            rhs.wf(),
        ensures
            r == Z251::of(self.val() - rhs.val()),
            r.wf(),
    {
        let n = rhs.neg();
        proof {
            vstd::arithmetic::div_mod::lemma_add_mod_noop(self.val(), -rhs.val(), 251);
            vstd::arithmetic::div_mod::lemma_mod_twice(self.val(), 251);
            vstd::arithmetic::div_mod::lemma_small_mod(self.inner as nat, 251);
        }
        self.add(n)
    }

    /// Product modulo 251.
    pub fn mul(self, rhs: Z251) -> (r: Z251)
        ensures
            r == Z251::of(self.val() * rhs.val()),
            r.wf(),
    {
        proof {
            assert(self.inner * rhs.inner <= 255 * 255) by (nonlinear_arith)
                requires
                    self.inner <= 255,
                    rhs.inner <= 255,
            ;
        }
        let product: u16 = (self.inner as u16) * (rhs.inner as u16);
        Z251 { inner: (product % 251) as u8 }
    }

    /// The multiplicative inverse of a nonzero element, from the Bézout
    /// coefficient that the extended Euclidean algorithm gives.
    pub fn mul_inv(self) -> (r: Z251)
        requires
            self.wf(),
            self.inner != 0,
        ensures
            r.wf(),
            (self.val() * r.val()) % 251 == 1,
            r.val() == inverse(self.val()),
    {
        let (_g, s, _t) = ext_euc_alg(self.inner as isize, 251);
        proof {
            lemma_coprime_251(self.val());
        }
        let inv: isize = if s < 0 {
            proof {
                assert(self.val() * (s + 251) == self.val() * s + 251 * self.val())
                    by (nonlinear_arith);
                vstd::arithmetic::div_mod::lemma_mod_multiples_vanish(
                    self.val(),
                    self.val() * s,
                    251,
                );
            }
            s + 251
        } else {
            s
        };
        proof {
            if inv == 251 {
                assert(self.val() * 251 == 251 * self.val()) by (nonlinear_arith);
                vstd::arithmetic::div_mod::lemma_mod_multiples_basic(self.val(), 251);
            }
            lemma_inverse_unique(self.val(), inv as int);
        }
        Z251 { inner: inv as u8 }
    }

    /// The inverse, or `DivisionByZero` for the zero element.
    pub fn checked_mul_inv(self) -> (r: Result<Z251, FieldError>)
        requires
            self.wf(),
        ensures
            self.inner == 0 <==> r == Err::<Z251, FieldError>(FieldError::DivisionByZero),
            self.inner != 0 ==> r is Ok,
            r is Ok ==> r->Ok_0.wf() && r->Ok_0.val() == inverse(self.val()) && (self.val()
                * r->Ok_0.val()) % 251 == 1,
    {
        if self.inner == 0 {
            Err(FieldError::DivisionByZero)
        } else {
            Ok(self.mul_inv())
        }
    }

    /// The quotient `self / rhs`, or `DivisionByZero` when `rhs` is zero.
    pub fn checked_div(self, rhs: Z251) -> (r: Result<Z251, FieldError>)
        requires
            self.wf(),
            rhs.wf(),
        ensures
            rhs.inner == 0 <==> r == Err::<Z251, FieldError>(FieldError::DivisionByZero),
            rhs.inner != 0 ==> r == Ok::<Z251, FieldError>(
                Z251::of(self.val() * inverse(rhs.val())),
            ),
    {
        if rhs.inner == 0 {
            Err(FieldError::DivisionByZero)
        } else {
            Ok(self.div(rhs))
        }
    }

    /// The element whose representative is `b mod 251`.
    pub fn from_byte(b: u8) -> (r: Z251)
        ensures
            r.inner == b % 251,
            r.wf(),
    {
        Z251 { inner: b % 251 }
    }

    /// Quotient by a nonzero element.
    pub fn div(self, rhs: Z251) -> (r: Z251)
        requires
            self.wf(),
            rhs.wf(),
            rhs.inner != 0,
        ensures
            r.wf(),
            r == Z251::of(self.val() * inverse(rhs.val())),
            (r.val() * rhs.val()) % 251 == self.val(),
    {
        let inv = rhs.mul_inv();
        let r = self.mul(inv);
        proof {
            let a = self.val();
            let b = rhs.val();
            let i = inv.val();
            vstd::arithmetic::div_mod::lemma_mul_mod_noop_left(a * i, b, 251);
            assert((a * i) * b == a * (b * i)) by (nonlinear_arith);
            vstd::arithmetic::div_mod::lemma_mul_mod_noop_right(a, b * i, 251);
            vstd::arithmetic::div_mod::lemma_small_mod(a as nat, 251);
        }
        r
    }
}


impl std::ops::Add for Z251 {
    type Output = Z251;

    fn add(self, rhs: Z251) -> (r: Z251) {
        Z251::add(self, rhs)
    }
}

impl vstd::std_specs::ops::AddSpecImpl for Z251 {
    open spec fn obeys_add_spec() -> bool {
        true
    }

    open spec fn add_req(self, rhs: Z251) -> bool {
        true
    }

    open spec fn add_spec(self, rhs: Z251) -> Z251 {
        Z251::of(self.val() + rhs.val())
    }
}

impl std::ops::Neg for Z251 {
    type Output = Z251;

    fn neg(self) -> (r: Z251) {
        Z251::neg(self)
    }
}

impl vstd::std_specs::ops::NegSpecImpl for Z251 {
    open spec fn obeys_neg_spec() -> bool {
        true
    }

    open spec fn neg_req(self) -> bool {
        self.wf()
    }

    open spec fn neg_spec(self) -> Z251 {
        Z251::of(-self.val())
    }
}

impl std::ops::Sub for Z251 {
    type Output = Z251;

    fn sub(self, rhs: Z251) -> (r: Z251) {
        Z251::sub(self, rhs)
    }
}

impl vstd::std_specs::ops::SubSpecImpl for Z251 {
    open spec fn obeys_sub_spec() -> bool {
        true
    }

    open spec fn sub_req(self, rhs: Z251) -> bool {
        self.wf() && rhs.wf()
    }

    open spec fn sub_spec(self, rhs: Z251) -> Z251 {
        Z251::of(self.val() - rhs.val())
    }
}

impl std::ops::Mul for Z251 {
    type Output = Z251;

    fn mul(self, rhs: Z251) -> (r: Z251) {
        Z251::mul(self, rhs)
    }
}

impl vstd::std_specs::ops::MulSpecImpl for Z251 {
    open spec fn obeys_mul_spec() -> bool {
        true
    }

    open spec fn mul_req(self, rhs: Z251) -> bool {
        true
    }

    open spec fn mul_spec(self, rhs: Z251) -> Z251 {
        Z251::of(self.val() * rhs.val())
    }
}

impl std::ops::Div for Z251 {
    type Output = Z251;

    fn div(self, rhs: Z251) -> (r: Z251) {
        Z251::div(self, rhs)
    }
}

impl vstd::std_specs::ops::DivSpecImpl for Z251 {
    open spec fn obeys_div_spec() -> bool {
        true
    }

    open spec fn div_req(self, rhs: Z251) -> bool {
        self.wf() && rhs.wf() && rhs.inner != 0
    }

    open spec fn div_spec(self, rhs: Z251) -> Z251 {
        Z251::of(self.val() * inverse(rhs.val()))
    }
}

impl From<usize> for Z251 {
    /// Embeds `n`, reduced modulo 251.
    fn from(n: usize) -> (r: Z251) {
        Z251 { inner: (n % 251) as u8 }
    }
}

impl vstd::std_specs::convert::FromSpecImpl<usize> for Z251 {
    open spec fn obeys_from_spec() -> bool {
        true
    }

    open spec fn from_spec(n: usize) -> Z251 {
        Z251 { inner: (n % 251) as u8 }
    }
}

/// Declares std's integer parse error so that it can stand in signatures.
#[verifier::external_type_specification]
#[verifier::external_body]
pub struct ExParseIntError(std::num::ParseIntError);

/// Relies on `str::parse::<usize>`: the decimal integer that `s` spells, or
/// std's parse error. Nothing is assumed of the value.
#[verifier::external_body]
fn parse_usize(s: &str) -> (r: Result<usize, std::num::ParseIntError>) {
    s.parse::<usize>()
}

impl std::str::FromStr for Z251 {
    type Err = std::num::ParseIntError;

    /// Parses a decimal integer and reduces it modulo 251.
    fn from_str(s: &str) -> (r: Result<Z251, std::num::ParseIntError>) {
        match parse_usize(s) {
            Ok(n) => Ok(Z251 { inner: (n % 251) as u8 }),
            Err(e) => Err(e),
        }
    }
}

impl FieldIdentity for Z251 {
    fn zero() -> (r: Z251)
        ensures
            r.inner == 0,
    {
        Z251 { inner: 0 }
    }

    fn one() -> (r: Z251)
        ensures
            r.inner == 1,
    {
        Z251 { inner: 1 }
    }
}

impl Field for Z251 {
    open spec fn valid(self) -> bool {
        self.wf()
    }

    open spec fn is_zero(self) -> bool {
        self.inner == 0
    }

    fn mul_inv(self) -> (r: Z251)
        ensures
            r.wf(),
            r.val() == inverse(self.val()),
    {
        Z251::mul_inv(self)
    }

    fn add_inv(self) -> (r: Z251)
        ensures
            r == Z251::of(-self.val()),
    {
        Z251::neg(self)
    }
}

} // verus!
