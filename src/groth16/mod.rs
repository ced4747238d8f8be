//! The group interface that the Groth16 protocol runs over, and the
//! evaluation-domain representation of polynomials.
use crate::field::z251::Z251;
use vstd::prelude::*;

pub mod fft;

verus! {

/// A scalar field with two source groups and a target group joined by a
/// bilinear pairing.
pub trait EllipticEncryptable {
    type G1;
    type G2;
    type GT;

    fn encrypt_g1(self) -> Self::G1;

    fn encrypt_g2(self) -> Self::G2;

    /// Scalar multiplication of an encrypted point.
    fn exp_encrypted_g1(self, g1: Self::G1) -> Self::G1;

    fn exp_encrypted_g2(self, g2: Self::G2) -> Self::G2;

    fn pairing(g1: Self::G1, g2: Self::G2) -> Self::GT;
}

/// Recognises the identity of a group.
pub trait Identity {
    fn is_identity(&self) -> bool;
}

/// The toy group element for scalar `x`: `x·69` modulo 251.
pub open spec fn toy_encrypt(x: Z251) -> Z251 {
    Z251::of(x.val() * 69)
}

/// The toy pairing: the product of the two group elements.
pub open spec fn toy_pairing(g1: Z251, g2: Z251) -> Z251 {
    Z251::of(g1.val() * g2.val())
}

/// `(x·y) % 251` depends only on the residues of `x` and `y`.
proof fn lemma_mul_residues(x: int, y: int)
    ensures
        Z251::of(Z251::of(x).val() * Z251::of(y).val()) == Z251::of(x * y),
{
    vstd::arithmetic::div_mod::lemma_mod_bound(x, 251);
    vstd::arithmetic::div_mod::lemma_mod_bound(y, 251);
    vstd::arithmetic::div_mod::lemma_mul_mod_noop_left(x, y % 251, 251);
    vstd::arithmetic::div_mod::lemma_mul_mod_noop_right(x, y, 251);
}

/// Bilinearity of the toy pairing: moving a factor between the two sides of
/// the pairing keeps its value.
pub proof fn lemma_pairing_bilinear(a: Z251, b: Z251, c: Z251)
    requires
        a.wf(),
        b.wf(),
        c.wf(),
    ensures
        toy_pairing(toy_encrypt(Z251::of(a.val() * b.val())), toy_encrypt(c)) == toy_pairing(
            toy_encrypt(a),
            toy_encrypt(Z251::of(b.val() * c.val())),
        ),
{
    let (x, y, z) = (a.val(), b.val(), c.val());
    lemma_mod_small_of(69);
    lemma_mul_residues(x * y, 69);
    lemma_mul_residues(y * z, 69);
    lemma_mul_residues(x * y * 69, z * 69);
    lemma_mul_residues(x * 69, y * z * 69);
    assert((x * y * 69) * (z * 69) == (x * 69) * (y * z * 69)) by (nonlinear_arith);
}

/// A value already in `0..251` is its own residue.
proof fn lemma_mod_small_of(x: int)
    requires
        0 <= x < 251,
    ensures
        Z251::of(x).val() == x,
{
    vstd::arithmetic::div_mod::lemma_small_mod(x as nat, 251);
}

/// Scalar multiplication of an encrypted point is additive in the scalar:
/// `a·g + b·g == (a + b)·g` in the toy group.
pub proof fn lemma_exp_encrypted_additive(a: Z251, b: Z251, g: Z251)
    requires
        a.wf(),
        b.wf(),
        g.wf(),
    ensures
        Z251::of(Z251::of(a.val() * g.val()).val() + Z251::of(b.val() * g.val()).val()) == Z251::of(
            Z251::of(a.val() + b.val()).val() * g.val(),
        ),
{
    let (x, y, w) = (a.val(), b.val(), g.val());
    vstd::arithmetic::div_mod::lemma_add_mod_noop(x * w, y * w, 251);
    vstd::arithmetic::div_mod::lemma_mul_mod_noop_left(x + y, w, 251);
    assert(x * w + y * w == (x + y) * w) by (nonlinear_arith);
    vstd::arithmetic::div_mod::lemma_mod_bound(x * w, 251);
    vstd::arithmetic::div_mod::lemma_mod_bound(y * w, 251);
    vstd::arithmetic::div_mod::lemma_mod_bound(x + y, 251);
}

impl EllipticEncryptable for Z251 {
    type G1 = Z251;
    type G2 = Z251;
    type GT = Z251;

    fn encrypt_g1(self) -> (r: Z251)
        ensures
            r == toy_encrypt(self),
    {
        self.mul(Z251 { inner: 69 })
    }

    fn encrypt_g2(self) -> (r: Z251)
        ensures
            r == toy_encrypt(self),
    {
        self.mul(Z251 { inner: 69 })
    }

    fn exp_encrypted_g1(self, g1: Z251) -> (r: Z251)
        ensures
            r == Z251::of(self.val() * g1.val()),
    {
        self.mul(g1)
    }

    fn exp_encrypted_g2(self, g2: Z251) -> (r: Z251)
        ensures
            r == Z251::of(self.val() * g2.val()),
    {
        self.mul(g2)
    }

    fn pairing(g1: Z251, g2: Z251) -> (r: Z251)
        ensures
            r == Z251::of(g1.val() * g2.val()),
    {
        g1.mul(g2)
    }
}

impl Identity for Z251 {
    fn is_identity(&self) -> (r: bool)
        ensures
            r == (self.inner == 0),
    {
        self.inner == 0
    }
}

} // verus!
