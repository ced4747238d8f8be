//! Mapping field scalars into groups. The toy backend over Z251 stands in for
//! an elliptic-curve group: it exercises the protocol logic and has no
//! cryptographic strength.
use crate::field::z251::Z251;
use vstd::arithmetic::power::pow;
use vstd::prelude::*;

verus! {

/// Values that can be hidden in an exponent and sampled at random.
pub trait Encryptable: Sized {
    type Output;

    fn encrypt(self) -> Self::Output;

    fn random() -> Self;
}

/// Checks on sampled values.
pub trait EncryptProperties {
    /// The sample is degenerate (zero) and cannot serve as secret randomness.
    fn detect_root(&self) -> bool;

    fn valid(&self) -> bool;
}

/// The generator of the toy group.
pub const GENERATOR: u8 = 69;

/// Relies on `rand::Rng::gen_range` over the thread-local generator: a value
/// drawn uniformly from `0..251`, which is below 251 (the range is not empty,
/// so the call does not panic).
#[verifier::external_body]
fn random_below_251() -> (r: u8)
    ensures
        r < 251,
{
    rand::Rng::gen_range(&mut rand::thread_rng(), 0..251u8)
}

impl Encryptable for Z251 {
    type Output = Z251;

    /// `69^inner` modulo 251.
    fn encrypt(self) -> (r: Z251)
        ensures
            r == Z251::of(pow(GENERATOR as int, self.inner as nat)),
    {
        let mut ret = Z251 { inner: 1 };
        let mut i: u8 = 0;
        proof {
            vstd::arithmetic::power::lemma_pow0(GENERATOR as int);
        }
        while i < self.inner
            invariant
                i <= self.inner,
                ret == Z251::of(pow(GENERATOR as int, i as nat)),
            decreases self.inner - i,
        {
            ret = ret.mul(Z251 { inner: GENERATOR });
            proof {
                vstd::arithmetic::power::lemma_pow_adds(GENERATOR as int, i as nat, 1);
                vstd::arithmetic::power::lemma_pow1(GENERATOR as int);
                vstd::arithmetic::div_mod::lemma_mul_mod_noop_left(
                    pow(GENERATOR as int, i as nat),
                    GENERATOR as int,
                    251,
                );
            }
            i = i + 1;
        }
        ret
    }

    /// A field element drawn uniformly.
    fn random() -> (r: Z251)
        ensures
            r.wf(),
    {
        Z251::from_byte(random_below_251())
    }
}

impl EncryptProperties for Z251 {
    fn detect_root(&self) -> (r: bool)
        ensures
            r == (self.inner == 0),
    {
        self.inner == 0
    }

    fn valid(&self) -> (r: bool)
        ensures
            r,
    {
        true
    }
}

} // verus!
