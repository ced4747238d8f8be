use zksnark::encryption::{EncryptProperties, Encryptable};
use zksnark::field::z251::{FieldError, Z251};
use zksnark::groth16::fft::{PointWise, Points};
use zksnark::groth16::{EllipticEncryptable, Identity};

#[test]
fn encrypt_is_power_of_generator() {
    assert_eq!(Z251::from(0).encrypt(), Z251::from(1));
    assert_eq!(Z251::from(1).encrypt(), Z251::from(69));
    assert_eq!(Z251::from(2).encrypt(), Z251::from(243));
}

#[test]
fn random_is_reduced() {
    for _ in 0..200 {
        let r = <Z251 as Encryptable>::random();
        assert!(r.inner < 251);
    }
}

#[test]
fn degenerate_samples() {
    assert!(Z251::from(0).detect_root());
    assert!(!Z251::from(3).detect_root());
    assert!(Z251::from(3).valid());
    assert!(Z251::from(0).is_identity());
    assert!(!Z251::from(1).is_identity());
}

#[test]
fn toy_group_operations() {
    assert_eq!(Z251::from(3).encrypt_g1(), Z251::from(207));
    assert_eq!(Z251::from(3).encrypt_g2(), Z251::from(207));
    assert_eq!(Z251::from(2).exp_encrypted_g1(Z251::from(200)), Z251::from(149));
    assert_eq!(Z251::from(2).exp_encrypted_g2(Z251::from(10)), Z251::from(20));
    assert_eq!(Z251::pairing(Z251::from(2), Z251::from(3)), Z251::from(6));
}

#[test]
fn pairing_is_bilinear() {
    for a in [1usize, 7, 250] {
        for b in [0usize, 3, 128] {
            for c in [2usize, 99] {
                let (a, b, c) = (Z251::from(a), Z251::from(b), Z251::from(c));
                let lhs = Z251::pairing((a * b).encrypt_g1(), c.encrypt_g2());
                let rhs = Z251::pairing(a.encrypt_g1(), (b * c).encrypt_g2());
                assert_eq!(lhs, rhs);
            }
        }
    }
}

fn samples(v: &[(usize, usize)]) -> PointWise<Z251> {
    PointWise::from(
        v.iter()
            .map(|&(d, y)| (Z251::from(d), Z251::from(y)))
            .collect::<Vec<_>>(),
    )
}

fn values(p: &PointWise<Z251>) -> Vec<(u8, u8)> {
    p.points.iter().map(|pt| (pt.degree.inner, pt.y.inner)).collect()
}

#[test]
fn pointwise_addition() {
    let a = samples(&[(0, 1), (1, 0), (2, 5), (3, 22)]);
    let b = samples(&[(0, 1), (1, 3), (2, 13), (3, 37)]);
    let c = a.add(b).unwrap();
    assert_eq!(values(&c), vec![(0, 2), (1, 3), (2, 18), (3, 59)]);
}

#[test]
fn pointwise_addition_wraps_modulo() {
    let a = samples(&[(0, 1), (1, 0), (2, 5), (3, 22)]);
    let b = samples(&[(0, 1), (1, 3), (2, 13), (3, 250)]);
    let c = a.add(b).unwrap();
    assert_eq!(values(&c), vec![(0, 2), (1, 3), (2, 18), (3, 21)]);
}

#[test]
fn pointwise_mismatched_lengths_fail() {
    let a = samples(&[(0, 1), (1, 0), (2, 5)]);
    let b = samples(&[(0, 1), (1, 3)]);
    assert!(matches!(a.add(b), Err(FieldError::MalformedInput)));
}

#[test]
fn pointwise_mismatched_indices_fail() {
    let a = samples(&[(0, 1), (1, 0)]);
    let b = samples(&[(0, 1), (2, 3)]);
    assert!(matches!(a.add(b), Err(FieldError::MalformedInput)));
}

#[test]
fn points_from_pair() {
    let p = Points::from((Z251::from(4), Z251::from(9)));
    assert_eq!((p.degree, p.y), (Z251::from(4), Z251::from(9)));
    let w = samples(&[(5, 6), (7, 8)]);
    assert_eq!(values(&w), vec![(5, 6), (7, 8)]);
}
