use zksnark::field::z251::{FieldError, Z251};
use zksnark::field::{
    chinese_remainder, dft, ext_euc_alg, idft, is_zero_polynomial, polynomial_division, powers,
    Field, FieldIdentity, Polynomial,
};

fn poly(cs: &[usize]) -> Vec<Z251> {
    cs.iter().map(|&c| Z251::from(c)).collect::<Vec<_>>()
}

#[test]
fn powers_test() {
    let root = Z251 { inner: 9 };
    assert_eq!(
        powers(root, 5),
        vec![
            Z251 { inner: 1 },
            Z251 { inner: 9 },
            Z251 { inner: 81 },
            Z251 { inner: 227 },
            Z251 { inner: 35 },
        ]
    );
}

#[test]
fn powers_restart_from_one() {
    let x = Z251::from(5);
    assert_eq!(powers(x, 3), poly(&[1, 5, 25]));
    assert_eq!(powers(x, 3), poly(&[1, 5, 25]));
    assert_eq!(powers(Z251::from(2), 5), poly(&[1, 2, 4, 8, 16]));
    assert_eq!(powers(x, 0), Vec::<Z251>::new());
}

#[test]
fn dft_test() {
    // 25 divides 251 - 1 and 5 has order 25 in Z251
    let mut seq = [Z251::zero(); 25];
    seq[0] = 1.into();
    seq[1] = 2.into();
    seq[2] = 3.into();
    let root = 5.into();

    let result = vec![
        6, 86, 169, 189, 203, 131, 237, 118, 115, 91, 248, 177, 8, 48, 34, 136, 177, 203, 125, 57,
        237, 81, 9, 30, 122,
    ]
    .into_iter()
    .map(Z251::from)
    .collect::<Vec<_>>();

    assert_eq!(dft(&seq[..], root), result);
}

#[test]
fn idft_test() {
    // 25 divides 251 - 1 and 5 has order 25 in Z251
    let mut seq = [Z251::zero(); 25];
    seq[0] = 1.into();
    seq[1] = 2.into();
    seq[2] = 3.into();
    let root = 5.into();

    assert_eq!(idft(&dft(&seq[..], root)[..], root), seq.to_vec());
}

#[test]
fn idft_round_trip_order_five() {
    // 5^5 = 113 has order 5
    let root = Z251::from(113);
    let p = poly(&[17, 0, 250, 3, 99]);
    assert_eq!(idft(&dft(&p[..], root)[..], root), p);
}

#[test]
fn dft_of_empty_is_empty() {
    let empty: Vec<Z251> = Vec::new();
    assert_eq!(dft(&empty[..], Z251::from(5)), Vec::<Z251>::new());
    assert_eq!(idft(&empty[..], Z251::from(5)), Vec::<Z251>::new());
}

#[test]
fn degree_test() {
    let a = [3, 0, 0, 0, 179, 0, 0, 6]
        .iter()
        .map(|&c| Z251::from(c))
        .collect::<Vec<_>>();
    let b = [29, 112, 68]
        .iter()
        .map(|&c| Z251::from(c))
        .collect::<Vec<_>>();
    let c = [3, 0, 0, 0, 179, 0, 0, 6, 0, 0, 0, 0, 0, 0, 0]
        .iter()
        .map(|&c| Z251::from(c))
        .collect::<Vec<_>>();

    assert_eq!(a.degree(), 7);
    assert_eq!(b.degree(), 2);
    assert_eq!(c.degree(), 7);
}

#[test]
fn degree_examples() {
    assert_eq!(poly(&[1, 2, 0, 4]).degree(), 3);
    assert_eq!(poly(&[1, 1, 1, 1, 9]).degree(), 4);
    assert_eq!(poly(&[0, 0, 0]).degree(), 0);
    assert_eq!(Vec::<Z251>::new().degree(), 0);
}

#[test]
fn evaluate_examples() {
    assert_eq!(poly(&[1, 1, 1]).evaluate(Z251::from(2)), Z251::from(7));
    assert_eq!(poly(&[1, 1, 4]).evaluate(Z251::from(2)), Z251::from(19));
    assert_eq!(poly(&[1, 2, 3, 4]).evaluate(Z251::from(3)), Z251::from(142));
}

#[test]
fn evaluate_matches_weighted_sum() {
    let p = poly(&[5, 250, 17, 0, 3, 200]);
    for x in 0..251usize {
        let mut sum = 0usize;
        let mut pw = 1usize;
        for c in p.iter() {
            sum = (sum + c.inner as usize * pw) % 251;
            pw = pw * x % 251;
        }
        assert_eq!(p.evaluate(Z251::from(x)), Z251::from(sum));
    }
}

#[test]
fn remove_leading_zeros_keeps_one() {
    let mut a = poly(&[1, 2, 0, 0]);
    a.remove_leading_zeros();
    assert_eq!(a, poly(&[1, 2]));
    let mut z = poly(&[0, 0, 0]);
    z.remove_leading_zeros();
    assert_eq!(z, poly(&[0]));
    let mut e: Vec<Z251> = Vec::new();
    e.remove_leading_zeros();
    assert_eq!(e, poly(&[0]));
}

#[test]
fn zero_polynomial_check() {
    assert!(is_zero_polynomial(&poly(&[0, 0, 0])));
    assert!(is_zero_polynomial(&[]));
    assert!(!is_zero_polynomial(&poly(&[0, 0, 4])));
    assert!(!is_zero_polynomial(&poly(&[5])));
    assert_eq!(poly(&[0]).degree(), poly(&[5]).degree());
}

#[test]
fn coefficients_copy() {
    let a = poly(&[4, 0, 7]);
    assert_eq!(a.coefficients(), a);
}

#[test]
fn polynomial_division_test() {
    let a = [3, 0, 0, 0, 179, 0, 0, 6]
        .iter()
        .map(|&c| Z251::from(c))
        .collect::<Vec<_>>();
    let b = [29, 112, 68]
        .iter()
        .map(|&c| Z251::from(c))
        .collect::<Vec<_>>();
    let q = [209, 207, 78, 1, 131, 37]
        .iter()
        .map(|&c| Z251::from(c))
        .collect::<Vec<_>>();
    let r = [217, 207]
        .iter()
        .map(|&c| Z251::from(c))
        .collect::<Vec<_>>();

    assert_eq!(Ok((q, r)), polynomial_division(a, b));
}

#[test]
fn polynomial_divisionby0_test() {
    let a = [3, 0, 0, 0, 179, 0, 0, 6]
        .iter()
        .map(|&c| Z251::from(c))
        .collect::<Vec<_>>();
    let b = [0, 0, 0, 0, 0, 0, 0, 0]
        .iter()
        .map(|&c| Z251::from(c))
        .collect::<Vec<_>>();

    assert_eq!(polynomial_division(a, b), Err(FieldError::MalformedInput));
}

#[test]
fn polynomial_division_by_empty_fails() {
    assert_eq!(
        polynomial_division(poly(&[1, 2]), Vec::new()),
        Err(FieldError::MalformedInput)
    );
}

#[test]
fn polynomial_division_equal_degrees() {
    let n = poly(&[1, 0, 3, 1]);
    let d = poly(&[0, 0, 9, 1]);
    assert_eq!(polynomial_division(n, d), Ok((poly(&[1]), poly(&[1, 0, 245]))));
}

#[test]
fn polynomial_division_divisor_of_higher_degree() {
    assert_eq!(
        polynomial_division(poly(&[1, 2]), poly(&[1, 2, 3])),
        Ok((poly(&[0]), poly(&[0])))
    );
}

#[test]
fn polynomial_division_constant_divisor() {
    assert_eq!(
        polynomial_division(poly(&[2, 4, 6]), poly(&[2])),
        Ok((poly(&[1, 2, 3]), poly(&[0])))
    );
}

#[test]
fn polynomial_division_exact() {
    // (x + 1)(x + 2) = x^2 + 3x + 2
    assert_eq!(
        polynomial_division(poly(&[2, 3, 1]), poly(&[1, 1])),
        Ok((poly(&[2, 1]), poly(&[0])))
    );
}

#[test]
fn polynomial_division_law_holds() {
    let n = poly(&[7, 100, 0, 250, 13, 0, 42, 9, 0]);
    let d = poly(&[3, 0, 77, 5, 0]);
    let (q, r) = polynomial_division(n.clone(), d.clone()).unwrap();
    let mut prod = vec![0usize; q.len() + d.len()];
    for (i, qc) in q.iter().enumerate() {
        for (j, dc) in d.iter().enumerate() {
            prod[i + j] = (prod[i + j] + qc.inner as usize * dc.inner as usize) % 251;
        }
    }
    for (k, p) in prod.iter_mut().enumerate() {
        let rk = r.get(k).map(|c| c.inner as usize).unwrap_or(0);
        let nk = n.get(k).map(|c| c.inner as usize).unwrap_or(0);
        assert_eq!((*p + rk) % 251, nk);
    }
    assert!(r.degree() < d.degree());
}

#[test]
fn z251_add() {
    for i in 0_u16..251_u16 {
        for j in 0_u16..251_u16 {
            let lhs = Z251 { inner: i as u8 };
            let rhs = Z251 { inner: j as u8 };

            assert_eq!((lhs + rhs).inner, ((i + j) % 251) as u8);
        }
    }
}

#[test]
fn z251_neg() {
    for i in 1..251 {
        let lhs = Z251 { inner: i };
        let rhs = -Z251 { inner: i };
        assert_eq!(lhs + rhs, Z251::zero());
    }
}

#[test]
fn z251_neg_zero_is_zero() {
    assert_eq!(-Z251::zero(), Z251::zero());
    assert_eq!(Z251::zero().add_inv(), Z251::zero());
}

#[test]
fn z251_mul_inv() {
    for i in 1..251 {
        let lhs = Z251 { inner: i };
        let rhs = Z251 { inner: i }.mul_inv();
        assert_eq!(lhs * rhs, Z251::one());
    }
}

#[test]
fn z251_sub_then_add() {
    for i in 0..251u8 {
        for j in 0..251u8 {
            let a = Z251 { inner: i };
            let b = Z251 { inner: j };
            assert_eq!((a - b) + b, a);
        }
    }
}

#[test]
fn z251_div_and_checked_inverse() {
    assert_eq!(Z251::from(6) / Z251::from(3), Z251::from(2));
    assert_eq!(Z251::from(1) / Z251::from(2), Z251::from(126));
    assert_eq!(Z251::zero().checked_mul_inv(), Err(FieldError::DivisionByZero));
    assert_eq!(Z251::from(2).checked_mul_inv(), Ok(Z251::from(126)));
}

#[test]
fn z251_checked_div() {
    assert_eq!(Z251::from(6).checked_div(Z251::from(3)), Ok(Z251::from(2)));
    assert_eq!(Z251::from(6).checked_div(Z251::zero()), Err(FieldError::DivisionByZero));
    assert_eq!(Z251::from_byte(255), Z251::from(4));
    assert_eq!(Z251::from_byte(250), Z251::from(250));
}

#[test]
fn z251_conversions() {
    let z: Z251 = 300usize.into();
    assert_eq!(z, Z251 { inner: 49 });
    assert_eq!(Z251::from(250).into(), 250usize);
    assert_eq!((Z251::from(20) * Z251::from(30)).inner, 98);
}

#[test]
fn z251_from_str() {
    assert_eq!("42".parse::<Z251>(), Ok(Z251::from(42)));
    assert_eq!("251".parse::<Z251>(), Ok(Z251::from(0)));
    assert!("x1".parse::<Z251>().is_err());
}

#[test]
fn z251_sum() {
    assert_eq!(Z251::sum(&poly(&[250, 2, 5])), Z251::from(6));
    assert_eq!(Z251::sum(&[]), Z251::zero());
}

#[test]
fn ext_euc_alg_bezout() {
    let (g, s, t) = ext_euc_alg(240, 46);
    assert_eq!(g, 2);
    assert_eq!(240 * s + 46 * t, 2);
    let (g, s, t) = ext_euc_alg(0, 7);
    assert_eq!((g, 0 * s + 7 * t), (7, 7));
    assert_eq!(isize::zero(), 0);
    assert_eq!(isize::one(), 1);
}

#[test]
fn crt() {
    let rems = [0, 3, 4];
    let moduli = [3, 4, 5];
    let mut ret = chinese_remainder(&rems[..], &moduli[..]);
    while ret < 0 {
        ret += moduli.iter().product::<isize>();
    }
    assert_eq!(ret, 39);

    let rems = [1, 2, 3, 4];
    let moduli = [2, 3, 5, 7];
    let mut ret = chinese_remainder(&rems[..], &moduli[..]);
    while ret < 0 {
        ret += moduli.iter().product::<isize>();
    }
    assert_eq!(ret, 53);
}

#[test]
fn crt_congruences() {
    let rems = [2, 0, 6];
    let moduli = [5, 9, 7];
    let ret = chinese_remainder(&rems[..], &moduli[..]);
    for (r, m) in rems.iter().zip(moduli.iter()) {
        assert_eq!((ret - r).rem_euclid(*m), 0);
    }
}
