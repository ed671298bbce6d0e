use ff::{Field, PrimeField};
use group::{Curve, Group, GroupEncoding};
use halo2curves::pasta::{Fp, Vesta, VestaAffine};
use rand_core::OsRng;
use snark_arith::fft::{
    best_fft, checked_g_to_lagrange, g_to_lagrange, inverse_root_of_unity, power_of_two,
    root_of_unity_of_order, FFTData,
};
use snark_arith::field::Fe;
use snark_arith::points::{best_multiexp, check_points, checked_multiexp, Point};

fn to_fe(x: Fp) -> Fe {
    Fe { bytes: x.to_bytes() }
}

fn to_fp(x: &Fe) -> Fp {
    Fp::from_bytes(&x.bytes).unwrap()
}

fn to_point(p: Vesta) -> Point {
    Point { bytes: p.to_bytes().into() }
}

fn to_curve(p: &Point) -> Vesta {
    Vesta::from_bytes(&p.bytes.into()).unwrap()
}

fn root_for(k: u32) -> Fp {
    let mut w = Fp::ROOT_OF_UNITY;
    for _ in k..Fp::S {
        w = w.square();
    }
    w
}

fn random_points(n: usize) -> Vec<Vesta> {
    (0..n).map(|_| Vesta::random(OsRng)).collect()
}

#[test]
fn multiexp_of_two_points() {
    let g = Vesta::generator();
    let h = g * Fp::from(7);
    let coeffs = vec![Fe::from_u64(2), Fe::from_u64(3)];
    let bases = vec![to_point(g), to_point(h)];
    let expected = g * Fp::from(2) + h * Fp::from(3);
    assert_eq!(best_multiexp(&coeffs, &bases), to_point(expected));
    assert_eq!(checked_multiexp(&coeffs, &bases), Some(to_point(expected)));
}

#[test]
fn multiexp_of_many_points() {
    let points = random_points(40);
    let scalars: Vec<Fp> = (0..40).map(|_| Fp::random(OsRng)).collect();
    let expected = points.iter().zip(scalars.iter()).fold(Vesta::identity(), |acc, (p, s)| acc + *p * *s);
    let coeffs: Vec<Fe> = scalars.iter().map(|s| to_fe(*s)).collect();
    let bases: Vec<Point> = points.iter().map(|p| to_point(*p)).collect();
    assert_eq!(best_multiexp(&coeffs, &bases), to_point(expected));
}

#[test]
fn multiexp_of_nothing_is_the_identity() {
    let none: Vec<Fe> = Vec::new();
    let no_points: Vec<Point> = Vec::new();
    assert_eq!(best_multiexp(&none, &no_points), to_point(Vesta::identity()));
}

#[test]
fn multiexp_rejects_unequal_lengths() {
    let coeffs = vec![Fe::from_u64(2), Fe::from_u64(3)];
    let bases = vec![to_point(Vesta::generator())];
    assert_eq!(checked_multiexp(&coeffs, &bases), None);
}

#[test]
fn multiexp_rejects_bytes_that_are_no_point() {
    let coeffs = vec![Fe::from_u64(2)];
    let bases = vec![Point { bytes: [0xff; 32] }];
    assert!(!check_points(&bases));
    assert_eq!(checked_multiexp(&coeffs, &bases), None);
}

#[test]
fn decoding_accepts_points_only() {
    let g = VestaAffine::generator();
    let bytes: [u8; 32] = g.to_bytes().into();
    assert_eq!(Point::from_bytes(bytes), Some(Point { bytes }));
    assert_eq!(Point::from_bytes([0xff; 32]), None);
    let identity: [u8; 32] = Vesta::identity().to_bytes().into();
    assert!(Point::from_bytes(identity).is_some());
}

#[test]
fn field_bytes_must_be_canonical() {
    assert_eq!(Fe::from_bytes([0xff; 32]), None);
    let seven = Fp::from(7).to_bytes();
    assert_eq!(Fe::from_bytes(seven), Some(Fe::from_u64(7)));
    let modulus_bytes = {
        let mut b = (-Fp::ONE).to_bytes();
        b[0] += 1;
        b
    };
    assert_eq!(Fe::from_bytes(modulus_bytes), None);
    assert!(Fe::from_bytes((-Fp::ONE).to_bytes()).is_some());
}

#[test]
fn power_of_two_values() {
    assert_eq!(power_of_two(0), Some(1));
    assert_eq!(power_of_two(10), Some(1024));
    assert_eq!(power_of_two(usize::BITS - 1), Some(1usize << (usize::BITS - 1)));
    assert_eq!(power_of_two(usize::BITS), None);
    assert_eq!(power_of_two(200), None);
}

#[test]
fn transform_of_field_elements_is_the_sum_over_powers() {
    for k in 0..5u32 {
        let n = 1usize << k;
        let omega = root_for(k);
        let input: Vec<Fp> = (0..n).map(|_| Fp::random(OsRng)).collect();
        let mut a: Vec<Fe> = input.iter().map(|x| to_fe(*x)).collect();
        let data = FFTData::new(n, to_fe(omega), to_fe(omega.invert().unwrap()));
        best_fft(&mut a, to_fe(omega), k, &data, false);
        for i in 0..n {
            let mut expected = Fp::ZERO;
            for (j, x) in input.iter().enumerate() {
                expected += *x * omega.pow_vartime([(i * j) as u64]);
            }
            assert_eq!(to_fp(&a[i]), expected);
        }
    }
}

#[test]
fn transform_of_two_elements() {
    // with the root -1: (a + b, a - b)
    let omega = -Fp::ONE;
    let mut a = vec![Fe::from_u64(5), Fe::from_u64(3)];
    let data = FFTData::new(2, to_fe(omega), to_fe(omega));
    best_fft(&mut a, to_fe(omega), 1, &data, false);
    assert_eq!(a, vec![Fe::from_u64(8), Fe::from_u64(2)]);
}

#[test]
fn inverse_transform_scaled_undoes_the_transform() {
    let k = 4u32;
    let n = 1usize << k;
    let omega = root_for(k);
    let omega_inv = omega.invert().unwrap();
    let n_inv = Fp::from(n as u64).invert().unwrap();
    let input: Vec<Fe> = (0..n).map(|_| to_fe(Fp::random(OsRng))).collect();
    let data = FFTData::new(n, to_fe(omega), to_fe(omega_inv));
    let mut a = input.clone();
    best_fft(&mut a, to_fe(omega_inv), k, &data, true);
    let mut scaled: Vec<Fe> = a.iter().map(|x| to_fe(to_fp(x) * n_inv)).collect();
    assert_ne!(scaled, input);
    best_fft(&mut scaled, to_fe(omega), k, &data, false);
    assert_eq!(scaled, input);
}

#[test]
fn transform_of_points_is_the_sum_over_powers() {
    let k = 3u32;
    let n = 1usize << k;
    let omega = root_for(k);
    let input = random_points(n);
    let mut a: Vec<Point> = input.iter().map(|p| to_point(*p)).collect();
    let data = FFTData::new(n, to_fe(omega), to_fe(omega.invert().unwrap()));
    best_fft(&mut a, to_fe(omega), k, &data, false);
    for i in 0..n {
        let mut expected = Vesta::identity();
        for (j, p) in input.iter().enumerate() {
            expected += *p * omega.pow_vartime([(i * j) as u64]);
        }
        assert_eq!(to_curve(&a[i]), expected);
    }
}

#[test]
fn lagrange_basis_of_four_points() {
    let k = 2u32;
    let n = 1usize << k;
    let input = random_points(n);
    let g: Vec<Point> = input.iter().map(|p| to_point(*p)).collect();
    let omega_inv = root_for(k).invert().unwrap();
    let n_inv = Fp::from(n as u64).invert().unwrap();
    let got = g_to_lagrange(g.clone(), k);
    assert_eq!(got.len(), n);
    for i in 0..n {
        let mut expected = Vesta::identity();
        for (j, p) in input.iter().enumerate() {
            expected += *p * omega_inv.pow_vartime([(i * j) as u64]);
        }
        assert_eq!(to_curve(&got[i]), expected * n_inv);
    }
    assert_eq!(checked_g_to_lagrange(g, k), Some(got));
}

#[test]
fn lagrange_basis_of_one_point_is_the_point() {
    let p = to_point(Vesta::generator());
    assert_eq!(g_to_lagrange(vec![p], 0), vec![p]);
}

#[test]
fn lagrange_basis_rejects_bad_input() {
    let g: Vec<Point> = random_points(3).iter().map(|p| to_point(*p)).collect();
    assert_eq!(checked_g_to_lagrange(g.clone(), 2), None);
    assert_eq!(checked_g_to_lagrange(g, 33), None);
    let bad = vec![Point { bytes: [0xff; 32] }, to_point(Vesta::generator())];
    assert_eq!(checked_g_to_lagrange(bad, 1), None);
}

#[test]
fn roots_of_unity_by_order() {
    assert_eq!(root_of_unity_of_order(32), to_fe(Fp::ROOT_OF_UNITY));
    assert_eq!(inverse_root_of_unity(32), to_fe(Fp::ROOT_OF_UNITY_INV));
    assert_eq!(root_of_unity_of_order(0), Fe::one());
    assert_eq!(root_of_unity_of_order(1), to_fe(-Fp::ONE));
    for k in [0u32, 1, 2, 5, 31] {
        let w = to_fp(&root_of_unity_of_order(k));
        assert_eq!(w, root_for(k));
        assert_eq!(w * to_fp(&inverse_root_of_unity(k)), Fp::ONE);
        assert_eq!(w.pow_vartime([1u64 << k]), Fp::ONE);
    }
}
