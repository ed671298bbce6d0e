use ff::Field;
use halo2curves::pasta::Fp;
use rand_core::OsRng;
use snark_arith::field::Fe;
use snark_arith::layers::{CosChip, GadgetType};
use snark_arith::partition::{chunk_ranges, Partition};
use snark_arith::poly::{
    compute_inner_product, compute_inner_product_chunked, eval_polynomial, eval_polynomial_with,
    checked_lagrange_interpolate, evaluate_vanishing_polynomial,
    evaluate_vanishing_polynomial_with, kate_division, lagrange_interpolate, points_distinct,
    powers, same_element,
};
use snark_arith::util::{bitreverse, log2_floor};

fn fe(x: Fp) -> Fe {
    Fe { bytes: x.to_bytes() }
}

fn fp(x: &Fe) -> Fp {
    Fp::from_bytes(&x.bytes).unwrap()
}

fn small(xs: &[u64]) -> Vec<Fe> {
    xs.iter().map(|x| Fe::from_u64(*x)).collect()
}

fn random_vec(n: usize) -> Vec<Fp> {
    (0..n).map(|_| Fp::random(OsRng)).collect()
}

#[test]
fn test_lagrange_interpolate() {
    let points = random_vec(5);
    let evals = random_vec(5);

    for coeffs in 0..5 {
        let points: Vec<Fe> = points[0..coeffs].iter().map(|p| fe(*p)).collect();
        let evals: Vec<Fe> = evals[0..coeffs].iter().map(|p| fe(*p)).collect();

        let poly = lagrange_interpolate(&points, &evals);
        assert_eq!(poly.len(), points.len());

        for (point, eval) in points.iter().zip(evals.iter()) {
            assert_eq!(eval_polynomial(&poly, *point), *eval);
        }
    }
}

#[test]
fn test_compute_inner_product() {
    let a_small = random_vec(16);
    let b_small = random_vec(16);
    let a_fe: Vec<Fe> = a_small.iter().map(|x| fe(*x)).collect();
    let b_fe: Vec<Fe> = b_small.iter().map(|x| fe(*x)).collect();
    let result_small = compute_inner_product(&a_fe, &b_fe);
    let expected_small = a_small
        .iter()
        .zip(b_small.iter())
        .fold(Fp::ZERO, |acc, (a, b)| acc + (*a) * (*b));
    assert_eq!(fp(&result_small), expected_small);

    let a_large = random_vec(64);
    let b_large = random_vec(64);
    let a_fe: Vec<Fe> = a_large.iter().map(|x| fe(*x)).collect();
    let b_fe: Vec<Fe> = b_large.iter().map(|x| fe(*x)).collect();
    let result_large = compute_inner_product(&a_fe, &b_fe);
    let expected_large = a_large
        .iter()
        .zip(b_large.iter())
        .fold(Fp::ZERO, |acc, (a, b)| acc + (*a) * (*b));
    assert_eq!(fp(&result_large), expected_large);
}

#[test]
fn from_u64_gives_little_endian_bytes() {
    let x = Fe::from_u64(0x0102);
    assert_eq!(x.bytes[0], 2);
    assert_eq!(x.bytes[1], 1);
    assert!(x.bytes[2..].iter().all(|b| *b == 0));
    assert_eq!(Fe::zero().bytes, [0u8; 32]);
    assert_eq!(Fe::one(), Fe::from_u64(1));
}

#[test]
fn evaluate_quadratic_at_five() {
    let poly = small(&[3, 2, 1]);
    assert_eq!(eval_polynomial(&poly, Fe::from_u64(5)), Fe::from_u64(38));
}

#[test]
fn evaluate_empty_polynomial_is_zero() {
    let poly: Vec<Fe> = Vec::new();
    assert_eq!(eval_polynomial(&poly, Fe::from_u64(7)), Fe::zero());
    assert_eq!(eval_polynomial_with(&poly, Fe::from_u64(7), 4), Fe::zero());
}

#[test]
fn evaluation_is_the_same_for_every_worker_count() {
    let coeffs = random_vec(37);
    let poly: Vec<Fe> = coeffs.iter().map(|x| fe(*x)).collect();
    let point = Fp::random(OsRng);
    let expected = coeffs.iter().rev().fold(Fp::ZERO, |acc, c| acc * point + c);
    for workers in [0usize, 1, 2, 3, 8, 36, 37, 38, 73, 74, 75, 200] {
        let got = eval_polynomial_with(&poly, fe(point), workers);
        assert_eq!(fp(&got), expected);
    }
}

#[test]
fn evaluation_in_blocks_scales_by_the_block_start() {
    // 1 + 2x + 3x^2 + 4x^3 + 5x^4 at 2, in blocks of two coefficients
    let poly = small(&[1, 2, 3, 4, 5]);
    let got = eval_polynomial_with(&poly, Fe::from_u64(2), 3);
    assert_eq!(got, Fe::from_u64(1 + 4 + 12 + 32 + 80));
}

#[test]
fn vanishing_polynomial_is_the_product_of_differences() {
    let roots = small(&[1, 2, 3]);
    let z = Fe::from_u64(10);
    assert_eq!(evaluate_vanishing_polynomial(&roots, z), Fe::from_u64(9 * 8 * 7));
    for workers in [0usize, 1, 2, 3, 5, 6, 7, 100] {
        assert_eq!(evaluate_vanishing_polynomial_with(&roots, z, workers), Fe::from_u64(504));
    }
    let none: Vec<Fe> = Vec::new();
    assert_eq!(evaluate_vanishing_polynomial(&none, z), Fe::one());
    assert_eq!(evaluate_vanishing_polynomial(&roots, Fe::from_u64(2)), Fe::zero());
}

#[test]
fn vanishing_polynomial_below_a_root_wraps_around() {
    // 1 - 3 is -2 in the field
    let roots = small(&[3]);
    let got = evaluate_vanishing_polynomial(&roots, Fe::one());
    assert_eq!(fp(&got), -Fp::from(2));
}

#[test]
fn inner_product_of_small_vectors() {
    let a = small(&[1, 2, 3]);
    let b = small(&[4, 5, 6]);
    assert_eq!(compute_inner_product(&a, &b), Fe::from_u64(32));
    let none: Vec<Fe> = Vec::new();
    assert_eq!(compute_inner_product(&none, &none), Fe::zero());
}

#[test]
fn inner_product_agrees_for_every_chunk_count() {
    let a = random_vec(45);
    let b = random_vec(45);
    let a_fe: Vec<Fe> = a.iter().map(|x| fe(*x)).collect();
    let b_fe: Vec<Fe> = b.iter().map(|x| fe(*x)).collect();
    let expected = a.iter().zip(b.iter()).fold(Fp::ZERO, |acc, (a, b)| acc + (*a) * (*b));
    for workers in 0..60usize {
        assert_eq!(fp(&compute_inner_product_chunked(&a_fe, &b_fe, workers)), expected);
    }
}

#[test]
fn division_by_a_linear_factor() {
    // (x - 2)(x^2 + 3x + 5) = x^3 + x^2 - x - 10
    let minus = |n: u64| fe(-Fp::from(n));
    let poly = vec![minus(10), minus(1), Fe::from_u64(1), Fe::from_u64(1)];
    let q = kate_division(&poly, Fe::from_u64(2));
    assert_eq!(q, small(&[5, 3, 1]));
}

#[test]
fn division_of_a_constant_is_empty() {
    let q = kate_division(&small(&[7]), Fe::from_u64(3));
    assert!(q.is_empty());
}

#[test]
fn quotient_times_factor_gives_back_the_polynomial() {
    let root = Fp::random(OsRng);
    let q_coeffs = random_vec(9);
    // p = q * (X - root)
    let mut p = vec![Fp::ZERO; 10];
    for (i, c) in q_coeffs.iter().enumerate() {
        p[i] -= *c * root;
        p[i + 1] += *c;
    }
    let p_fe: Vec<Fe> = p.iter().map(|x| fe(*x)).collect();
    let q = kate_division(&p_fe, fe(root));
    assert_eq!(q.len(), p_fe.len() - 1);
    let expected: Vec<Fe> = q_coeffs.iter().map(|x| fe(*x)).collect();
    assert_eq!(q, expected);
    for x in random_vec(4) {
        let lhs = fp(&eval_polynomial(&q, fe(x))) * (x - root);
        assert_eq!(lhs, fp(&eval_polynomial(&p_fe, fe(x))));
    }
}

#[test]
fn interpolate_squares() {
    let poly = lagrange_interpolate(&small(&[1, 2, 3]), &small(&[1, 4, 9]));
    assert_eq!(poly, small(&[0, 0, 1]));
}

#[test]
fn interpolate_single_point_is_constant() {
    let poly = lagrange_interpolate(&small(&[11]), &small(&[42]));
    assert_eq!(poly, small(&[42]));
}

#[test]
fn interpolate_two_points_is_the_line() {
    // through (1, 3) and (2, 5): 1 + 2x
    let poly = lagrange_interpolate(&small(&[1, 2]), &small(&[3, 5]));
    assert_eq!(poly, small(&[1, 2]));
}

#[test]
fn interpolation_gives_back_the_coefficients() {
    let coeffs = random_vec(6);
    let poly: Vec<Fe> = coeffs.iter().map(|x| fe(*x)).collect();
    let points = small(&[1, 2, 3, 4, 5, 6]);
    let evals: Vec<Fe> = points.iter().map(|x| eval_polynomial(&poly, *x)).collect();
    assert_eq!(lagrange_interpolate(&points, &evals), poly);
}

#[test]
fn powers_start_at_one() {
    assert_eq!(powers(Fe::from_u64(3), 5), small(&[1, 3, 9, 27, 81]));
    assert!(powers(Fe::from_u64(3), 0).is_empty());
}

#[test]
fn forty_items_on_twelve_workers() {
    let p = Partition::new(40, 12);
    assert_eq!((p.chunks, p.base, p.remainder), (12, 3, 4));
    let sizes: Vec<usize> = (0..12).map(|i| p.len_of(i)).collect();
    assert_eq!(sizes, vec![4, 4, 4, 4, 3, 3, 3, 3, 3, 3, 3, 3]);
    let starts: Vec<usize> = (0..=12).map(|i| p.start_of(i)).collect();
    assert_eq!(starts, vec![0, 4, 8, 12, 16, 19, 22, 25, 28, 31, 34, 37, 40]);
}

#[test]
fn chunk_ranges_cover_the_sequence() {
    for len in 0..50usize {
        for workers in 1..20usize {
            let ranges = chunk_ranges(len, workers);
            let mut next = 0;
            for (start, size) in ranges.iter() {
                assert_eq!(*start, next);
                assert!(*size > 0);
                assert!(*size == len / workers || *size == len / workers + 1);
                next += size;
            }
            assert_eq!(next, len);
            assert!(ranges.len() <= workers);
        }
    }
}

#[test]
fn fewer_items_than_workers_gives_single_item_chunks() {
    assert_eq!(chunk_ranges(3, 8), vec![(0, 1), (1, 1), (2, 1)]);
    assert_eq!(chunk_ranges(0, 8), Vec::new());
    assert_eq!(chunk_ranges(8, 4), vec![(0, 2), (2, 2), (4, 2), (6, 2)]);
}

#[test]
fn log2_floor_values() {
    assert_eq!(log2_floor(1), 0);
    assert_eq!(log2_floor(2), 1);
    assert_eq!(log2_floor(3), 1);
    assert_eq!(log2_floor(4), 2);
    assert_eq!(log2_floor(1023), 9);
    assert_eq!(log2_floor(1024), 10);
    assert_eq!(log2_floor(usize::MAX), usize::BITS - 1);
}

#[test]
fn bitreverse_values() {
    assert_eq!(bitreverse(0b001, 3), 0b100);
    assert_eq!(bitreverse(0b110, 3), 0b011);
    assert_eq!(bitreverse(0b1011, 4), 0b1101);
    assert_eq!(bitreverse(0b1111_0001, 4), 0b1000);
    assert_eq!(bitreverse(5, 0), 0);
    assert_eq!(bitreverse(1, usize::BITS as usize + 1), 0);
    assert_eq!(bitreverse(3, usize::BITS as usize + 1), 1usize << (usize::BITS - 1));
    assert_eq!(bitreverse(1, usize::BITS as usize), 1usize << (usize::BITS - 1));
    for n in 0..64usize {
        assert_eq!(bitreverse(bitreverse(n, 6), 6), n);
    }
}

#[test]
fn cos_layer_rows_and_gadgets() {
    let chip = CosChip {};
    assert_eq!(chip.num_rows(&[10], 6), 4);
    assert_eq!(chip.num_rows(&[2, 5], 6), 4);
    assert_eq!(chip.num_rows(&[3, 3], 6), 3);
    assert_eq!(chip.num_rows(&[4, 0, 2], 2), 0);
    assert_eq!(chip.num_rows(&[7], 3), 7);
    assert_eq!(chip.num_rows(&[], 8), 1);
    assert_eq!(chip.used_gadgets(), vec![GadgetType::Cos, GadgetType::InputLookup]);
}

#[test]
fn interpolate_rejects_identical_points() {
    let points = small(&[4, 9, 4]);
    let evals = small(&[1, 2, 3]);
    assert!(!points_distinct(&points));
    assert_eq!(checked_lagrange_interpolate(&points, &evals), None);
    assert_eq!(checked_lagrange_interpolate(&small(&[5, 5]), &small(&[1, 1])), None);
}

#[test]
fn interpolate_rejects_unequal_lengths() {
    assert_eq!(checked_lagrange_interpolate(&small(&[1, 2]), &small(&[1])), None);
}

#[test]
fn checked_interpolation_agrees_with_interpolation() {
    let points = small(&[1, 2, 3]);
    let evals = small(&[1, 4, 9]);
    assert!(points_distinct(&points));
    assert_eq!(checked_lagrange_interpolate(&points, &evals), Some(small(&[0, 0, 1])));
    assert_eq!(checked_lagrange_interpolate(&small(&[11]), &small(&[42])), Some(small(&[42])));
}

#[test]
fn same_element_compares_values() {
    assert!(same_element(&Fe::from_u64(7), &Fe::from_u64(7)));
    assert!(!same_element(&Fe::from_u64(7), &Fe::from_u64(8)));
    assert!(!same_element(&Fe::from_u64(1), &Fe::from_u64(1 << 40)));
}
