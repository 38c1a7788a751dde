use robust_verifiable_dp::group::{base_mul, plus, times, Point, Scalar};
use robust_verifiable_dp::shamirlib::{
    eval_poly_at, eval_poly_at_1_n, lagrange_coefficients, low_degree_test, recon, recon_com, recon_com_u64,
    recon_u64,
};
use robust_verifiable_dp::util::random_scalars;

fn g() -> Point {
    base_mul(&Scalar::from_u64(1))
}

fn xs_up_to(n: usize) -> Vec<Scalar> {
    (1..=n).map(|i| Scalar::from_u64(i as u64)).collect()
}

#[test]
fn test_low_degree_test() {
    // Degree of the polynomial
    let degree = 5;
    // Generate a random polynomial of degree `degree`
    let poly = random_scalars(degree + 1);
    // Evaluate the polynomial at points 1, 2, ..., n
    let n = 8;
    let evals = eval_poly_at_1_n(&poly, n);
    // Commitments: the scalar evaluations times the generator
    let coms: Vec<Point> = evals.iter().map(|e| times(&g(), e)).collect();
    let result = low_degree_test(&coms, degree);
    assert!(result);
}

#[test]
fn test_low_degree_test_fail() {
    let degree = 5;
    // A random polynomial of degree `degree + 1` fails the test
    let poly = random_scalars(degree + 2);
    let n = 8;
    let evals = eval_poly_at_1_n(&poly, n);
    let coms: Vec<Point> = evals.iter().map(|e| times(&g(), e)).collect();
    let result = low_degree_test(&coms, degree);
    assert!(!result);
}

#[test]
fn shamirlib_test_recon() {
    let degree = 3;
    let poly = random_scalars(degree + 1);
    let n = 8;
    let evals = eval_poly_at_1_n(&poly, n);
    let xs = xs_up_to(degree + 1);
    let recon_value = recon(&evals[0..(degree + 1)], &xs);
    // The expected value is the constant term of the polynomial
    let expected_value = poly[0];
    assert_eq!(recon_value.bytes, expected_value.bytes);
}

#[test]
fn test_recon_com() {
    let degree = 5;
    let f_poly = random_scalars(degree + 1);
    let r_poly = random_scalars(degree + 1);
    let n = 8;
    let f_evals = eval_poly_at_1_n(&f_poly, n);
    let r_evals = eval_poly_at_1_n(&r_poly, n);
    let g = g();
    let h = Point::from_seed(b"seed");
    // com i = g^{f_i} h^{r_i}
    let coms: Vec<Point> = f_evals.iter().zip(r_evals.iter()).map(|(f, r)| plus(&times(&g, f), &times(&h, r))).collect();
    let expected_com0 = plus(&times(&g, &f_poly[0]), &times(&h, &r_poly[0]));
    let xs = xs_up_to(degree + 1);
    let recon_com = recon_com(&coms[0..degree + 1], &xs);
    assert_eq!(recon_com.bytes, expected_com0.bytes);
}

#[test]
fn polynomial_evaluation_by_hand() {
    // 3 + 2x + x^2 at x = 5 is 38
    let p = vec![Scalar::from_u64(3), Scalar::from_u64(2), Scalar::from_u64(1)];
    assert_eq!(eval_poly_at(&p, Scalar::from_u64(5)).bytes, Scalar::from_u64(38).bytes);
    let evals = eval_poly_at_1_n(&p, 3);
    assert_eq!(evals[0].bytes, Scalar::from_u64(6).bytes);
    assert_eq!(evals[1].bytes, Scalar::from_u64(11).bytes);
    assert_eq!(evals[2].bytes, Scalar::from_u64(18).bytes);
    assert_eq!(eval_poly_at(&[], Scalar::from_u64(5)).bytes, Scalar::from_u64(0).bytes);
}

#[test]
fn lagrange_at_zero_for_one_and_two() {
    // for abscissae 1 and 2: lambda = (2, -1)
    let lam = lagrange_coefficients(&xs_up_to(2));
    assert_eq!(lam[0].bytes, Scalar::from_u64(2).bytes);
    let sum = lam[1].add(&Scalar::from_u64(1));
    assert_eq!(sum.bytes, Scalar::from_u64(0).bytes);
    // a line through (1, 5) and (2, 7) is 3 at zero
    let share = vec![Scalar::from_u64(5), Scalar::from_u64(7)];
    assert_eq!(recon_u64(&share, &[1, 2]).bytes, Scalar::from_u64(3).bytes);
    let coms: Vec<Point> = share.iter().map(|s| times(&g(), s)).collect();
    assert_eq!(recon_com_u64(&coms, &[1, 2]).bytes, times(&g(), &Scalar::from_u64(3)).bytes);
}
