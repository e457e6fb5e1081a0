use dft::bits::{is_power_of_two, log2, reverse_bits};
use dft::permute::rearrange;
use dft::{transform, transform_real, unpack, Operation, Plan};
use num_complex::Complex;

type C = Complex<f64>;

const EPS: f64 = 1e-9;

fn plan(operation: Operation, n: usize) -> Plan<C> {
    let multiplier = |step: usize, sign: i8| {
        let theta = std::f64::consts::PI / step as f64;
        let sine = (theta / 2.0).sin();
        Complex::new(-2.0 * sine * sine, sign as f64 * theta.sin())
    };
    let rotate = |m: C, f: C| m * f + f;
    Plan::new(operation, n, Complex::new(1.0, 0.0), &multiplier, &rotate)
}

fn butterfly(a: C, b: C, w: C) -> (C, C) {
    let product = w * b;
    (a + product, a - product)
}

fn scale(c: C, n: usize) -> C {
    c / n as f64
}

fn recombine(a: C, b: C, w: C, inverse: bool) -> (C, C) {
    let part1 = a + b.conj();
    let part2 = a - b.conj();
    if inverse {
        let product = Complex::new(0.0, 1.0) * w * part2;
        (part1 + product, (part1 - product).conj())
    } else {
        let product = Complex::new(0.0, -1.0) * w * part2;
        ((part1 + product) * 0.5, (part1 - product).conj() * 0.5)
    }
}

fn ends(c: C, _inverse: bool) -> C {
    Complex::new(c.re + c.im, c.re - c.im)
}

fn run(data: &mut Vec<C>, plan: &Plan<C>) {
    transform(data, plan, &butterfly, &scale);
}

fn run_real(samples: &[f64], plan: &Plan<C>) -> Vec<f64> {
    let mut data: Vec<C> = samples.chunks(2).map(|p| Complex::new(p[0], p[1])).collect();
    transform_real(&mut data, plan, &butterfly, &scale, &recombine, &ends);
    data.iter().flat_map(|c| vec![c.re, c.im]).collect()
}

fn naive_dft(x: &[C]) -> Vec<C> {
    let n = x.len();
    (0..n)
        .map(|k| {
            x.iter().enumerate().fold(Complex::new(0.0, 0.0), |acc, (m, v)| {
                let angle = -2.0 * std::f64::consts::PI * (k * m) as f64 / n as f64;
                acc + v * Complex::new(angle.cos(), angle.sin())
            })
        })
        .collect()
}

fn close(a: &[C], b: &[C]) -> bool {
    a.len() == b.len() && a.iter().zip(b).all(|(x, y)| (x - y).norm() < EPS)
}

fn sample(n: usize) -> Vec<C> {
    (0..n).map(|i| Complex::new((i as f64 * 0.7).sin() + 0.25 * i as f64, (i as f64 * 1.3).cos())).collect()
}

fn negate(x: f64) -> f64 {
    -x
}

#[test]
fn power_of_two_test() {
    assert!(is_power_of_two(1));
    assert!(is_power_of_two(2));
    assert!(is_power_of_two(1024));
    assert!(!is_power_of_two(0));
    assert!(!is_power_of_two(3));
    assert!(!is_power_of_two(12));
    assert!(is_power_of_two(1usize << 63));
    assert!(!is_power_of_two(usize::MAX));
}

#[test]
fn log2_test() {
    assert_eq!(log2(1), 0);
    assert_eq!(log2(8), 3);
    assert_eq!(log2(1usize << 40), 40);
}

#[test]
fn reverse_bits_test() {
    assert_eq!(reverse_bits(1, 3), 4);
    assert_eq!(reverse_bits(6, 3), 3);
    assert_eq!(reverse_bits(5, 4), 10);
    assert_eq!(reverse_bits(0, 0), 0);
}

#[test]
fn rearrange_test() {
    let mut v: Vec<u32> = (0..8).collect();
    rearrange(&mut v);
    assert_eq!(v, vec![0, 4, 2, 6, 1, 5, 3, 7]);
    let mut one = vec![9u32];
    rearrange(&mut one);
    assert_eq!(one, vec![9]);
}

#[test]
fn operation_test() {
    assert_eq!(Operation::Forward.rotation_sign(), -1);
    assert_eq!(Operation::Backward.rotation_sign(), 1);
    assert_eq!(Operation::Inverse.rotation_sign(), 1);
    assert!(!Operation::Forward.is_normalized());
    assert!(!Operation::Backward.is_normalized());
    assert!(Operation::Inverse.is_normalized());
}

#[test]
fn plan_factor_count_and_stage_starts() {
    for &n in &[1usize, 2, 4, 8, 64] {
        let p = plan(Operation::Forward, n);
        assert_eq!(p.len(), n);
        assert_eq!(p.operation(), Operation::Forward);
        assert_eq!(p.factors().len(), n - 1);
        let mut step = 1;
        while step < n {
            assert_eq!(p.factors()[step - 1], Complex::new(1.0, 0.0));
            step *= 2;
        }
    }
}

#[test]
fn plan_factors_are_rotations() {
    let n = 16;
    let forward = plan(Operation::Forward, n);
    let backward = plan(Operation::Backward, n);
    let mut step = 1;
    while step < n {
        for j in 0..step {
            let angle = std::f64::consts::PI * j as f64 / step as f64;
            let f = forward.factors()[step - 1 + j];
            let b = backward.factors()[step - 1 + j];
            assert!((f - Complex::new(angle.cos(), -angle.sin())).norm() < EPS);
            assert!((b - Complex::new(angle.cos(), angle.sin())).norm() < EPS);
        }
        step *= 2;
    }
}

#[test]
fn impulse_has_flat_spectrum() {
    let p = plan(Operation::Forward, 4);
    let mut data = vec![Complex::new(1.0, 0.0), Complex::new(0.0, 0.0), Complex::new(0.0, 0.0), Complex::new(0.0, 0.0)];
    run(&mut data, &p);
    assert!(close(&data, &vec![Complex::new(1.0, 0.0); 4]));
}

#[test]
fn forward_matches_definition() {
    for &n in &[1usize, 2, 4, 8, 32] {
        let x = sample(n);
        let mut data = x.clone();
        run(&mut data, &plan(Operation::Forward, n));
        assert!(close(&data, &naive_dft(&x)));
    }
}

#[test]
fn inverse_undoes_forward() {
    for &n in &[1usize, 2, 8, 64] {
        let x = sample(n);
        let mut data = x.clone();
        run(&mut data, &plan(Operation::Forward, n));
        run(&mut data, &plan(Operation::Inverse, n));
        assert!(close(&data, &x));
    }
}

#[test]
fn backward_after_forward_scales_by_n() {
    for &n in &[2usize, 16] {
        let x = sample(n);
        let mut data = x.clone();
        run(&mut data, &plan(Operation::Forward, n));
        run(&mut data, &plan(Operation::Backward, n));
        let expected: Vec<C> = x.iter().map(|v| v * n as f64).collect();
        assert!(close(&data, &expected));
    }
}

#[test]
fn real_pair_gives_dc_and_nyquist() {
    let out = run_real(&[3.0, 5.0], &plan(Operation::Forward, 2));
    assert!((out[0] - 8.0).abs() < EPS);
    assert!((out[1] + 2.0).abs() < EPS);
}

#[test]
fn real_forward_then_unpack_matches_complex() {
    for &n in &[2usize, 4, 8, 32] {
        let x: Vec<f64> = (0..n).map(|i| (i as f64 * 0.9).cos() + i as f64 * 0.1).collect();
        let packed = run_real(&x, &plan(Operation::Forward, n));
        let full: Vec<C> = unpack(&packed, 0.0, &negate).into_iter().map(|(re, im)| Complex::new(re, im)).collect();
        let mut padded: Vec<C> = x.iter().map(|&v| Complex::new(v, 0.0)).collect();
        run(&mut padded, &plan(Operation::Forward, n));
        assert!(close(&full, &padded));
    }
}

#[test]
fn real_inverse_undoes_forward() {
    for &n in &[2usize, 4, 16] {
        let x: Vec<f64> = (0..n).map(|i| (i as f64).sin() * 2.0 - 0.5).collect();
        let packed = run_real(&x, &plan(Operation::Forward, n));
        let back = run_real(&packed, &plan(Operation::Inverse, n));
        assert!(x.iter().zip(&back).all(|(a, b)| (a - b).abs() < EPS));
        let scaled = run_real(&packed, &plan(Operation::Backward, n));
        assert!(x.iter().zip(&scaled).all(|(a, b)| (a * n as f64 - b).abs() < EPS));
    }
}

#[test]
fn unpack_layout() {
    let packed = vec![10.0, 20.0, 1.0, 2.0, 3.0, 4.0, 5.0, 6.0];
    let full = unpack(&packed, 0.0, &negate);
    assert_eq!(
        full,
        vec![(10.0, 0.0), (1.0, 2.0), (3.0, 4.0), (5.0, 6.0), (20.0, 0.0), (5.0, -6.0), (3.0, -4.0), (1.0, -2.0)]
    );
    assert_eq!(unpack(&vec![7.0], 0.0, &negate), vec![(7.0, 0.0)]);
    assert_eq!(unpack(&vec![7.0, 8.0], 0.0, &negate), vec![(7.0, 0.0), (8.0, 0.0)]);
}

#[test]
fn unpack_twice_is_identical() {
    let packed = vec![1.5, -2.0, 0.25, 4.0];
    let first = unpack(&packed, 0.0, &negate);
    let second = unpack(&packed, 0.0, &negate);
    assert_eq!(first, second);
    assert_eq!(packed, vec![1.5, -2.0, 0.25, 4.0]);
}
