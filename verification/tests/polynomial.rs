use polyterm::poly::{MismatchError, Polynomial};

fn bits(v: f64) -> u64 {
    v.to_bits()
}

fn val(b: u64) -> f64 {
    f64::from_bits(b)
}

fn times(c: u64, d: i32) -> u64 {
    (val(c) * d as f64).to_bits()
}

fn make(cs: &[f64], ds: &[i32]) -> Polynomial {
    let coefficients: Vec<u64> = cs.iter().map(|c| c.to_bits()).collect();
    Polynomial::new(coefficients, ds.to_vec()).unwrap()
}

fn eval(p: &Polynomial, x: f64) -> f64 {
    val(p.compute(0.0f64.to_bits(), move |a: u64, c: u64, d: i32| {
        (val(a) + val(c) * x.powi(d)).to_bits()
    }))
}

fn display(p: &Polynomial) -> String {
    let texts: Vec<String> = (0..p.term_count())
        .map(|i| format!("{}", val(p.coefficient_at(i))))
        .collect();
    p.render(&texts)
}

fn term_list(p: &Polynomial) -> Vec<(i32, f64)> {
    (0..p.term_count())
        .map(|i| (p.degree_at(i), val(p.coefficient_at(i))))
        .collect()
}

#[test]
fn construction_rejects_mismatched_lengths() {
    let r = Polynomial::new(vec![bits(1.0), bits(2.0)], vec![0]);
    assert_eq!(r.unwrap_err(), MismatchError);
    let r = Polynomial::new(vec![bits(1.0)], vec![0, 1]);
    assert_eq!(r.unwrap_err(), MismatchError);
    let r = Polynomial::new(vec![], vec![7]);
    assert!(r.is_err());
}

#[test]
fn construction_accepts_equal_lengths() {
    assert!(Polynomial::new(vec![], vec![]).is_ok());
    assert!(Polynomial::new(vec![bits(1.0)], vec![5]).is_ok());
    assert!(Polynomial::new(vec![bits(1.0), bits(2.0), bits(3.0)], vec![2, 0, 1]).is_ok());
}

#[test]
fn mismatch_message() {
    assert_eq!(
        MismatchError.message(),
        "Coefficient and degree vectors are not of equal length"
    );
}

#[test]
fn degrees_sorted_after_construction() {
    let p = make(&[4.0, 1.0, 3.0, 2.0], &[9, -3, 5, 0]);
    for i in 1..p.term_count() {
        assert!(p.degree_at(i - 1) <= p.degree_at(i));
    }
    assert_eq!(term_list(&p), vec![(-3, 1.0), (0, 2.0), (5, 3.0), (9, 4.0)]);
}

#[test]
fn pairing_preserved_for_distinct_degrees() {
    let cs = [4.0, 1.0, 3.0, 2.0];
    let ds = [9, -3, 5, 0];
    let p = make(&cs, &ds);
    for i in 0..cs.len() {
        let matches: Vec<usize> = (0..p.term_count())
            .filter(|&j| p.degree_at(j) == ds[i] && val(p.coefficient_at(j)) == cs[i])
            .collect();
        assert_eq!(matches.len(), 1);
    }
}

#[test]
fn equal_degrees_keep_input_order() {
    let p = make(&[2.0, 7.0, 3.0], &[1, 0, 1]);
    assert_eq!(term_list(&p), vec![(0, 7.0), (1, 2.0), (1, 3.0)]);
}

#[test]
fn differentiation_drops_degree_zero_and_shifts_the_rest() {
    let p = make(&[5.0, 3.0, 2.0], &[0, 1, 2]);
    let d = p.differentiate(times);
    assert_eq!(term_list(&d), vec![(0, 3.0), (1, 4.0)]);
}

#[test]
fn differentiation_handles_negative_degrees() {
    let p = make(&[1.5, 2.0], &[-2, 3]);
    let d = p.differentiate(times);
    assert_eq!(term_list(&d), vec![(-3, -3.0), (2, 6.0)]);
}

#[test]
fn zero_polynomial_derivative_is_zero_polynomial() {
    let p = make(&[], &[]);
    let d = p.differentiate(times);
    assert_eq!(d.term_count(), 0);
    let dd = d.differentiate(times);
    assert_eq!(dd.term_count(), 0);
}

#[test]
fn degree_zero_term_evaluates_to_its_coefficient() {
    let k = 42.5;
    let p = make(&[k], &[0]);
    assert_eq!(eval(&p, 0.0), k);
    assert_eq!(eval(&p, 1.0), k);
    assert_eq!(eval(&p, -3.25), k);
}

#[test]
fn render_negative_degrees() {
    let p = make(&[1.5, 2.0], &[-2, 3]);
    assert_eq!(display(&p), "(-2, 1.5), (3, 2)");
}

#[test]
fn scenario_ascending_terms_and_derivative_display() {
    let cs: Vec<f64> = (1..10).map(|x| x as f64).collect();
    let ds: Vec<i32> = (0..9).collect();
    let p = make(&cs, &ds);
    assert_eq!(
        display(&p),
        "(0, 1), (1, 2), (2, 3), (3, 4), (4, 5), (5, 6), (6, 7), (7, 8), (8, 9)"
    );
    let d = p.differentiate(times);
    assert_eq!(
        display(&d),
        "(0, 2), (1, 6), (2, 12), (3, 20), (4, 30), (5, 42), (6, 56), (7, 72)"
    );
}

#[test]
fn scenario_quadratic_at_minus_one() {
    let p = make(&[1.0, 2.0, 1.0], &[2, 1, 0]);
    assert_eq!(term_list(&p), vec![(0, 1.0), (1, 2.0), (2, 1.0)]);
    assert_eq!(eval(&p, -1.0), 0.0);
}

#[test]
fn scenario_quadratic_first_derivative() {
    let p = make(&[1.0, 2.0, 1.0], &[2, 1, 0]);
    let d = p.differentiate(times);
    assert_eq!(display(&d), "(0, 2), (1, 2)");
    assert_eq!(eval(&d, -2.0), -2.0);
}

#[test]
fn scenario_quadratic_second_derivative() {
    let p = make(&[1.0, 2.0, 1.0], &[2, 1, 0]);
    let dd = p.differentiate(times).differentiate(times);
    assert_eq!(display(&dd), "(0, 2)");
    assert_eq!(eval(&dd, -2.0), 2.0);
}

#[test]
fn scenario_quadratic_third_derivative() {
    let p = make(&[1.0, 2.0, 1.0], &[2, 1, 0]);
    let ddd = p.differentiate(times).differentiate(times).differentiate(times);
    assert_eq!(ddd.term_count(), 0);
    assert_eq!(display(&ddd), "");
    assert_eq!(eval(&ddd, -1.0), 0.0);
}

#[test]
fn compute_folds_every_term_once_in_stored_order() {
    let p = make(&[3.0, 5.0, 7.0], &[2, 0, 1]);
    assert_eq!(eval(&p, 10.0), 5.0 + 7.0 * 10.0 + 3.0 * 100.0);
    // record the degrees in the order the fold visits them
    let order = std::cell::RefCell::new(Vec::new());
    p.compute(0, |a: u64, _c: u64, d: i32| {
        order.borrow_mut().push(d);
        a
    });
    assert_eq!(order.into_inner(), vec![0, 1, 2]);
}
