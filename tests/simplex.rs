use liana::error::{Operand, SimplexError};
use liana::program::LinearProgram;
use liana::tableau::{Solution, Tableau};

fn ratio(num: i64, den: i64) -> f64 {
    num as f64 / den as f64
}

fn values(s: &Solution) -> Vec<f64> {
    s.values.iter().map(|&v| ratio(v, s.denominator)).collect()
}

#[test]
fn test_simple_lp() {
    // Maximize 3x + 4y subject to x + 2y <= 8, 3x + 2y <= 12, x, y >= 0
    let a = vec![vec![1, 2], vec![3, 2]];
    let b = vec![8, 12];
    let c = vec![3, 4];
    let lp = LinearProgram::new(a, b, c);
    match lp.solve() {
        Ok(solution) => {
            let x = values(&solution);
            let obj_val = ratio(solution.objective, solution.denominator);
            assert_eq!(x.len(), 2);
            assert!((x[0] - 2.0).abs() < 1e-6);
            assert!((x[1] - 3.0).abs() < 1e-6);
            assert!((obj_val - 18.0).abs() < 1e-6);
        }
        Err(_) => {
            panic!("Test failed: could not solve the LP");
        }
    }
}

#[test]
fn test_unbounded_lp() {
    // Maximize x + y subject to -x + y <= 1, x, y >= 0
    let a = vec![vec![-1, 1]];
    let b = vec![1];
    let c = vec![1, 1];
    let lp = LinearProgram::new(a, b, c);
    match lp.solve() {
        Ok(_) => {
            panic!("Test failed: LP should be unbounded");
        }
        Err(e) => {
            assert_eq!(e, SimplexError::Unbounded);
        }
    }
}

#[test]
fn exact_optimum_over_common_denominator() {
    let lp = LinearProgram::new(vec![vec![1, 2], vec![3, 2]], vec![8, 12], vec![3, 4]);
    let s = lp.solve().unwrap();
    let d = s.denominator;
    assert!(d > 0);
    assert_eq!(s.values, vec![2 * d, 3 * d]);
    assert_eq!(s.objective, 18 * d);
}

#[test]
fn fractional_optimum() {
    // maximise x subject to 3x <= 1: x = 1/3
    let lp = LinearProgram::new(vec![vec![3]], vec![1], vec![1]);
    let s = lp.solve().unwrap();
    assert_eq!(s.values[0] * 3, s.denominator);
    assert_eq!(s.objective * 3, s.denominator);
}

#[test]
fn solution_is_feasible() {
    let a = vec![vec![2, 1, 1], vec![1, 3, 2], vec![2, 1, 2]];
    let b = vec![180, 300, 240];
    let c = vec![6, 5, 4];
    let lp = LinearProgram::new(a.clone(), b.clone(), c.clone());
    let s = lp.solve().unwrap();
    let d = s.denominator as i128;
    assert!(d > 0);
    for v in &s.values {
        assert!(*v >= 0);
    }
    for i in 0..a.len() {
        let lhs: i128 = (0..c.len()).map(|j| a[i][j] as i128 * s.values[j] as i128).sum();
        assert!(lhs <= b[i] as i128 * d);
    }
    let obj: i128 = (0..c.len()).map(|j| c[j] as i128 * s.values[j] as i128).sum();
    assert_eq!(obj, s.objective as i128);
}

#[test]
fn optimum_is_zero_when_objective_has_no_gain() {
    let lp = LinearProgram::new(vec![vec![1, 1]], vec![5], vec![-1, 0]);
    let s = lp.solve().unwrap();
    assert_eq!(s.values, vec![0, 0]);
    assert_eq!(s.objective, 0);
    assert_eq!(s.denominator, 1);
}

#[test]
fn rhs_length_mismatch() {
    let lp = LinearProgram::new(vec![vec![1, 1]], vec![1, 2], vec![1, 1]);
    assert_eq!(
        lp.solve().unwrap_err(),
        SimplexError::DimensionMismatch { operand: Operand::Rhs, expected: 1, found: 2 }
    );
}

#[test]
fn objective_length_mismatch() {
    let lp = LinearProgram::new(vec![vec![1, 1]], vec![1], vec![1]);
    assert_eq!(
        lp.solve().unwrap_err(),
        SimplexError::DimensionMismatch { operand: Operand::Objective, expected: 2, found: 1 }
    );
}

#[test]
fn negative_rhs_rejected() {
    let lp = LinearProgram::new(vec![vec![1, 1]], vec![-1], vec![1, 1]);
    assert_eq!(lp.solve().unwrap_err(), SimplexError::NegativeRHS);
}

#[test]
fn empty_constraints_rejected() {
    let lp = LinearProgram::new(vec![], vec![], vec![1]);
    assert_eq!(lp.solve().unwrap_err(), SimplexError::EmptyConstraints);
}

#[test]
fn empty_variables_rejected() {
    let lp = LinearProgram::new(vec![vec![]], vec![1], vec![]);
    assert_eq!(lp.solve().unwrap_err(), SimplexError::EmptyVariables);
}

#[test]
fn ragged_constraints_rejected() {
    let lp = LinearProgram::new(vec![vec![1, 1], vec![1]], vec![1, 1], vec![1, 1]);
    assert_eq!(lp.solve().unwrap_err(), SimplexError::RaggedConstraints);
}

#[test]
fn checks_run_in_order() {
    // ragged rows and a negative right-hand side: raggedness is reported first
    let lp = LinearProgram::new(vec![vec![1, 1], vec![1]], vec![-1, 1], vec![1, 1]);
    assert_eq!(lp.solve().unwrap_err(), SimplexError::RaggedConstraints);
}

#[test]
fn minimum_input_rejected() {
    let lp = LinearProgram::new(vec![vec![i64::MIN, 1]], vec![1], vec![1, 1]);
    assert_eq!(lp.solve().unwrap_err(), SimplexError::Overflow);
    let lp = LinearProgram::new(vec![vec![1, 1]], vec![1], vec![i64::MIN, 1]);
    assert_eq!(lp.solve().unwrap_err(), SimplexError::Overflow);
}

#[test]
fn pivot_overflow_reported() {
    // the first pivot scales the second row past the range of i64
    let big = i64::MAX;
    let lp = LinearProgram::new(vec![vec![big, 0], vec![0, big]], vec![1, 1], vec![1, 1]);
    assert_eq!(lp.solve().unwrap_err(), SimplexError::Overflow);
}

#[test]
fn ratio_tie_goes_to_lower_row() {
    // both rows bound x at 1: the first row leaves, the second keeps its slack
    let a = vec![vec![1, 0], vec![1, 0]];
    let mut t = Tableau::new(&a, &vec![1, 1], &vec![1, 0]).unwrap();
    let s = t.solve().unwrap();
    assert_eq!(t.basic_vars(), &vec![0, 3]);
    assert_eq!(s.values[0], s.denominator);
}

#[test]
fn ratio_tie_with_scaled_rows() {
    // 2x <= 4 and x <= 2 tie at ratio 2
    let a = vec![vec![2, 1], vec![1, 0]];
    let mut t = Tableau::new(&a, &vec![4, 2], &vec![1, 0]).unwrap();
    t.solve().unwrap();
    assert_eq!(t.basic_vars()[0], 0);
    assert_eq!(t.basic_vars()[1], 3);
}

#[test]
fn repeated_solves_agree() {
    let make = || LinearProgram::new(vec![vec![1, 2], vec![3, 2]], vec![8, 12], vec![3, 4]);
    let (p1, p2) = (make(), make());
    let s1 = p1.solve().unwrap();
    let s2 = p2.solve().unwrap();
    let s3 = p1.solve().unwrap();
    assert_eq!(s1.values, s2.values);
    assert_eq!(s1.values, s3.values);
    assert_eq!((s1.objective, s1.denominator), (s2.objective, s2.denominator));
    assert_eq!((s1.objective, s1.denominator), (s3.objective, s3.denominator));
}

#[test]
fn solve_leaves_final_basis() {
    // y enters first and takes row 0, then x takes row 1
    let a = vec![vec![1, 2], vec![3, 2]];
    let mut t = Tableau::new(&a, &vec![8, 12], &vec![3, 4]).unwrap();
    let s = t.solve().unwrap();
    assert_eq!(t.basic_vars(), &vec![1, 0]);
    assert_eq!(s.values, vec![2 * s.denominator, 3 * s.denominator]);
    assert_eq!(s.objective, 18 * s.denominator);
}

#[test]
fn unbounded_stops_before_pivoting() {
    let a = vec![vec![-1, 1]];
    let mut t = Tableau::new(&a, &vec![1], &vec![1, 1]).unwrap();
    assert_eq!(t.solve().unwrap_err(), SimplexError::Unbounded);
    assert_eq!(t.basic_vars(), &vec![2]);
}
