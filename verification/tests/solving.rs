use satisfactory::solver::{solve_system, SingularSystemError, SolutionVector};

fn fractions(x: &SolutionVector) -> (Vec<i64>, i64) {
    let mut nums: Vec<i64> = Vec::new();
    for i in 0..x.len() {
        nums.push(x.numerator(i).to_i64().unwrap());
    }
    (nums, x.denominator().to_i64().unwrap())
}

fn units(x: &SolutionVector) -> Vec<i64> {
    let mut counts: Vec<i64> = Vec::new();
    for i in 0..x.len() {
        counts.push(x.units(i).to_i64().unwrap());
    }
    counts
}

#[test]
fn empty_system_has_the_empty_solution() {
    let x = solve_system(&vec![], &vec![]).unwrap();
    assert_eq!(x.len(), 0);
    assert_eq!(x.denominator().to_i64(), Some(1));
}

#[test]
fn one_equation() {
    let x = solve_system(&vec![vec![4]], &vec![6]).unwrap();
    assert_eq!(fractions(&x), (vec![3], 2));
    assert_eq!(units(&x), vec![2]);
    let x = solve_system(&vec![vec![-4]], &vec![6]).unwrap();
    assert_eq!(fractions(&x), (vec![-3], 2));
    assert_eq!(units(&x), vec![-1]);
}

#[test]
fn two_equations_with_a_fractional_solution() {
    // 2x + y = 1, x + 3y = 2: x = 1/5, y = 3/5
    let x = solve_system(&vec![vec![2, 1], vec![1, 3]], &vec![1, 2]).unwrap();
    assert_eq!(fractions(&x), (vec![1, 3], 5));
    assert_eq!(units(&x), vec![1, 1]);
}

#[test]
fn pivot_below_the_diagonal_is_found() {
    // y = 2, x = 3
    let x = solve_system(&vec![vec![0, 1], vec![1, 0]], &vec![2, 3]).unwrap();
    assert_eq!(fractions(&x), (vec![3, 2], 1));
    // x + y + z = 6, y - z = 0 after exchange of rows, 2x = 2
    let a = vec![vec![0, 1, -1], vec![2, 0, 0], vec![1, 1, 1]];
    let x = solve_system(&a, &vec![0, 2, 6]).unwrap();
    assert_eq!(fractions(&x), (vec![2, 5, 5], 2));
}

#[test]
fn zero_constants_give_the_zero_solution() {
    let x = solve_system(&vec![vec![2, 1], vec![1, 3]], &vec![0, 0]).unwrap();
    assert_eq!(fractions(&x), (vec![0, 0], 1));
}

#[test]
fn zero_matrix_is_singular() {
    assert_eq!(solve_system(&vec![vec![0]], &vec![0]).err(), Some(SingularSystemError));
    assert_eq!(solve_system(&vec![vec![0]], &vec![5]).err(), Some(SingularSystemError));
}

#[test]
fn dependent_rows_are_singular() {
    let a = vec![vec![1, 2], vec![2, 4]];
    assert_eq!(solve_system(&a, &vec![3, 6]).err(), Some(SingularSystemError));
    assert_eq!(solve_system(&a, &vec![3, 7]).err(), Some(SingularSystemError));
    let a = vec![vec![1, 2, 3], vec![4, 5, 6], vec![7, 8, 9]];
    assert_eq!(solve_system(&a, &vec![1, 2, 3]).err(), Some(SingularSystemError));
}

#[test]
fn entries_at_the_limits_of_the_machine_integers() {
    let big: i128 = i128::MAX;
    // big * x = big, -big * y = big
    let x = solve_system(&vec![vec![big, 0], vec![0, -big]], &vec![big, big]).unwrap();
    assert_eq!(fractions(&x), (vec![1, -1], 1));
    let x = solve_system(&vec![vec![i128::MIN]], &vec![i128::MIN]).unwrap();
    assert_eq!(fractions(&x), (vec![1], 1));
    // big * x + y = 0, x + big * y = 0 has only the zero solution
    let x = solve_system(&vec![vec![big, 1], vec![1, big]], &vec![0, 0]).unwrap();
    assert_eq!(fractions(&x), (vec![0, 0], 1));
}

#[test]
fn hilbert_like_system_is_solved_exactly() {
    // rows of 60 / (i + j + 1); the exact inverse has integer entries
    let a = vec![vec![60, 30, 20], vec![30, 20, 15], vec![20, 15, 12]];
    let x = solve_system(&a, &vec![1, 0, 0]).unwrap();
    // first column of the inverse of the Hilbert matrix, over 60: 9, -36, 30
    assert_eq!(fractions(&x), (vec![3, -12, 10], 20));
}

#[test]
fn solving_twice_gives_the_same_result() {
    let a = vec![vec![3, -1, 0], vec![0, 5, -2], vec![-4, 0, 7]];
    let b = vec![1, 2, 3];
    let first = solve_system(&a, &b).unwrap();
    let second = solve_system(&a, &b).unwrap();
    assert_eq!(fractions(&first), fractions(&second));
}
