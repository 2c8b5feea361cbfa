use std::collections::{HashMap, HashSet};

use csp::{n_queens, sudoku, IntRel, CSPSolution, SudokuRel, CSP};

fn collect<R: csp::Relation<i32> + Copy>(mut sols: CSPSolution<i32, i32, R>) -> Vec<Vec<(i32, i32)>> {
    let mut out = Vec::new();
    while let Some(a) = sols.next() {
        out.push(a);
        assert!(out.len() <= 100_000);
    }
    out
}

fn all_lens(csp: &CSP<i32, i32, IntRel>, keys: &[i32]) -> Vec<usize> {
    keys.iter().map(|k| csp.options(k).unwrap().len()).collect()
}

#[test]
fn simple_reduce_test() {
    let mut csp = CSP::new();
    csp.add_var(1, vec![1, 2]);
    csp.add_var(2, vec![1, 2]);
    csp.add_constr(1, 2, IntRel::FirstIs(1));
    csp.reduce();
    let mut nsols = 0;
    let mut sols = csp.solutions();
    while let Some(m) = sols.next() {
        let m: HashMap<i32, i32> = m.into_iter().collect();
        nsols += 1;
        if nsols > 10 {
            assert!(false)
        }
        assert!(m[&1] == 1);
        assert!(m[&2] == 1 || m[&2] == 2);
    }
    assert!(nsols == 2);
}

#[test]
fn two_variables_order() {
    let mut csp = CSP::new();
    csp.add_var(1, vec![1, 2]);
    csp.add_var(2, vec![1, 2]);
    csp.add_constr(1, 2, IntRel::FirstIs(1));
    let sols = collect(csp.solutions());
    assert_eq!(sols, vec![vec![(1, 1), (2, 1)], vec![(1, 1), (2, 2)]]);
}

#[test]
fn first_reduce_removes_value() {
    let mut csp = CSP::new();
    csp.add_var(1, vec![1, 2]);
    csp.add_var(2, vec![1, 2]);
    csp.add_constr(1, 2, IntRel::FirstIs(1));
    assert_eq!(csp.reduce(), Some(true));
    assert_eq!(csp.options(&1), Some(vec![1]));
    assert_eq!(csp.options(&2), Some(vec![1, 2]));
    assert_eq!(csp.reduce(), Some(false));
}

#[test]
fn eight_queens() {
    let mut csp = n_queens(8);
    let keys: Vec<i32> = (1..9).collect();
    assert_eq!(csp.reduce(), Some(false));
    assert!(all_lens(&csp, &keys).iter().all(|&l| l == 8));
    assert_eq!(csp.reduce(), Some(false));
    assert!(all_lens(&csp, &keys).iter().all(|&l| l == 8));
    let sols = collect(csp.solutions());
    assert_eq!(sols.len(), 92);
    let distinct: HashSet<Vec<(i32, i32)>> = sols.iter().cloned().collect();
    assert_eq!(distinct.len(), 92);
}

#[test]
fn four_queens() {
    let csp = n_queens(4);
    let sols = collect(csp.solutions());
    assert_eq!(sols.len(), 2);
    for s in &sols {
        for (a, &(ki, vi)) in s.iter().enumerate() {
            for &(kj, vj) in &s[a + 1..] {
                assert_ne!(vi, vj);
                assert_ne!((vi - vj).abs(), (ki - kj).abs());
            }
        }
    }
    let set: HashSet<Vec<(i32, i32)>> = sols.into_iter().collect();
    assert!(set.contains(&vec![(1, 2), (2, 4), (3, 1), (4, 3)]));
    assert!(set.contains(&vec![(1, 3), (2, 1), (3, 4), (4, 2)]));
}

#[test]
fn four_queens_reduce_twice() {
    let mut csp = n_queens(4);
    let first = csp.reduce();
    assert!(first.is_some());
    assert_eq!(csp.reduce(), Some(false));
}

#[test]
fn empty_problem_one_assignment() {
    let csp: CSP<i32, i32, IntRel> = CSP::new();
    let sols = collect(csp.solutions());
    assert_eq!(sols, vec![Vec::<(i32, i32)>::new()]);
}

#[test]
fn single_variable_in_order() {
    let mut csp: CSP<i32, i32, IntRel> = CSP::new();
    csp.add_var(7, vec![10, 20, 30]);
    let sols = collect(csp.solutions());
    assert_eq!(sols, vec![vec![(7, 10)], vec![(7, 20)], vec![(7, 30)]]);
}

#[test]
fn never_satisfiable_constraint() {
    let mut csp = CSP::new();
    csp.add_var(1, vec![1]);
    csp.add_var(2, vec![1]);
    csp.add_constr(1, 2, IntRel::AbsDiffNe(0));
    let mut copy = csp.clone();
    assert_eq!(copy.reduce(), None);
    assert_eq!(collect(csp.solutions()).len(), 0);
}

#[test]
fn infeasible_trio() {
    let mut csp = CSP::new();
    for k in 1..4 {
        csp.add_var(k, vec![1, 2]);
    }
    for a in 1..4 {
        for b in 1..4 {
            if a != b {
                csp.add_constr(a, b, IntRel::Ne);
            }
        }
    }
    assert_eq!(collect(csp.solutions()).len(), 0);
}

#[test]
fn no_constraints_product_count() {
    let mut csp: CSP<i32, i32, IntRel> = CSP::new();
    csp.add_var(1, vec![1, 2]);
    csp.add_var(2, vec![1, 2, 3]);
    csp.add_var(3, vec![5, 6, 7, 8]);
    let sols = collect(csp.solutions());
    assert_eq!(sols.len(), 24);
    let distinct: HashSet<Vec<(i32, i32)>> = sols.iter().cloned().collect();
    assert_eq!(distinct.len(), 24);
    assert_eq!(sols[0], vec![(1, 1), (2, 1), (3, 5)]);
    assert_eq!(sols[23], vec![(1, 2), (2, 3), (3, 8)]);
}

#[test]
fn empty_domain_no_solutions() {
    let mut csp: CSP<i32, i32, IntRel> = CSP::new();
    csp.add_var(1, vec![1, 2]);
    csp.add_var(2, vec![]);
    assert_eq!(collect(csp.solutions()).len(), 0);
    let mut csp: CSP<i32, i32, IntRel> = CSP::new();
    csp.add_var(1, vec![1, 2]);
    csp.add_var(2, vec![]);
    csp.add_constr(1, 2, IntRel::Eq);
    assert_eq!(csp.reduce(), None);
}

#[test]
fn latest_add_var_wins() {
    let mut csp: CSP<i32, i32, IntRel> = CSP::new();
    csp.add_var(1, vec![1, 2]);
    csp.add_var(1, vec![4]);
    assert_eq!(csp.options(&1), Some(vec![4]));
    assert_eq!(collect(csp.solutions()), vec![vec![(1, 4)]]);
}

#[test]
fn clone_reduces_like_source() {
    let mut csp = CSP::new();
    csp.add_var(1, vec![1, 2, 3]);
    csp.add_var(2, vec![2, 3]);
    csp.add_constr(1, 2, IntRel::Eq);
    let mut copy = csp.clone();
    assert_eq!(copy.reduce(), Some(true));
    assert_eq!(csp.reduce(), Some(true));
    assert_eq!(copy.options(&1), csp.options(&1));
    assert_eq!(csp.options(&1), Some(vec![2, 3]));
    assert_eq!(copy.options(&2), csp.options(&2));
}

#[test]
fn reduce_is_monotone() {
    let mut csp = CSP::new();
    csp.add_var(1, vec![5, 1, 3, 2]);
    csp.add_var(2, vec![3, 2]);
    csp.add_constr(1, 2, IntRel::Eq);
    csp.add_constr(2, 1, IntRel::AbsDiffNe(0));
    assert_eq!(csp.reduce(), Some(true));
    let d1 = csp.options(&1).unwrap();
    assert!(d1.iter().all(|v| [5, 1, 3, 2].contains(v)));
    assert_eq!(d1, vec![3, 2]);
    assert_eq!(csp.options(&2), Some(vec![3, 2]));
}

#[test]
fn chained_reduction_order() {
    let mut csp = CSP::new();
    csp.add_var(1, vec![1, 2, 3]);
    csp.add_var(2, vec![1, 2, 3]);
    csp.add_var(3, vec![3]);
    csp.add_constr(1, 2, IntRel::Eq);
    csp.add_constr(2, 3, IntRel::Eq);
    assert_eq!(csp.reduce(), Some(true));
    assert_eq!(csp.options(&1), Some(vec![3]));
    assert_eq!(csp.options(&2), Some(vec![3]));
}

#[test]
fn solution_fixed_reduces_to_itself() {
    let csp = n_queens(6);
    let first = {
        let mut sols = csp.clone().solutions();
        sols.next().unwrap()
    };
    let mut fixed = csp.clone();
    for &(k, v) in &first {
        fixed.set(&k, &v);
    }
    assert_eq!(fixed.reduce(), Some(false));
    for &(k, v) in &first {
        assert_eq!(fixed.options(&k), Some(vec![v]));
    }
}

#[test]
fn abs_diff_relation() {
    let mut csp = CSP::new();
    csp.add_var(1, vec![1, 2, 3, 4]);
    csp.add_var(2, vec![1]);
    csp.add_constr(1, 2, IntRel::AbsDiffNe(1));
    assert_eq!(csp.reduce(), Some(true));
    assert_eq!(csp.options(&1), Some(vec![1, 3, 4]));
}

const GRID: [[usize; 9]; 9] = [
    [5, 3, 4, 6, 7, 8, 9, 1, 2],
    [6, 7, 2, 1, 9, 5, 3, 4, 8],
    [1, 9, 8, 3, 4, 2, 5, 6, 7],
    [8, 5, 9, 7, 6, 1, 4, 2, 3],
    [4, 2, 6, 8, 5, 3, 7, 9, 1],
    [7, 1, 3, 9, 2, 4, 8, 5, 6],
    [9, 6, 1, 5, 3, 7, 2, 8, 4],
    [2, 8, 7, 4, 1, 9, 6, 3, 5],
    [3, 4, 5, 2, 8, 6, 1, 7, 9],
];

#[test]
fn sudoku_givens() {
    let mut csp = sudoku();
    for i in 0..9 {
        for j in 0..9 {
            csp.set(&(i + 1, j + 1), &GRID[i][j]);
        }
    }
    let mut sols = csp.solutions();
    let first = sols.next().expect("one solution");
    assert!(sols.next().is_none());
    let m: HashMap<(usize, usize), usize> = first.into_iter().collect();
    assert_eq!(m.len(), 243);
    for i in 0..9 {
        for j in 0..9 {
            assert_eq!(m[&(i + 1, j + 1)], GRID[i][j]);
            let v = GRID[i][j];
            assert_eq!(m[&(i + 11, v)], j + 1);
            assert_eq!(m[&(v, j + 11)], i + 1);
        }
    }
}

#[test]
fn sudoku_domains() {
    let csp = sudoku();
    assert_eq!(csp.options(&(1, 1)), Some((1..10).collect()));
    assert_eq!(csp.options(&(19, 9)), Some((1..10).collect()));
    assert_eq!(csp.options(&(9, 19)), Some((1..10).collect()));
    assert_eq!(csp.options(&(10, 10)), None);
}

#[test]
fn sudoku_relations() {
    let mut csp: CSP<usize, usize, SudokuRel> = CSP::new();
    csp.add_var(1, vec![1, 2, 3]);
    csp.add_var(2, vec![2]);
    csp.add_constr(1, 2, SudokuRel::Place { col: 1, val: 2 });
    assert_eq!(csp.reduce(), Some(true));
    assert_eq!(csp.options(&1), Some(vec![1]));
    let mut csp: CSP<usize, usize, SudokuRel> = CSP::new();
    csp.add_var(1, vec![1, 2, 3]);
    csp.add_var(2, vec![2]);
    csp.add_constr(1, 2, SudokuRel::Excl { col: 3, val: 2 });
    assert_eq!(csp.reduce(), Some(true));
    assert_eq!(csp.options(&1), Some(vec![1, 2]));
}

#[test]
fn queens_constraint_count() {
    assert_eq!(n_queens(4).constrs.len(), 24);
    assert_eq!(n_queens(8).constrs.len(), 112);
    assert_eq!(n_queens(0).constrs.len(), 0);
    assert_eq!(n_queens(-3).keys.len(), 0);
}

#[test]
fn sudoku_sizes() {
    let csp = sudoku();
    assert_eq!(csp.keys.len(), 243);
    assert_eq!(csp.constrs.len(), 28188);
}

#[test]
fn repeated_options_count() {
    let mut csp: CSP<i32, i32, IntRel> = CSP::new();
    csp.add_var(1, vec![1, 1]);
    csp.add_var(2, vec![3, 4, 3]);
    let sols = collect(csp.solutions());
    assert_eq!(sols.len(), 6);
}

#[test]
fn results_in_index_order() {
    let mut csp: CSP<i32, i32, IntRel> = CSP::new();
    csp.add_var(1, vec![3, 1, 2]);
    csp.add_var(2, vec![9, 8]);
    csp.add_constr(1, 2, IntRel::AbsDiffNe(7));
    let sols = collect(csp.solutions());
    assert_eq!(
        sols,
        vec![
            vec![(1, 3), (2, 9)],
            vec![(1, 3), (2, 8)],
            vec![(1, 1), (2, 9)],
            vec![(1, 2), (2, 8)],
        ]
    );
}
