//! A finite-domain constraint satisfaction solver over binary constraints:
//! arc-consistency reduction to a fixpoint, and a backtracking enumerator
//! that yields every satisfying assignment, in the order of the options.

mod cursor;
mod domain;
mod examples;
mod model;
mod problem;
mod relation;
mod solver;

pub use domain::DVar;
pub use examples::{
    abs, all_digits, block_done, blocks_differ, cell_key, digits, grid_key, has_cells,
    has_col_places, has_ne, has_rel, has_row_places, in_band, in_grid, is_digit, lines_differ,
    n_queens, one_to, place_fwd, place_rev, places_tied, queens_ok, sudoku, sudoku_key, tied,
    IntRel, SudokuRel,
};
pub use model::{
    all_distinct, all_nonempty, all_sorted, cons_in_range, firsts, fixpoint, is_solution,
    lemma_distinct_sorted, lemma_empty_domain_no_solution, lemma_fixpoint_distinct,
    lemma_fixpoint_nonempty, lemma_fixpoint_sorted, lemma_product_zero, lemma_reduce_idempotent,
    lemma_reduce_keeps_solution, lemma_reduce_monotone, lemma_solution_singletons_reduce_to_self,
    lemma_stable_singletons_satisfy, lemma_width_product, lex_lt, positions, product, revise,
    satisfies, shrunk, singletons, sorted_in, step, supported, sweep, total, within,
};
pub use problem::{lemma_clone_reduce, Constraint, CSP};
pub use relation::{Relation, VarKey};
pub use solver::{keys_of, values_of, CSPSolution};
