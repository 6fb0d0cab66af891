//! Rectangular linear sum assignment by shortest augmenting paths, over exact
//! integer costs.
//!
//! [`solve`] pairs the rows of a cost matrix with its columns so that the
//! costs of the pairs add up to the least, or to the most. It is proved to
//! return a best pairing, and to return exactly what [`solve::solve_model`]
//! says. [`Matching`] is the state it works on, grown one row at a time;
//! [`make_jianma_table_lsap`] uses it to give short codes to characters, and
//! `formats` reads the text files that name the characters and their codes.
//!
//! `model` holds the solver as functions on sequences, `invariants`,
//! `tree_proofs` and `state_proofs` what each step keeps, `optimal` and
//! `theorems` why the outcome is a best pairing, and `laws` how runs on
//! related matrices relate.

pub mod argsort;
pub mod assign;
pub mod cost;
pub mod formats;
pub mod invariants;
pub mod laws;
pub mod matching;
pub mod model;
pub mod optimal;
pub mod pairing;
pub mod search;
pub mod solve;
pub mod state_proofs;
pub mod sums;
pub mod table;
pub mod text;
pub mod theorems;
pub mod tree_proofs;

pub use argsort::argsort_iter;
pub use cost::{Cost, LSAPError};
pub use matching::Matching;
pub use search::Tree;
pub use solve::{get_assigned_cost, normalize, solve};
pub use table::{make_jianma_table_lsap, Candidate};
