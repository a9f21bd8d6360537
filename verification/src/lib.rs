//! Team assignment: builds a per-person affinity model from survey and
//! classification records, then searches for the best partition of the
//! population into fixed-size teams that respects every veto.
//!
//! `student_matrix` turns the three record streams into the population;
//! `solve` and `solve_with` search for an assignment; `validate_assignment`
//! judges one.

pub mod categories;
pub mod fusion;
pub mod groups;
pub mod index;
pub mod matrix;
pub mod names;
pub mod phrases;
pub mod provenance;
pub mod records;
pub mod report;
pub mod solver;
pub mod student;
pub mod team;
pub mod text;

pub use matrix::student_matrix;
pub use records::{ClassificationRelations, StudentClassification, StudentFeedback};
pub use report::{BuildError, Warning};
pub use solver::{solve, solve_with};
pub use student::{Student, Students};
pub use team::{validate_assignment, StudentAssignment, Team};
