//! Self-study quizzes built from clustering datasets: labelled items grouped
//! by a cluster identifier, and randomly drawn multiple-choice problems that
//! ask which item shares a cluster with a given one.
pub mod exam;
pub mod generate;
pub mod problem;
pub mod paths;
pub mod random;
