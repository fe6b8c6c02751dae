//! Verified cryptarithmetic solver.
//!
//! An equation such as `SEND+MORE=MONEY` assigns a distinct decimal digit to
//! each letter; the solver finds every assignment that makes the equation
//! true.  The pipeline: compile the text to postfix tokens (shunting yard),
//! enumerate every k-permutation of the digits 0..=9, drop the arrangements
//! that put 0 on a leading letter, evaluate the rest with a stack machine,
//! and collect the matches chunk by chunk.

pub mod equation;
pub mod eval;
pub mod perms;
pub mod search;

pub use equation::Equation;
pub use equation::ParseError;
pub use equation::Op;
pub use equation::Token;
pub use eval::EvalResult;
pub use perms::PermGenerator;
pub use perms::perm_at;
pub use perms::valid_perm;
pub use search::Solution;
pub use search::SolveError;
pub use search::chunk_bounds;
pub use search::solve_chunk;
pub use search::solve_problem;
