//! Linear programs in "greater or equal" form, read from a line-oriented text
//! format and solved with the tableau simplex method over exact rationals.
pub mod number;
pub mod parse;
pub mod rational;
pub mod simplex;
pub mod solver;
pub mod tableau;
pub mod text;

pub use number::{parse_number, ParseError};
pub use parse::{parse_line, parse_problem};
pub use rational::Rational;
pub use simplex::SolveError;
pub use solver::{solve_lines, ProblemError};
pub use tableau::Tableau;
pub use text::remove_unwanted_chars;
