//! An entropy-driven solver for a secret-guessing game over a four-colour
//! alphabet, where each guess is answered by the number of positions that
//! match the secret.

pub mod color;
pub mod password;
pub mod partition;
pub mod solver;
pub mod space;

pub use color::Color;
pub use password::Password;
pub use partition::partition;
pub use solver::{
    bucket_sizes, choose_guess, is_informative, select_best, solve_automatically, summarize,
    BatchSummary, Round,
};
pub use space::initialize_problem_set;
