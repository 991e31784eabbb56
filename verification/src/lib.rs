pub mod knowledge;
pub mod laws;
pub mod solver;
pub mod state;
pub mod word;

pub use solver::best_guess;
pub use state::Game;
pub use word::Word;
pub use word::Word64;
pub use word::word_from_bytes;
