//! The items that front ends use most.
pub use crate::deck_io::load_deck;
pub use crate::deck_io::save_deck;
pub use crate::deck_io::ParsingError;
pub use crate::run_actions::RunActionError;
pub use crate::run_actions::RunCategory;
pub use crate::run_io::load_practice_run;
pub use crate::run_io::load_practice_run_file;
pub use crate::run_io::save_practice_run;
pub use crate::Card;
pub use crate::Deck;
pub use crate::PracticeRun;
