//! A turn-based word-guessing game: the fragment corpus, the session state
//! machine with its roster and rounds, the round driver's schedule, and the
//! parsing of word lists.

pub mod game;
pub mod game_manager;
pub mod session;
pub mod word_storage;
