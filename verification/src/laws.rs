//! What holds of the library as a whole, proved from what its functions state.

pub mod files;
pub mod seams;
pub mod wording;
pub mod blanks;
pub mod coordinates;
pub mod texts;
pub mod paths;
pub mod characters;
pub mod advice;
pub mod calls;
pub mod vocabulary;
pub mod resolving;
pub mod relocating;
pub mod showing;
pub mod answering;
pub mod advising;
pub mod watching;
pub mod splicing;
pub mod telling;
pub mod models;
