//! The prompt composer: command-line tokens, prompt tracking, ranking of
//! candidates and the editing state that ties them together.

pub mod fuzzy;
pub mod fuzzy_laws;
pub mod mark_laws;
pub mod prompt_track;
pub mod state;
pub mod state_laws;
pub mod tokenizer;
pub mod tokenizer_laws;
