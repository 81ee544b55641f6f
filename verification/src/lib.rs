//! The core of a terminal: the prompt composer, the completion providers, the
//! tab and workspace session, and the protocol rules of its daemon.

pub mod cli;
pub mod clock;
pub mod completion;
pub mod composer;
pub mod frame_stats;
pub mod hash;
pub mod ime;
pub mod kernel;
pub mod number;
pub mod paths;
pub mod seqs;
pub mod tab;
pub mod term;
pub mod text;
pub mod text_laws;
