//! The hooks of a project that is configured for pre-commit: finding out which there are,
//! preparing them and choosing those to run.

pub mod cli;
pub mod config;
pub mod error;
pub mod hook;
pub mod language;
pub mod paths;
pub mod prepare;
pub mod prepare_laws;
pub mod run;
pub mod seqs;
pub mod session;
pub mod stage;
pub mod style;
pub mod text;
pub mod urls;
