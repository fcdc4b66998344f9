//! Verified core of env-select: the configuration model (applications,
//! profiles, value sources, side effects), name and reference parsing,
//! config merging, qualification and profile inheritance, environment
//! construction, and the shell-specific output built from an environment.

pub mod text;
pub mod ordered;
pub mod config;
pub mod environment;
pub mod shell;
pub mod execute;
pub mod error;
pub mod console;
pub mod completions;
