//! Verified core of a local dashboard that joins coding-session history to the
//! git repositories on disk.

pub mod activity;
pub mod clock;
pub mod commits;
pub mod config;
pub mod dashboard;
pub mod db;
pub mod join;
pub mod json;
pub mod mentions;
pub mod order;
pub mod pages;
pub mod paths;
pub mod product;
pub mod refresh;
pub mod scanner;
pub mod seqs;
pub mod sessions;
pub mod templates;
pub mod text;
pub mod transcript;
