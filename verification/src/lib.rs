//! Verified core of git-vanity: commit-object parsing and rebuilding,
//! nonce generation, hash-pattern parsing and matching, presets, and the
//! hashing search step.

pub mod commit;
pub mod display;
pub mod git;
pub mod hasher;
pub mod nonce;
pub mod pattern;
pub mod preset;
pub mod text;
pub mod vanity;
pub mod worker;
