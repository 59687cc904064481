//! Verified core of a small tool that appends ignore patterns to an ignore
//! file: a merge algorithm that folds new patterns into existing file text,
//! producing a canonical, idempotent form, and the decision logic that picks
//! which file to edit.

pub mod cli;
pub mod merge;
pub mod resolve;
pub mod text;
pub mod update;
