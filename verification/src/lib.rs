//! Columnar NTFS file catalog with rule-based classification of engineering files.
use vstd::prelude::*;

pub mod calls;
pub mod catalog;
pub mod classify;
pub mod commands;
pub mod dashboard;
pub mod demo;
pub mod mft;
pub mod path_reconstruct;
pub mod persistence;
pub mod security;
pub mod text;
pub mod usn;
pub mod volume;

verus! {
} // verus!
