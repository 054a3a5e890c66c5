//! Label search over a memory-mapped JSON document: a windowed block input,
//! a boundary-aware member validator, and two label matchers (a linear scan
//! and a bitmask-driven one with cross-window carry).
use vstd::prelude::*;

pub mod label;
pub mod in_slice;
pub mod input;
pub mod memmem;
pub mod mask;
pub mod runner;
