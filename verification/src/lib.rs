//! A translator for a minimal tape-machine language.
//!
//! The language has eight single-character commands that operate on a linear
//! tape of cells through a movable data pointer.  This crate turns such a
//! source text into a run-length-encoded intermediate representation with
//! compile-time-matched loop brackets ([`parse`]), executes that
//! representation directly against an in-memory tape ([`interp`]), and
//! translates it into assembly text for a 64-bit ARM target ([`codegen`]).

pub mod codegen;
pub mod interp;
pub mod ir;
pub mod parse;
