//! A Brainfuck execution engine in three tiers: an interpreter of the parsed
//! source, an interpreter of a fused intermediate representation, and an
//! x86_64 code generator for that representation.
//!
//! Every function states its behaviour over a mathematical model of the
//! machine ([`machine::Machine`]) or of the bytes that it produces, and is
//! proved against it. The exceptions are the calls into `itertools` and
//! `tinyvec` in [`ir`]: what is taken on trust of them is written above each.

pub mod machine;
pub mod nesting;
pub mod brainfuck;
pub mod ir;
pub mod fusion;
pub mod jit;
