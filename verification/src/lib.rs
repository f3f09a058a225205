//! A parametric, stochastic, context-sensitive L-system engine.
//!
//! The crate has three parts: an expression engine (`value`, `expr`,
//! `token`, `parse`, `render`, `roundtrip`) that parses, renders and
//! evaluates small arithmetic and logical formulas over a flat variable
//! binding; a grammar data model (`lsys`) of symbols with bounded
//! parameter lists, productions and symbol strings; and a rewriting
//! engine (also in `lsys`) that advances the system one whole generation
//! at a time, with weighted stochastic selection among matching
//! productions.
//!
//! Numbers are exact rationals extended with the special values `PosInf`,
//! `NegInf` and `NaN`, which mirror the IEEE-754 behaviour of division by
//! zero and invalid powers: out-of-range or undefined results become
//! special values instead of errors.

pub mod cli;
pub mod expr;
pub mod iter;
pub mod lsys;
pub mod parse;
pub mod render;
pub mod rng;
pub mod roundtrip;
pub mod token;
pub mod value;
