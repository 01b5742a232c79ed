//! Regular grammars: parsing, regularity checking, stack-driven derivation
//! and conversion to a regular expression.

pub mod seq_facts;
pub mod text;
pub mod symbol;
pub mod stack;
pub mod grammar;
pub mod notation;
pub mod derivation;
pub mod random;
pub mod regex_conversion;
pub mod elimination;
pub mod language;
pub mod regular;
pub mod pattern;
pub mod distractors;
pub mod generation;
pub mod examples;
pub mod presentation;
pub mod session;
pub mod maze;
