//! A parser for the Lean 4 surface syntax, with error recovery, and the
//! tooling built on its syntax trees.
pub mod syntax;
pub mod lexical;
pub mod input;
pub mod error;
pub mod scan;
pub mod parser;
pub mod literals;
pub mod recovery;
pub mod tactics;
pub mod theorems;
pub mod symbols;
pub mod commands;
pub mod interpolation;
pub mod binder;
pub mod term_tactics;
pub mod attributes;
pub mod terms;
pub mod patterns;
pub mod projections;
pub mod applications;
pub mod declarations;
pub mod definitions;
pub mod expressions;
pub mod quantifiers;
pub mod groupings;
pub mod matches;
pub mod do_blocks;
pub mod mutual;
