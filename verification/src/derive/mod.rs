//! Deriving the cleanup of a type from the cleanups of its fields.
pub mod args;
pub mod codegen;
pub mod directives;
pub mod expand;
pub mod fault;
pub mod layers;
pub mod member;
pub mod order;
pub mod plan;
pub mod progress;
pub mod reading;
pub mod syntax;
pub mod tokens;
pub mod writing;
