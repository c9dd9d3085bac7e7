//! A compiler and interpreter core for a small dialogue-scripting language.
//!
//! Source text is lexed into positioned tokens, parsed into a tree of
//! dialogue nodes (plain messages, questions that capture input under a
//! numbered slot, and branches offering selectable options), and run by a
//! tree-walking session that substitutes captured answers into displayed
//! text. All compilation errors carry the source position they arose at.

pub mod lang;
pub mod lexer;
pub mod parser;
pub mod models;
pub mod runtime;
pub mod scan;

pub use lang::compile;
