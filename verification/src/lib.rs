//! A static type-and-effect checker for Bash: syntax, annotations, HIR,
//! control flow, scopes and diagnostics.
#![allow(unused_imports)]

use vstd::prelude::*;

pub mod text;
pub mod span;
pub mod hir;
pub mod annotation;
pub mod syntax;
pub mod lower_spec;
pub mod lower;
pub mod parse;
pub mod diagnostic;
pub mod check;
pub mod stdlib;
pub mod cfg;
pub mod scope;
pub mod source_graph;
pub mod lsp;
pub mod harness;

verus! {
}
