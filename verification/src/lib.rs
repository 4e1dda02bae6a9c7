//! Structural three-way merge for source code over tree-sitter syntax trees.

pub mod check;
pub mod cst;
pub mod diff;
pub mod embed;
pub mod error;
pub mod hash;
pub mod lang;
pub mod merge;
pub mod rules;
pub mod synth;
pub mod text;
pub mod tree;
pub mod walk;
pub mod zs;

pub use error::Error;
pub use lang::Lang;
pub use tree::{NodeId, Tree};
