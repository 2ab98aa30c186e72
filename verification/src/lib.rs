//! Compiles a small grammar of trees of systems into code for a scheduler.
//!
//! A tree is written as a list of branches. A branch names a system and may
//! lead on, behind `=>`, to one more branch or to a sub tree in braces:
//!
//! ```text
//! sys_a,
//! sys_b => sys_c,
//! sys_d => { sys_e, sys_f => sys_g },
//! ```
//!
//! Two things are generated from a tree. A startup tree becomes the list of
//! its levels, level `i` holding the systems that stand `i` arrows below the
//! start of a branch. A system tree becomes a sequence of statements that
//! run the systems one after another, each fed with the output of the
//! system that leads to it.
//!
//! - [`tokens`]: token streams and their model.
//! - [`tree`]: trees, branches and what they hold; [`node`]: the values
//!   of a tree.
//! - [`parse`]: the grammar and its parser; [`source`]: the way back, from a
//!   tree to the tokens it is written as; [`trailing`]: what a trailing
//!   comma changes.
//! - [`levels`] and [`startup_tree`]: the levels of a tree and their tokens.
//! - [`statements`], [`system_node`] and [`system_tree`]: the statements of
//!   a tree and their tokens.
//! - [`labels`]: the names of stages and layers; [`rng`]: the random part
//!   of binding names.
//! - [`display`]: a tree written out for reading.
//!
//! The tokens are those of `proc_macro2`, and the values of a tree are
//! delimited by `syn`. What is taken from the two on trust is stated where
//! it is used; everything else is proved.

pub mod display;
pub mod labels;
pub mod levels;
pub mod node;
pub mod parse;
pub mod rng;
pub mod source;
pub mod startup_tree;
pub mod statements;
pub mod system_node;
pub mod system_tree;
pub mod tokens;
pub mod trailing;
pub mod tree;
