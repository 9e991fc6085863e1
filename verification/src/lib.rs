//! Selector evaluation over JSON documents.
//!
//! A selector such as `"nested".a` or `array.2:5` is split into groups and
//! path segments, and each group is resolved step by step against a document.
//! Every function carries a contract over the mathematical models of the
//! values involved, and every contract is proved.
//!
//! - [`json`]: the document tree and its model.
//! - [`text`]: characters, trimming, decimal numbers.
//! - [`segment`], [`error`]: path segments, errors and their messages.
//! - [`tokenizer`]: the grammar of one group.
//! - [`resolver`], [`selection`]: one segment against one node, and a whole
//!   path through a document.
//! - [`group`]: selection, filter and spread of one group.
//! - [`walker`]: a whole selector.
//! - [`laws`], [`grammar_laws`], [`well_formed`]: what holds of all of them.

pub mod error;
pub mod grammar_laws;
pub mod group;
pub mod json;
pub mod laws;
pub mod resolver;
pub mod segment;
pub mod selection;
pub mod text;
pub mod tokenizer;
pub mod walker;
pub mod well_formed;
