//! A html node selecting and mutation library: css selector parsing, node
//! matching and a jQuery-like api over a document tree.
#![allow(unused_imports)]

pub mod chars;
pub mod utils;
pub mod error;
pub mod pattern;
pub mod nth;
pub mod rule;
pub mod rules;
pub mod selector;
pub mod html;
pub mod tree;
pub mod dom;
pub mod load;
pub mod matching;
pub mod elements;
pub mod query;
pub mod sets;
pub mod traverse;
pub mod content;
pub mod form;
pub mod vis;
pub mod mutate;
pub mod insert;
pub mod settext;
pub mod sethtml;
pub mod texts;
pub mod copy;
pub mod visit;
pub mod sibling;
pub mod textsby;
pub mod laws;
