//! Core of an OTUI interface editor: a byte-preserving document model with
//! structural edits and an undo history, the style sheet resolver, the canvas
//! rules, the Lua behaviour helpers, the project asset catalog, colors, the
//! preview exchange and the log limits.

pub mod text;
pub mod utf8_text;
pub mod codec;
pub mod document;
pub mod history;
pub mod behavior;
pub mod text_map;
pub mod runtime;
pub mod assets;
pub mod color;
pub mod preview;
pub mod logline;
pub mod layout;
