//! A slide engine for markdown documents shown in a terminal.
//!
//! All text is handled as UTF-8 bytes. A document is split into metadata and
//! slides, each slide is classified line by line, code blocks are highlighted,
//! and the result is an ordered list of terminal operations that a driver
//! carries out. Nothing in this crate touches the terminal itself.
//!
//! - `text`: bytes, lines, searching and splitting.
//! - `colors`: the theme catalog.
//! - `document`: front matter and slides.
//! - `presentation`: the slides with the place of the viewer, and the keys.
//! - `classify`: what each line of a slide is.
//! - `highlight`: tokens of code and their merge onto a line.
//! - `oracle`: tree-sitter, which finds the tokens; taken on trust.
//! - `terminal`: terminal operations and the layout of single pieces.
//! - `rendering`: the layout of a whole slide.

pub mod classify;
pub mod colors;
pub mod document;
pub mod highlight;
pub mod oracle;
pub mod presentation;
pub mod rendering;
pub mod terminal;
pub mod text;
