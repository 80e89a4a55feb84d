//! A small, dependency-free shell-command formatter.
//!
//! The pipeline runs from a command string to its formatted form:
//! [`lexer`] cuts the source into tokens, [`parser`] groups them into the
//! [`ast`] tree, [`printer`] renders the tree as a [`doc`] layout tree, and the
//! layout engine lays that out for a target width. [`format`] is the entry
//! point with its safety gates, [`apart`] is one of them, [`json`] reads and
//! writes the hook messages, and [`width`] reads the width setting.
//!
//! What holds of the whole pipeline is proved in modules of its own:
//!
//! - [`idempotence`]: formatting keeps the tree of a command, and formatting
//!   twice is formatting once. [`render`] says what texts a layout tree can
//!   become, [`locality`] and [`reading`] how tokens are read off a text,
//!   [`stable`] which trees the parser builds and how their words are read back,
//!   [`image`] that it builds no others, and [`reparse`] and [`readback`] that
//!   they are read back.
//! - [`lines`]: which groups lie flat and how far lines are indented, anywhere in
//!   a layout tree.
//! - [`statements`] and [`bodies`]: what statements, chains and bodies are printed
//!   as.
//! - [`scripts`] and [`plain`]: simple commands in any spacing, and nested ones, are
//!   understood and formatted.
//! - [`spacing`] and [`written`]: blanks in JSON do not matter, and every value is
//!   read back.
//! - [`positions`]: the printer never reads source positions.
//! - [`untouched`]: here-documents and unsupported commands are passed through.

pub mod apart;
pub mod ascii;
pub mod ast;
pub mod bodies;
pub mod cloning;
pub mod doc;
pub mod format;
pub mod idempotence;
pub mod image;
pub mod json;
pub mod lexer;
pub mod lines;
pub mod locality;
pub mod parser;
pub mod plain;
pub mod positions;
pub mod printer;
pub mod readback;
pub mod reading;
pub mod render;
pub mod reparse;
pub mod scripts;
pub mod spacing;
pub mod stable;
pub mod statements;
pub mod text;
pub mod untouched;
pub mod width;
pub mod written;
