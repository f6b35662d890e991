//! Compiles lightweight zine documents to typesetting-engine source markup.
//!
//! The crate owns the deterministic core of that pipeline: the addressing
//! scheme that locates documents, themes and resources inside a project tree
//! and computes portable relative paths between them; the front-matter
//! serializer that emits a document header; the block-macro grammar over raw
//! lines; and the markup transpiler that walks a parsed document tree and
//! emits target markup, with its two-pass footnote renumbering scheme.
//! Reading files, parsing the lightweight markup into a tree and invoking the
//! typesetting engine are left to a thin driver around the library.

pub mod cli;
pub mod error;
pub mod frontmatter;
pub mod macros;
pub mod markup;
pub mod path;
pub mod text;
pub mod theme;
pub mod typ;
pub mod watch;
pub mod zine;
