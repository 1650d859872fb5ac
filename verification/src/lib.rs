//! A small text-templating engine.
//!
//! A template is ordinary host text with script blocks between `{{` and `}}`.
//! The `syntax` module turns a template into tokens and a syntax tree, `ir`
//! lowers the tree to a flat instruction list, and `vm` runs that list against
//! named strings and named string arrays. `diag` renders the errors of the
//! three stages, `render` runs the stages one after the other, and
//! `playground` holds the state of a session in which a template is edited
//! and run. `text` holds the byte-level scans that the stages share, and
//! `encoding` shows that rendering, reports and dumps keep UTF-8 text UTF-8.

pub mod text;
pub mod syntax;
pub mod ir;
pub mod vm;
pub mod diag;
pub mod render;
pub mod playground;
pub mod encoding;
