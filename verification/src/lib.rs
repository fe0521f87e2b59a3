//! Rendering of text templates against a hierarchical document.
//!
//! A template is a stream of bytes. Text between an opening and a closing
//! delimiter, `{{` and `}}` unless set otherwise, is an expression: a dotted
//! path into the document, which renders as the value it leads to, or one of
//! the directives `#IF`, `#IFNOT` and `#FOREACH`, which render the body that
//! follows their first line, or leave it out. All other bytes are copied as
//! they are.
//!
//! [`render`] renders a whole template; a [`TemplatingReader`] does the same
//! chunk by chunk. What both compute is defined in [`model`], and [`laws`]
//! holds what is proved of it.

pub mod error;
pub mod eval;
pub mod laws;
pub mod model;
pub mod path;
pub mod pattern;
pub mod reader;
pub mod text;
pub mod value;

pub use crate::error::{to_io_error, Error, IoError, IoErrorKind};
pub use crate::eval::{eval, eval_bounded};
pub use crate::path::{
    get_val_from_config_map, get_val_from_config_seq, set_val_in_config_map,
    set_val_in_config_seq,
};
pub use crate::pattern::EscapePattern;
pub use crate::reader::{render, render_bounded, TemplatingReader, DEFAULT_MAX_DEPTH};
pub use crate::value::{val_is_truthy, val_to_string, Mapping, Number, Value};
