//! Annotated source excerpts for compiler diagnostics: header, source lines,
//! underlines and stacked labels, laid out on a styled character grid.

pub mod style;
pub mod buffer;
pub mod annotation;
pub mod layout;
pub mod group;
pub mod reporter;
