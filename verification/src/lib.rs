//! The verified core of a word-processor engine: document addresses, caret
//! motion, hit-testing, selection geometry, style spans, table layout, the
//! accessibility mirror and the decisions behind the editing commands.

pub mod a11y;
pub mod a11y_diff;
pub mod address;
pub mod attrs;
pub mod boxes;
pub mod cache;
pub mod caret;
pub mod command;
pub mod common;
pub mod dispatch;
pub mod document;
pub mod edits;
pub mod event;
pub mod field;
pub mod geometry;
pub mod motion;
pub mod paging;
pub mod pdf_text;
pub mod pipeline;
pub mod section;
pub mod segment;
pub mod selection;
pub mod session;
pub mod source_ids;
pub mod spans;
pub mod tables;
pub mod telemetry;
pub mod text;
pub mod viewport;
pub mod walk;
