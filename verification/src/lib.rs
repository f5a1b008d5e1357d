//! A cursor/zipper library for navigating large, tree-shaped (JSON-like)
//! values one rendered line at a time.
//!
//! The library models a document as a sequence of root [`value::Value`]s and
//! offers a [`cursor::Cursor`] that steps forward and backward through the
//! linearized, line-oriented rendering of those trees, including synthetic
//! opening and closing lines for containers. Collapsible subtrees ("folds")
//! are tracked in an external [`folds::FoldSet`] keyed by
//! [`cursor::Path`] fold keys; stepping consults the fold set and skips a
//! folded container's interior. Positions can be dehydrated to an owned,
//! totally ordered [`cursor::Path`] and rehydrated again, and text search
//! walks the rendered lines from the current position.

pub mod cursor;
pub mod flat;
pub mod focus;
pub mod folds;
pub mod linear;
pub mod lines;
pub mod model;
pub mod order;
pub mod props;
pub mod search;
pub mod value;
