//! Soft-wrapped text editing with cursor-stable reflow.
//!
//! A document is held as a list of wrapped segments: physical pieces of
//! logical lines, each piece bounded by a display width budget.  Edits are
//! applied directly against the wrapped view; after every edit the logical
//! lines are re-derived, re-wrapped, and the cursor is relocated to the
//! character position it occupied before the wrap points moved.

pub mod edit;
pub mod editor;
pub mod indices;
pub mod laws;
pub mod merge;
pub mod model;
pub mod reflow;
pub mod wrap;
