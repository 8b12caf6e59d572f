//! Reorders a plain-text ledger file into a canonical, section-grouped,
//! date-ordered layout.
//!
//! Raw text lines are classified one by one, folded into logical entries
//! (multi-line directives absorb their continuation lines, comments travel
//! with the directive they precede), and the resulting entry list is
//! stable-sorted by date and re-emitted bucketed into a fixed section order
//! with decorative section headings.

pub mod assemble;
pub mod classify;
pub mod construct;
pub mod date;
pub mod entry;
pub mod laws;
pub mod render;
pub mod reparse;
pub mod roundtrip;
pub mod sort;
pub mod text;
pub mod wellformed;
