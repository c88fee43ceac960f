//! A small text editor core: byte-position text navigation, selections and
//! editing, verified with Verus.

pub mod select;
pub mod text;
pub mod input;
pub mod editor;
pub mod oil;
