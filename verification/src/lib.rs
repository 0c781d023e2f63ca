//! Core logic of a viewer for very large text files: a sparse index over the
//! line starts of a byte buffer, line fetching through that index, substring
//! search with line/column positions, match highlighting, and the editor's
//! tab and find-bar state.

pub mod editor;
pub mod find;
pub mod find_ui;
pub mod lines;
pub mod scan;
pub mod util;
pub mod viewer;
