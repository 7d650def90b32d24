//! The logic of a terminal process monitor: the rows of the process table and their
//! sort orders, the filter by user, the process tree, the order in which a process and
//! its descendants are stopped, and the state machine that the keys drive.
//!
//! - `text`: decimal notation, reading integers, character utilities.
//! - `order`: lexicographic keys and stable orderings.
//! - `percent`: reading percentage texts as `f32` orders them, infinities included.
//! - `rows`: process rows, sorting, filtering, row heights.
//! - `tree`: the process tree as text lines, and the stop order of a subtree.
//! - `summary`: the lines of the system information panel.
//! - `walk`: walks down a table of (id, parent) entries, and the bound on their depth.
//! - `app`: the monitor's state, its updates and the handling of keys.

pub mod app;
pub mod order;
pub mod percent;
pub mod rows;
pub mod summary;
pub mod text;
pub mod tree;
pub mod walk;
