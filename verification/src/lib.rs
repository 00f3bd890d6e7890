//! A table for creating virtual windows.
//!
//! The crate tracks axis-aligned rectangular regions and the overlap
//! relationships between them, forming a directed acyclic graph rooted at
//! the first region inserted. Rectangle splitting is the geometric
//! primitive; the window table wires parent/child edges between a newly
//! inserted region and the existing regions it overlaps.

pub mod rect;
pub mod table;

pub use rect::Rectangle;
pub use table::CursorState;
pub use table::HandleError;
pub use table::InsertError;
pub use table::WindowKey;
pub use table::WindowTable;
