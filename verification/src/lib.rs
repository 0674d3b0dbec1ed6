//! Text-storage core of a terminal text editor.
//!
//! A [`buffer::Buffer`] holds the document's characters in an editable
//! sequence, tracks an editing cursor as an absolute character offset, and
//! maintains a derived per-line cache used for line-oriented navigation and
//! display.  Every operation preserves the buffer's invariants: the cursor
//! stays inside the document, the line cache joined with newlines
//! reconstructs the text exactly, and line numbers stay sequential.

pub mod buffer;
pub mod direction;
pub mod frontends;
pub mod model;
pub mod storage;
