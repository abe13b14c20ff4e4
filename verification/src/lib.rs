//! A small English / Pinyin / Chinese dictionary front end.
//!
//! The pipeline is: free text in, an ordered sequence of dictionary
//! entries out of the lookup, and a sequence of display blocks out of
//! the renderer.  The application state (last query and last results)
//! can be written to and read back from a byte blob, with field-level
//! defaults when the blob is short or malformed.

pub mod console;
pub mod entry;
pub mod lookup;
pub mod render;
pub mod state;
