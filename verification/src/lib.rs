//! A minimal multi-file text editor core: line-addressed text buffers and a
//! registry that owns them, assigns identifiers, and tracks focus.
//!
//! The library is pure logic. Reading and writing the backing files, and the
//! interactive command loop, live outside it and hand it plain values:
//! [`buffer::Buffer`] models one file's text, [`program::Program`] the set of
//! open buffers, and [`text`] the line model both are specified against.

pub mod buffer;
pub mod program;
pub mod text;
