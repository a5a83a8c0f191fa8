//! A rope: text held as a height-balanced tree of UTF-8 chunks, with the
//! number of bytes, characters and line breaks cached at every node.
//!
//! A [`Rope`] stands for a sequence of bytes, its view, which is always
//! valid UTF-8. Queries convert between byte, character and line
//! coordinates by one descent; edits split and join trees and share what
//! they do not touch. A [`Slice`] views a byte range of a rope, a
//! [`Cursor`] is a position in a slice that remembers its way down the
//! tree, and the iterators hand out chunks, bytes and characters in either
//! direction. A [`Builder`] makes a rope from text that arrives in pieces.
//!
//! Every function states what it returns over the text that the rope
//! stands for; the module `text` holds the vocabulary, the module `laws`
//! what follows for every rope.

pub mod builder;
pub mod bytes;
pub mod chars;
pub mod chunks;
pub mod cursor;
pub mod info;
pub mod laws;
mod node;
mod path;
pub mod rope;
pub mod slice;
pub mod str_utils;
pub mod text;

pub use crate::builder::Builder;
pub use crate::bytes::{Bytes, BytesRev};
pub use crate::chars::{Chars, CharsRev};
pub use crate::chunks::{Chunks, ChunksRev};
pub use crate::cursor::Cursor;
pub use crate::node::{MAX_CHILDREN, MAX_LEAF_LEN, MIN_CHILDREN, MIN_LEAF_LEN};
pub use crate::rope::Rope;
pub use crate::slice::Slice;
