//! A random-access view of a byte source as standard base64 text.
//!
//! The view keeps a cursor into the encoded text of a source it never holds
//! in full. It says where in the source the bytes for the cursor start, turns
//! the bytes found there into the text at the cursor, and moves the cursor as
//! a seekable stream does. Fetching the bytes is left to the caller.
//!
//! - [`encoder`] holds the view and its operations.
//! - [`encoding`] defines standard base64 and calls the `base64` crate for it.
//! - [`decoding`] defines reading the text back and proves that it undoes
//!   encoding.
//! - [`stream`] proves that reads, however sized and wherever started, hand
//!   out the text of the whole source piece by piece.
//!
//! One statement here is taken on trust: that the `base64` crate's standard
//! engine writes the text that `encoding::standard_base64` defines. All else
//! is proved from it.

pub mod decoding;
pub mod encoder;
pub mod encoding;
pub mod stream;

pub use encoder::{Encoder, EncoderView, InvalidSeek, SeekFrom, CHUNK_SIZE};
