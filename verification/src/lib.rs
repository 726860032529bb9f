//! An in-memory pixel canvas together with codecs for the PPM image format,
//! in both its binary (`P6`) and ASCII (`P3`) variants.
//!
//! The codec works on already-resident byte buffers: `decode` turns bytes into
//! a [`canvas::Canvas`], `encode_binary` and `encode_string` turn a canvas
//! back into bytes. File and path handling belong to the caller.

pub mod canvas;
pub mod digits;
pub mod ppm_reader;
pub mod ppm_writer;
pub mod roundtrip;
pub mod utils;
