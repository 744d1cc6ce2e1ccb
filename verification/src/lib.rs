//! A GIF codec: screen and image descriptors, extension blocks, the LZW
//! compressor and decompressor with their bit packing and block framing,
//! color maps, graphics control blocks and median-cut color quantization.
//!
//! Input is a byte source and output a byte sink held by the handle
//! (`GifFileType`); the caller moves bytes between those and the outside world.
#![allow(non_snake_case)]
#![allow(non_camel_case_types)]

pub mod constants;
pub mod err;
pub mod colormap;
pub mod gcb;
pub mod hash;
pub mod types;
pub mod file;
pub mod decoder_lzw;
pub mod decoder;
pub mod encoder_lzw;
pub mod encoder;
pub mod quantize;
pub mod roundtrip;
pub mod bitpack;
