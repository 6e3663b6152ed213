//! A PNG reader: the file signature, the chunk sequence of RFC 2083, the
//! data of each chunk type, and the zlib framing of the image data.
#![allow(non_camel_case_types)]

pub mod bytes;
pub mod chunks;
pub mod data;
pub mod rfc2083;
pub mod text;
pub mod zlib;

pub use bytes::ByteStream;
pub use chunks::Chunk;
pub use data::{bkGD, cHRM, gAMA, hIST, pHYs, sBIT, tEXt, tIME, tRNS, zTXT, IDAT, IEND, IHDR, PLTE};
pub use rfc2083::idat::{ColorType, RGB};
pub use rfc2083::{IdatStats, PNGChunks, PNGData, PNGError, RawPNG};
pub use zlib::ZLib;
