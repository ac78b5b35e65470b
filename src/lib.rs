//! A DEFLATE (RFC 1951) decompressor with the zlib (RFC 1950) wrapper, built
//! on a bit reader and canonical Huffman trees; the PNG loader and the
//! little-endian byte reader that use it; and the tile puzzle board of the game
//! around them.
pub mod assets;
pub mod bit_reader;
pub mod board;
pub mod byte_decoder;
pub mod huffman;
pub mod inflate;
pub mod laws;
pub mod png;
pub mod ui;
