//! Reader for RAR5 archives: block parsers over byte slices, a buffered
//! stream window, multi-volume reassembly and AES-256-CBC decryption.

pub mod aes_reader;
pub mod archive;
pub mod archive_block;
pub mod blocks;
pub mod bytes;
pub mod cipher;
pub mod end_block;
pub mod error;
pub mod extra_block;
pub mod extractor;
pub mod file_block;
pub mod file_writer;
pub mod header;
pub mod rar_reader;
pub mod sig_block;
pub mod util;
pub mod vint;
pub mod volume;
