//! The verified core of a parallel ZIP packer.

pub mod block_cache;
pub mod bulk_walker;
pub mod bytes;
pub mod cli;
pub mod compress;
pub mod contention;
pub mod crc;
pub mod crypto;
pub mod dostime;
pub mod layout;
pub mod names;
pub mod path;
pub mod pipeline;
pub mod platform;
pub mod progress;
pub mod raw_apfs;
pub mod raw_reader;
pub mod reader;
pub mod reorder;
pub mod sevenz;
pub mod sort;
pub mod text;
pub mod tui;
pub mod usb_info;
pub mod walker;
pub mod zipwriter;
