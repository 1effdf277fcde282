//! An encrypting filesystem gateway over a flat object store.
//!
//! The library maps a hierarchical namespace onto a flat key space,
//! assigns stable inode numbers for the lifetime of a mount, and
//! interposes authenticated encryption on every read and write.

pub mod config;
pub mod crypto;
pub mod gateway;
pub mod hexcode;
pub mod inode;
pub mod memstore;
pub mod path;
pub mod storage;
