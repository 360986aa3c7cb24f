//! A content-addressed repository core: an object database keyed by SHA-1,
//! refs, a staging index, a pack writer and a bundle exchange format.

pub mod bytes;
pub mod errors;
pub mod hexcode;
pub mod lits;
pub mod sha;
pub mod zlib;
pub mod codec;
pub mod store;
pub mod refs;
pub mod index;
pub mod commitobj;
pub mod ancestry;
pub mod tree;
pub mod mergeeng;
pub mod pack;
pub mod bundle;
pub mod config;
pub mod repo;
