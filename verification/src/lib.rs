//! Gives a directory the modification time of the earliest or the latest of
//! its entries, for one directory or for a whole tree.
//!
//! The decisions live here and are proved: which time a directory is to be
//! given ([`date`]), and in which order a tree is listed and fixed ([`walk`]).
//! A program carries them out on a file system. [`tree`] holds a file tree in
//! memory; [`fix`] carries the decisions out on it, [`order`] says what that
//! comes to, and [`laws`] states what follows of every tree.

pub mod date;
pub mod error;
pub mod fix;
pub mod laws;
pub mod order;
pub mod time;
pub mod tree;
pub mod walk;

pub use date::Date;
pub use fix::{fix_modified_time, walk_and_fix_modified_time};
pub use time::Timestamp;
