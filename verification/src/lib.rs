//! A read-only view over a dump of a Steam2 content server: the on-disk
//! formats, the inventory of a dump, the store that serves decoded file
//! bytes, and the directory tree that the filesystem frontends show.

pub mod backend;
pub mod cache;
pub mod calendar;
pub mod codec;
pub mod commands;
pub mod format;
pub mod fs;
pub mod index;
pub mod keys;
pub mod recent;
pub mod sort;
pub mod store;
pub mod text;
pub mod tree;
pub mod winfs;
