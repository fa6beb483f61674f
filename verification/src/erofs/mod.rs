//! Building EROFS filesystem images.

pub mod attributes;
pub mod builder;
pub mod build_options;
pub mod compression;
pub mod directory;
pub mod extents;
pub mod image;
pub mod indexes;
pub mod inode;
pub mod layout;
pub mod metadata;
pub mod ondisk;
pub mod prepare;
pub mod readback;
pub mod reading;
pub mod slots;
pub mod stage;
pub mod tree;
pub mod verify;
pub mod windows;
pub mod xattrs;
