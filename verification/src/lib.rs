//! Packs files and directories into an optical image for BMC virtual media and
//! the UEFI shell.
//!
//! Every payload file and directory goes into a FAT image (`esp.img`) under its
//! own name and path. The El Torito entry points at `esp.img`, so that firmware
//! exposes the FAT volume. The same payload is kept in the ISO 9660 (+Joliet)
//! data tree for readers that mount the disc itself. Without El Torito the image
//! is a plain data disc.
//!
//! [`job`] is the course of a build; [`collect`] walks the inputs, [`esp`] makes
//! the FAT container, [`artifacts`] hides what the disc holds besides the
//! payload. [`gather`], [`tree`], [`names`], [`layout`] and [`render`] make a
//! volume from a tree of nodes, and [`iso_fix`] completes a finished image.
//!
//! What a reader finds on a volume is stated in [`readback`], what the tables of
//! a completed image tell in [`pathtable`], which records are hidden in
//! [`hidden`], what the walks bring of their inputs in [`census`] and [`mirror`],
//! and what the messages tell in [`messages`].
//!
//! Nothing here touches the file system: the walks and the build say what they
//! need to know or what has to be done, and go on with the outcome.
pub mod artifacts;
pub mod bytes;
pub mod census;
pub mod collect;
pub mod collected;
pub mod esp;
pub mod fat;
pub mod gather;
pub mod gathered;
pub mod hidden;
pub mod image;
pub mod iso_fix;
pub mod job;
pub mod layout;
pub mod messages;
pub mod mirror;
pub mod names;
pub mod order;
pub mod paths;
pub mod pathtable;
pub mod readback;
pub mod render;
pub mod runs;
pub mod text;
pub mod timeutil;
pub mod tree;
pub mod walk;

pub use crate::image::{BuildError, BuildSummary, Options};
