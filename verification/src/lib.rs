//! Read and write MFS (Macintosh File System) floppy disk images.
//!
//! MFS is the flat filesystem the original 1984 Macintosh used on its 400K
//! single-sided floppies. This crate reads and writes those volumes — as bare
//! sector images or inside a [DiskCopy 4.2][ImageFormat::DiskCopy42] container,
//! autodetected on open and written back in the same shape.
//!
//! Volumes are handled whole: [`MfsVolume::open`] takes the entire image,
//! every operation works on that copy, and one [`MfsVolume::save_to`] call
//! re-serializes it. Nothing touches the image in between, so a failed
//! operation can never leave a half-written one behind.
//!
//! Files have the two classic Mac forks — [`Fork::Data`] and
//! [`Fork::Resource`] — and names are stored as MacRoman, so lookups are
//! case-insensitive and names round-trip through [`String`].
//!
//! Anything this crate does not interpret is preserved verbatim: boot blocks,
//! reserved MDB and directory fields, and DiskCopy 4.2 tags. Opening an image
//! and saving it again without changing anything reproduces its bytes exactly.
//!
//! # Example
//!
//! ```
//! use macfs::{Fork, ImageFormat, MfsVolume};
//!
//! // Format a blank 400K volume in memory and put a file on it.
//! let mut vol = MfsVolume::format(MfsVolume::FLOPPY_400K, "My Disk", ImageFormat::Raw)?;
//! vol.create_file("Read Me", *b"TEXT", *b"MACA")?;
//! vol.write_fork("Read Me", Fork::Data, b"hello from 1984")?;
//! vol.write_fork("Read Me", Fork::Resource, &[0xAB; 300])?;
//!
//! let mut image = Vec::new();
//! vol.save_to(&mut image)?;
//!
//! // Read it back. Name lookup is case-insensitive, as on a real Mac.
//! let disk = MfsVolume::open(image)?;
//! assert_eq!(disk.info().name, "My Disk");
//! assert_eq!(disk.files().len(), 1);
//! assert_eq!(disk.read_fork("read me", Fork::Data)?, b"hello from 1984");
//! assert_eq!(disk.read_fork("READ ME", Fork::Resource)?, vec![0xAB; 300]);
//! assert!(disk.check().is_empty());
//! # Ok::<(), macfs::MfsError>(())
//! ```
//!
//! # What is proved
//!
//! Every function says in its contract what it returns, errors and their texts
//! included. The contracts of the operations on a volume are stated over its
//! state, in [`model`]; [`report`] says what a consistent volume is and what a
//! check reports; [`laws`] and [`upkeep`] hold what is true of several
//! operations together: what a read gives back of a write, that opening and
//! saving reproduces an image, and that every operation keeps a volume
//! consistent; [`history`] holds what is true after any sequence of them. An
//! operation that fails changes nothing.
//!
//! [`effects`] says what each operation is for: when it succeeds, what can be
//! asked of the volume afterwards, and what stays as it was. [`tool`] says the
//! same of the commands of the tool and of what they print, and [`grammar`] of
//! the lines that they are called with. [`layout`] says where everything stands
//! in an image, [`records`] which of it the values hold that callers are given,
//! and [`complaints`] what is said of an image that is refused.

pub mod args;
pub mod blockmap;
pub mod cli;
pub mod complaints;
pub mod dc42;
pub mod dir;
pub mod effects;
pub mod error;
pub mod grammar;
pub mod history;
pub mod laws;
pub mod layout;
pub mod macroman;
pub mod mdb;
pub mod mkfs;
pub mod model;
pub mod records;
pub mod report;
pub mod text;
pub mod timestamp;
pub mod tool;
pub mod upkeep;
pub mod util;
pub mod volume;

pub use error::{MfsError, Result};
pub use timestamp::MacTimestamp;
pub use volume::{FileEntry, Fork, ImageFormat, MfsVolume, VolumeInfo};
