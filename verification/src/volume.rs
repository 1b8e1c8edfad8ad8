//! [`MfsVolume`] — the public API.
//!
//! A volume is held entirely in memory: [`open`](MfsVolume::open) takes the
//! whole image (unwrapping a DiskCopy 4.2 container if there is one), every
//! query and mutation works on the parsed structures plus the raw sector
//! buffer, and [`save_to`](MfsVolume::save_to) re-serializes the Master
//! Directory Block, the allocation block map and the file directory back into
//! that buffer before writing it out.
//!
//! **Preservation invariant:** opening an image and saving it again without
//! mutating anything reproduces the original bytes — boot blocks, unparsed MDB
//! fields, the padding beyond the allocation block map, the per-entry fields
//! this crate never interprets, and the DiskCopy 4.2 header name, tags and
//! format bytes all survive verbatim.
//!
//! What each operation does is said in [`crate::model`], over the state of the
//! volume; what holds of several of them together, in [`crate::laws`].

use vstd::prelude::*;
use vstd::string::*;

use crate::blockmap;
use crate::blockmap::BlockMap;
use crate::dc42;
use crate::dc42::Dc42Image;
use crate::dir;
use crate::dir::RawEntry;
use crate::error;
use crate::error::{Fault, MfsError, Result};
use crate::laws;
use crate::macroman;
use crate::mdb;
use crate::mdb::{Mdb, HFS_SIGNATURE, MFS_SIGNATURE};
use crate::mkfs;
use crate::model;
use crate::model::{ContainerView, FileView, InfoView, VolumeView};
use crate::report;
use crate::report::Findings;
use crate::text;
use crate::text::{push_decimal, push_hex, quote, quote_char};
use crate::timestamp::MacTimestamp;
use crate::util;
use crate::util::{push_bytes, put_bytes, put_zeros, rd_u16};

verus! {

/// Bytes of boot code at the very start of a volume: logical sectors 0 and 1.
pub const BOOT_BLOCKS_LEN: usize = 1024;

/// Byte offset of the Master Directory Block within the volume.
pub const MDB_OFFSET: usize = 1024;

/// Byte offset of the allocation block map, immediately after the MDB.
pub const MAP_OFFSET: usize = 1088;

/// `drAtrb` bit 15 — the volume is locked by hardware.
pub const ATRB_HW_LOCKED: u16 = 0x8000;

/// `drAtrb` bit 7 — the volume is locked by software.
pub const ATRB_SW_LOCKED: u16 = 0x0080;

/// Longest file name MFS can store, in MacRoman bytes.
pub const MAX_FILE_NAME: usize = 63;

/// Longest volume name MFS can store, in MacRoman bytes.
pub const MAX_VOLUME_NAME: usize = 27;

/// The container an image is stored in.
#[derive(Debug, Clone, Copy, PartialEq, Eq, Hash)]
pub enum ImageFormat {
    /// A bare sector image.
    Raw,
    /// An image wrapped in an 84-byte DiskCopy 4.2 header, optionally with tags.
    DiskCopy42,
}

/// Which of a file's two forks to operate on.
#[derive(Debug, Clone, Copy, PartialEq, Eq, Hash)]
pub enum Fork {
    /// The data fork.
    Data,
    /// The resource fork.
    Resource,
}

/// A read-only view of one file in the directory.
#[derive(Debug, Clone, PartialEq, Eq)]
pub struct FileEntry {
    /// File name, decoded from MacRoman.
    pub name: String,
    /// `flFNum` — the volume-unique file number.
    pub file_num: u32,
    /// `flTyp` — the four-character Finder type, e.g. `TEXT`.
    pub type_code: [u8; 4],
    /// `flCr` — the four-character Finder creator, e.g. `MACA`.
    pub creator: [u8; 4],
    /// `flFndrFlags` — Finder flags (invisible, bundle, locked, …).
    pub finder_flags: u16,
    /// Whether `flFlags` bit 0 is set, which blocks writes and deletion.
    pub locked: bool,
    /// `flCrDat` — creation date.
    pub created: MacTimestamp,
    /// `flMdDat` — last modification date.
    pub modified: MacTimestamp,
    /// `flDFLogLen` — bytes of real data in the data fork.
    pub data_len: u32,
    /// `flDFAllocLen` — bytes allocated to the data fork.
    pub data_alloc: u32,
    /// `flRFLogLen` — bytes of real data in the resource fork.
    pub rsrc_len: u32,
    /// `flRFAllocLen` — bytes allocated to the resource fork.
    pub rsrc_alloc: u32,
}

/// Volume-level metadata, as reported by [`MfsVolume::info`].
#[derive(Debug, Clone, PartialEq, Eq)]
pub struct VolumeInfo {
    /// `drVN` — the volume name, decoded from MacRoman.
    pub name: String,
    /// `drCrDate` — when the volume was formatted.
    pub created: MacTimestamp,
    /// `drLsMod` — when the volume was last modified.
    pub modified: MacTimestamp,
    /// `drNmFls` — the number of files in the directory.
    pub file_count: u16,
    /// `drAlBlkSiz` — the allocation block size in bytes.
    pub alloc_block_size: u32,
    /// `drNmAlBlks` — the total number of allocation blocks.
    pub total_blocks: u16,
    /// `drFreeBks` — the number of unused allocation blocks.
    pub free_blocks: u16,
    /// The container the image was read from, and will be written back as.
    pub format: ImageFormat,
}

impl View for FileEntry {
    type V = FileView;

    open spec fn view(&self) -> FileView {
        FileView {
            name: self.name@,
            file_num: self.file_num,
            type_code: self.type_code@,
            creator: self.creator@,
            finder_flags: self.finder_flags,
            locked: self.locked,
            created: self.created.0,
            modified: self.modified.0,
            data_len: self.data_len,
            data_alloc: self.data_alloc,
            rsrc_len: self.rsrc_len,
            rsrc_alloc: self.rsrc_alloc,
        }
    }
}

impl FileEntry {
    fn from_raw(e: &RawEntry) -> (f: FileEntry)
        ensures
            f@ == model::file_of(e@),
    {
        FileEntry {
            name: macroman::decode(e.name.as_slice()),
            file_num: e.fnum,
            type_code: e.type_code,
            creator: e.creator,
            finder_flags: e.fndr_flags,
            locked: e.locked(),
            created: MacTimestamp(e.cr_dat),
            modified: MacTimestamp(e.md_dat),
            data_len: e.df_log_len,
            data_alloc: e.df_alloc_len,
            rsrc_len: e.rf_log_len,
            rsrc_alloc: e.rf_alloc_len,
        }
    }
}

/// The reports on some files.
pub open spec fn file_views(files: Seq<FileEntry>) -> Seq<FileView> {
    Seq::new(files.len(), |i: int| files[i]@)
}

impl View for VolumeInfo {
    type V = InfoView;

    open spec fn view(&self) -> InfoView {
        InfoView {
            name: self.name@,
            created: self.created.0,
            modified: self.modified.0,
            file_count: self.file_count,
            alloc_block_size: self.alloc_block_size,
            total_blocks: self.total_blocks,
            free_blocks: self.free_blocks,
            format: self.format,
        }
    }
}

/// Everything needed to rebuild the container an image came in, byte for byte.
#[derive(Debug, Clone, PartialEq, Eq)]
pub enum Container {
    /// No container: a bare sector image.
    Raw,
    /// A DiskCopy 4.2 container.
    Dc42 {
        /// The image name of the header.
        name: Vec<u8>,
        /// What stands behind the name in its field.
        padding: Vec<u8>,
        /// The tag bytes.
        tags: Vec<u8>,
        /// The disk format byte of the header.
        disk_format: u8,
        /// The format byte of the header.
        format_byte: u8,
    },
}

impl View for Container {
    type V = ContainerView;

    open spec fn view(&self) -> ContainerView {
        match *self {
            Container::Raw => ContainerView::Raw,
            Container::Dc42 {
                name,
                padding,
                tags,
                disk_format,
                format_byte,
            } => ContainerView::Dc42 {
                name: name@,
                padding: padding@,
                tags: tags@,
                disk_format,
                format_byte,
            },
        }
    }
}

impl Container {
    fn format(&self) -> (f: ImageFormat)
        ensures
            f == model::format_of(self@),
    {
        match self {
            Container::Raw => ImageFormat::Raw,
            Container::Dc42 { .. } => ImageFormat::DiskCopy42,
        }
    }
}

/// An MFS volume, held in memory.
///
/// See the [crate documentation](crate) for a worked example.
#[derive(Debug, Clone)]
pub struct MfsVolume {
    /// The raw sector image, with any container header stripped.
    data: Vec<u8>,
    container: Container,
    mdb: Mdb,
    map: BlockMap,
    /// Directory entries, in the order they appear on disk.
    entries: Vec<RawEntry>,
    /// Whether any entry has been added, removed or altered since the image was
    /// read. The directory region is only repacked when it has, because real
    /// disks do not always pack their entries the way a fresh first-fit pass
    /// would — an entry that would fit in an earlier sector's tail can sit at
    /// the head of the next one — and rebuilding such a directory unchanged
    /// would move entries and rewrite bytes nobody asked to change.
    dir_dirty: bool,
}

impl View for MfsVolume {
    type V = VolumeView;

    closed spec fn view(&self) -> VolumeView {
        VolumeView {
            data: self.data@,
            container: self.container@,
            mdb: self.mdb@,
            map: self.map@,
            entries: dir::views(self.entries@),
            dir_dirty: self.dir_dirty,
        }
    }
}

impl MfsVolume {
    /// Bytes in a single-sided 400K floppy image.
    pub const FLOPPY_400K: u32 = 409_600;

    /// Bytes in a double-sided 800K floppy image.
    pub const FLOPPY_800K: u32 = 819_200;

    /// Whether the volume is one that was opened or formatted.
    pub open spec fn wf(&self) -> bool {
        self@.wf()
    }

    // ---------------------------------------------------------------- opening

    /// Read a volume, autodetecting a raw image versus a DiskCopy 4.2 container.
    pub fn open(bytes: Vec<u8>) -> (r: Result<MfsVolume>)
        ensures
            error::outcome(r) == model::open_outcome(bytes@),
            r matches Ok(v) ==> v.wf(),
    {
        Self::from_image_bytes(bytes, None)
    }

    /// Read a volume, forcing the interpretation of the container.
    pub fn open_with_format(bytes: Vec<u8>, format: ImageFormat) -> (r: Result<MfsVolume>)
        ensures
            error::outcome(r) == model::forced_outcome(bytes@, format),
            r matches Ok(v) ==> v.wf(),
    {
        Self::from_image_bytes(bytes, Some(format))
    }

    /// Create a brand new, empty volume of `size_bytes`.
    ///
    /// `size_bytes` must be a multiple of 512 and at least 100K. The DiskCopy
    /// 4.2 container only defines the standard floppy geometries, so
    /// [`ImageFormat::DiskCopy42`] additionally requires exactly
    /// [`FLOPPY_400K`](Self::FLOPPY_400K) or [`FLOPPY_800K`](Self::FLOPPY_800K)
    /// bytes. The dates are those of the clock.
    pub fn format(size_bytes: u32, name: &str, format: ImageFormat) -> (r: Result<MfsVolume>)
        ensures
            exists|now: u32|
                error::outcome(r) == #[trigger] mkfs::format_outcome(
                    size_bytes,
                    name@,
                    format,
                    now,
                ),
            r matches Ok(v) ==> v.wf(),
    {
        mkfs::format(size_bytes, name, format)
    }

    fn from_image_bytes(bytes: Vec<u8>, want: Option<ImageFormat>) -> (r: Result<MfsVolume>)
        ensures
            error::outcome(r) == match want {
                Some(f) => model::forced_outcome(bytes@, f),
                None => model::open_outcome(bytes@),
            },
            r matches Ok(v) ==> v.wf(),
    {
        let format = match want {
            Some(f) => f,
            None => {
                if Dc42Image::detect(&bytes) {
                    ImageFormat::DiskCopy42
                } else if looks_like_raw(&bytes) {
                    ImageFormat::Raw
                } else if looks_like_raw_hfs(&bytes) {
                    return Err(MfsError::UnsupportedHfs);
                } else {
                    return Err(MfsError::UnknownImageFormat);
                }
            },
        };
        match format {
            ImageFormat::Raw => Self::from_parts(bytes, Container::Raw),
            ImageFormat::DiskCopy42 => {
                let img = match Dc42Image::parse(&bytes) {
                    Ok(img) => img,
                    Err(e) => return Err(e),
                };
                Self::from_parts(
                    img.data,
                    Container::Dc42 {
                        name: img.name,
                        padding: img.padding,
                        tags: img.tags,
                        disk_format: img.disk_format,
                        format_byte: img.format_byte,
                    },
                )
            },
        }
    }

    /// Parse the MFS structures out of a bare sector image.
    #[verifier::rlimit(30)]
    pub fn from_parts(data: Vec<u8>, container: Container) -> (r: Result<MfsVolume>)
        requires
            model::container_fits(container@, data@.len()),
        ensures
            error::outcome(r) == model::parts_outcome(data@, container@),
            r matches Ok(v) ==> v.wf(),
    {
        let len: usize = data.len();
        if len < MAP_OFFSET {
            let mut m = String::from_str("image is ");
            push_decimal(&mut m, len as u64);
            m.append(" bytes, too short to hold an MDB at offset 1024");
            return Err(MfsError::CorruptVolume(m));
        }
        let mdb = match Mdb::parse(&data[MDB_OFFSET..len]) {
            Ok(mdb) => mdb,
            Err(e) => return Err(e),
        };
        assert(data@.subrange(1024, len as int) =~= data@.skip(1024));

        // Mdb::parse has already checked 3 <= dir_st and dir_st + dir_len <= al_bl_st.
        let dir_start: u64 = mdb.dir_st as u64 * 512;
        let dir_end: u64 = dir_start + mdb.dir_len as u64 * 512;
        if dir_end > len as u64 {
            let mut m = String::from_str("file directory runs to byte ");
            push_decimal(&mut m, dir_end);
            m.append(", past the ");
            push_decimal(&mut m, len as u64);
            m.append("-byte image");
            return Err(MfsError::CorruptVolume(m));
        }
        proof {
            lemma_area(mdb.nm_al_blks, mdb.al_blk_siz);
        }
        let alloc_end: u64 = mdb.al_bl_st as u64 * 512 + mdb.nm_al_blks as u64
            * mdb.al_blk_siz as u64;
        if alloc_end > len as u64 {
            let mut m = String::new();
            push_decimal(&mut m, mdb.nm_al_blks as u64);
            m.append(" allocation blocks of ");
            push_decimal(&mut m, mdb.al_blk_siz as u64);
            m.append(" bytes from sector ");
            push_decimal(&mut m, mdb.al_bl_st as u64);
            m.append(" run to byte ");
            push_decimal(&mut m, alloc_end);
            m.append(", past the ");
            push_decimal(&mut m, len as u64);
            m.append("-byte image");
            assert(Seq::<char>::empty() + text::decimal(mdb.nm_al_blks as nat) =~= text::decimal(
                mdb.nm_al_blks as nat,
            ));
            return Err(MfsError::CorruptVolume(m));
        }
        let map = match BlockMap::unpack(&data[MAP_OFFSET..dir_start as usize], mdb.nm_al_blks) {
            Ok(map) => map,
            Err(e) => return Err(e),
        };
        let entries = match dir::parse_directory(&data[dir_start as usize..dir_end as usize]) {
            Ok(entries) => entries,
            Err(e) => return Err(e),
        };
        proof {
            let region = data@.subrange(dir_start as int, dir_end as int);
            assert(region.len() / 512 == mdb.dir_len);
            dir::lemma_parsed_packable(region);
        }
        Ok(MfsVolume { data, container, mdb, map, entries, dir_dirty: false })
    }

    // ---------------------------------------------------------------- saving

    /// Serialize the volume and write it over the beginning of `w` in its
    /// original container format.
    ///
    /// `w` is not truncated, so writing a small volume over a larger existing
    /// buffer leaves the tail of that buffer behind.
    pub fn save_to(&mut self, w: &mut Vec<u8>) -> (r: Result<()>)
        requires
            old(self).wf(),
        ensures
            final(self).wf(),
            r is Ok,
            final(self)@ == (VolumeView { data: model::serialized(old(self)@), ..old(self)@ }),
            final(w)@ == model::overwritten(old(w)@, model::image(old(self)@)),
    {
        match self.serialize() {
            Ok(_) => {},
            Err(e) => return Err(e),
        }
        match &self.container {
            Container::Raw => overwrite(w, self.data.as_slice()),
            Container::Dc42 { name, padding, tags, disk_format, format_byte } => {
                let image = dc42::wrap(
                    name.as_slice(),
                    padding.as_slice(),
                    self.data.as_slice(),
                    tags.as_slice(),
                    *disk_format,
                    *format_byte,
                );
                overwrite(w, image.as_slice());
            },
        }
        Ok(())
    }

    /// Write the MDB, the allocation block map and the file directory back into
    /// the sector buffer.
    ///
    /// `drLsMod` is deliberately *not* touched here: the mutators maintain it,
    /// so saving an untouched volume reproduces its bytes exactly.
    #[verifier::rlimit(30)]
    fn serialize(&mut self) -> (r: Result<()>)
        requires
            old(self).wf(),
        ensures
            final(self).wf(),
            r is Ok,
            final(self)@ == (VolumeView { data: model::serialized(old(self)@), ..old(self)@ }),
    {
        let dir_start: usize = self.mdb.dir_st as usize * 512;
        let dir_bytes: usize = self.mdb.dir_len as usize * 512;
        let map_len: usize = blockmap::packed_len(self.map.len());
        let ghost before = self.data@;
        {
            let (_, tail) = self.data.as_mut_slice().split_at_mut(MDB_OFFSET);
            self.mdb.write_to(tail);
        }
        let ghost with_mdb = self.data@;
        assert(with_mdb =~= util::splice(before, 1024, mdb::bytes_of(self.mdb@)));
        // Only the bytes the map actually owns are rewritten. The padding
        // between the map and the directory is left alone: some real disks keep
        // data there, and `pack` read-modify-writes the one nibble it does not
        // own in the final byte of an odd-length map.
        {
            let (_, tail) = self.data.as_mut_slice().split_at_mut(MAP_OFFSET);
            let (owned, _) = tail.split_at_mut(map_len);
            self.map.pack(owned);
        }
        let ghost with_map = self.data@;
        assert(with_map =~= model::tables_written(old(self)@)) by {
            assert(with_mdb.subrange(1088, 1088 + map_len) =~= with_mdb.subrange(
                1088,
                with_mdb.len() as int,
            ).subrange(0, map_len as int));
        }
        if self.dir_dirty {
            proof {
                dir::lemma_image_len(old(self)@.entries, self.mdb.dir_len as nat, 0, 0);
            }
            let (_, tail) = self.data.as_mut_slice().split_at_mut(dir_start);
            let (region, _) = tail.split_at_mut(dir_bytes);
            let written = dir::write_directory(self.entries.as_slice(), region);
            proof {
                assert(dir_bytes as int / 512 == self.mdb.dir_len);
            }
            match written {
                Ok(_) => {},
                Err(e) => return Err(e),
            }
        }
        assert(self.data@ =~= model::serialized(old(self)@));
        proof {
            laws::lemma_save_twice(old(self)@);
        }
        Ok(())
    }

    // --------------------------------------------------------------- querying

    /// Volume-level metadata.
    pub fn info(&self) -> (i: VolumeInfo)
        requires
            self.wf(),
        ensures
            i@ == model::info_of(self@),
    {
        VolumeInfo {
            name: self.name(),
            created: MacTimestamp(self.mdb.cr_date),
            modified: MacTimestamp(self.mdb.ls_mod),
            file_count: self.mdb.nm_fls,
            alloc_block_size: self.mdb.al_blk_siz,
            total_blocks: self.mdb.nm_al_blks,
            free_blocks: self.mdb.free_bks,
            format: self.container.format(),
        }
    }

    /// The volume's boot blocks: sectors 0 and 1, the 1024 bytes the ROM loads
    /// and jumps into when starting up from this disk.
    ///
    /// A bootable disk starts these with the signature `0x4C4B` (`'LK'`),
    /// followed by the boot block header and the boot code itself. Volumes made
    /// by [`format`](Self::format) leave the whole region zeroed — a plain data
    /// disk. To make an image bootable, copy the region out of a real system
    /// disk with this method and install it with
    /// [`set_boot_blocks`](Self::set_boot_blocks).
    pub fn boot_blocks(&self) -> (b: &[u8])
        requires
            self.wf(),
        ensures
            b@ == self@.data.take(1024),
    {
        &self.data[0..BOOT_BLOCKS_LEN]
    }

    /// Every file in the directory, in on-disk order.
    pub fn files(&self) -> (files: Vec<FileEntry>)
        ensures
            file_views(files@) == model::files_of(self@.entries),
    {
        let mut files: Vec<FileEntry> = Vec::new();
        let mut i: usize = 0;
        while i < self.entries.len()
            invariant
                i <= self.entries@.len(),
                files@.len() == i,
                forall|k: int|
                    0 <= k < i ==> (#[trigger] files@[k])@ == model::file_of(self.entries@[k]@),
            decreases self.entries@.len() - i,
        {
            files.push(FileEntry::from_raw(&self.entries[i]));
            i = i + 1;
        }
        assert(file_views(files@) =~= model::files_of(self@.entries));
        files
    }

    /// Look up one file by name, case-insensitively.
    pub fn file(&self, name: &str) -> (r: Result<FileEntry>)
        ensures
            error::outcome(r) == model::file_outcome(self@, name@),
    {
        match self.index_of(name) {
            Ok(i) => Ok(FileEntry::from_raw(&self.entries[i])),
            Err(e) => Err(e),
        }
    }

    /// Read one fork of one file.
    ///
    /// An empty fork yields an empty vector. A fork whose block chain is
    /// shorter than its logical length, or that has a length and no blocks at
    /// all, is reported as `CorruptVolume` rather than silently returning
    /// truncated data.
    pub fn read_fork(&self, name: &str, fork: Fork) -> (r: Result<Vec<u8>>)
        requires
            self.wf(),
        ensures
            error::outcome(r) == model::read_outcome(self@, name@, fork),
    {
        let idx: usize = match self.index_of(name) {
            Ok(i) => i,
            Err(e) => return Err(e),
        };
        let e = &self.entries[idx];
        let start: u16 = match fork {
            Fork::Data => e.df_st_blk,
            Fork::Resource => e.rf_st_blk,
        };
        let log_len: u32 = match fork {
            Fork::Data => e.df_log_len,
            Fork::Resource => e.rf_log_len,
        };
        if start == 0 {
            if log_len != 0 {
                return Err(uncovered(name, fork, log_len, 0));
            }
            return Ok(Vec::new());
        }
        let blk_siz: usize = self.mdb.al_blk_siz as usize;
        let chain = match self.map.chain(start) {
            Ok(chain) => chain,
            Err(e) => return Err(e),
        };
        proof {
            lemma_area(chain@.len() as u16, self.mdb.al_blk_siz);
            model::lemma_chain_bytes_len(self@, chain@);
        }
        let chain_bytes: u64 = chain.len() as u64 * self.mdb.al_blk_siz as u64;
        if chain_bytes < log_len as u64 {
            return Err(uncovered(name, fork, log_len, chain_bytes));
        }
        let mut out: Vec<u8> = Vec::new();
        let mut i: usize = 0;
        let ghost whole = model::chain_bytes(self@.data, self@.mdb, chain@);
        assert(chain@.skip(0) =~= chain@);
        assert(out@ + whole =~= whole);
        while i < chain.len()
            invariant
                self.wf(),
                blk_siz == self@.mdb.al_blk_siz,
                i <= chain@.len(),
                forall|k: int|
                    0 <= k < chain@.len() ==> blockmap::has_block(self@.map, #[trigger] chain@[k]),
                out@ + model::chain_bytes(self@.data, self@.mdb, chain@.skip(i as int)) == whole,
            decreases chain@.len() - i,
        {
            let off: usize = self.block_offset(chain[i]);
            let ghost rest = chain@.skip(i as int);
            proof {
                model::lemma_block_inside(self@, chain@[i as int]);
                assert(rest.skip(1) =~= chain@.skip(i + 1));
            }
            let ghost before = out@;
            push_bytes(&mut out, &self.data[off..off + blk_siz]);
            assert(out@ + model::chain_bytes(self@.data, self@.mdb, rest.skip(1)) =~= before
                + model::chain_bytes(self@.data, self@.mdb, rest));
            i = i + 1;
        }
        assert(out@ =~= whole) by {
            assert(chain@.skip(i as int).len() == 0);
        }
        out.truncate(log_len as usize);
        assert(out@ =~= whole.take(log_len as int));
        Ok(out)
    }

    /// Check the volume for internal inconsistencies.
    ///
    /// Returns one human-readable line per problem found; an empty vector means
    /// everything checked out. Nothing here is fatal — the intent is to report
    /// on a suspect image, not to refuse to work with it.
    #[verifier::rlimit(30)]
    pub fn check(&self) -> (report: Vec<String>)
        requires
            self.wf(),
            self@.map.len() < 65535,
        ensures
            text::texts(report@) == report::lines(self@),
            report@.len() == 0 <==> report::consistent(self@),
    {
        proof {
            report::lemma_report_empty(self@);
        }
        let mut report: Vec<String> = Vec::new();
        let mut owner: Vec<Option<String>> = Vec::new();
        let n: usize = self.map.len() as usize;
        let mut i: usize = 0;
        while i < n
            invariant
                i <= n,
                owner@.len() == i,
                forall|k: int| 0 <= k < i ==> #[trigger] owner@[k] is None,
            decreases n - i,
        {
            owner.push(None);
            i = i + 1;
        }
        assert(findings(report@, owner@) =~= Findings {
            lines: Seq::empty(),
            owner: Seq::new(self@.map.len(), |i: int| None::<Seq<char>>),
        });

        if self.mdb.nm_fls as usize != self.entries.len() {
            let mut m = String::from_str("drNmFls says ");
            push_decimal(&mut m, self.mdb.nm_fls as u64);
            m.append(" files, the directory holds ");
            push_decimal(&mut m, self.entries.len() as u64);
            note(&mut report, m, Ghost(owner@));
        }
        let free: u32 = self.map.free_count();
        if self.mdb.free_bks as u32 != free {
            let mut m = String::from_str("drFreeBks says ");
            push_decimal(&mut m, self.mdb.free_bks as u64);
            m.append(" free blocks, the allocation map has ");
            push_decimal(&mut m, free as u64);
            note(&mut report, m, Ghost(owner@));
        }
        assert(findings(report@, owner@) == report::counters_checked(self@));
        let mut k: usize = 0;
        while k < self.entries.len()
            invariant
                self.wf(),
                k <= self.entries@.len(),
                owner@.len() == self@.map.len(),
                findings(report@, owner@) == report::entries_checked(
                    self@,
                    k as nat,
                    report::counters_checked(self@),
                ),
            decreases self.entries@.len() - k,
        {
            let e = &self.entries[k];
            let name = macroman::decode(e.name.as_slice());
            if !e.in_use() {
                let mut m = name.clone();
                m.append(
                    ": directory entry is not marked in use and would hide every entry after it",
                );
                note(&mut report, m, Ghost(owner@));
            }
            self.check_fork(name.as_str(), e, Fork::Data, &mut report, &mut owner);
            self.check_fork(name.as_str(), e, Fork::Resource, &mut report, &mut owner);
            k = k + 1;
        }

        let mut orphans: u32 = 0;
        let mut b: u16 = 0;
        while b < self.map.len()
            invariant
                self.wf(),
                self@.map.len() < 65535,
                b <= self@.map.len(),
                owner@.len() == self@.map.len(),
                orphans <= b,
                orphans == report::orphans(
                    self@.map,
                    findings(report@, owner@).owner,
                    b as nat,
                ),
            decreases self@.map.len() - b,
        {
            let v: u16 = self.map.get(b + blockmap::FIRST_BLOCK);
            if v != blockmap::FREE && v != blockmap::RESERVED && owner[b as usize].is_none() {
                orphans = orphans + 1;
            }
            b = b + 1;
        }
        if orphans > 0 {
            let mut m = String::new();
            push_decimal(&mut m, orphans as u64);
            m.append(" allocation blocks are marked in use but belong to no file");
            assert(Seq::<char>::empty() + text::decimal(orphans as nat) =~= text::decimal(
                orphans as nat,
            ));
            note(&mut report, m, Ghost(owner@));
        }
        assert(text::texts(report@).len() == report@.len());
        report
    }

    /// Check one fork of one entry.
    fn check_fork(
        &self,
        name: &str,
        e: &RawEntry,
        fork: Fork,
        report: &mut Vec<String>,
        owner: &mut Vec<Option<String>>,
    )
        requires
            self.wf(),
            name@ == macroman::decoded(e@.name),
            old(owner)@.len() == self@.map.len(),
        ensures
            final(owner)@.len() == self@.map.len(),
            findings(final(report)@, final(owner)@) == report::fork_checked(
                self@,
                e@,
                fork,
                findings(old(report)@, old(owner)@),
            ),
    {
        let start: u16 = match fork {
            Fork::Data => e.df_st_blk,
            Fork::Resource => e.rf_st_blk,
        };
        let log_len: u32 = match fork {
            Fork::Data => e.df_log_len,
            Fork::Resource => e.rf_log_len,
        };
        let alloc_len: u32 = match fork {
            Fork::Data => e.df_alloc_len,
            Fork::Resource => e.rf_alloc_len,
        };
        if start == 0 {
            if log_len != 0 || alloc_len != 0 {
                let mut m = about(name, fork);
                m.append(" fork has no blocks but claims ");
                push_decimal(&mut m, log_len as u64);
                m.append(" bytes (");
                push_decimal(&mut m, alloc_len as u64);
                m.append(" allocated)");
                note(report, m, Ghost(owner@));
            }
            return ;
        }
        if log_len > alloc_len {
            let mut m = about(name, fork);
            m.append(" fork logical length ");
            push_decimal(&mut m, log_len as u64);
            m.append(" exceeds its allocated length ");
            push_decimal(&mut m, alloc_len as u64);
            note(report, m, Ghost(owner@));
        }
        let chain = match self.map.chain(start) {
            Ok(chain) => chain,
            Err(err) => {
                let mut m = about(name, fork);
                m.append(" fork chain is broken: ");
                m.append(err.to_string_with("").as_str());
                note(report, m, Ghost(owner@));
                return ;
            },
        };
        proof {
            lemma_area(chain@.len() as u16, self.mdb.al_blk_siz);
        }
        let chain_bytes: u64 = chain.len() as u64 * self.mdb.al_blk_siz as u64;
        if chain_bytes != alloc_len as u64 {
            let mut m = about(name, fork);
            m.append(" fork claims ");
            push_decimal(&mut m, alloc_len as u64);
            m.append(" allocated bytes but its chain of ");
            push_decimal(&mut m, chain.len() as u64);
            m.append(" blocks holds ");
            push_decimal(&mut m, chain_bytes);
            note(report, m, Ghost(owner@));
        }
        if log_len as u64 > chain_bytes {
            let mut m = about(name, fork);
            m.append(" fork logical length ");
            push_decimal(&mut m, log_len as u64);
            m.append(" exceeds the ");
            push_decimal(&mut m, chain_bytes);
            m.append(" bytes in its block chain");
            note(report, m, Ghost(owner@));
        }
        claim(name, fork, &chain, report, owner);
    }

    // -------------------------------------------------------------- mutating

    /// Add a new, empty file.
    ///
    /// The dates are those of the clock.
    pub fn create_file(&mut self, name: &str, type_code: [u8; 4], creator: [u8; 4]) -> (r: Result<
        (),
    >)
        requires
            old(self).wf(),
        ensures
            final(self).wf(),
            model::comes_to(
                model::create_outcome(
                    old(self)@,
                    name@,
                    type_code@,
                    creator@,
                    final(self)@.mdb.ls_mod,
                ),
                old(self)@,
                error::outcome(r),
                final(self)@,
            ),
    {
        let now = MacTimestamp::now();
        let r = self.create_file_at(name, type_code, creator, now);
        proof {
            model::lemma_create_timeless(
                old(self)@,
                name@,
                type_code@,
                creator@,
                now.0,
                self@.mdb.ls_mod,
            );
        }
        r
    }

    /// Add a new, empty file at a given time.
    pub fn create_file_at(
        &mut self,
        name: &str,
        type_code: [u8; 4],
        creator: [u8; 4],
        now: MacTimestamp,
    ) -> (r: Result<()>)
        requires
            old(self).wf(),
        ensures
            final(self).wf(),
            model::comes_to(
                model::create_outcome(old(self)@, name@, type_code@, creator@, now.0),
                old(self)@,
                error::outcome(r),
                final(self)@,
            ),
    {
        match self.check_writable() {
            Ok(_) => {},
            Err(e) => return Err(e),
        }
        let raw_name = match encode_file_name(name) {
            Ok(raw) => raw,
            Err(e) => return Err(e),
        };
        if self.lookup(name).is_some() {
            return Err(MfsError::FileExists(String::from_str(name)));
        }
        let ghost raw = raw_name@;
        let entry = RawEntry {
            flags: dir::FLAG_IN_USE,
            version: 0,
            type_code,
            creator,
            fndr_flags: 0,
            pos: 0,
            fldr_num: 0,
            fnum: self.mdb.nxt_fnum,
            df_st_blk: 0,
            df_log_len: 0,
            df_alloc_len: 0,
            rf_st_blk: 0,
            rf_log_len: 0,
            rf_alloc_len: 0,
            cr_dat: now.0,
            md_dat: now.0,
            name: raw_name,
        };
        let ghost e = entry@;
        self.entries.push(entry);
        proof {
            assert(e == model::new_entry(old(self)@, raw, type_code@, creator@, now.0));
            assert(self@.entries =~= old(self)@.entries.push(e));
        }
        if !dir::fits(self.entries.as_slice(), self.mdb.dir_len as usize) {
            self.entries.pop();
            assert(self@.entries =~= old(self)@.entries);
            return Err(MfsError::DirectoryFull);
        }
        self.mdb.nxt_fnum = self.mdb.nxt_fnum.wrapping_add(1);
        self.mdb.ls_mod = now.0;
        self.dir_dirty = true;
        self.recompute_counters();
        Ok(())
    }

    /// Replace the entire contents of one fork.
    ///
    /// The old blocks are released and a fresh chain is allocated. If the
    /// volume cannot hold `data` the volume is left completely untouched and
    /// `VolumeFull` is returned.
    ///
    /// The dates are those of the clock. [`can_represent`](Self::can_represent)
    /// tells whether a write may be asked for.
    pub fn write_fork(&mut self, name: &str, fork: Fork, data: &[u8]) -> (r: Result<()>)
        requires
            old(self).wf(),
            model::representable(old(self)@, name@, fork, data@.len()),
        ensures
            final(self).wf(),
            model::comes_to(
                model::write_outcome(
                    old(self)@,
                    name@,
                    fork,
                    data@,
                    final(self)@.mdb.ls_mod,
                ),
                old(self)@,
                error::outcome(r),
                final(self)@,
            ),
    {
        self.write_fork_at(name, fork, data, MacTimestamp::now())
    }

    /// Replace the entire contents of one fork at a given time.
    #[verifier::rlimit(30)]
    pub fn write_fork_at(
        &mut self,
        name: &str,
        fork: Fork,
        data: &[u8],
        now: MacTimestamp,
    ) -> (r: Result<()>)
        requires
            old(self).wf(),
            model::representable(old(self)@, name@, fork, data@.len()),
        ensures
            final(self).wf(),
            model::comes_to(
                model::write_outcome(old(self)@, name@, fork, data@, now.0),
                old(self)@,
                error::outcome(r),
                final(self)@,
            ),
    {
        let plan = match self.plan_write(name, fork, data.len()) {
            Ok(plan) => plan,
            Err(e) => return Err(e),
        };
        let (idx, old_start, needed) = plan;
        let ghost p = model::write_plan(old(self)@, name@, fork, data@.len())->Ok_0;
        let ghost map1 = blockmap::released(old(self)@.map, p.old);
        if old_start != 0 {
            match self.map.free_chain(old_start) {
                Ok(_) => {},
                Err(e) => return Err(e),
            }
            proof {
                blockmap::lemma_freed_count(old(self)@.map, old_start);
            }
        } else {
            proof {
                model::lemma_released_none(old(self)@.map);
            }
        }
        assert(self.map@ == map1);
        let blocks = match self.map.allocate(needed) {
            Ok(blocks) => blocks,
            Err(e) => {
                assert(false);
                return Err(e);
            },
        };
        proof {
            blockmap::lemma_picked(map1, needed as nat);
            blockmap::lemma_linked(map1, blocks@);
        }
        self.dir_dirty = true;
        self.fill(&blocks, data);
        let start: u16 = if blocks.len() == 0 {
            0
        } else {
            blocks[0]
        };
        let log_len: u32 = data.len() as u32;
        let alloc_len: u32 = needed * self.mdb.al_blk_siz;
        let ghost before = self@;
        match fork {
            Fork::Data => {
                self.entries[idx].df_st_blk = start;
                self.entries[idx].df_log_len = log_len;
                self.entries[idx].df_alloc_len = alloc_len;
            },
            Fork::Resource => {
                self.entries[idx].rf_st_blk = start;
                self.entries[idx].rf_log_len = log_len;
                self.entries[idx].rf_alloc_len = alloc_len;
            },
        }
        self.entries[idx].md_dat = now.0;
        let ghost e = model::with_fork(
            before.entries[idx as int],
            fork,
            start,
            log_len,
            alloc_len,
            now.0,
        );
        assert(self@.entries =~= before.entries.update(idx as int, e));
        self.mdb.ls_mod = now.0;
        self.recompute_counters();
        proof {
            model::lemma_with_entry_wf(before, idx as nat, e, now.0);
        }
        Ok(())
    }

    /// Replace the entire contents of one fork, unless what the write would
    /// leave behind cannot be written down, in which case nothing is changed
    /// and nothing returned.
    pub fn try_write_fork(&mut self, name: &str, fork: Fork, data: &[u8]) -> (r: Option<Result<()>>)
        requires
            old(self).wf(),
        ensures
            final(self).wf(),
            match r {
                Some(r) => {
                    &&& model::representable(old(self)@, name@, fork, data@.len())
                    &&& model::comes_to(
                        model::write_outcome(
                            old(self)@,
                            name@,
                            fork,
                            data@,
                            final(self)@.mdb.ls_mod,
                        ),
                        old(self)@,
                        error::outcome(r),
                        final(self)@,
                    )
                },
                None => {
                    &&& !model::representable(old(self)@, name@, fork, data@.len())
                    &&& final(self)@ == old(self)@
                },
            },
    {
        if self.can_represent(name, fork, data.len()) {
            Some(self.write_fork(name, fork, data))
        } else {
            None
        }
    }

    /// Whether what a write of `len` bytes would leave behind can be written
    /// down: every block it takes has a 16-bit number and the allocated length
    /// fits in 32 bits.
    pub fn can_represent(&self, name: &str, fork: Fork, len: usize) -> (b: bool)
        requires
            self.wf(),
        ensures
            b == model::representable(self@, name@, fork, len as nat),
    {
        match self.plan_write(name, fork, len) {
            Ok(plan) => {
                let (_, old_start, needed) = plan;
                let ghost p = model::write_plan(self@, name@, fork, len as nat)->Ok_0;
                let old_len: u32 = match self.old_blocks(old_start) {
                    Ok(n) => n,
                    Err(_) => 0,
                };
                let available: u32 = self.map.free_count() + old_len;
                proof {
                    if old_start == 0 {
                        model::lemma_released_none(self@.map);
                    } else {
                        blockmap::lemma_freed_count(self@.map, old_start);
                    }
                    let size = self.mdb.al_blk_siz;
                    assert(0 <= needed * size <= 0xFFFF_FFFF * 0xFFFF_FFFF) by (nonlinear_arith)
                        requires
                            0 <= needed <= 0xFFFF_FFFF,
                            0 <= size <= 0xFFFF_FFFF,
                    ;
                }
                let numbered: bool = !self.map.ends_free() || needed == 0 || needed != available;
                numbered && needed as u64 * self.mdb.al_blk_siz as u64 <= 0xFFFF_FFFF
            },
            Err(_) => true,
        }
    }

    /// Delete a file, releasing both of its forks. If the chain of either is
    /// broken the volume is left completely untouched.
    ///
    /// The date is that of the clock.
    pub fn delete_file(&mut self, name: &str) -> (r: Result<()>)
        requires
            old(self).wf(),
        ensures
            final(self).wf(),
            model::comes_to(
                model::delete_outcome(old(self)@, name@, final(self)@.mdb.ls_mod),
                old(self)@,
                error::outcome(r),
                final(self)@,
            ),
    {
        self.delete_file_at(name, MacTimestamp::now())
    }

    /// Delete a file, releasing both of its forks, at a given time.
    pub fn delete_file_at(&mut self, name: &str, now: MacTimestamp) -> (r: Result<()>)
        requires
            old(self).wf(),
        ensures
            final(self).wf(),
            model::comes_to(
                model::delete_outcome(old(self)@, name@, now.0),
                old(self)@,
                error::outcome(r),
                final(self)@,
            ),
    {
        let idx: usize = match self.target(name) {
            Ok(i) => i,
            Err(e) => return Err(e),
        };
        if self.entries[idx].locked() {
            return Err(MfsError::FileLocked(String::from_str(name)));
        }
        let df: u16 = self.entries[idx].df_st_blk;
        let rf: u16 = self.entries[idx].rf_st_blk;
        // Both chains are given back in a copy, which takes the map's place
        // once neither turned out to be broken.
        let mut map = self.map.copy();
        if df != 0 {
            match map.free_chain(df) {
                Ok(_) => {},
                Err(e) => return Err(e),
            }
        }
        if rf != 0 {
            match map.free_chain(rf) {
                Ok(_) => {},
                Err(e) => return Err(e),
            }
        }
        self.map = map;
        self.entries.remove(idx);
        assert(self@.entries =~= old(self)@.entries.remove(idx as int));
        self.mdb.ls_mod = now.0;
        self.dir_dirty = true;
        self.recompute_counters();
        proof {
            dir::lemma_placed_without(
                old(self)@.entries,
                idx as int,
                old(self)@.mdb.dir_len as nat,
                0,
                0,
            );
        }
        Ok(())
    }

    /// Rename a file. The new name may differ from the old one only in case.
    ///
    /// The date is that of the clock.
    pub fn rename_file(&mut self, old_name: &str, new_name: &str) -> (r: Result<()>)
        requires
            old(self).wf(),
        ensures
            final(self).wf(),
            model::comes_to(
                model::rename_outcome(
                    old(self)@,
                    old_name@,
                    new_name@,
                    final(self)@.mdb.ls_mod,
                ),
                old(self)@,
                error::outcome(r),
                final(self)@,
            ),
    {
        self.rename_file_at(old_name, new_name, MacTimestamp::now())
    }

    /// Rename a file at a given time.
    pub fn rename_file_at(
        &mut self,
        old_name: &str,
        new_name: &str,
        now: MacTimestamp,
    ) -> (r: Result<()>)
        requires
            old(self).wf(),
        ensures
            final(self).wf(),
            model::comes_to(
                model::rename_outcome(old(self)@, old_name@, new_name@, now.0),
                old(self)@,
                error::outcome(r),
                final(self)@,
            ),
    {
        match self.check_writable() {
            Ok(_) => {},
            Err(e) => return Err(e),
        }
        let mut name = match encode_file_name(new_name) {
            Ok(raw) => raw,
            Err(e) => return Err(e),
        };
        let ghost raw = name@;
        let idx: usize = match self.index_of(old_name) {
            Ok(i) => i,
            Err(e) => return Err(e),
        };
        match self.lookup(new_name) {
            Some(other) => {
                if other != idx {
                    return Err(MfsError::FileExists(String::from_str(new_name)));
                }
            },
            None => {},
        }
        let ghost e = dir::EntryView { name: raw, ..old(self)@.entries[idx as int] };
        std::mem::swap(&mut self.entries[idx].name, &mut name);
        assert(self@.entries =~= old(self)@.entries.update(idx as int, e));
        if !dir::fits(self.entries.as_slice(), self.mdb.dir_len as usize) {
            std::mem::swap(&mut self.entries[idx].name, &mut name);
            assert(self@.entries =~= old(self)@.entries);
            return Err(MfsError::DirectoryFull);
        }
        self.mdb.ls_mod = now.0;
        self.dir_dirty = true;
        self.recompute_counters();
        Ok(())
    }

    /// Rename the volume itself.
    ///
    /// The date is that of the clock.
    pub fn rename_volume(&mut self, name: &str) -> (r: Result<()>)
        requires
            old(self).wf(),
        ensures
            final(self).wf(),
            model::comes_to(
                model::rename_volume_outcome(old(self)@, name@, final(self)@.mdb.ls_mod),
                old(self)@,
                error::outcome(r),
                final(self)@,
            ),
    {
        self.rename_volume_at(name, MacTimestamp::now())
    }

    /// Rename the volume itself at a given time.
    pub fn rename_volume_at(&mut self, name: &str, now: MacTimestamp) -> (r: Result<()>)
        requires
            old(self).wf(),
        ensures
            final(self).wf(),
            model::comes_to(
                model::rename_volume_outcome(old(self)@, name@, now.0),
                old(self)@,
                error::outcome(r),
                final(self)@,
            ),
    {
        match self.check_writable() {
            Ok(_) => {},
            Err(e) => return Err(e),
        }
        let raw = match encode_volume_name(name) {
            Ok(raw) => raw,
            Err(e) => return Err(e),
        };
        self.mdb.name_raw = name_field(raw.as_slice());
        self.mdb.ls_mod = now.0;
        self.recompute_counters();
        Ok(())
    }

    /// Replace the volume's boot blocks, typically with a copy taken from a
    /// real system disk via [`boot_blocks`](Self::boot_blocks).
    ///
    /// The bytes are stored verbatim; nothing here validates the boot code or
    /// its `0x4C4B` signature, and no filesystem structure depends on it.
    /// Because boot code is not filesystem metadata, `drLsMod` is deliberately
    /// left alone — Apple's own tools do not bump the volume's modification
    /// date when installing boot blocks either.
    pub fn set_boot_blocks(&mut self, blocks: &[u8; 1024]) -> (r: Result<()>)
        requires
            old(self).wf(),
        ensures
            final(self).wf(),
            model::comes_to(
                model::boot_outcome(old(self)@, blocks@),
                old(self)@,
                error::outcome(r),
                final(self)@,
            ),
    {
        match self.check_writable() {
            Ok(_) => {},
            Err(e) => return Err(e),
        }
        put_bytes(self.data.as_mut_slice(), 0, blocks.as_slice());
        proof {
            let lo = model::dir_start(self@.mdb);
            let hi = model::dir_end(self@.mdb);
            assert(self@.data.subrange(lo, hi) =~= old(self)@.data.subrange(lo, hi));
        }
        Ok(())
    }

    /// Set a file's Finder type and creator codes.
    ///
    /// The date is that of the clock.
    pub fn set_type_creator(
        &mut self,
        name: &str,
        type_code: [u8; 4],
        creator: [u8; 4],
    ) -> (r: Result<()>)
        requires
            old(self).wf(),
        ensures
            final(self).wf(),
            model::comes_to(
                model::type_creator_outcome(
                    old(self)@,
                    name@,
                    type_code@,
                    creator@,
                    final(self)@.mdb.ls_mod,
                ),
                old(self)@,
                error::outcome(r),
                final(self)@,
            ),
    {
        self.set_type_creator_at(name, type_code, creator, MacTimestamp::now())
    }

    /// Set a file's Finder type and creator codes at a given time.
    pub fn set_type_creator_at(
        &mut self,
        name: &str,
        type_code: [u8; 4],
        creator: [u8; 4],
        now: MacTimestamp,
    ) -> (r: Result<()>)
        requires
            old(self).wf(),
        ensures
            final(self).wf(),
            model::comes_to(
                model::type_creator_outcome(old(self)@, name@, type_code@, creator@, now.0),
                old(self)@,
                error::outcome(r),
                final(self)@,
            ),
    {
        let idx: usize = match self.target(name) {
            Ok(i) => i,
            Err(e) => return Err(e),
        };
        self.entries[idx].type_code = type_code;
        self.entries[idx].creator = creator;
        let ghost e = dir::EntryView {
            type_code: type_code@,
            creator: creator@,
            ..old(self)@.entries[idx as int]
        };
        assert(self@.entries =~= old(self)@.entries.update(idx as int, e));
        self.mdb.ls_mod = now.0;
        self.dir_dirty = true;
        self.recompute_counters();
        proof {
            model::lemma_with_entry_wf(old(self)@, idx as nat, e, now.0);
        }
        Ok(())
    }

    /// Set or clear a file's locked bit.
    ///
    /// The date is that of the clock.
    pub fn set_locked(&mut self, name: &str, locked: bool) -> (r: Result<()>)
        requires
            old(self).wf(),
        ensures
            final(self).wf(),
            model::comes_to(
                model::locked_outcome(old(self)@, name@, locked, final(self)@.mdb.ls_mod),
                old(self)@,
                error::outcome(r),
                final(self)@,
            ),
    {
        self.set_locked_at(name, locked, MacTimestamp::now())
    }

    /// Set or clear a file's locked bit at a given time.
    pub fn set_locked_at(&mut self, name: &str, locked: bool, now: MacTimestamp) -> (r: Result<()>)
        requires
            old(self).wf(),
        ensures
            final(self).wf(),
            model::comes_to(
                model::locked_outcome(old(self)@, name@, locked, now.0),
                old(self)@,
                error::outcome(r),
                final(self)@,
            ),
    {
        let idx: usize = match self.target(name) {
            Ok(i) => i,
            Err(e) => return Err(e),
        };
        let flags: u8 = self.entries[idx].flags;
        assert(flags | 1 == flags / 2 * 2 + 1) by (bit_vector);
        assert(flags & !1u8 == flags / 2 * 2) by (bit_vector);
        if locked {
            self.entries[idx].flags = flags | dir::FLAG_LOCKED;
        } else {
            self.entries[idx].flags = flags & !dir::FLAG_LOCKED;
        }
        let ghost e = dir::EntryView {
            flags: model::with_lock(flags, locked),
            ..old(self)@.entries[idx as int]
        };
        assert(self@.entries =~= old(self)@.entries.update(idx as int, e));
        self.mdb.ls_mod = now.0;
        self.dir_dirty = true;
        self.recompute_counters();
        proof {
            model::lemma_with_entry_wf(old(self)@, idx as nat, e, now.0);
        }
        Ok(())
    }

    /// Overwrite a file's creation and/or modification dates. `None` leaves a
    /// date as it is.
    ///
    /// The volume's own date is that of the clock.
    pub fn set_times(
        &mut self,
        name: &str,
        created: Option<MacTimestamp>,
        modified: Option<MacTimestamp>,
    ) -> (r: Result<()>)
        requires
            old(self).wf(),
        ensures
            final(self).wf(),
            model::comes_to(
                model::times_outcome(
                    old(self)@,
                    name@,
                    model::seconds(created),
                    model::seconds(modified),
                    final(self)@.mdb.ls_mod,
                ),
                old(self)@,
                error::outcome(r),
                final(self)@,
            ),
    {
        self.set_times_at(name, created, modified, MacTimestamp::now())
    }

    /// Overwrite a file's creation and/or modification dates at a given time.
    pub fn set_times_at(
        &mut self,
        name: &str,
        created: Option<MacTimestamp>,
        modified: Option<MacTimestamp>,
        now: MacTimestamp,
    ) -> (r: Result<()>)
        requires
            old(self).wf(),
        ensures
            final(self).wf(),
            model::comes_to(
                model::times_outcome(
                    old(self)@,
                    name@,
                    model::seconds(created),
                    model::seconds(modified),
                    now.0,
                ),
                old(self)@,
                error::outcome(r),
                final(self)@,
            ),
    {
        let idx: usize = match self.target(name) {
            Ok(i) => i,
            Err(e) => return Err(e),
        };
        match created {
            Some(t) => {
                self.entries[idx].cr_dat = t.0;
            },
            None => {},
        }
        match modified {
            Some(t) => {
                self.entries[idx].md_dat = t.0;
            },
            None => {},
        }
        let ghost e = dir::EntryView {
            cr_dat: self@.entries[idx as int].cr_dat,
            md_dat: self@.entries[idx as int].md_dat,
            ..old(self)@.entries[idx as int]
        };
        assert(self@.entries =~= old(self)@.entries.update(idx as int, e));
        self.mdb.ls_mod = now.0;
        self.dir_dirty = true;
        self.recompute_counters();
        proof {
            model::lemma_with_entry_wf(old(self)@, idx as nat, e, now.0);
        }
        Ok(())
    }

    // --------------------------------------------------------------- internals

    /// The entry that an operation on `name` works on, once the volume is
    /// known to be writable.
    fn target(&self, name: &str) -> (r: Result<usize>)
        ensures
            match r {
                Ok(i) => model::target(self@, name@) == Ok::<nat, Fault>(i as nat) && i
                    < self.entries@.len(),
                Err(e) => model::target(self@, name@) == Err::<nat, Fault>(e@),
            },
    {
        match self.check_writable() {
            Ok(_) => {},
            Err(e) => return Err(e),
        }
        self.index_of(name)
    }

    /// How many blocks the chain from `start` has.
    fn old_blocks(&self, start: u16) -> (r: Result<u32>)
        requires
            self.wf(),
        ensures
            match r {
                Ok(n) => {
                    &&& model::fork_chain(self@, start) is Ok
                    &&& n == model::fork_chain(self@, start)->Ok_0.len()
                    &&& n <= 65535
                },
                Err(e) => model::fork_chain(self@, start) == Err::<Seq<u16>, Fault>(e@),
            },
    {
        if start == 0 {
            return Ok(0);
        }
        match self.map.chain(start) {
            Ok(chain) => Ok(chain.len() as u32),
            Err(e) => Err(e),
        }
    }

    /// What a write of `len` bytes works with: the index of the entry, the
    /// first block of the old contents, and the number of blocks to take.
    fn plan_write(&self, name: &str, fork: Fork, len: usize) -> (r: Result<(usize, u16, u32)>)
        requires
            self.wf(),
        ensures
            match r {
                Ok((idx, old_start, needed)) => {
                    let plan = model::write_plan(self@, name@, fork, len as nat);
                    &&& plan is Ok
                    &&& plan->Ok_0.index == idx
                    &&& plan->Ok_0.needed == needed
                    &&& idx < self.entries@.len()
                    &&& old_start == model::fork_start(self@.entries[idx as int], fork)
                    &&& model::fork_chain(self@, old_start) == Ok::<Seq<u16>, Fault>(
                        plan->Ok_0.old,
                    )
                },
                Err(e) => model::write_plan(self@, name@, fork, len as nat) == Err::<
                    model::WritePlan,
                    Fault,
                >(e@),
            },
    {
        let idx: usize = match self.target(name) {
            Ok(i) => i,
            Err(e) => return Err(e),
        };
        if self.entries[idx].locked() {
            return Err(MfsError::FileLocked(String::from_str(name)));
        }
        let blk_siz: usize = self.mdb.al_blk_siz as usize;
        proof {
            lemma_div_ceil(len as int, blk_siz as int);
        }
        let whole: usize = if len % blk_siz == 0 {
            len / blk_siz
        } else {
            len / blk_siz + 1
        };
        let needed: u32 = whole as u32;
        let old_start: u16 = match fork {
            Fork::Data => self.entries[idx].df_st_blk,
            Fork::Resource => self.entries[idx].rf_st_blk,
        };
        let old_len: u32 = match self.old_blocks(old_start) {
            Ok(n) => n,
            Err(e) => return Err(e),
        };
        let available: u32 = self.map.free_count() + old_len;
        if available < needed {
            return Err(MfsError::VolumeFull { needed_blocks: needed, free_blocks: available });
        }
        Ok((idx, old_start, needed))
    }

    /// Writes `content` to `blocks`, one behind the other, and zeros behind it.
    fn fill(&mut self, blocks: &Vec<u16>, content: &[u8])
        requires
            old(self).wf(),
            old(self)@.dir_dirty,
            forall|i: int|
                0 <= i < blocks@.len() ==> blockmap::has_block(
                    old(self)@.map,
                    #[trigger] blocks@[i],
                ),
        ensures
            final(self).wf(),
            final(self)@ == (VolumeView {
                data: model::chain_written(old(self)@.data, old(self)@.mdb, blocks@, content@),
                ..old(self)@
            }),
    {
        let blk_siz: usize = self.mdb.al_blk_siz as usize;
        let ghost target = model::chain_written(self@.data, self@.mdb, blocks@, content@);
        let mut i: usize = 0;
        let mut taken: usize = 0;
        assert(blocks@.skip(0) =~= blocks@);
        assert(content@.skip(0) =~= content@);
        while i < blocks.len()
            invariant
                self.wf(),
                self@.dir_dirty,
                self@ == (VolumeView { data: self@.data, ..old(self)@ }),
                self@.data.len() == old(self)@.data.len(),
                blk_siz == self@.mdb.al_blk_siz,
                i <= blocks@.len(),
                taken <= content@.len(),
                forall|k: int|
                    0 <= k < blocks@.len() ==> blockmap::has_block(
                        self@.map,
                        #[trigger] blocks@[k],
                    ),
                model::chain_written(
                    self@.data,
                    self@.mdb,
                    blocks@.skip(i as int),
                    content@.skip(taken as int),
                ) == target,
            decreases blocks@.len() - i,
        {
            let off: usize = self.block_offset(blocks[i]);
            let left: usize = content.len() - taken;
            let n: usize = if left < blk_siz {
                left
            } else {
                blk_siz
            };
            let ghost before = self@.data;
            let ghost rest = content@.skip(taken as int);
            put_bytes(self.data.as_mut_slice(), off, &content[taken..taken + n]);
            put_zeros(self.data.as_mut_slice(), off + n, blk_siz - n);
            proof {
                assert(self@.data =~= util::splice(
                    before,
                    off as int,
                    model::block_content(rest, blk_siz as nat),
                ));
                assert(blocks@.skip(i as int).skip(1) =~= blocks@.skip(i + 1));
                assert(model::beyond_block(rest, blk_siz as nat) =~= content@.skip(taken + n));
            }
            taken = taken + n;
            i = i + 1;
        }
        assert(blocks@.skip(i as int).len() == 0);
    }

    /// The single place `drFreeBks` and `drNmFls` are derived, so that no
    /// mutator can leave them stale.
    fn recompute_counters(&mut self)
        requires
            old(self)@.map.len() <= 65535,
            blockmap::well_formed(old(self)@.map),
        ensures
            final(self)@ == model::counted(old(self)@),
    {
        self.mdb.free_bks = self.map.free_count() as u16;
        let n: usize = self.entries.len();
        assert(n as u16 == n % 0x1_0000) by (bit_vector);
        self.mdb.nm_fls = n as u16;
    }

    fn check_writable(&self) -> (r: Result<()>)
        ensures
            match r {
                Ok(_) => model::writable(self@),
                Err(e) => !model::writable(self@) && e@ == Fault::VolumeLocked,
            },
    {
        let atrb: u16 = self.mdb.atrb;
        assert(atrb & (0x8000u16 | 0x0080u16) == 0 <==> (atrb < 0x8000 && atrb / 0x80 % 2 == 0)) by (bit_vector);
        if atrb & (ATRB_HW_LOCKED | ATRB_SW_LOCKED) != 0 {
            return Err(MfsError::VolumeLocked);
        }
        Ok(())
    }

    fn name(&self) -> (s: String)
        requires
            self.wf(),
        ensures
            s@ == model::volume_name(self@.mdb),
    {
        // Mdb::parse rejects a length byte above 27.
        let len: usize = self.mdb.name_raw[0] as usize;
        macroman::decode(&self.mdb.name_raw.as_slice()[1..1 + len])
    }

    /// Index of the entry whose name matches `name`, case-insensitively.
    fn lookup(&self, name: &str) -> (r: Option<usize>)
        ensures
            match r {
                Some(i) => model::lookup(self@.entries, name@) == Some(i as nat) && i
                    < self@.entries.len(),
                None => model::lookup(self@.entries, name@) is None,
            },
    {
        let mut i: usize = 0;
        while i < self.entries.len()
            invariant
                i <= self.entries@.len(),
                model::lookup(self@.entries, name@) == model::lookup_from(
                    self@.entries,
                    name@,
                    i as nat,
                ),
            decreases self.entries@.len() - i,
        {
            let candidate = macroman::decode(self.entries[i].name.as_slice());
            if macroman::eq_ignore_case(candidate.as_str(), name) {
                return Some(i);
            }
            i = i + 1;
        }
        None
    }

    fn index_of(&self, name: &str) -> (r: Result<usize>)
        ensures
            match r {
                Ok(i) => model::lookup(self@.entries, name@) == Some(i as nat) && i
                    < self.entries@.len(),
                Err(e) => model::lookup(self@.entries, name@) is None && e@ == Fault::FileNotFound(
                    name@,
                ),
            },
    {
        match self.lookup(name) {
            Some(i) => Ok(i),
            None => Err(MfsError::FileNotFound(String::from_str(name))),
        }
    }

    /// Byte offset of allocation block `block` within the sector image.
    fn block_offset(&self, block: u16) -> (off: usize)
        requires
            self.wf(),
            blockmap::has_block(self@.map, block),
        ensures
            off == model::block_start(self@.mdb, block),
            off + self@.mdb.al_blk_siz <= self@.data.len() <= usize::MAX,
    {
        let len: usize = self.data.len();
        let per_block: usize = self.mdb.al_blk_siz as usize / 512;
        proof {
            model::lemma_block_inside(self@, block);
            assert(self@.data.len() == len);
            let size = self.mdb.al_blk_siz as int;
            let i = block - 2;
            assert(per_block * 512 == size);
            assert(0 <= i * per_block && i * per_block * 512 == i * size) by (nonlinear_arith)
                requires
                    per_block * 512 == size,
                    0 <= i,
                    0 <= per_block,
            ;
        }
        (self.mdb.al_bl_st as usize + (block as usize - 2) * per_block) * 512
    }
}

/// What a report and the owners noted down beside it stand for.
spec fn findings(report: Seq<String>, owner: Seq<Option<String>>) -> Findings {
    Findings {
        lines: text::texts(report),
        owner: Seq::new(
            owner.len(),
            |i: int|
                match owner[i] {
                    Some(s) => Some(s@),
                    None => None,
                },
        ),
    }
}

/// Adds a line to a report.
fn note(report: &mut Vec<String>, line: String, Ghost(owner): Ghost<Seq<Option<String>>>)
    ensures
        findings(final(report)@, owner) == report::noted(
            findings(old(report)@, owner),
            true,
            line@,
        ),
{
    report.push(line);
    assert(findings(report@, owner) =~= report::noted(findings(old(report)@, owner), true, line@));
}

/// The beginning of a line about a fork.
fn about(name: &str, fork: Fork) -> (m: String)
    ensures
        m@ == name@ + ": "@ + model::fork_label(fork),
{
    let mut m = String::from_str(name);
    m.append(": ");
    m.append(label(fork));
    m
}

/// The complaint that a fork is longer than its blocks.
fn uncovered(name: &str, fork: Fork, len: u32, covered: u64) -> (e: MfsError)
    ensures
        e@ == model::uncovered(name@, fork, len as nat, covered as nat),
{
    let mut m = about(name, fork);
    m.append(" fork holds ");
    push_decimal(&mut m, len as u64);
    m.append(" bytes but its block chain only covers ");
    push_decimal(&mut m, covered);
    MfsError::CorruptVolume(m)
}

/// Notes a fork down as the owner of the blocks of its chain, and the blocks
/// that have an owner already in the report.
fn claim(
    name: &str,
    fork: Fork,
    chain: &Vec<u16>,
    report: &mut Vec<String>,
    owner: &mut Vec<Option<String>>,
)
    requires
        forall|i: int| 0 <= i < chain@.len() ==> 2 <= #[trigger] chain@[i] < 2 + old(owner)@.len(),
    ensures
        final(owner)@.len() == old(owner)@.len(),
        findings(final(report)@, final(owner)@) == report::claimed(
            name@,
            model::fork_label(fork),
            chain@,
            chain@.len(),
            findings(old(report)@, old(owner)@),
        ),
{
    let mut i: usize = 0;
    while i < chain.len()
        invariant
            i <= chain@.len(),
            owner@.len() == old(owner)@.len(),
            forall|i: int| 0 <= i < chain@.len() ==> 2 <= #[trigger] chain@[i] < 2 + owner@.len(),
            findings(report@, owner@) == report::claimed(
                name@,
                model::fork_label(fork),
                chain@,
                i as nat,
                findings(old(report)@, old(owner)@),
            ),
        decreases chain@.len() - i,
    {
        let b: u16 = chain[i];
        let slot: usize = b as usize - blockmap::FIRST_BLOCK as usize;
        let ghost before = findings(report@, owner@);
        match &owner[slot] {
            Some(other) => {
                let mut m = about(name, fork);
                m.append(" fork shares allocation block ");
                push_decimal(&mut m, b as u64);
                m.append(" with ");
                m.append(other.as_str());
                note(report, m, Ghost(owner@));
            },
            None => {
                let mut m = String::from_str(name);
                m.append(" (");
                m.append(label(fork));
                m.append(" fork)");
                let ghost line = m@;
                owner.set(slot, Some(m));
                assert(findings(report@, owner@) =~= Findings {
                    owner: before.owner.update(slot as int, Some(line)),
                    ..before
                });
            },
        }
        i = i + 1;
    }
}

/// The word for a fork.
fn label(fork: Fork) -> (s: &'static str)
    ensures
        s@ == model::fork_label(fork),
{
    match fork {
        Fork::Data => "data",
        Fork::Resource => "resource",
    }
}

/// Writes `bytes` over the beginning of `w`.
fn overwrite(w: &mut Vec<u8>, bytes: &[u8])
    ensures
        final(w)@ == model::overwritten(old(w)@, bytes@),
{
    if bytes.len() < w.len() {
        put_bytes(w.as_mut_slice(), 0, bytes);
        assert(w@ =~= model::overwritten(old(w)@, bytes@));
    } else {
        w.clear();
        push_bytes(w, bytes);
        assert(w@ =~= bytes@);
    }
}

/// The size of an allocation area fits in 64 bits.
proof fn lemma_area(blocks: u16, size: u32)
    ensures
        0 <= blocks * size <= 65535 * 0xFFFF_FFFF,
{
    assert(0 <= blocks * size <= 65535 * 0xFFFF_FFFF) by (nonlinear_arith)
        requires
            0 <= blocks <= 65535,
            0 <= size <= 0xFFFF_FFFF,
    ;
}

/// A quotient rounded up.
proof fn lemma_div_ceil(len: int, size: int)
    requires
        len >= 0,
        size > 0,
    ensures
        (len + size - 1) / size == len / size + (if len % size == 0 {
            0int
        } else {
            1int
        }),
        size >= 2 ==> 2 * (len / size) <= len,
{
    let q = len / size;
    let m = len % size;
    vstd::arithmetic::div_mod::lemma_fundamental_div_mod(len, size);
    vstd::arithmetic::div_mod::lemma_mod_bound(len, size);
    vstd::arithmetic::div_mod::lemma_div_pos_is_pos(len, size);
    assert(size >= 2 ==> 2 * q <= size * q) by (nonlinear_arith)
        requires
            q >= 0,
    ;
    if m == 0 {
        vstd::arithmetic::div_mod::lemma_fundamental_div_mod_converse(
            len + size - 1,
            size,
            q,
            size - 1,
        );
    } else {
        assert(size * (q + 1) == size * q + size) by (nonlinear_arith);
        vstd::arithmetic::div_mod::lemma_fundamental_div_mod_converse(
            len + size - 1,
            size,
            q + 1,
            m - 1,
        );
    }
}

/// The volume name field that holds `name`.
pub fn name_field(name: &[u8]) -> (f: [u8; 28])
    requires
        name@.len() <= 27,
    ensures
        f@ == model::name_field(name@),
{
    let mut f: [u8; 28] = [0u8;28];
    let n: usize = name.len();
    f[0] = n as u8;
    let mut i: usize = 0;
    while i < n
        invariant
            n == name@.len() <= 27,
            i <= n,
            f@.len() == 28,
            f@[0] == n as u8,
            forall|k: int| 0 <= k < i ==> f@[k + 1] == name@[k],
            forall|k: int| i + 1 <= k < 28 ==> f@[k] == 0,
        decreases n - i,
    {
        f[i + 1] = name[i];
        i = i + 1;
    }
    proof {
        let g = model::name_field(name@);
        assert(g.len() == 28);
        assert forall|k: int| 0 <= k < 28 implies f@[k] == g[k] by {
            if 1 <= k <= n {
                assert(f@[(k - 1) + 1] == name@[k - 1]);
            }
        }
        assert(f@ =~= g);
    }
    f
}

/// The would-be `drSigWord` of a bare sector image, if `bytes` is big enough
/// to hold an MDB at all.
fn raw_signature(bytes: &[u8]) -> (s: Option<u16>)
    ensures
        s == model::raw_signature(bytes@),
{
    if bytes.len() >= MAP_OFFSET {
        Some(rd_u16(bytes, MDB_OFFSET))
    } else {
        None
    }
}

/// Whether `bytes` could be a bare MFS sector image.
fn looks_like_raw(bytes: &[u8]) -> (b: bool)
    ensures
        b == (bytes@.len() % 512 == 0 && model::raw_signature(bytes@) == Some(MFS_SIGNATURE)),
{
    match raw_signature(bytes) {
        Some(s) => bytes.len() % 512 == 0 && s == MFS_SIGNATURE,
        None => false,
    }
}

/// Whether `bytes` looks like a bare HFS sector image (reported as unsupported).
fn looks_like_raw_hfs(bytes: &[u8]) -> (b: bool)
    ensures
        b == (model::raw_signature(bytes@) == Some(HFS_SIGNATURE)),
{
    match raw_signature(bytes) {
        Some(s) => s == HFS_SIGNATURE,
        None => false,
    }
}

/// Encode and validate a name destined for a Pascal string on disk.
fn encode_name(name: &str, max: usize) -> (r: Result<Vec<u8>>)
    ensures
        error::outcome(r) == model::name_outcome(name@, max as nat),
{
    let bytes = match macroman::encode(name) {
        Ok(bytes) => bytes,
        Err(c) => {
            let mut m = quote(name);
            m.append(" contains ");
            m.append(quote_char(c).as_str());
            m.append(", which MacRoman cannot represent");
            return Err(MfsError::InvalidName(m));
        },
    };
    if bytes.len() == 0 {
        return Err(MfsError::InvalidName(String::from_str("name is empty")));
    }
    if bytes.len() > max {
        let mut m = quote(name);
        m.append(" is ");
        push_decimal(&mut m, bytes.len() as u64);
        m.append(" bytes, the maximum is ");
        push_decimal(&mut m, max as u64);
        return Err(MfsError::InvalidName(m));
    }
    let mut i: usize = 0;
    assert(bytes@.skip(0) =~= bytes@);
    while i < bytes.len()
        invariant
            i <= bytes@.len() <= max,
            bytes@.len() > 0,
            macroman::encoded(name@) == Ok::<Seq<u8>, char>(bytes@),
            model::first_forbidden(bytes@) == model::first_forbidden(bytes@.skip(i as int)),
        decreases bytes@.len() - i,
    {
        let b: u8 = bytes[i];
        assert(bytes@.skip(i as int).skip(1) =~= bytes@.skip(i + 1));
        if b == 0x3A || b == 0 {
            let mut m = quote(name);
            m.append(" contains a forbidden byte ");
            push_hex(&mut m, b as u32, 2);
            return Err(MfsError::InvalidName(m));
        }
        i = i + 1;
    }
    Ok(bytes)
}

fn encode_file_name(name: &str) -> (r: Result<Vec<u8>>)
    ensures
        error::outcome(r) == model::name_outcome(name@, 63),
{
    encode_name(name, MAX_FILE_NAME)
}

/// Validate and encode a volume name.
pub fn encode_volume_name(name: &str) -> (r: Result<Vec<u8>>)
    ensures
        error::outcome(r) == model::name_outcome(name@, 27),
{
    encode_name(name, MAX_VOLUME_NAME)
}

} // verus!
