//! What a volume is and what each operation makes of it.
//!
//! [`VolumeView`] is the state of an [`MfsVolume`](crate::MfsVolume): the
//! sector image, the container it came in, and the structures parsed out of
//! it. The functions here say, for every state and every argument, what an
//! operation returns and what state it leaves behind.

use vstd::prelude::*;

use crate::blockmap;
use crate::dc42;
use crate::dc42::Dc42View;
use crate::dir;
use crate::dir::EntryView;
use crate::error::Fault;
use crate::macroman;
use crate::mdb;
use crate::mdb::MdbView;
use crate::text;
use crate::timestamp::MacTimestamp;
use crate::util;
use crate::volume::{Fork, ImageFormat};

verus! {

/// Everything needed to rebuild the container an image came in.
#[verifier::ext_equal]
pub enum ContainerView {
    Raw,
    Dc42 {
        name: Seq<u8>,
        padding: Seq<u8>,
        tags: Seq<u8>,
        disk_format: u8,
        format_byte: u8,
    },
}

/// The state of a volume.
#[verifier::ext_equal]
pub struct VolumeView {
    /// The raw sector image, with any container header stripped.
    pub data: Seq<u8>,
    pub container: ContainerView,
    pub mdb: MdbView,
    pub map: Seq<u16>,
    /// Directory entries, in the order they appear on disk.
    pub entries: Seq<EntryView>,
    /// Whether any entry has been added, removed or altered since the image
    /// was read.
    pub dir_dirty: bool,
}

// -------------------------------------------------------------------- geometry

/// First byte of the file directory.
pub open spec fn dir_start(m: MdbView) -> int {
    m.dir_st * 512
}

/// First byte behind the file directory.
pub open spec fn dir_end(m: MdbView) -> int {
    m.dir_st * 512 + m.dir_len * 512
}

/// First byte behind the allocation blocks.
pub open spec fn alloc_end(m: MdbView) -> int {
    m.al_bl_st * 512 + m.nm_al_blks * m.al_blk_siz
}

/// First byte of allocation block `b`.
pub open spec fn block_start(m: MdbView, b: u16) -> int {
    m.al_bl_st * 512 + (b - 2) * m.al_blk_siz
}

/// The format that a container stands for.
pub open spec fn format_of(c: ContainerView) -> ImageFormat {
    match c {
        ContainerView::Raw => ImageFormat::Raw,
        ContainerView::Dc42 { .. } => ImageFormat::DiskCopy42,
    }
}

/// Whether the container can be written back around a sector image of `size`
/// bytes.
pub open spec fn container_fits(c: ContainerView, size: nat) -> bool {
    match c {
        ContainerView::Raw => true,
        ContainerView::Dc42 { name, padding, tags, .. } => name.len() + padding.len() == 63
            && tags.len() <= u32::MAX && size <= u32::MAX,
    }
}

/// Whether the directory in the image is the one in memory, unless it was
/// altered since it was read.
pub open spec fn dir_settled(v: VolumeView) -> bool {
    !v.dir_dirty ==> dir::parse_outcome(v.data.subrange(dir_start(v.mdb), dir_end(v.mdb))) == Ok::<
        Seq<EntryView>,
        Fault,
    >(v.entries)
}

impl VolumeView {
    /// What holds of every volume, from the moment it was opened or formatted:
    /// its regions lie one behind the other inside the image, its map has an
    /// entry for every allocation block, its directory has room for all its
    /// entries, and the directory in the image is only outdated where that was
    /// noted down.
    pub open spec fn wf(self) -> bool {
        &&& self.data.len() >= 1088
        &&& mdb::valid(self.mdb)
        &&& dir_end(self.mdb) <= self.data.len()
        &&& alloc_end(self.mdb) <= self.data.len()
        &&& self.map.len() == self.mdb.nm_al_blks
        &&& blockmap::well_formed(self.map)
        &&& 1088 + blockmap::packed_size(self.map.len()) <= dir_start(self.mdb)
        &&& dir::all_in_use(self.entries)
        &&& dir::packable(self.entries, self.mdb.dir_len as nat)
        &&& dir_settled(self)
        &&& container_fits(self.container, self.data.len())
    }
}

// --------------------------------------------------------------------- opening

/// The would-be `drSigWord` of a bare sector image, if it is big enough to
/// hold an MDB at all.
pub open spec fn raw_signature(bytes: Seq<u8>) -> Option<u16> {
    if bytes.len() >= 1088 {
        Some(util::be16(bytes, 1024))
    } else {
        None
    }
}

/// What parsing the MFS structures out of a sector image comes to.
pub open spec fn parts_outcome(data: Seq<u8>, container: ContainerView) -> core::result::Result<
    VolumeView,
    Fault,
> {
    if data.len() < 1088 {
        Err(
            Fault::CorruptVolume(
                "image is "@ + text::decimal(data.len())
                    + " bytes, too short to hold an MDB at offset 1024"@,
            ),
        )
    } else {
        match mdb::parse_outcome(data.skip(1024)) {
            Err(f) => Err(f),
            Ok(m) => if dir_end(m) > data.len() {
                Err(
                    Fault::CorruptVolume(
                        "file directory runs to byte "@ + text::decimal(dir_end(m) as nat)
                            + ", past the "@ + text::decimal(data.len()) + "-byte image"@,
                    ),
                )
            } else if alloc_end(m) > data.len() {
                Err(
                    Fault::CorruptVolume(
                        text::decimal(m.nm_al_blks as nat) + " allocation blocks of "@
                            + text::decimal(m.al_blk_siz as nat) + " bytes from sector "@
                            + text::decimal(m.al_bl_st as nat) + " run to byte "@ + text::decimal(
                            alloc_end(m) as nat,
                        ) + ", past the "@ + text::decimal(data.len()) + "-byte image"@,
                    ),
                )
            } else {
                match blockmap::unpack_outcome(
                    data.subrange(1088, dir_start(m)),
                    m.nm_al_blks as nat,
                ) {
                    Err(f) => Err(f),
                    Ok(map) => match dir::parse_outcome(data.subrange(dir_start(m), dir_end(m))) {
                        Err(f) => Err(f),
                        Ok(entries) => Ok(
                            VolumeView {
                                data,
                                container,
                                mdb: m,
                                map,
                                entries,
                                dir_dirty: false,
                            },
                        ),
                    },
                }
            },
        }
    }
}

/// The container that an image is taken for, or why there is none.
pub open spec fn detected(bytes: Seq<u8>) -> core::result::Result<ImageFormat, Fault> {
    if dc42::header_outcome(bytes) is Ok {
        Ok(ImageFormat::DiskCopy42)
    } else if bytes.len() % 512 == 0 && raw_signature(bytes) == Some(mdb::MFS_SIGNATURE) {
        Ok(ImageFormat::Raw)
    } else if raw_signature(bytes) == Some(mdb::HFS_SIGNATURE) {
        Err(Fault::UnsupportedHfs)
    } else {
        Err(Fault::UnknownImageFormat)
    }
}

/// What reading an image as `format` comes to.
pub open spec fn forced_outcome(bytes: Seq<u8>, format: ImageFormat) -> core::result::Result<
    VolumeView,
    Fault,
> {
    match format {
        ImageFormat::Raw => parts_outcome(bytes, ContainerView::Raw),
        ImageFormat::DiskCopy42 => match dc42::parse_outcome(bytes) {
            Err(f) => Err(f),
            Ok(c) => parts_outcome(c.data, container_of(c)),
        },
    }
}

/// What a parsed container leaves to remember once its data is taken out.
pub open spec fn container_of(c: Dc42View) -> ContainerView {
    ContainerView::Dc42 {
        name: c.name,
        padding: c.padding,
        tags: c.tags,
        disk_format: c.disk_format,
        format_byte: c.format_byte,
    }
}

/// What reading an image comes to.
pub open spec fn open_outcome(bytes: Seq<u8>) -> core::result::Result<VolumeView, Fault> {
    match detected(bytes) {
        Err(f) => Err(f),
        Ok(format) => forced_outcome(bytes, format),
    }
}

// ---------------------------------------------------------------------- saving

/// The sector image with the MDB and the allocation block map written back.
pub open spec fn tables_written(v: VolumeView) -> Seq<u8> {
    let with_mdb = util::splice(v.data, 1024, mdb::bytes_of(v.mdb));
    let owned = with_mdb.subrange(1088, 1088 + blockmap::packed_size(v.map.len()) as int);
    util::splice(with_mdb, 1088, blockmap::packed(v.map, owned))
}

/// The sector image with everything written back: the directory only where an
/// entry was touched.
pub open spec fn serialized(v: VolumeView) -> Seq<u8> {
    if v.dir_dirty {
        util::splice(
            tables_written(v),
            dir_start(v.mdb),
            dir::image(v.entries, v.mdb.dir_len as nat, 0, 0),
        )
    } else {
        tables_written(v)
    }
}

/// The bytes of a volume's image, in its container.
pub open spec fn image(v: VolumeView) -> Seq<u8> {
    match v.container {
        ContainerView::Raw => serialized(v),
        ContainerView::Dc42 { name, padding, tags, disk_format, format_byte } => dc42::container(
            Dc42View { name, padding, data: serialized(v), tags, disk_format, format_byte },
        ),
    }
}

/// What a stream holds once `bytes` were written over its beginning.
pub open spec fn overwritten(stream: Seq<u8>, bytes: Seq<u8>) -> Seq<u8> {
    if bytes.len() < stream.len() {
        bytes + stream.skip(bytes.len() as int)
    } else {
        bytes
    }
}

// ----------------------------------------------------------------------- names

/// Whether a byte may not stand in a name: a colon or NUL.
pub open spec fn forbidden(b: u8) -> bool {
    b == 0x3A || b == 0
}

/// The first byte that may not stand in a name.
pub open spec fn first_forbidden(bytes: Seq<u8>) -> Option<u8>
    decreases bytes.len(),
{
    if bytes.len() == 0 {
        None
    } else if forbidden(bytes[0]) {
        Some(bytes[0])
    } else {
        first_forbidden(bytes.skip(1))
    }
}

/// The MacRoman bytes of a name of at most `max` bytes, or what is wrong with
/// it.
pub open spec fn name_outcome(name: Seq<char>, max: nat) -> core::result::Result<Seq<u8>, Fault> {
    match macroman::encoded(name) {
        Err(c) => Err(
            Fault::InvalidName(
                text::quoted(name) + " contains "@ + text::quoted_char(c)
                    + ", which MacRoman cannot represent"@,
            ),
        ),
        Ok(bytes) => if bytes.len() == 0 {
            Err(Fault::InvalidName("name is empty"@))
        } else if bytes.len() > max {
            Err(
                Fault::InvalidName(
                    text::quoted(name) + " is "@ + text::decimal(bytes.len())
                        + " bytes, the maximum is "@ + text::decimal(max),
                ),
            )
        } else {
            match first_forbidden(bytes) {
                Some(b) => Err(
                    Fault::InvalidName(
                        text::quoted(name) + " contains a forbidden byte "@ + text::hex(b as nat, 2),
                    ),
                ),
                None => Ok(bytes),
            }
        },
    }
}

/// Whether an entry goes by `name`, case aside.
pub open spec fn named(e: EntryView, name: Seq<char>) -> bool {
    macroman::same_name(macroman::decoded(e.name), name)
}

/// The first entry, from the `from`-th on, that goes by `name`.
pub open spec fn lookup_from(entries: Seq<EntryView>, name: Seq<char>, from: nat) -> Option<nat>
    decreases entries.len() - from,
{
    if from >= entries.len() {
        None
    } else if named(entries[from as int], name) {
        Some(from)
    } else {
        lookup_from(entries, name, from + 1)
    }
}

/// The entry that goes by `name`.
pub open spec fn lookup(entries: Seq<EntryView>, name: Seq<char>) -> Option<nat> {
    lookup_from(entries, name, 0)
}

/// The volume name field that holds `name`: its length, its bytes, and zeros.
pub open spec fn name_field(name: Seq<u8>) -> Seq<u8> {
    seq![name.len() as u8] + name + util::zeros((27 - name.len()) as nat)
}

// -------------------------------------------------------------------- querying

/// What is reported of one file.
#[verifier::ext_equal]
pub struct FileView {
    pub name: Seq<char>,
    pub file_num: u32,
    pub type_code: Seq<u8>,
    pub creator: Seq<u8>,
    pub finder_flags: u16,
    pub locked: bool,
    pub created: u32,
    pub modified: u32,
    pub data_len: u32,
    pub data_alloc: u32,
    pub rsrc_len: u32,
    pub rsrc_alloc: u32,
}

/// The report on a directory entry.
pub open spec fn file_of(e: EntryView) -> FileView {
    FileView {
        name: macroman::decoded(e.name),
        file_num: e.fnum,
        type_code: e.type_code,
        creator: e.creator,
        finder_flags: e.fndr_flags,
        locked: e.locked(),
        created: e.cr_dat,
        modified: e.md_dat,
        data_len: e.df_log_len,
        data_alloc: e.df_alloc_len,
        rsrc_len: e.rf_log_len,
        rsrc_alloc: e.rf_alloc_len,
    }
}

/// The reports on all entries, in order.
pub open spec fn files_of(entries: Seq<EntryView>) -> Seq<FileView> {
    Seq::new(entries.len(), |i: int| file_of(entries[i]))
}

/// What looking up a file comes to.
pub open spec fn file_outcome(v: VolumeView, name: Seq<char>) -> core::result::Result<
    FileView,
    Fault,
> {
    match lookup(v.entries, name) {
        None => Err(Fault::FileNotFound(name)),
        Some(i) => Ok(file_of(v.entries[i as int])),
    }
}

/// What is reported of a volume.
#[verifier::ext_equal]
pub struct InfoView {
    pub name: Seq<char>,
    pub created: u32,
    pub modified: u32,
    pub file_count: u16,
    pub alloc_block_size: u32,
    pub total_blocks: u16,
    pub free_blocks: u16,
    pub format: ImageFormat,
}

/// The name of the volume.
pub open spec fn volume_name(m: MdbView) -> Seq<char> {
    macroman::decoded(m.name_raw.subrange(1, 1 + m.name_raw[0]))
}

/// The report on a volume.
pub open spec fn info_of(v: VolumeView) -> InfoView {
    InfoView {
        name: volume_name(v.mdb),
        created: v.mdb.cr_date,
        modified: v.mdb.ls_mod,
        file_count: v.mdb.nm_fls,
        alloc_block_size: v.mdb.al_blk_siz,
        total_blocks: v.mdb.nm_al_blks,
        free_blocks: v.mdb.free_bks,
        format: format_of(v.container),
    }
}

// --------------------------------------------------------------------- reading

/// First block of a fork.
pub open spec fn fork_start(e: EntryView, fork: Fork) -> u16 {
    match fork {
        Fork::Data => e.df_st_blk,
        Fork::Resource => e.rf_st_blk,
    }
}

/// Logical length of a fork.
pub open spec fn fork_len(e: EntryView, fork: Fork) -> u32 {
    match fork {
        Fork::Data => e.df_log_len,
        Fork::Resource => e.rf_log_len,
    }
}

/// Allocated length of a fork.
pub open spec fn fork_alloc(e: EntryView, fork: Fork) -> u32 {
    match fork {
        Fork::Data => e.df_alloc_len,
        Fork::Resource => e.rf_alloc_len,
    }
}

/// The word for a fork.
pub open spec fn fork_label(fork: Fork) -> Seq<char> {
    match fork {
        Fork::Data => "data"@,
        Fork::Resource => "resource"@,
    }
}

/// The bytes of allocation block `b`.
pub open spec fn block_bytes(data: Seq<u8>, m: MdbView, b: u16) -> Seq<u8> {
    data.subrange(block_start(m, b), block_start(m, b) + m.al_blk_siz)
}

/// The bytes of `blocks`, one block behind the other.
pub open spec fn chain_bytes(data: Seq<u8>, m: MdbView, blocks: Seq<u16>) -> Seq<u8>
    decreases blocks.len(),
{
    if blocks.len() == 0 {
        Seq::empty()
    } else {
        block_bytes(data, m, blocks[0]) + chain_bytes(data, m, blocks.skip(1))
    }
}

/// What is wrong with a fork of `len` bytes whose blocks hold just `covered`.
pub open spec fn uncovered(name: Seq<char>, fork: Fork, len: nat, covered: nat) -> Fault {
    Fault::CorruptVolume(
        name + ": "@ + fork_label(fork) + " fork holds "@ + text::decimal(len)
            + " bytes but its block chain only covers "@ + text::decimal(covered),
    )
}

/// What reading one fork of an entry comes to, the file having been asked for
/// as `name`: as many bytes of its blocks as it is long. A fork that is longer
/// than its blocks is corrupt, also where it has none.
pub open spec fn fork_outcome(
    v: VolumeView,
    e: EntryView,
    name: Seq<char>,
    fork: Fork,
) -> core::result::Result<Seq<u8>, Fault> {
    let len = fork_len(e, fork) as nat;
    if fork_start(e, fork) == 0 {
        if len == 0 {
            Ok(Seq::empty())
        } else {
            Err(uncovered(name, fork, len, 0))
        }
    } else {
        match blockmap::chain_from(v.map, fork_start(e, fork)) {
            Err(f) => Err(f),
            Ok(chain) => {
                let covered = chain.len() * (v.mdb.al_blk_siz as nat);
                if covered < len {
                    Err(uncovered(name, fork, len, covered))
                } else {
                    Ok(chain_bytes(v.data, v.mdb, chain).take(len as int))
                }
            },
        }
    }
}

/// What reading one fork of the file `name` comes to.
pub open spec fn read_outcome(v: VolumeView, name: Seq<char>, fork: Fork) -> core::result::Result<
    Seq<u8>,
    Fault,
> {
    match lookup(v.entries, name) {
        None => Err(Fault::FileNotFound(name)),
        Some(i) => fork_outcome(v, v.entries[i as int], name, fork),
    }
}

/// Every allocation block lies inside the image.
pub proof fn lemma_block_inside(v: VolumeView, b: u16)
    requires
        v.wf(),
        blockmap::has_block(v.map, b),
    ensures
        v.mdb.al_bl_st * 512 <= block_start(v.mdb, b),
        block_start(v.mdb, b) + v.mdb.al_blk_siz <= alloc_end(v.mdb) <= v.data.len(),
{
    let i = b - 2;
    let size = v.mdb.al_blk_siz as int;
    let n = v.mdb.nm_al_blks as int;
    assert(0 <= i * size && i * size + size <= n * size) by (nonlinear_arith)
        requires
            0 <= i < n,
            0 < size,
    ;
}

/// The bytes of a chain are as many as its blocks hold.
pub proof fn lemma_chain_bytes_len(v: VolumeView, blocks: Seq<u16>)
    requires
        v.wf(),
        forall|i: int| 0 <= i < blocks.len() ==> blockmap::has_block(v.map, #[trigger] blocks[i]),
    ensures
        chain_bytes(v.data, v.mdb, blocks).len() == blocks.len() * v.mdb.al_blk_siz,
    decreases blocks.len(),
{
    let size = v.mdb.al_blk_siz as int;
    let n = blocks.len() as int;
    if n == 0 {
        assert(n * size == 0) by (nonlinear_arith)
            requires
                n == 0,
        ;
    } else {
        lemma_block_inside(v, blocks[0]);
        lemma_chain_bytes_len(v, blocks.skip(1));
        assert(size + (n - 1) * size == n * size) by (nonlinear_arith);
    }
}

// -------------------------------------------------------------------- mutating

/// Whether the volume attribute word leaves the volume unlocked: bits 15 and 7
/// are clear.
pub open spec fn writable(v: VolumeView) -> bool {
    v.mdb.atrb < 0x8000 && v.mdb.atrb / 0x80 % 2 == 0
}

/// Whether an operation that comes to `outcome` gave the result `r` and left
/// the volume as it should: an operation that fails changes nothing.
pub open spec fn comes_to(
    outcome: core::result::Result<VolumeView, Fault>,
    before: VolumeView,
    r: core::result::Result<(), Fault>,
    after: VolumeView,
) -> bool {
    match outcome {
        Ok(v) => r == Ok::<(), Fault>(()) && after == v,
        Err(f) => r == Err::<(), Fault>(f) && after == before,
    }
}

/// The volume with `drFreeBks` and `drNmFls` derived anew.
pub open spec fn counted(v: VolumeView) -> VolumeView {
    VolumeView {
        mdb: MdbView {
            free_bks: blockmap::count_free(v.map) as u16,
            nm_fls: (v.entries.len() % 0x1_0000) as u16,
            ..v.mdb
        },
        ..v
    }
}

/// The volume as it is left by a change to its directory at `now`.
pub open spec fn settled(v: VolumeView, now: u32) -> VolumeView {
    counted(
        VolumeView { mdb: MdbView { ls_mod: now, ..v.mdb }, dir_dirty: true, ..v },
    )
}

/// The entry of a new, empty file.
pub open spec fn new_entry(
    v: VolumeView,
    name: Seq<u8>,
    type_code: Seq<u8>,
    creator: Seq<u8>,
    now: u32,
) -> EntryView {
    EntryView {
        flags: 0x80,
        version: 0,
        type_code,
        creator,
        fndr_flags: 0,
        pos: 0,
        fldr_num: 0,
        fnum: v.mdb.nxt_fnum,
        df_st_blk: 0,
        df_log_len: 0,
        df_alloc_len: 0,
        rf_st_blk: 0,
        rf_log_len: 0,
        rf_alloc_len: 0,
        cr_dat: now,
        md_dat: now,
        name,
    }
}

/// What adding a file at `now` comes to.
pub open spec fn create_outcome(
    v: VolumeView,
    name: Seq<char>,
    type_code: Seq<u8>,
    creator: Seq<u8>,
    now: u32,
) -> core::result::Result<VolumeView, Fault> {
    if !writable(v) {
        Err(Fault::VolumeLocked)
    } else {
        match name_outcome(name, 63) {
            Err(f) => Err(f),
            Ok(raw) => {
                let entries = v.entries.push(new_entry(v, raw, type_code, creator, now));
                if lookup(v.entries, name) is Some {
                    Err(Fault::FileExists(name))
                } else if !dir::packable(entries, v.mdb.dir_len as nat) {
                    Err(Fault::DirectoryFull)
                } else {
                    Ok(
                        settled(
                            VolumeView {
                                entries,
                                mdb: MdbView {
                                    nxt_fnum: ((v.mdb.nxt_fnum + 1) % 0x1_0000_0000) as u32,
                                    ..v.mdb
                                },
                                ..v
                            },
                            now,
                        ),
                    )
                }
            },
        }
    }
}

/// The entry that an operation on the file `name` works on, once the volume
/// is known to be writable.
pub open spec fn target(v: VolumeView, name: Seq<char>) -> core::result::Result<nat, Fault> {
    if !writable(v) {
        Err(Fault::VolumeLocked)
    } else {
        match lookup(v.entries, name) {
            None => Err(Fault::FileNotFound(name)),
            Some(i) => Ok(i),
        }
    }
}

/// The volume with entry `i` replaced at `now`.
pub open spec fn with_entry(v: VolumeView, i: nat, e: EntryView, now: u32) -> VolumeView {
    settled(VolumeView { entries: v.entries.update(i as int, e), ..v }, now)
}

/// The blocks that a fork's contents occupy, none if it has no first block.
pub open spec fn fork_chain(v: VolumeView, start: u16) -> core::result::Result<Seq<u16>, Fault> {
    if start == 0 {
        Ok(Seq::empty())
    } else {
        blockmap::chain_from(v.map, start)
    }
}

/// How many blocks of `size` bytes it takes to hold `len` bytes, in 32 bits.
pub open spec fn blocks_needed(len: nat, size: u32) -> u32 {
    ((len + size - 1) / size as int) as u32
}

/// What a write to a fork works with: the entry, the blocks that are given
/// back, and the number of blocks that are taken.
#[verifier::ext_equal]
pub struct WritePlan {
    pub index: nat,
    pub old: Seq<u16>,
    pub needed: u32,
}

/// Whether a write of `len` bytes can be made, or why not.
pub open spec fn write_plan(
    v: VolumeView,
    name: Seq<char>,
    fork: Fork,
    len: nat,
) -> core::result::Result<WritePlan, Fault> {
    match target(v, name) {
        Err(f) => Err(f),
        Ok(i) => {
            let e = v.entries[i as int];
            let needed = blocks_needed(len, v.mdb.al_blk_siz);
            if e.locked() {
                Err(Fault::FileLocked(name))
            } else {
                match fork_chain(v, fork_start(e, fork)) {
                    Err(f) => Err(f),
                    Ok(old) => {
                        let available = blockmap::count_free(v.map) + old.len();
                        if available < needed {
                            Err(
                                Fault::VolumeFull {
                                    needed_blocks: needed,
                                    free_blocks: available as u32,
                                },
                            )
                        } else {
                            Ok(WritePlan { index: i, old, needed })
                        }
                    },
                }
            }
        },
    }
}

/// Whether what a write leaves behind can be written down: every block it
/// takes has a 16-bit number and the allocated length fits in 32 bits.
pub open spec fn representable(v: VolumeView, name: Seq<char>, fork: Fork, len: nat) -> bool {
    write_plan(v, name, fork, len) matches Ok(p) ==> {
        &&& blockmap::numbered(blockmap::released(v.map, p.old), p.needed as nat)
        &&& p.needed * v.mdb.al_blk_siz <= u32::MAX
    }
}

/// As much of `content` as fits in a block of `size` bytes, and zeros up to
/// its end.
pub open spec fn block_content(content: Seq<u8>, size: nat) -> Seq<u8> {
    if content.len() < size {
        content + util::zeros((size - content.len()) as nat)
    } else {
        content.take(size as int)
    }
}

/// What is left of `content` once a block of `size` bytes was filled.
pub open spec fn beyond_block(content: Seq<u8>, size: nat) -> Seq<u8> {
    if content.len() < size {
        Seq::empty()
    } else {
        content.skip(size as int)
    }
}

/// The sector image with `content` written to `blocks`, one block behind the
/// other, and the last one filled up with zeros.
pub open spec fn chain_written(
    data: Seq<u8>,
    m: MdbView,
    blocks: Seq<u16>,
    content: Seq<u8>,
) -> Seq<u8>
    decreases blocks.len(),
{
    if blocks.len() == 0 {
        data
    } else {
        let size = m.al_blk_siz as nat;
        chain_written(
            util::splice(data, block_start(m, blocks[0]), block_content(content, size)),
            m,
            blocks.skip(1),
            beyond_block(content, size),
        )
    }
}

/// An entry whose fork now begins at `start` and has these lengths.
pub open spec fn with_fork(
    e: EntryView,
    fork: Fork,
    start: u16,
    log_len: u32,
    alloc_len: u32,
    now: u32,
) -> EntryView {
    match fork {
        Fork::Data => EntryView {
            df_st_blk: start,
            df_log_len: log_len,
            df_alloc_len: alloc_len,
            md_dat: now,
            ..e
        },
        Fork::Resource => EntryView {
            rf_st_blk: start,
            rf_log_len: log_len,
            rf_alloc_len: alloc_len,
            md_dat: now,
            ..e
        },
    }
}

/// The blocks that a planned write takes, in order.
pub open spec fn blocks_taken(v: VolumeView, p: WritePlan) -> Seq<u16> {
    blockmap::free_blocks(blockmap::released(v.map, p.old)).take(p.needed as int)
}

/// What replacing the contents of a fork at `now` comes to.
pub open spec fn write_outcome(
    v: VolumeView,
    name: Seq<char>,
    fork: Fork,
    content: Seq<u8>,
    now: u32,
) -> core::result::Result<VolumeView, Fault> {
    match write_plan(v, name, fork, content.len()) {
        Err(f) => Err(f),
        Ok(p) => {
            let blocks = blocks_taken(v, p);
            let e = with_fork(
                v.entries[p.index as int],
                fork,
                if blocks.len() == 0 {
                    0
                } else {
                    blocks[0]
                },
                content.len() as u32,
                (p.needed * v.mdb.al_blk_siz) as u32,
                now,
            );
            Ok(
                with_entry(
                    VolumeView {
                        map: blockmap::linked(blockmap::released(v.map, p.old), blocks),
                        data: chain_written(v.data, v.mdb, blocks, content),
                        ..v
                    },
                    p.index,
                    e,
                    now,
                ),
            )
        },
    }
}

/// A map with the chain of a fork given back, or what is wrong with that
/// chain.
pub open spec fn fork_freed(map: Seq<u16>, start: u16) -> core::result::Result<Seq<u16>, Fault> {
    if start == 0 {
        Ok(map)
    } else {
        match blockmap::chain_from(map, start) {
            Err(f) => Err(f),
            Ok(chain) => Ok(blockmap::released(map, chain)),
        }
    }
}

/// What deleting a file at `now` comes to.
pub open spec fn delete_outcome(v: VolumeView, name: Seq<char>, now: u32) -> core::result::Result<
    VolumeView,
    Fault,
> {
    match target(v, name) {
        Err(f) => Err(f),
        Ok(i) => {
            let e = v.entries[i as int];
            if e.locked() {
                Err(Fault::FileLocked(name))
            } else {
                match fork_freed(v.map, e.df_st_blk) {
                    Err(f) => Err(f),
                    Ok(map1) => match fork_freed(map1, e.rf_st_blk) {
                        Err(f) => Err(f),
                        Ok(map) => Ok(
                            settled(
                                VolumeView { map, entries: v.entries.remove(i as int), ..v },
                                now,
                            ),
                        ),
                    },
                }
            }
        },
    }
}

/// What renaming a file at `now` comes to.
pub open spec fn rename_outcome(
    v: VolumeView,
    old: Seq<char>,
    new: Seq<char>,
    now: u32,
) -> core::result::Result<VolumeView, Fault> {
    if !writable(v) {
        Err(Fault::VolumeLocked)
    } else {
        match name_outcome(new, 63) {
            Err(f) => Err(f),
            Ok(raw) => match lookup(v.entries, old) {
                None => Err(Fault::FileNotFound(old)),
                Some(i) => {
                    let other = lookup(v.entries, new);
                    let e = EntryView { name: raw, ..v.entries[i as int] };
                    if other is Some && other != Some(i) {
                        Err(Fault::FileExists(new))
                    } else if !dir::packable(v.entries.update(i as int, e), v.mdb.dir_len as nat) {
                        Err(Fault::DirectoryFull)
                    } else {
                        Ok(with_entry(v, i, e, now))
                    }
                },
            },
        }
    }
}

/// What renaming the volume at `now` comes to.
pub open spec fn rename_volume_outcome(v: VolumeView, name: Seq<char>, now: u32) ->
    core::result::Result<VolumeView, Fault> {
    if !writable(v) {
        Err(Fault::VolumeLocked)
    } else {
        match name_outcome(name, 27) {
            Err(f) => Err(f),
            Ok(raw) => Ok(
                counted(
                    VolumeView {
                        mdb: MdbView { name_raw: name_field(raw), ls_mod: now, ..v.mdb },
                        ..v
                    },
                ),
            ),
        }
    }
}

/// What replacing the boot blocks comes to.
pub open spec fn boot_outcome(v: VolumeView, blocks: Seq<u8>) -> core::result::Result<
    VolumeView,
    Fault,
> {
    if !writable(v) {
        Err(Fault::VolumeLocked)
    } else {
        Ok(VolumeView { data: util::splice(v.data, 0, blocks), ..v })
    }
}

/// What setting a file's type and creator at `now` comes to.
pub open spec fn type_creator_outcome(
    v: VolumeView,
    name: Seq<char>,
    type_code: Seq<u8>,
    creator: Seq<u8>,
    now: u32,
) -> core::result::Result<VolumeView, Fault> {
    match target(v, name) {
        Err(f) => Err(f),
        Ok(i) => Ok(
            with_entry(v, i, EntryView { type_code, creator, ..v.entries[i as int] }, now),
        ),
    }
}

/// A flags byte with bit 0 set or cleared.
pub open spec fn with_lock(flags: u8, locked: bool) -> u8 {
    if locked {
        (flags / 2 * 2 + 1) as u8
    } else {
        (flags / 2 * 2) as u8
    }
}

/// What setting or clearing a file's locked bit at `now` comes to.
pub open spec fn locked_outcome(v: VolumeView, name: Seq<char>, locked: bool, now: u32) ->
    core::result::Result<VolumeView, Fault> {
    match target(v, name) {
        Err(f) => Err(f),
        Ok(i) => {
            let e = v.entries[i as int];
            Ok(with_entry(v, i, EntryView { flags: with_lock(e.flags, locked), ..e }, now))
        },
    }
}

/// The seconds of a date, where there is one.
pub open spec fn seconds(t: Option<MacTimestamp>) -> Option<u32> {
    match t {
        Some(t) => Some(t.0),
        None => None,
    }
}

/// What overwriting a file's dates at `now` comes to.
pub open spec fn times_outcome(
    v: VolumeView,
    name: Seq<char>,
    created: Option<u32>,
    modified: Option<u32>,
    now: u32,
) -> core::result::Result<VolumeView, Fault> {
    match target(v, name) {
        Err(f) => Err(f),
        Ok(i) => {
            let e = v.entries[i as int];
            let cr_dat = match created {
                Some(t) => t,
                None => e.cr_dat,
            };
            let md_dat = match modified {
                Some(t) => t,
                None => e.md_dat,
            };
            Ok(with_entry(v, i, EntryView { cr_dat, md_dat, ..e }, now))
        },
    }
}

/// Replacing an entry by one with a name of the same length keeps a volume well
/// formed.
pub proof fn lemma_with_entry_wf(v: VolumeView, i: nat, e: EntryView, now: u32)
    requires
        v.wf(),
        i < v.entries.len(),
        e.in_use(),
        e.codes_ok(),
        e.name.len() == v.entries[i as int].name.len(),
    ensures
        with_entry(v, i, e, now).wf(),
{
    let entries = v.entries.update(i as int, e);
    dir::lemma_placed_by_names(v.entries, entries, v.mdb.dir_len as nat, 0, 0);
}

/// Giving back no blocks changes nothing.
pub proof fn lemma_released_none(map: Seq<u16>)
    ensures
        blockmap::released(map, Seq::empty()) == map,
{
    assert(blockmap::released(map, Seq::empty()) =~= map);
}

/// Whether a file fits in the directory does not depend on the time.
pub proof fn lemma_create_timeless(
    v: VolumeView,
    name: Seq<char>,
    type_code: Seq<u8>,
    creator: Seq<u8>,
    now: u32,
    later: u32,
)
    ensures
        create_outcome(v, name, type_code, creator, now) matches Err(f) ==> create_outcome(
            v,
            name,
            type_code,
            creator,
            later,
        ) == Err::<VolumeView, Fault>(f),
{
    if let Ok(raw) = name_outcome(name, 63) {
        let a = v.entries.push(new_entry(v, raw, type_code, creator, now));
        let b = v.entries.push(new_entry(v, raw, type_code, creator, later));
        dir::lemma_placed_by_names(a, b, v.mdb.dir_len as nat, 0, 0);
    }
}

} // verus!
