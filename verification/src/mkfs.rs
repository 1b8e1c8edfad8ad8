//! Volume formatting.
//!
//! The geometry here is not invented: it is the algorithm that reproduces, bit
//! for bit, the layout Apple's own formatter wrote onto the blank 400K and 800K
//! MFS floppies shipped with Mini vMac.
//!
//! ```text
//!               400K (409,600 B)   800K (819,200 B)
//! drAlBlkSiz          1024               2048
//! drDirSt                4                  4
//! drDirLen              12                 26
//! drAlBlSt              16                 30
//! drNmAlBlks           391                392
//! drClpSiz            8192              16384
//! ```
//!
//! Three empirical rules fall out of those two data points, and both geometries
//! drop out of them exactly:
//!
//! 1. The last two sectors of the disk are left out of the allocation area.
//! 2. There is roughly one allocation block per 1K of a 400K disk — i.e. about
//!    400 allocation blocks regardless of the disk's size, which is what forces
//!    2048-byte blocks on an 800K volume.
//! 3. The directory is about twelve sectors per 400K, grown to absorb any
//!    sectors that would otherwise be stranded between the last allocation
//!    block and the reserved tail (this is what makes the 800K directory 26
//!    sectors rather than 24).
//!
//! Deliberate differences from Apple's blanks: a volume formatted here is truly
//! empty, so `drNmFls` is 0 and `drNxtFNum` is 1 (Apple's blanks carry a single
//! invisible `Desktop` file, so they start at 1 file and file number 2), and
//! `drAtrb` is 0 (Apple's blanks set bit 6, which no documented MFS attribute
//! claims and which real Apple system disks leave clear).

use vstd::prelude::*;
use vstd::string::*;

use crate::blockmap;
use crate::blockmap::BlockMap;
use crate::dc42;
use crate::dc42::Dc42Image;
use crate::dir;
use crate::error;
use crate::error::{Fault, MfsError, Result};
use crate::macroman;
use crate::mdb;
use crate::mdb::{Mdb, MdbView, MFS_SIGNATURE};
use crate::model;
use crate::model::{ContainerView, VolumeView};
use crate::text;
use crate::text::push_decimal;
use crate::timestamp::MacTimestamp;
use crate::util;
use crate::volume::{encode_volume_name, name_field, Container, ImageFormat, MfsVolume};

verus! {

/// Logical sector size.
pub const SECTOR: u32 = 512;

/// Smallest volume worth formatting.
pub const MIN_SIZE: u32 = 102_400;

/// Block numbers 2..=0xFEF are addressable in a 12-bit map entry.
pub const MAX_BLOCKS: u32 = 0xFEE;

/// Sectors left unused at the end of the disk, as Apple's formatter does.
pub const RESERVED_TAIL_SECTORS: u32 = 2;

/// Target number of allocation blocks; sets the allocation block size.
pub const TARGET_BLOCKS: u32 = 400;

/// Directory sectors per 400K of disk, before slack is absorbed.
pub const DIR_SECTORS_PER_400K: u32 = 12;

/// `drClpSiz`, in allocation blocks.
pub const CLUMP_BLOCKS: u32 = 8;

/// The computed layout of a new volume.
#[derive(Debug, Clone, Copy, PartialEq, Eq)]
pub struct Geometry {
    /// First sector of the file directory.
    pub dir_st: u16,
    /// Length of the file directory, in sectors.
    pub dir_len: u16,
    /// First sector of the allocation block area.
    pub al_bl_st: u16,
    /// Number of allocation blocks.
    pub n_blocks: u16,
    /// Allocation block size in bytes.
    pub al_blk_siz: u32,
}

// -------------------------------------------------------------------- the rules

/// The first of `p`, `2 * p`, `4 * p`, … that is at least `n`.
pub open spec fn doubled(p: nat, n: nat) -> nat
    decreases 2 * n - p,
    when p > 0
{
    if p >= n {
        p
    } else {
        doubled(2 * p, n)
    }
}

/// Sectors per allocation block of a disk of so many sectors: about 400 blocks,
/// a power of two, never less than two sectors.
#[verifier::opaque]
pub open spec fn sectors_per_block(sectors: nat) -> nat {
    let p = doubled(1, sectors / 400);
    if p < 2 {
        2
    } else {
        p
    }
}

/// The directory's nominal size, in sectors.
pub open spec fn nominal_dir(sectors: nat) -> nat {
    let d = sectors * 12 / 800;
    if d < 1 {
        1
    } else {
        d
    }
}

/// Sectors that the MDB and a map of `n` entries take.
pub open spec fn mdb_sectors(n: nat) -> nat {
    (64 + blockmap::packed_size(n) + 511) / 512
}

/// Where the allocation area would begin, were there `n` blocks and no slack.
pub open spec fn area_start(sectors: nat, n: nat) -> nat {
    2 + mdb_sectors(n) + nominal_dir(sectors)
}

/// How many blocks a disk would have if nothing else were on it.
pub open spec fn most_blocks(sectors: nat) -> nat {
    ((sectors - 2) / sectors_per_block(sectors) as int) as nat
}

/// How many blocks a disk has: those that fit behind a map that is large
/// enough for [`most_blocks`].
pub open spec fn block_count(sectors: nat) -> nat {
    ((sectors - 2 - area_start(sectors, most_blocks(sectors))) / sectors_per_block(
        sectors,
    ) as int) as nat
}

/// Sectors that no block can use; the directory gets them.
pub open spec fn slack(sectors: nat) -> int {
    let n = block_count(sectors);
    sectors - 2 - (area_start(sectors, n) + n * sectors_per_block(sectors))
}

/// The layout of a disk of so many sectors, each number cut to its field.
pub open spec fn layout(sectors: nat) -> Geometry {
    let n = block_count(sectors);
    Geometry {
        dir_st: (2 + mdb_sectors(n)) as u16,
        dir_len: ((nominal_dir(sectors) + slack(sectors)) % 0x1_0000) as u16,
        al_bl_st: ((area_start(sectors, n) + slack(sectors)) % 0x1_0000) as u16,
        n_blocks: n as u16,
        al_blk_siz: (sectors_per_block(sectors) * 512) as u32,
    }
}

/// The layout of a disk of `size` bytes: there is one if and only if the size
/// is a whole number of sectors and not too small.
pub open spec fn geometry_outcome(size: u32) -> core::result::Result<Geometry, Fault> {
    if size % 512 != 0 {
        Err(
            Fault::InvalidGeometry(
                text::decimal(size as nat)
                    + " bytes is not a multiple of the 512-byte sector size"@,
            ),
        )
    } else if size < 102_400 {
        Err(
            Fault::InvalidGeometry(
                text::decimal(size as nat)
                    + " bytes is below the 102400-byte minimum volume size"@,
            ),
        )
    } else {
        Ok(layout((size / 512) as nat))
    }
}

/// A doubling stops before twice the bound.
proof fn lemma_doubled(p: nat, n: nat)
    requires
        p > 0,
    ensures
        doubled(p, n) >= n,
        doubled(p, n) >= p,
        p < n ==> doubled(p, n) < 2 * n,
        p >= n ==> doubled(p, n) == p,
    decreases 2 * n - p,
{
    if p < n {
        lemma_doubled(2 * p, n);
    }
}

/// What the rules come to on a disk that is large enough.
#[verifier::rlimit(30)]
proof fn lemma_rules(sectors: nat)
    requires
        200 <= sectors <= 0x7F_FFFF,
    ensures
        ({
            let pb = sectors_per_block(sectors);
            let d = nominal_dir(sectors);
            let most = most_blocks(sectors);
            let n = block_count(sectors);
            let start = area_start(sectors, most);
            &&& 2 <= pb <= 0xFFFF
            &&& pb < start
            &&& 1 <= most <= 0xFEE
            &&& mdb_sectors(most) <= 13
            &&& start + pb <= sectors - 2
            &&& most * pb <= sectors - 2 < most * pb + pb
            &&& 1 <= n < most
            &&& n * pb <= sectors - 2 - start < n * pb + pb
            &&& mdb_sectors(n) <= mdb_sectors(most)
            &&& 0 <= slack(sectors)
            &&& d <= 0x2_0000
        }),
{
    reveal(sectors_per_block);
    let q = sectors / 400;
    let pb = sectors_per_block(sectors);
    let d = nominal_dir(sectors);
    lemma_doubled(1, q);
    assert(q >= 1 ==> pb <= 2 * q);
    assert(d >= 6 * q);
    let u = sectors - 2;
    let most = most_blocks(sectors);
    vstd::arithmetic::div_mod::lemma_fundamental_div_mod(u, pb as int);
    vstd::arithmetic::div_mod::lemma_mod_bound(u, pb as int);
    vstd::arithmetic::div_mod::lemma_div_pos_is_pos(u, pb as int);
    assert(pb * most == most * pb) by (nonlinear_arith);
    assert(most <= 0xFEE) by {
        if q >= 1 {
            assert(u < 400 * q + 400);
            assert(most * q <= most * pb) by (nonlinear_arith)
                requires
                    q <= pb,
            ;
            assert(most <= 800) by (nonlinear_arith)
                requires
                    most * q <= u,
                    u < 400 * q + 400,
                    q >= 1,
            ;
        } else {
            assert(most * 2 <= most * pb) by (nonlinear_arith)
                requires
                    2 <= pb,
            ;
        }
    }
    let start = area_start(sectors, most);
    assert(start + pb <= u);
    let n = block_count(sectors);
    let room = u - start;
    vstd::arithmetic::div_mod::lemma_fundamental_div_mod(room, pb as int);
    vstd::arithmetic::div_mod::lemma_mod_bound(room, pb as int);
    vstd::arithmetic::div_mod::lemma_div_pos_is_pos(room, pb as int);
    assert(pb * n == n * pb) by (nonlinear_arith);
    assert(1 <= n) by (nonlinear_arith)
        requires
            room < n * pb + pb,
            room >= pb,
    ;
    assert(n < most) by (nonlinear_arith)
        requires
            n * pb <= u - start,
            u < most * pb + pb,
            start > pb,
            pb > 0,
    ;
}

// ------------------------------------------------------------------ computing it

/// The smallest power of two that is at least `n`.
fn next_power_of_two(n: u32) -> (p: u32)
    requires
        n <= 0x8000_0000,
    ensures
        p == doubled(1, n as nat),
{
    let mut p: u32 = 1;
    while p < n
        invariant
            0 < p,
            n <= 0x8000_0000,
            doubled(1, n as nat) == doubled(p as nat, n as nat),
        decreases 2 * n - p,
    {
        p = p * 2;
    }
    p
}

/// Number of packed bytes needed for `n` 12-bit map entries, in `u32` maths so
/// that an implausible size cannot overflow [`crate::blockmap::packed_len`]'s
/// `u16` argument before the block count has been range-checked.
pub fn map_bytes(n_blocks: u32) -> (n: u32)
    requires
        n_blocks * 3 <= u32::MAX,
    ensures
        n == blockmap::packed_size(n_blocks as nat),
{
    let triple: u32 = n_blocks * 3;
    triple / 2 + triple % 2
}

/// The layout of a new volume of `size_bytes`.
#[verifier::rlimit(30)]
pub fn geometry(size_bytes: u32) -> (r: Result<Geometry>)
    ensures
        match r {
            Ok(g) => geometry_outcome(size_bytes) == Ok::<Geometry, Fault>(g),
            Err(e) => geometry_outcome(size_bytes) == Err::<Geometry, Fault>(e@),
        },
{
    if size_bytes % SECTOR != 0 {
        let mut m = String::new();
        push_decimal(&mut m, size_bytes as u64);
        m.append(" bytes is not a multiple of the 512-byte sector size");
        assert(Seq::<char>::empty() + text::decimal(size_bytes as nat) =~= text::decimal(
            size_bytes as nat,
        ));
        return Err(MfsError::InvalidGeometry(m));
    }
    if size_bytes < MIN_SIZE {
        let mut m = String::new();
        push_decimal(&mut m, size_bytes as u64);
        m.append(" bytes is below the 102400-byte minimum volume size");
        assert(Seq::<char>::empty() + text::decimal(size_bytes as nat) =~= text::decimal(
            size_bytes as nat,
        ));
        return Err(MfsError::InvalidGeometry(m));
    }
    let sectors: u32 = size_bytes / SECTOR;
    let ghost s = sectors as nat;
    proof {
        lemma_rules(s);
    }
    let usable: u32 = sectors - RESERVED_TAIL_SECTORS;
    // Rule 2: about TARGET_BLOCKS allocation blocks, block size a power-of-two
    // multiple of the sector size, never smaller than two sectors.
    let power: u32 = next_power_of_two(sectors / TARGET_BLOCKS);
    let per_block: u32 = if power < 2 {
        2
    } else {
        power
    };
    assert(per_block == sectors_per_block(s)) by {
        reveal(sectors_per_block);
    }
    let al_blk_siz: u32 = per_block * SECTOR;
    // Rule 3, first half: the directory's nominal size.
    let nominal: u32 = sectors * DIR_SECTORS_PER_400K / 800;
    let dir_len: u32 = if nominal < 1 {
        1
    } else {
        nominal
    };

    // The map's size depends on the block count, which depends on where the
    // allocation area starts, which depends on the map's size. Iterate: the
    // block count only ever shrinks. The first round, in which it is an
    // over-estimate, leaves a count that the second one confirms.
    let mut n_blocks: u32 = usable / per_block;
    let mut dir_st: u32 = 2 + (64 + map_bytes(n_blocks) + 511) / SECTOR;
    let mut al_bl_st: u32 = dir_st + dir_len;
    let mut next: u32 = (usable - al_bl_st) / per_block;
    while next < n_blocks
        invariant
            s == sectors,
            200 <= sectors <= 0x7F_FFFF,
            usable == sectors - 2,
            per_block == sectors_per_block(s),
            dir_len == nominal_dir(s),
            n_blocks == most_blocks(s) || n_blocks == block_count(s),
            dir_st == 2 + mdb_sectors(n_blocks as nat),
            al_bl_st == dir_st + dir_len,
            n_blocks == most_blocks(s) ==> next == block_count(s),
            n_blocks == block_count(s) ==> next >= n_blocks,
        decreases n_blocks,
    {
        proof {
            lemma_rules(s);
        }
        n_blocks = next;
        dir_st = 2 + (64 + map_bytes(n_blocks) + 511) / SECTOR;
        al_bl_st = dir_st + dir_len;
        next = (usable - al_bl_st) / per_block;
        proof {
            let start = area_start(s, most_blocks(s));
            assert(al_bl_st <= start);
            vstd::arithmetic::div_mod::lemma_div_is_ordered(
                usable - start,
                usable - al_bl_st,
                per_block as int,
            );
        }
    }
    assert(n_blocks == block_count(s));

    // Rule 3, second half: hand the directory whatever sectors the allocation
    // area could not use.
    let slack: u32 = usable - (al_bl_st + n_blocks * per_block);
    let dir_len: u32 = dir_len + slack;
    let al_bl_st: u32 = al_bl_st + slack;
    assert(dir_len as u16 == dir_len % 0x1_0000) by (bit_vector);
    assert(al_bl_st as u16 == al_bl_st % 0x1_0000) by (bit_vector);
    Ok(
        Geometry {
            dir_st: dir_st as u16,
            dir_len: dir_len as u16,
            al_bl_st: al_bl_st as u16,
            n_blocks: n_blocks as u16,
            al_blk_siz,
        },
    )
}

// -------------------------------------------------------------------- formatting

/// The MDB of a new, empty volume.
pub open spec fn blank_mdb(g: Geometry, name: Seq<u8>, now: u32) -> MdbView {
    MdbView {
        sig_word: MFS_SIGNATURE,
        cr_date: now,
        ls_mod: now,
        atrb: 0,
        nm_fls: 0,
        dir_st: g.dir_st,
        dir_len: g.dir_len,
        nm_al_blks: g.n_blocks,
        al_blk_siz: g.al_blk_siz,
        clp_siz: (g.al_blk_siz * 8) as u32,
        al_bl_st: g.al_bl_st,
        nxt_fnum: 1,
        free_bks: g.n_blocks,
        name_raw: model::name_field(name),
    }
}

/// The sector image of a new, empty volume: its MDB, and zeros everywhere else.
/// Zero map entries are free blocks, and a zero flags byte ends the directory.
pub open spec fn blank_image(size: nat, m: MdbView) -> Seq<u8> {
    util::splice(util::zeros(size), 1024, mdb::bytes_of(m))
}

/// What creating an empty volume at `now` comes to.
pub open spec fn format_outcome(
    size: u32,
    name: Seq<char>,
    format: ImageFormat,
    now: u32,
) -> core::result::Result<VolumeView, Fault> {
    match model::name_outcome(name, 27) {
        Err(f) => Err(f),
        Ok(raw) => if format == ImageFormat::DiskCopy42 && size != 409_600 && size != 819_200 {
            Err(
                Fault::InvalidGeometry(
                    "DiskCopy 4.2 only defines the standard floppy geometries: "@
                        + text::decimal(size as nat)
                        + " bytes is neither 409600 nor 819200"@,
                ),
            )
        } else {
            match geometry_outcome(size) {
                Err(f) => Err(f),
                Ok(g) => {
                    let data = blank_image(size as nat, blank_mdb(g, raw, now));
                    match format {
                        ImageFormat::Raw => model::parts_outcome(data, ContainerView::Raw),
                        ImageFormat::DiskCopy42 => match dc42::blank_outcome(raw, data) {
                            Err(f) => Err(f),
                            Ok(c) => model::parts_outcome(c.data, model::container_of(c)),
                        },
                    }
                },
            }
        },
    }
}

/// Create an empty volume of `size_bytes` named `name`.
///
/// The dates are those of the clock.
pub fn format(size_bytes: u32, name: &str, kind: ImageFormat) -> (r: Result<MfsVolume>)
    ensures
        exists|now: u32|
            error::outcome(r) == #[trigger] format_outcome(size_bytes, name@, kind, now),
        r matches Ok(v) ==> v.wf(),
{
    let now = MacTimestamp::now();
    let r = format_at(size_bytes, name, kind, now);
    assert(error::outcome(r) == format_outcome(size_bytes, name@, kind, now.0));
    r
}

/// The sector image of a new, empty volume.
#[verifier::rlimit(30)]
fn blank(size_bytes: u32, g: Geometry, name: &[u8], now: MacTimestamp) -> (data: Vec<u8>)
    requires
        geometry_outcome(size_bytes) == Ok::<Geometry, Fault>(g),
        name@.len() <= 27,
    ensures
        data@ == blank_image(size_bytes as nat, blank_mdb(g, name@, now.0)),
{
    proof {
        lemma_rules((size_bytes / 512) as nat);
    }
    let mdb = Mdb {
        sig_word: MFS_SIGNATURE,
        cr_date: now.0,
        ls_mod: now.0,
        atrb: 0,
        nm_fls: 0,
        dir_st: g.dir_st,
        dir_len: g.dir_len,
        nm_al_blks: g.n_blocks,
        al_blk_siz: g.al_blk_siz,
        clp_siz: g.al_blk_siz * CLUMP_BLOCKS,
        al_bl_st: g.al_bl_st,
        nxt_fnum: 1,
        free_bks: g.n_blocks,
        name_raw: name_field(name),
    };
    let ghost m = blank_mdb(g, name@, now.0);
    assert(mdb@ == m);

    // The boot blocks stay zeroed (this is a data disk, not a bootable one),
    // and so does the file directory, whose zero flags bytes read as "no
    // entries here". The MDB and the all-free allocation block map are written
    // explicitly rather than left implicit in the zero fill.
    let mut data: Vec<u8> = vec![0u8;size_bytes as usize];
    assert(data@ =~= util::zeros(size_bytes as nat));
    {
        let (_, tail) = data.as_mut_slice().split_at_mut(1024);
        mdb.write_to(tail);
    }
    proof {
        mdb::lemma_bytes_of(m);
        assert(data@ =~= blank_image(size_bytes as nat, m));
    }
    {
        let map = BlockMap::new_empty(g.n_blocks);
        let map_len: usize = blockmap::packed_len(g.n_blocks);
        let (_, tail) = data.as_mut_slice().split_at_mut(1088);
        let (owned, _) = tail.split_at_mut(map_len);
        let ghost before = owned@;
        map.pack(owned);
        assert(owned@ =~= before);
    }
    assert(data@ =~= blank_image(size_bytes as nat, m));
    data
}

/// Create an empty volume of `size_bytes` named `name` at a given time.
#[verifier::rlimit(30)]
pub fn format_at(size_bytes: u32, name: &str, kind: ImageFormat, now: MacTimestamp) -> (r: Result<
    MfsVolume,
>)
    ensures
        error::outcome(r) == format_outcome(size_bytes, name@, kind, now.0),
        r matches Ok(v) ==> v.wf(),
{
    let raw_name = match encode_volume_name(name) {
        Ok(raw) => raw,
        Err(e) => return Err(e),
    };
    match kind {
        ImageFormat::Raw => {},
        ImageFormat::DiskCopy42 => {
            if size_bytes != MfsVolume::FLOPPY_400K && size_bytes != MfsVolume::FLOPPY_800K {
                let mut m = String::from_str(
                    "DiskCopy 4.2 only defines the standard floppy geometries: ",
                );
                push_decimal(&mut m, size_bytes as u64);
                m.append(" bytes is neither 409600 nor 819200");
                return Err(MfsError::InvalidGeometry(m));
            }
        },
    }
    let g = match geometry(size_bytes) {
        Ok(g) => g,
        Err(e) => return Err(e),
    };
    let data = blank(size_bytes, g, raw_name.as_slice(), now);
    match kind {
        ImageFormat::Raw => MfsVolume::from_parts(data, Container::Raw),
        ImageFormat::DiskCopy42 => {
            let img = match Dc42Image::new_blank(raw_name.as_slice(), data) {
                Ok(img) => img,
                Err(e) => return Err(e),
            };
            MfsVolume::from_parts(
                img.data,
                Container::Dc42 {
                    name: img.name,
                    padding: img.padding,
                    tags: img.tags,
                    disk_format: img.disk_format,
                    format_byte: img.format_byte,
                },
            )
        },
    }
}

// --------------------------------------------------------------------- the laws

/// Whether the layout of a disk of so many sectors can be written down: where
/// the allocation area begins must fit in 16 bits.
pub open spec fn fields_fit(sectors: nat) -> bool {
    area_start(sectors, block_count(sectors)) + slack(sectors) <= 0xFFFF
}

/// The layout of every disk of up to 1 GB can be written down.
pub proof fn lemma_fields_fit(sectors: nat)
    requires
        200 <= sectors <= 0x20_0000,
    ensures
        fields_fit(sectors),
{
    reveal(sectors_per_block);
    lemma_rules(sectors);
    lemma_doubled(1, sectors / 400);
}

/// A layout that can be written down is consistent with itself: the MDB area
/// holds the MDB and the whole map, the directory and the allocation area
/// follow it without a gap, just the reserved tail is left behind them, and
/// every block number fits in a 12-bit map entry.
#[verifier::rlimit(30)]
pub proof fn lemma_geometry_consistent(size: u32)
    requires
        size % 512 == 0,
        size >= 102_400,
        fields_fit((size / 512) as nat),
    ensures
        geometry_outcome(size) matches Ok(g) && {
            &&& 64 + blockmap::packed_size(g.n_blocks as nat) <= (g.dir_st - 2) * 512
            &&& g.dir_st >= 3
            &&& g.dir_len >= 1
            &&& g.al_bl_st == g.dir_st + g.dir_len
            &&& g.al_bl_st * 512 + g.n_blocks * g.al_blk_siz == size - 2 * 512
            &&& g.al_blk_siz > 0 && g.al_blk_siz % 512 == 0
            &&& 1 <= g.n_blocks <= MAX_BLOCKS
        },
{
    let s = (size / 512) as nat;
    lemma_rules(s);
    let g = layout(s);
    let n = block_count(s);
    let pb = sectors_per_block(s);
    assert(n * (pb * 512) == (n * pb) * 512) by (nonlinear_arith);
}

/// The container of a new volume.
pub open spec fn fresh_container(size: u32, name: Seq<u8>, format: ImageFormat) -> ContainerView {
    match format {
        ImageFormat::Raw => ContainerView::Raw,
        ImageFormat::DiskCopy42 => ContainerView::Dc42 {
            name,
            padding: util::zeros((63 - name.len()) as nat),
            tags: util::zeros((size / 512 * 12) as nat),
            disk_format: if size == 409_600 {
                0
            } else {
                1
            },
            format_byte: if size == 409_600 {
                0x02
            } else {
                0x22
            },
        },
    }
}

/// A new, empty volume: no files, every block free, the boot blocks zeroed.
pub open spec fn fresh(size: u32, name: Seq<u8>, format: ImageFormat, now: u32) -> VolumeView {
    let g = layout((size / 512) as nat);
    let m = blank_mdb(g, name, now);
    VolumeView {
        data: blank_image(size as nat, m),
        container: fresh_container(size, name, format),
        mdb: m,
        map: Seq::new(g.n_blocks as nat, |i: int| blockmap::FREE),
        entries: Seq::empty(),
        dir_dirty: false,
    }
}

/// Whether what a new volume's MDB says fits on a disk of `size` bytes.
spec fn mdb_fits(m: MdbView, size: u32) -> bool {
    &&& mdb::valid(m)
    &&& model::dir_end(m) <= size
    &&& model::alloc_end(m) <= size
    &&& 1088 + blockmap::packed_size(m.nm_al_blks as nat) <= model::dir_start(m)
}

/// Where the parts of a new image are, whatever its MDB says of them.
proof fn lemma_blank_image(size: u32, m: MdbView)
    requires
        size >= 102_400,
        m.name_raw.len() == 28,
    ensures
        ({
            let data = blank_image(size as nat, m);
            &&& data.len() == size
            &&& data.take(1024) == util::zeros(1024)
            &&& mdb::fields_at(data.skip(1024)) == m
            &&& forall|i: int| 1088 <= i < size ==> #[trigger] data[i] == 0
        }),
{
    let data = blank_image(size as nat, m);
    mdb::lemma_bytes_of(m);
    assert(data.take(1024) =~= util::zeros(1024));
    let behind = util::zeros((size - 1024) as nat);
    assert(data.skip(1024) =~= util::splice(behind, 0, mdb::bytes_of(m)));
    mdb::lemma_fields_written(m, behind);
}

/// A packed map of zeros has free blocks alone.
proof fn lemma_zeros_free(packed: Seq<u8>, n: nat)
    requires
        packed.len() >= blockmap::packed_size(n),
        forall|i: int| 0 <= i < packed.len() ==> #[trigger] packed[i] == 0,
    ensures
        blockmap::unpacked(packed, n).len() == n,
        forall|i: int| 0 <= i < n ==> #[trigger] blockmap::unpacked(packed, n)[i] == blockmap::FREE,
{
    assert forall|i: int| 0 <= i < n implies #[trigger] blockmap::unpacked(packed, n)[i]
        == blockmap::FREE by {
        let o = (i / 2) * 3;
        assert(packed[o] == 0 && packed[o + 1] == 0);
        if i % 2 == 1 {
            assert(packed[o + 2] == 0);
        }
    }
}

/// The map and the directory of an image that holds nothing behind its MDB.
proof fn lemma_blank_tables(data: Seq<u8>, m: MdbView)
    requires
        mdb::valid(m),
        model::dir_end(m) <= data.len(),
        1088 + blockmap::packed_size(m.nm_al_blks as nat) <= model::dir_start(m),
        forall|i: int| 1088 <= i < data.len() ==> #[trigger] data[i] == 0,
    ensures
        blockmap::unpack_outcome(
            data.subrange(1088, model::dir_start(m)),
            m.nm_al_blks as nat,
        ) == Ok::<Seq<u16>, Fault>(Seq::new(m.nm_al_blks as nat, |i: int| blockmap::FREE)),
        dir::parse_outcome(data.subrange(model::dir_start(m), model::dir_end(m))) == Ok::<
            Seq<dir::EntryView>,
            Fault,
        >(Seq::empty()),
{
    let n = m.nm_al_blks as nat;
    let packed = data.subrange(1088, model::dir_start(m));
    assert forall|i: int| 0 <= i < packed.len() implies #[trigger] packed[i] == 0 by {
        assert(data[1088 + i] == 0);
    }
    lemma_zeros_free(packed, n);
    assert(blockmap::unpacked(packed, n) =~= Seq::new(n, |i: int| blockmap::FREE));
    let region = data.subrange(model::dir_start(m), model::dir_end(m));
    assert forall|k: int| 0 <= k < region.len() implies #[trigger] region[k] == 0 by {
        assert(data[model::dir_start(m) + k] == 0);
    }
    dir::lemma_zeros_empty(region, 0, 0);
}

/// What a new image holds, if its MDB fits on the disk: the volume has no files
/// and all its blocks are free.
proof fn lemma_blank_parts(data: Seq<u8>, size: u32, m: MdbView, container: ContainerView)
    requires
        size >= 102_400,
        data.len() == size,
        mdb::parse_outcome(data.skip(1024)) == Ok::<MdbView, Fault>(m),
        mdb_fits(m, size),
        forall|i: int| 1088 <= i < data.len() ==> #[trigger] data[i] == 0,
        model::container_fits(container, size as nat),
    ensures
        ({
            let v = VolumeView {
                data,
                container,
                mdb: m,
                map: Seq::new(m.nm_al_blks as nat, |i: int| blockmap::FREE),
                entries: Seq::empty(),
                dir_dirty: false,
            };
            &&& model::parts_outcome(data, container) == Ok::<VolumeView, Fault>(v)
            &&& v.wf()
        }),
{
    lemma_blank_tables(data, m);
    assert(dir::packable(Seq::empty(), m.dir_len as nat));
}

/// The container that a new volume of `size` bytes gets.
proof fn lemma_fresh_container(size: u32, name: Seq<u8>, data: Seq<u8>, format: ImageFormat)
    requires
        name.len() <= 27,
        data.len() == size,
        format == ImageFormat::DiskCopy42 ==> size == 409_600 || size == 819_200,
    ensures
        model::container_fits(fresh_container(size, name, format), size as nat),
        model::format_of(fresh_container(size, name, format)) == format,
        format == ImageFormat::DiskCopy42 ==> {
            let c = dc42::blank_outcome(name, data);
            &&& c is Ok
            &&& c->Ok_0.data == data
            &&& model::container_of(c->Ok_0) == fresh_container(size, name, format)
        },
{
    if format == ImageFormat::DiskCopy42 {
        let c = dc42::blank_outcome(name, data)->Ok_0;
        assert(model::container_of(c) =~= fresh_container(size, name, format));
    }
}

/// What formatting comes to depends on no more than whether the MDB of the new
/// volume fits on the disk.
#[verifier::rlimit(30)]
proof fn lemma_format_cases(size: u32, name: Seq<char>, format: ImageFormat, now: u32)
    requires
        geometry_outcome(size) is Ok,
        format == ImageFormat::DiskCopy42 ==> size == 409_600 || size == 819_200,
        model::name_outcome(name, 27) is Ok,
    ensures
        ({
            let v = fresh(size, model::name_outcome(name, 27)->Ok_0, format, now);
            &&& format_outcome(size, name, format, now) is Ok <==> mdb_fits(v.mdb, size)
            &&& format_outcome(size, name, format, now) is Ok ==> format_outcome(
                size,
                name,
                format,
                now,
            ) == Ok::<VolumeView, Fault>(v) && v.wf()
            &&& model::volume_name(v.mdb) == name
            &&& model::format_of(v.container) == format
            &&& v.data.take(1024) == util::zeros(1024)
        }),
{
    let raw = model::name_outcome(name, 27)->Ok_0;
    let v = fresh(size, raw, format, now);
    let m = v.mdb;
    macroman::lemma_decode_inverts_encode(name);
    assert(m.name_raw.subrange(1, 1 + m.name_raw[0]) =~= raw);
    lemma_blank_image(size, m);
    lemma_fresh_container(size, raw, v.data, format);
    assert(format_outcome(size, name, format, now) == model::parts_outcome(v.data, v.container));
    if mdb_fits(m, size) {
        lemma_blank_parts(v.data, size, m, v.container);
    }
}

/// A volume that was formatted, whatever the size of the disk, is a new, empty
/// one of the given name, without boot code.
pub proof fn lemma_format_is_fresh(size: u32, name: Seq<char>, format: ImageFormat, now: u32)
    requires
        format_outcome(size, name, format, now) is Ok,
    ensures
        ({
            let v = fresh(size, model::name_outcome(name, 27)->Ok_0, format, now);
            &&& format_outcome(size, name, format, now) == Ok::<VolumeView, Fault>(v)
            &&& model::volume_name(v.mdb) == name
            &&& model::format_of(v.container) == format
            &&& v.data.take(1024) == util::zeros(1024)
            &&& v.wf()
        }),
{
    lemma_format_cases(size, name, format, now);
}

/// Formatting a disk whose layout can be written down, in a container that
/// takes disks of its size, under a name that a volume can have, always
/// succeeds.
pub proof fn lemma_formatted(size: u32, name: Seq<char>, format: ImageFormat, now: u32)
    requires
        size % 512 == 0,
        size >= 102_400,
        fields_fit((size / 512) as nat),
        format == ImageFormat::DiskCopy42 ==> size == 409_600 || size == 819_200,
        model::name_outcome(name, 27) is Ok,
    ensures
        format_outcome(size, name, format, now) is Ok,
{
    lemma_geometry_consistent(size);
    lemma_format_cases(size, name, format, now);
    let raw = model::name_outcome(name, 27)->Ok_0;
    assert(model::name_field(raw).len() == 28 && model::name_field(raw)[0] == raw.len());
}

/// Whether `n` is a power of two.
pub open spec fn power_of_two(n: nat) -> bool
    decreases n,
{
    n == 1 || n > 0 && n % 2 == 0 && power_of_two(n / 2)
}

/// Doubling a power of two gives powers of two, the last the first that is large
/// enough.
proof fn lemma_doubled_power(p: nat, n: nat)
    requires
        power_of_two(p),
        p > 1 ==> p / 2 < n,
    ensures
        power_of_two(doubled(p, n)),
        doubled(p, n) >= n,
        doubled(p, n) > 1 ==> doubled(p, n) / 2 < n,
    decreases 2 * n - p,
{
    if p < n {
        assert((2 * p) / 2 == p);
        lemma_doubled_power(2 * p, n);
    }
}

/// There is a layout for every disk of whole sectors and at least 100K, and for
/// no other.
pub proof fn lemma_sizes_taken(size: u32)
    ensures
        geometry_outcome(size) is Ok <==> size % 512 == 0 && size >= 200 * 512,
{
}

/// The blocks of a new volume are as small as they can be with a power of two of
/// sectors, at least two of them, if there are not to be more than about four
/// hundred: half as large, a four-hundredth of the disk would not fit.
pub proof fn lemma_block_size(size: u32)
    requires
        size % 512 == 0,
        size >= 102_400,
    ensures
        geometry_outcome(size) matches Ok(g) && {
            let per_block = g.al_blk_siz as nat / 512;
            let hundredth = size as nat / 512 / 400;
            &&& g.al_blk_siz % 512 == 0
            &&& power_of_two(per_block)
            &&& per_block >= 2
            &&& per_block >= hundredth
            &&& per_block > 2 ==> per_block / 2 < hundredth
        },
{
    let s = (size / 512) as nat;
    lemma_rules(s);
    reveal(sectors_per_block);
    reveal_with_fuel(power_of_two, 3);
    lemma_doubled_power(1, s / 400);
}

/// How many blocks a new volume has: as many as fit in front of the last two
/// sectors and behind the boot blocks, the volume information with a map for
/// `most` blocks, and a directory of twelve sectors in eight hundred, `most`
/// being how many would fit if there were nothing else. What the smaller map
/// spares, and what is left over, goes to the directory.
pub proof fn lemma_block_count(size: u32, most: nat)
    requires
        size % 512 == 0,
        size >= 102_400,
        fields_fit((size / 512) as nat),
        geometry_outcome(size) matches Ok(g) && most * (g.al_blk_siz / 512) <= size / 512 - 2 < (
        most + 1) * (g.al_blk_siz / 512),
    ensures
        geometry_outcome(size) matches Ok(g) && {
            let sectors = (size / 512) as int;
            let per_block = (g.al_blk_siz / 512) as int;
            let dir = if sectors * 12 / 800 < 1 {
                1
            } else {
                sectors * 12 / 800
            };
            let first = 2 + (64 + (3 * most + 1) / 2 + 511) / 512 + dir;
            &&& first + g.n_blocks * per_block <= sectors - 2 < first + (g.n_blocks + 1) * per_block
            &&& g.dir_st == 2 + (64 + (3 * g.n_blocks + 1) / 2 + 511) / 512
            &&& g.dir_st + g.dir_len == g.al_bl_st
            &&& g.al_bl_st + g.n_blocks * per_block == sectors - 2
        },
{
    let s = (size / 512) as nat;
    lemma_rules(s);
    lemma_geometry_consistent(size);
    let g = layout(s);
    let pb = sectors_per_block(s);
    let n = block_count(s);
    assert(g.al_blk_siz == pb * 512);
    assert(g.al_blk_siz / 512 == pb);
    let m = most_blocks(s);
    assert(m == most) by (nonlinear_arith)
        requires
            m * pb <= s - 2,
            s - 2 < m * pb + pb,
            most * pb <= s - 2,
            s - 2 < (most + 1) * pb,
            pb > 0,
    ;
    assert(g.n_blocks == n);
    assert((n + 1) * pb == n * pb + pb) by (nonlinear_arith);
}

/// A new volume is empty: no files, every block free, nothing in its boot blocks.
/// It has its name, was created and last changed now, is not locked, takes blocks
/// for files eight at a time, and numbers its files from one.
pub proof fn lemma_new_volume(size: u32, name: Seq<char>, format: ImageFormat, now: u32)
    requires
        format_outcome(size, name, format, now) is Ok,
    ensures
        format_outcome(size, name, format, now) matches Ok(v) && {
            &&& v.data.len() == size
            &&& forall|i: int| 0 <= i < 1024 ==> v.data[i] == 0
            &&& v.entries.len() == 0
            &&& v.map.len() == v.mdb.nm_al_blks
            &&& forall|i: int| 0 <= i < v.map.len() ==> v.map[i] == 0
            &&& v.mdb.free_bks == v.mdb.nm_al_blks
            &&& v.mdb.nm_fls == 0
            &&& v.mdb.cr_date == now
            &&& v.mdb.ls_mod == now
            &&& v.mdb.atrb == 0
            &&& v.mdb.nxt_fnum == 1
            &&& v.mdb.clp_siz == 8 * v.mdb.al_blk_siz
            &&& model::volume_name(v.mdb) == name
            &&& match v.container {
                ContainerView::Raw => format == ImageFormat::Raw,
                ContainerView::Dc42 { name: n, padding, tags, disk_format, format_byte } => {
                    &&& format == ImageFormat::DiskCopy42
                    &&& size == 800 * 512 || size == 1600 * 512
                    &&& crate::macroman::decoded(n) == name
                    &&& n.len() + padding.len() == 63
                    &&& forall|i: int| 0 <= i < padding.len() ==> padding[i] == 0
                    &&& tags.len() * 512 == 12 * size
                    &&& forall|i: int| 0 <= i < tags.len() ==> tags[i] == 0
                    &&& size == 800 * 512 ==> disk_format == 0 && format_byte == 0x02
                    &&& size == 1600 * 512 ==> disk_format == 1 && format_byte == 0x22
                },
            }
            &&& geometry_outcome(size) matches Ok(g) && {
                &&& v.mdb.dir_st == g.dir_st
                &&& v.mdb.dir_len == g.dir_len
                &&& v.mdb.al_bl_st == g.al_bl_st
                &&& v.mdb.nm_al_blks == g.n_blocks
                &&& v.mdb.al_blk_siz == g.al_blk_siz
            }
        },
{
    lemma_format_is_fresh(size, name, format, now);
    lemma_rules((size / 512) as nat);
    let raw = model::name_outcome(name, 27)->Ok_0;
    let v = format_outcome(size, name, format, now)->Ok_0;
    crate::macroman::lemma_decode_inverts_encode(name);
    let m = v.mdb;
    assert(m.name_raw[0] == raw.len());
    assert(m.name_raw.subrange(1, 1 + raw.len() as int) =~= raw);
    mdb::lemma_bytes_of(m);
}

} // verus!
