//! File directory entries.
//!
//! The directory occupies `drDirLen` consecutive 512-byte sectors starting at
//! `drDirSt`. Entries are variable length and even-padded, and they never span
//! a sector boundary: within a sector, entries are packed from offset 0 and the
//! first flags byte with bit 7 clear terminates that sector's entries (the rest
//! is padding). Parsing then continues at the start of the next sector.
//!
//! Entry layout (all big-endian):
//!
//! | off | field           | size |
//! |-----|-----------------|------|
//! | 0   | `flFlags`       | 1    |
//! | 1   | `flVersion`     | 1    |
//! | 2   | `flTyp`         | 4    |
//! | 6   | `flCr`          | 4    |
//! | 10  | `flFndrFlags`   | 2    |
//! | 12  | `flPos`         | 4    |
//! | 16  | `flFldrNum`     | 2    |
//! | 18  | `flFNum`        | 4    |
//! | 22  | `flDFStBlk`     | 2    |
//! | 24  | `flDFLogLen`    | 4    |
//! | 28  | `flDFAllocLen`  | 4    |
//! | 32  | `flRFStBlk`     | 2    |
//! | 34  | `flRFLogLen`    | 4    |
//! | 38  | `flRFAllocLen`  | 4    |
//! | 42  | `flCrDat`       | 4    |
//! | 46  | `flMdDat`       | 4    |
//! | 50  | name length     | 1    |
//! | 51  | name bytes      | n    |

use vstd::prelude::*;
use vstd::string::*;

use crate::error::{Fault, MfsError, Result};
use crate::text;
use crate::text::push_decimal;
use crate::util;
use crate::util::{push_be16, push_be32, push_bytes, put_bytes, put_zeros, rd_u16, rd_u32};

verus! {

/// Logical sector size; directory entries are packed into sectors of this size.
pub const SECTOR: usize = 512;

/// Fixed part of a directory entry: everything up to and including the name
/// length byte.
pub const FIXED_LEN: usize = 51;

/// `flFlags` bit 7 — the entry is in use.
pub const FLAG_IN_USE: u8 = 0x80;

/// `flFlags` bit 0 — the file is locked.
pub const FLAG_LOCKED: u8 = 0x01;

/// A directory entry exactly as stored on disk.
///
/// Every field — including ones this crate never interprets (`version`, `pos`,
/// `fldr_num`) — is kept verbatim so that open→save round-trips byte-identically.
#[derive(Debug, Clone, PartialEq, Eq)]
pub struct RawEntry {
    /// `flFlags` @0 — bit 7 in use, bit 0 locked.
    pub flags: u8,
    /// `flVersion` @1 — always zero in practice. Stored verbatim.
    pub version: u8,
    /// `flTyp` @2 — Finder type code.
    pub type_code: [u8; 4],
    /// `flCr` @6 — Finder creator code.
    pub creator: [u8; 4],
    /// `flFndrFlags` @10 — Finder flags.
    pub fndr_flags: u16,
    /// `flPos` @12 — Finder icon position. Stored verbatim.
    pub pos: u32,
    /// `flFldrNum` @16 — Finder folder number. Stored verbatim.
    pub fldr_num: u16,
    /// `flFNum` @18 — file number.
    pub fnum: u32,
    /// `flDFStBlk` @22 — first allocation block of the data fork.
    pub df_st_blk: u16,
    /// `flDFLogLen` @24 — data fork logical length in bytes.
    pub df_log_len: u32,
    /// `flDFAllocLen` @28 — data fork allocated length in bytes.
    pub df_alloc_len: u32,
    /// `flRFStBlk` @32 — first allocation block of the resource fork.
    pub rf_st_blk: u16,
    /// `flRFLogLen` @34 — resource fork logical length in bytes.
    pub rf_log_len: u32,
    /// `flRFAllocLen` @38 — resource fork allocated length in bytes.
    pub rf_alloc_len: u32,
    /// `flCrDat` @42 — creation date (1904 epoch).
    pub cr_dat: u32,
    /// `flMdDat` @46 — last modification date (1904 epoch).
    pub md_dat: u32,
    /// Raw MacRoman name bytes @51, without the leading Pascal length byte
    /// (@50, derived from `name.len()` when writing).
    pub name: Vec<u8>,
}

/// The fields of a [`RawEntry`], codes and name as sequences.
#[verifier::ext_equal]
pub struct EntryView {
    pub flags: u8,
    pub version: u8,
    pub type_code: Seq<u8>,
    pub creator: Seq<u8>,
    pub fndr_flags: u16,
    pub pos: u32,
    pub fldr_num: u16,
    pub fnum: u32,
    pub df_st_blk: u16,
    pub df_log_len: u32,
    pub df_alloc_len: u32,
    pub rf_st_blk: u16,
    pub rf_log_len: u32,
    pub rf_alloc_len: u32,
    pub cr_dat: u32,
    pub md_dat: u32,
    pub name: Seq<u8>,
}

impl View for RawEntry {
    type V = EntryView;

    open spec fn view(&self) -> EntryView {
        EntryView {
            flags: self.flags,
            version: self.version,
            type_code: self.type_code@,
            creator: self.creator@,
            fndr_flags: self.fndr_flags,
            pos: self.pos,
            fldr_num: self.fldr_num,
            fnum: self.fnum,
            df_st_blk: self.df_st_blk,
            df_log_len: self.df_log_len,
            df_alloc_len: self.df_alloc_len,
            rf_st_blk: self.rf_st_blk,
            rf_log_len: self.rf_log_len,
            rf_alloc_len: self.rf_alloc_len,
            cr_dat: self.cr_dat,
            md_dat: self.md_dat,
            name: self.name@,
        }
    }
}

impl EntryView {
    /// Whether the codes have their four bytes each.
    pub open spec fn codes_ok(self) -> bool {
        self.type_code.len() == 4 && self.creator.len() == 4
    }

    /// Whether `flFlags` bit 7 is set.
    pub open spec fn in_use(self) -> bool {
        self.flags >= 128
    }

    /// Whether `flFlags` bit 0 is set.
    pub open spec fn locked(self) -> bool {
        self.flags % 2 == 1
    }
}

/// The fields of each of the entries.
pub open spec fn views(entries: Seq<RawEntry>) -> Seq<EntryView> {
    Seq::new(entries.len(), |i: int| entries[i]@)
}

/// On-disk length of an entry whose name is `name_len` bytes.
pub open spec fn entry_size(name_len: nat) -> nat {
    (52 + name_len) / 2 * 2
}

// ------------------------------------------------------------------ the bytes

/// The flags byte as it is written: with bit 7 set.
pub open spec fn flags_in_use(flags: u8) -> u8 {
    if flags >= 128 {
        flags
    } else {
        (flags + 128) as u8
    }
}

/// The entry stored at byte `at` of `s`.
#[verifier::opaque]
pub open spec fn entry_from(s: Seq<u8>, at: int) -> EntryView {
    EntryView {
        flags: s[at],
        version: s[at + 1],
        type_code: s.subrange(at + 2, at + 6),
        creator: s.subrange(at + 6, at + 10),
        fndr_flags: util::be16(s, at + 10),
        pos: util::be32(s, at + 12),
        fldr_num: util::be16(s, at + 16),
        fnum: util::be32(s, at + 18),
        df_st_blk: util::be16(s, at + 22),
        df_log_len: util::be32(s, at + 24),
        df_alloc_len: util::be32(s, at + 28),
        rf_st_blk: util::be16(s, at + 32),
        rf_log_len: util::be32(s, at + 34),
        rf_alloc_len: util::be32(s, at + 38),
        cr_dat: util::be32(s, at + 42),
        md_dat: util::be32(s, at + 46),
        name: s.subrange(at + 51, at + 51 + s[at + 50]),
    }
}

/// The bytes of an entry up to and including the name length.
pub open spec fn fixed_bytes(e: EntryView) -> Seq<u8> {
    seq![flags_in_use(e.flags), e.version] + e.type_code + e.creator + util::be16_bytes(
        e.fndr_flags,
    ) + util::be32_bytes(e.pos) + util::be16_bytes(e.fldr_num) + util::be32_bytes(e.fnum)
        + util::be16_bytes(e.df_st_blk) + util::be32_bytes(e.df_log_len) + util::be32_bytes(
        e.df_alloc_len,
    ) + util::be16_bytes(e.rf_st_blk) + util::be32_bytes(e.rf_log_len) + util::be32_bytes(
        e.rf_alloc_len,
    ) + util::be32_bytes(e.cr_dat) + util::be32_bytes(e.md_dat) + seq![e.name.len() as u8]
}

/// The bytes of an entry, with the padding to an even length.
#[verifier::opaque]
pub open spec fn entry_bytes(e: EntryView) -> Seq<u8> {
    fixed_bytes(e) + e.name + util::zeros((entry_size(e.name.len()) - 51 - e.name.len()) as nat)
}

// ----------------------------------------------------------------- the region

/// The entries from byte `pos` of the sector at `off` on, to the end of the
/// region.
pub open spec fn entries_from(region: Seq<u8>, off: nat, pos: nat) -> core::result::Result<
    Seq<EntryView>,
    Fault,
>
    decreases region.len() - off, 512 - pos,
{
    if off + 512 > region.len() {
        Ok(Seq::empty())
    } else if pos + 51 > 512 || region[(off + pos) as int] < 128 {
        entries_from(region, off + 512, 0)
    } else {
        let len = entry_size(region[(off + pos) as int + 50] as nat);
        if pos + len > 512 {
            Err(Fault::CorruptVolume("directory entry overruns sector"@))
        } else {
            after(seq![entry_from(region, (off + pos) as int)], entries_from(region, off, pos + len))
        }
    }
}

/// The entries of `head` followed by those of the rest, unless that failed.
pub open spec fn after(
    head: Seq<EntryView>,
    rest: core::result::Result<Seq<EntryView>, Fault>,
) -> core::result::Result<Seq<EntryView>, Fault> {
    match rest {
        Ok(s) => Ok(head + s),
        Err(f) => Err(f),
    }
}

/// The complaint about a region that is not made of whole sectors.
pub open spec fn ragged(len: nat) -> Fault {
    Fault::CorruptVolume(
        "directory region is "@ + text::decimal(len) + " bytes, not a multiple of 512"@,
    )
}

/// What parsing a directory region comes to.
pub open spec fn parse_outcome(region: Seq<u8>) -> core::result::Result<Seq<EntryView>, Fault> {
    if region.len() % 512 != 0 {
        Err(ragged(region.len()))
    } else {
        entries_from(region, 0, 0)
    }
}

/// Where each entry lands when packed, in order, into `n` sectors, the next
/// free byte being byte `off` of `sector`; `None` if they do not fit.
pub open spec fn placed(entries: Seq<EntryView>, n: nat, sector: nat, off: nat) -> Option<Seq<nat>>
    decreases entries.len(),
{
    if entries.len() == 0 {
        Some(Seq::empty())
    } else {
        let len = entry_size(entries[0].name.len());
        let to_next = off + len > 512;
        let s = if to_next {
            sector + 1
        } else {
            sector
        };
        let o = if to_next {
            0
        } else {
            off
        };
        if entries[0].name.len() > 255 || s >= n {
            None
        } else {
            match placed(entries.skip(1), n, s, o + len) {
                Some(t) => Some(seq![s * 512 + o] + t),
                None => None,
            }
        }
    }
}

/// Whether the entries can be packed into `n` sectors.
pub open spec fn packable(entries: Seq<EntryView>, n: nat) -> bool {
    placed(entries, n, 0, 0) is Some
}

/// The bytes of `n` packed sectors from byte `off` of `sector` on: the entries
/// one behind the other, an entry that does not fit in what is left of its
/// sector in the next one, and zeros everywhere else.
pub open spec fn image(entries: Seq<EntryView>, n: nat, sector: nat, off: nat) -> Seq<u8>
    decreases entries.len(), off,
{
    if entries.len() == 0 || entries[0].name.len() > 255 {
        util::zeros((n * 512 - (sector * 512 + off)) as nat)
    } else {
        let len = entry_size(entries[0].name.len());
        if off + len > 512 && off > 0 {
            util::zeros((512 - off) as nat) + image(entries, n, sector + 1, 0)
        } else {
            entry_bytes(entries[0]) + image(entries.skip(1), n, sector, off + len)
        }
    }
}

/// What rebuilding a directory region from `entries` comes to.
pub open spec fn write_outcome(entries: Seq<EntryView>, region: Seq<u8>) -> core::result::Result<
    Seq<u8>,
    Fault,
> {
    if region.len() % 512 != 0 {
        Err(ragged(region.len()))
    } else if !packable(entries, region.len() / 512) {
        Err(Fault::DirectoryFull)
    } else {
        Ok(image(entries, region.len() / 512, 0, 0))
    }
}

impl RawEntry {
    /// Whether `flFlags` bit 7 is set.
    pub fn in_use(&self) -> (b: bool)
        ensures
            b == self@.in_use(),
    {
        let f: u8 = self.flags;
        assert(f & 0x80 != 0 <==> f >= 128) by (bit_vector);
        self.flags & FLAG_IN_USE != 0
    }

    /// Whether `flFlags` bit 0 is set.
    pub fn locked(&self) -> (b: bool)
        ensures
            b == self@.locked(),
    {
        let f: u8 = self.flags;
        assert(f & 0x01 != 0 <==> f % 2 == 1) by (bit_vector);
        self.flags & FLAG_LOCKED != 0
    }

    /// Number of bytes this entry occupies on disk, including even padding.
    pub fn entry_len(&self) -> (n: usize)
        requires
            self.name@.len() <= usize::MAX - 52,
        ensures
            n == entry_size(self.name@.len()),
    {
        entry_len_for(self.name.len())
    }

    /// The bytes of this entry.
    fn to_bytes(&self) -> (b: Vec<u8>)
        requires
            self.name@.len() <= 255,
        ensures
            b@ == entry_bytes(self@),
            b@.len() == entry_size(self.name@.len()),
    {
        reveal(entry_bytes);
        let f: u8 = self.flags;
        assert(f | 0x80 == if f >= 128 { f } else { (f + 128) as u8 }) by (bit_vector);
        let mut b: Vec<u8> = Vec::new();
        // An entry is only reachable by the parser with bit 7 set.
        b.push(self.flags | FLAG_IN_USE);
        b.push(self.version);
        assert(b@ =~= seq![flags_in_use(f), self.version]);
        push_bytes(&mut b, self.type_code.as_slice());
        push_bytes(&mut b, self.creator.as_slice());
        push_be16(&mut b, self.fndr_flags);
        push_be32(&mut b, self.pos);
        push_be16(&mut b, self.fldr_num);
        push_be32(&mut b, self.fnum);
        push_be16(&mut b, self.df_st_blk);
        push_be32(&mut b, self.df_log_len);
        push_be32(&mut b, self.df_alloc_len);
        push_be16(&mut b, self.rf_st_blk);
        push_be32(&mut b, self.rf_log_len);
        push_be32(&mut b, self.rf_alloc_len);
        push_be32(&mut b, self.cr_dat);
        push_be32(&mut b, self.md_dat);
        let ghost before = b@;
        b.push(self.name.len() as u8);
        assert(b@ =~= before + seq![self.name@.len() as u8]);
        push_bytes(&mut b, self.name.as_slice());
        let ghost whole = b@;
        if self.name.len() % 2 == 0 {
            b.push(0);
            assert(b@ =~= whole + util::zeros(1));
        } else {
            assert(b@ =~= whole + util::zeros(0));
        }
        b
    }
}

/// On-disk length of a directory entry whose name is `name_len` bytes, rounded
/// up to an even boundary.
pub fn entry_len_for(name_len: usize) -> (n: usize)
    requires
        name_len <= usize::MAX - 52,
    ensures
        n == entry_size(name_len as nat),
{
    (FIXED_LEN + name_len + 1) / 2 * 2
}

/// The entry stored at `at`.
fn read_entry(region: &[u8], at: usize) -> (e: RawEntry)
    requires
        at + 51 <= region@.len(),
        at + 51 + region@[at + 50] <= region@.len(),
    ensures
        e@ == entry_from(region@, at as int),
{
    reveal(entry_from);
    let size: usize = region.len();
    assert(at + 51 <= size);
    let name_len: usize = region[at + 50] as usize;
    let mut name: Vec<u8> = Vec::new();
    push_bytes(&mut name, &region[at + 51..at + 51 + name_len]);
    let e = RawEntry {
        flags: region[at],
        version: region[at + 1],
        type_code: [region[at + 2], region[at + 3], region[at + 4], region[at + 5]],
        creator: [region[at + 6], region[at + 7], region[at + 8], region[at + 9]],
        fndr_flags: rd_u16(region, at + 10),
        pos: rd_u32(region, at + 12),
        fldr_num: rd_u16(region, at + 16),
        fnum: rd_u32(region, at + 18),
        df_st_blk: rd_u16(region, at + 22),
        df_log_len: rd_u32(region, at + 24),
        df_alloc_len: rd_u32(region, at + 28),
        rf_st_blk: rd_u16(region, at + 32),
        rf_log_len: rd_u32(region, at + 34),
        rf_alloc_len: rd_u32(region, at + 38),
        cr_dat: rd_u32(region, at + 42),
        md_dat: rd_u32(region, at + 46),
        name,
    };
    assert(e.type_code@ =~= region@.subrange(at + 2, at + 6));
    assert(e.creator@ =~= region@.subrange(at + 6, at + 10));
    assert(e.name@ =~= region@.subrange(at + 51, at + 51 + region@[at + 50]));
    e
}

/// The complaint about a region that is not made of whole sectors.
fn ragged_region(len: usize) -> (e: MfsError)
    ensures
        e@ == ragged(len as nat),
{
    let mut m = String::from_str("directory region is ");
    push_decimal(&mut m, len as u64);
    m.append(" bytes, not a multiple of 512");
    MfsError::CorruptVolume(m)
}

/// Parse every in-use entry in the file directory region.
///
/// `region` must cover whole sectors (`drDirLen * 512` bytes).
pub fn parse_directory(region: &[u8]) -> (r: Result<Vec<RawEntry>>)
    ensures
        match r {
            Ok(entries) => parse_outcome(region@) == Ok::<Seq<EntryView>, Fault>(
                views(entries@),
            ),
            Err(e) => parse_outcome(region@) == Err::<Seq<EntryView>, Fault>(e@),
        },
{
    let n: usize = region.len();
    if n % SECTOR != 0 {
        return Err(ragged_region(n));
    }
    let mut entries: Vec<RawEntry> = Vec::new();
    let mut off: usize = 0;
    let mut pos: usize = 0;
    assert(after(views(entries@), entries_from(region@, 0, 0)) == entries_from(region@, 0, 0)) by {
        if let Ok(s) = entries_from(region@, 0, 0) {
            assert(views(entries@) + s =~= s);
        }
    }
    while off < n
        invariant
            n == region@.len(),
            n % 512 == 0,
            off % 512 == 0,
            off <= n,
            pos <= 512,
            entries_from(region@, 0, 0) == after(
                views(entries@),
                entries_from(region@, off as nat, pos as nat),
            ),
        decreases n - off, 512 - pos,
    {
        // An entry needs at least its fixed part; a flags byte with bit 7 clear
        // terminates this sector.
        if pos + FIXED_LEN > SECTOR || region[off + pos] < FLAG_IN_USE {
            off += SECTOR;
            pos = 0;
        } else {
            let len: usize = entry_len_for(region[off + pos + 50] as usize);
            if pos + len > SECTOR {
                return Err(
                    MfsError::CorruptVolume(String::from_str("directory entry overruns sector")),
                );
            }
            let ghost before = entries@;
            let e = read_entry(region, off + pos);
            entries.push(e);
            proof {
                let head = seq![entry_from(region@, off + pos)];
                assert(views(entries@) =~= views(before) + head);
                if let Ok(s) = entries_from(region@, off as nat, (pos + len) as nat) {
                    assert(views(before) + (head + s) =~= views(entries@) + s);
                }
            }
            pos += len;
        }
    }
    assert(views(entries@) + Seq::<EntryView>::empty() =~= views(entries@));
    Ok(entries)
}

/// Compute where each entry lands when first-fit packed into `n_sectors`
/// sectors, as absolute byte offsets from the start of the directory region.
///
/// Returns `None` if the entries do not fit (or if any name is unrepresentable).
pub fn plan(entries: &[RawEntry], n_sectors: usize) -> (r: Option<Vec<usize>>)
    requires
        n_sectors * 512 <= usize::MAX,
    ensures
        match r {
            Some(offsets) => {
                &&& placed(views(entries@), n_sectors as nat, 0, 0) is Some
                &&& offsets@.len() == entries@.len()
                &&& placed(views(entries@), n_sectors as nat, 0, 0)->0 =~= Seq::new(
                    offsets@.len(),
                    |i: int| offsets@[i] as nat,
                )
            },
            None => placed(views(entries@), n_sectors as nat, 0, 0) is None,
        },
{
    let mut offsets: Vec<usize> = Vec::new();
    let mut sector: usize = 0;
    let mut off: usize = 0;
    let count: usize = entries.len();
    let ghost all = views(entries@);
    let ghost n = n_sectors as nat;
    let mut i: usize = 0;
    assert(all.skip(0) =~= all);
    assert(offsets_then(offsets@, placed(all, n, 0, 0)) == placed(all, n, 0, 0)) by {
        if let Some(t) = placed(all, n, 0, 0) {
            assert(nats(offsets@) + t =~= t);
        }
    }
    while i < count
        invariant
            i <= count,
            count == entries@.len(),
            all == views(entries@),
            n == n_sectors,
            n_sectors * 512 <= usize::MAX,
            off <= 512,
            sector <= n_sectors,
            offsets@.len() == i,
            placed(all, n, 0, 0) == offsets_then(
                offsets@,
                placed(all.skip(i as int), n, sector as nat, off as nat),
            ),
        decreases count - i,
    {
        let ghost rest = all.skip(i as int);
        assert(rest[0] == entries@[i as int]@);
        assert(rest.skip(1) =~= all.skip(i + 1));
        let e = &entries[i];
        if e.name.len() > 255 {
            return None;
        }
        let len: usize = e.entry_len();
        if off + len > SECTOR {
            sector += 1;
            off = 0;
        }
        if sector >= n_sectors {
            return None;
        }
        let ghost before = offsets@;
        offsets.push(sector * SECTOR + off);
        proof {
            let at = (sector * 512 + off) as nat;
            assert(nats(offsets@) =~= nats(before) + seq![at]);
            if let Some(t) = placed(rest.skip(1), n, sector as nat, (off + len) as nat) {
                assert(nats(before) + (seq![at] + t) =~= nats(offsets@) + t);
            }
        }
        off += len;
        i += 1;
    }
    assert(nats(offsets@) + Seq::<nat>::empty() =~= nats(offsets@));
    Some(offsets)
}

/// Offsets as natural numbers.
pub open spec fn nats(offsets: Seq<usize>) -> Seq<nat> {
    Seq::new(offsets.len(), |i: int| offsets[i] as nat)
}

/// `offsets` followed by the rest, unless that does not fit.
spec fn offsets_then(offsets: Seq<usize>, rest: Option<Seq<nat>>) -> Option<Seq<nat>> {
    match rest {
        Some(t) => Some(nats(offsets) + t),
        None => None,
    }
}

/// Whether `entries` can be packed into `n_sectors` directory sectors.
///
/// A dry run of the exact algorithm [`write_directory`] uses, so callers can
/// fail with `DirectoryFull` up front rather than at save time.
pub fn fits(entries: &[RawEntry], n_sectors: usize) -> (b: bool)
    requires
        n_sectors * 512 <= usize::MAX,
    ensures
        b == packable(views(entries@), n_sectors as nat),
{
    plan(entries, n_sectors).is_some()
}

/// Rebuild the whole directory region from `entries`.
///
/// The region is zeroed first, so the zero flags byte after the last entry in
/// each sector acts as that sector's terminator for free.
pub fn write_directory(entries: &[RawEntry], region: &mut [u8]) -> (r: Result<()>)
    ensures
        match r {
            Ok(_) => write_outcome(views(entries@), old(region)@) == Ok::<Seq<u8>, Fault>(
                final(region)@,
            ),
            Err(e) => {
                &&& write_outcome(views(entries@), old(region)@) == Err::<Seq<u8>, Fault>(e@)
                &&& final(region)@ == old(region)@
            },
        },
{
    let size: usize = region.len();
    if size % SECTOR != 0 {
        return Err(ragged_region(size));
    }
    let n_sectors: usize = size / SECTOR;
    let offsets = match plan(entries, n_sectors) {
        Some(o) => o,
        None => {
            return Err(MfsError::DirectoryFull);
        },
    };
    put_zeros(region, 0, size);
    let ghost all = views(entries@);
    let ghost n = n_sectors as nat;
    let ghost mut sector: nat = 0;
    let ghost mut off: nat = 0;
    let count: usize = entries.len();
    let mut i: usize = 0;
    proof {
        assert(region@ =~= util::zeros(size as nat));
        assert(all.skip(0) =~= all);
        assert(nats(offsets@).skip(0) =~= nats(offsets@));
        assert(region@.take(0) + image(all, n, 0, 0) =~= image(all, n, 0, 0));
    }
    while i < count
        invariant
            i <= count,
            count == entries@.len(),
            count == offsets@.len(),
            size == n_sectors * 512,
            region@.len() == size,
            all == views(entries@),
            n == n_sectors,
            off <= 512,
            sector * 512 + off <= size,
            placed(all.skip(i as int), n, sector, off) == Some(nats(offsets@).skip(i as int)),
            forall|k: int| sector * 512 + off <= k < size ==> #[trigger] region@[k] == 0,
            image(all, n, 0, 0) == region@.take((sector * 512 + off) as int) + image(
                all.skip(i as int),
                n,
                sector,
                off,
            ),
        decreases count - i,
    {
        let ghost rest = all.skip(i as int);
        let ghost offs = nats(offsets@).skip(i as int);
        let ghost len = entry_size(rest[0].name.len());
        proof {
            assert(rest[0] == entries@[i as int]@);
            assert(rest.skip(1) =~= all.skip(i + 1));
            assert(offs[0] == offsets@[i as int]);
            assert(offs.skip(1) =~= nats(offsets@).skip(i + 1));
            if off + len > 512 {
                let at = (sector * 512 + off) as int;
                let gap = util::zeros((512 - off) as nat);
                assert(region@.take(at) + (gap + image(rest, n, sector + 1, 0)) =~= region@.take(
                    at + 512 - off,
                ) + image(rest, n, sector + 1, 0)) by {
                    assert(sector + 1 < n);
                    assert(region@.take(at + 512 - off) =~= region@.take(at) + gap);
                }
                sector = sector + 1;
                off = 0;
            }
            let t = placed(rest.skip(1), n, sector, off + len)->0;
            assert((seq![sector * 512 + off] + t)[0] == offs[0]);
            assert((seq![sector * 512 + off] + t).skip(1) =~= t);
        }
        let e = &entries[i];
        let b = e.to_bytes();
        let ghost before = region@;
        put_bytes(region, offsets[i], b.as_slice());
        proof {
            let at = (sector * 512 + off) as int;
            assert(region@.take(at + len) =~= before.take(at) + b@);
            let tail = image(rest.skip(1), n, sector, off + len);
            assert(before.take(at) + (b@ + tail) =~= region@.take(at + len) + tail);
            off = off + len;
        }
        i += 1;
    }
    proof {
        let at = (sector * 512 + off) as int;
        assert(all.skip(count as int).len() == 0);
        assert(region@ =~= region@.take(at) + util::zeros((size - at) as nat));
    }
    Ok(())
}

// ------------------------------------------------------------------------- laws

/// Where the first fields of an entry stand among its bytes.
proof fn lemma_fixed_bytes_low(e: EntryView)
    requires
        e.codes_ok(),
    ensures
        fixed_bytes(e).len() == 51,
        fixed_bytes(e)[0] == flags_in_use(e.flags),
        fixed_bytes(e)[1] == e.version,
        fixed_bytes(e).subrange(2, 6) == e.type_code,
        fixed_bytes(e).subrange(6, 10) == e.creator,
        fixed_bytes(e).subrange(10, 12) == util::be16_bytes(e.fndr_flags),
        fixed_bytes(e).subrange(12, 16) == util::be32_bytes(e.pos),
        fixed_bytes(e).subrange(16, 18) == util::be16_bytes(e.fldr_num),
        fixed_bytes(e).subrange(18, 22) == util::be32_bytes(e.fnum),
{
}

/// Where the other fields of an entry stand among its bytes.
proof fn lemma_fixed_bytes_high(e: EntryView)
    requires
        e.codes_ok(),
    ensures
        fixed_bytes(e).len() == 51,
        fixed_bytes(e).subrange(22, 24) == util::be16_bytes(e.df_st_blk),
        fixed_bytes(e).subrange(24, 28) == util::be32_bytes(e.df_log_len),
        fixed_bytes(e).subrange(28, 32) == util::be32_bytes(e.df_alloc_len),
        fixed_bytes(e).subrange(32, 34) == util::be16_bytes(e.rf_st_blk),
        fixed_bytes(e).subrange(34, 38) == util::be32_bytes(e.rf_log_len),
        fixed_bytes(e).subrange(38, 42) == util::be32_bytes(e.rf_alloc_len),
        fixed_bytes(e).subrange(42, 46) == util::be32_bytes(e.cr_dat),
        fixed_bytes(e).subrange(46, 50) == util::be32_bytes(e.md_dat),
        fixed_bytes(e)[50] == e.name.len() as u8,
{
}

/// The parts of an entry's bytes.
proof fn lemma_entry_bytes(e: EntryView)
    requires
        e.codes_ok(),
        e.name.len() <= 255,
    ensures
        entry_bytes(e).len() == entry_size(e.name.len()),
        forall|i: int| 0 <= i < 51 ==> #[trigger] entry_bytes(e)[i] == fixed_bytes(e)[i],
        entry_bytes(e)[0] == flags_in_use(e.flags),
        entry_bytes(e)[50] == e.name.len(),
        entry_bytes(e).subrange(51, 51 + e.name.len() as int) == e.name,
{
    reveal(entry_bytes);
    lemma_fixed_bytes_low(e);
    lemma_fixed_bytes_high(e);
    assert(entry_bytes(e).subrange(51, 51 + e.name.len() as int) =~= e.name);
}

/// An entry read where it was written is that entry.
#[verifier::rlimit(60)]
pub proof fn lemma_entry_round_trip(s: Seq<u8>, at: int, e: EntryView)
    requires
        e.codes_ok(),
        e.in_use(),
        e.name.len() <= 255,
        0 <= at,
        at + entry_size(e.name.len()) <= s.len(),
        s.subrange(at, at + entry_size(e.name.len())) == entry_bytes(e),
    ensures
        entry_from(s, at) == e,
        s[at] == e.flags,
        s[at + 50] == e.name.len(),
{
    reveal(entry_from);
    lemma_entry_bytes(e);
    lemma_fixed_bytes_low(e);
    lemma_fixed_bytes_high(e);
    let f = fixed_bytes(e);
    let t = s.subrange(at, at + entry_size(e.name.len()));
    assert forall|i: int| 0 <= i < 51 implies t[i] == f[i] && #[trigger] s[at + i] == f[i] by {
        assert(t[i] == s[at + i]);
        assert(entry_bytes(e)[i] == f[i]);
    }
    assert forall|i: int| 0 <= i < 51 implies t[i] == f[i] by {
        assert(s[at + i] == f[i]);
    }
    assert(s[at + 0] == f[0]);
    assert(s[at + 50] == f[50]);
    lemma_field16(s, at, f, 10, e.fndr_flags);
    lemma_field32(s, at, f, 12, e.pos);
    lemma_field16(s, at, f, 16, e.fldr_num);
    lemma_field32(s, at, f, 18, e.fnum);
    lemma_field16(s, at, f, 22, e.df_st_blk);
    lemma_field32(s, at, f, 24, e.df_log_len);
    lemma_field32(s, at, f, 28, e.df_alloc_len);
    lemma_field16(s, at, f, 32, e.rf_st_blk);
    lemma_field32(s, at, f, 34, e.rf_log_len);
    lemma_field32(s, at, f, 38, e.rf_alloc_len);
    lemma_field32(s, at, f, 42, e.cr_dat);
    lemma_field32(s, at, f, 46, e.md_dat);
    assert(s.subrange(at + 2, at + 6) =~= f.subrange(2, 6));
    assert(s.subrange(at + 6, at + 10) =~= f.subrange(6, 10));
    assert(s.subrange(at + 51, at + 51 + e.name.len()) =~= t.subrange(51, 51 + e.name.len() as int));
    assert(entry_from(s, at) =~= e);
}

/// A 16-bit field read out of an entry's bytes.
#[verifier::rlimit(60)]
proof fn lemma_field16(s: Seq<u8>, at: int, f: Seq<u8>, off: int, v: u16)
    requires
        0 <= at,
        0 <= off,
        off + 2 <= f.len(),
        at + f.len() <= s.len(),
        forall|i: int| 0 <= i < f.len() ==> #[trigger] s[at + i] == f[i],
        f.subrange(off, off + 2) == util::be16_bytes(v),
    ensures
        util::be16(s, at + off) == v,
{
    let t = f.subrange(off, off + 2);
    assert(t[0] == s[at + off]);
    assert(t[1] == s[at + (off + 1)]);
}

/// A 32-bit field read out of an entry's bytes.
#[verifier::rlimit(60)]
proof fn lemma_field32(s: Seq<u8>, at: int, f: Seq<u8>, off: int, v: u32)
    requires
        0 <= at,
        0 <= off,
        off + 4 <= f.len(),
        at + f.len() <= s.len(),
        forall|i: int| 0 <= i < f.len() ==> #[trigger] s[at + i] == f[i],
        f.subrange(off, off + 4) == util::be32_bytes(v),
    ensures
        util::be32(s, at + off) == v,
{
    let t = f.subrange(off, off + 4);
    assert(t[0] == s[at + off]);
    assert(t[1] == s[at + (off + 1)]);
    assert(t[2] == s[at + (off + 2)]);
    assert(t[3] == s[at + (off + 3)]);
}

/// Whether every entry is in use and has codes of four bytes, as every entry
/// of a directory has that was read from disk.
pub open spec fn all_in_use(entries: Seq<EntryView>) -> bool {
    forall|i: int| 0 <= i < entries.len() ==> (#[trigger] entries[i]).in_use() && entries[i].codes_ok()
}

/// The packed sectors have the size of the region.
pub proof fn lemma_image_len(entries: Seq<EntryView>, n: nat, sector: nat, off: nat)
    requires
        off <= 512,
        sector * 512 + off <= n * 512,
        placed(entries, n, sector, off) is Some,
        forall|i: int| 0 <= i < entries.len() ==> (#[trigger] entries[i]).codes_ok(),
    ensures
        image(entries, n, sector, off).len() == n * 512 - (sector * 512 + off),
    decreases entries.len(), off,
{
    if entries.len() > 0 {
        let len = entry_size(entries[0].name.len());
        if off + len > 512 {
            lemma_image_len(entries, n, sector + 1, 0);
        } else {
            lemma_entry_bytes(entries[0]);
            let rest = entries.skip(1);
            assert forall|i: int| 0 <= i < rest.len() implies (#[trigger] rest[i]).codes_ok() by {
                assert(rest[i] == entries[i + 1]);
            }
            lemma_image_len(rest, n, sector, off + len);
        }
    }
}

/// Zeros hold no entries.
pub proof fn lemma_zeros_empty(region: Seq<u8>, off: nat, pos: nat)
    requires
        region.len() % 512 == 0,
        off % 512 == 0,
        pos <= 512,
        forall|k: int| off + pos <= k < region.len() ==> #[trigger] region[k] == 0,
    ensures
        entries_from(region, off, pos) == Ok::<Seq<EntryView>, Fault>(Seq::empty()),
    decreases region.len() - off,
{
    if off + 512 <= region.len() {
        lemma_zeros_empty(region, off + 512, 0);
    }
}

/// Parsing packed sectors from the middle on.
proof fn lemma_parse_image(
    region: Seq<u8>,
    entries: Seq<EntryView>,
    n: nat,
    sector: nat,
    off: nat,
)
    requires
        region.len() == n * 512,
        off <= 512,
        sector * 512 + off <= n * 512,
        placed(entries, n, sector, off) is Some,
        all_in_use(entries),
        region.skip((sector * 512 + off) as int) == image(entries, n, sector, off),
    ensures
        entries_from(region, sector * 512, off) == Ok::<Seq<EntryView>, Fault>(entries),
    decreases entries.len(), off,
{
    let at = (sector * 512 + off) as int;
    let tail = region.skip(at);
    assert forall|k: int| at <= k < region.len() implies #[trigger] region[k] == tail[k - at] by {}
    if entries.len() == 0 {
        lemma_zeros_empty(region, sector * 512, off);
        assert(entries =~= Seq::empty());
    } else {
        let e = entries[0];
        assert(e.in_use() && e.codes_ok());
        let len = entry_size(e.name.len());
        if off + len > 512 {
            let gap = util::zeros((512 - off) as nat);
            assert(sector + 1 < n);
            assert(region.skip(((sector + 1) * 512) as int) =~= tail.skip(512 - off));
            assert(tail.skip(512 - off) =~= image(entries, n, sector + 1, 0));
            lemma_parse_image(region, entries, n, sector + 1, 0);
            if off + 51 <= 512 {
                assert(region[at] == tail[0]);
                assert(tail[0] == gap[0]);
            }
        } else {
            let rest = entries.skip(1);
            assert(all_in_use(rest)) by {
                assert forall|i: int| 0 <= i < rest.len() implies (#[trigger] rest[i]).in_use()
                    && rest[i].codes_ok() by {
                    assert(rest[i] == entries[i + 1]);
                }
            }
            lemma_entry_bytes(e);
            let after_e = image(rest, n, sector, off + len);
            assert(tail == entry_bytes(e) + after_e);
            lemma_image_len(rest, n, sector, off + len);
            assert(region.subrange(at, at + len) =~= entry_bytes(e));
            lemma_entry_round_trip(region, at, e);
            assert(region.skip(at + len) =~= after_e);
            lemma_parse_image(region, rest, n, sector, off + len);
            assert(seq![e] + rest =~= entries);
        }
    }
}

/// Parsing a rebuilt directory gives the entries back, in their order.
pub proof fn lemma_parse_inverts_write(entries: Seq<EntryView>, n: nat)
    requires
        packable(entries, n),
        all_in_use(entries),
    ensures
        image(entries, n, 0, 0).len() == n * 512,
        parse_outcome(image(entries, n, 0, 0)) == Ok::<Seq<EntryView>, Fault>(entries),
{
    lemma_image_len(entries, n, 0, 0);
    let region = image(entries, n, 0, 0);
    assert(region.skip(0) =~= region);
    lemma_parse_image(region, entries, n, 0, 0);
}

/// Packing that begins no later ends no later.
proof fn lemma_placed_earlier(
    entries: Seq<EntryView>,
    n: nat,
    sector: nat,
    off: nat,
    s: nat,
    o: nat,
)
    requires
        placed(entries, n, sector, off) is Some,
        off <= 512,
        s < sector || (s == sector && o <= off),
        o <= 512,
    ensures
        placed(entries, n, s, o) is Some,
    decreases entries.len(),
{
    if entries.len() > 0 {
        let len = entry_size(entries[0].name.len());
        let (s1, o1) = if off + len > 512 {
            (sector + 1, 0nat)
        } else {
            (sector, off)
        };
        let (s2, o2) = if o + len > 512 {
            (s + 1, 0nat)
        } else {
            (s, o)
        };
        lemma_placed_earlier(entries.skip(1), n, s1, o1 + len, s2, o2 + len);
    }
}

/// What was read from a region can be packed back into it, from any earlier
/// point on.
proof fn lemma_parsed_placed(region: Seq<u8>, off: nat, pos: nat, s: nat, o: nat)
    requires
        region.len() % 512 == 0,
        off % 512 == 0,
        pos <= 512,
        o <= 512,
        s * 512 < off || (s * 512 == off && o <= pos),
        entries_from(region, off, pos) is Ok,
    ensures
        placed(entries_from(region, off, pos)->Ok_0, region.len() / 512, s, o) is Some,
        all_in_use(entries_from(region, off, pos)->Ok_0),
    decreases region.len() - off, 512 - pos,
{
    let n = region.len() / 512;
    let es = entries_from(region, off, pos)->Ok_0;
    if off + 512 > region.len() {
    } else if pos + 51 > 512 || region[(off + pos) as int] < 128 {
        lemma_parsed_placed(region, off + 512, 0, s, o);
    } else {
        reveal(entry_from);
        let at = (off + pos) as int;
        let e = entry_from(region, at);
        let len = entry_size(region[at + 50] as nat);
        let rest = entries_from(region, off, pos + len)->Ok_0;
        assert(es == seq![e] + rest);
        assert(es[0] == e);
        assert(es.skip(1) =~= rest);
        assert(e.name.len() == region[at + 50]);
        let (s2, o2) = if o + len > 512 {
            (s + 1, 0nat)
        } else {
            (s, o)
        };
        lemma_parsed_placed(region, off, pos + len, s2, o2 + len);
        assert forall|i: int| 0 <= i < es.len() implies (#[trigger] es[i]).in_use()
            && es[i].codes_ok() by {
            if i > 0 {
                assert(es[i] == rest[i - 1]);
            }
        }
    }
}

/// Every directory that can be read can be rebuilt in the same sectors, however
/// its entries were spread over them, and all its entries are in use.
pub proof fn lemma_parsed_packable(region: Seq<u8>)
    requires
        parse_outcome(region) is Ok,
    ensures
        packable(parse_outcome(region)->Ok_0, region.len() / 512),
        all_in_use(parse_outcome(region)->Ok_0),
{
    lemma_parsed_placed(region, 0, 0, 0, 0);
}

/// Whether entries fit depends on nothing but the lengths of their names.
pub proof fn lemma_placed_by_names(
    a: Seq<EntryView>,
    b: Seq<EntryView>,
    n: nat,
    sector: nat,
    off: nat,
)
    requires
        a.len() == b.len(),
        forall|i: int| 0 <= i < a.len() ==> (#[trigger] a[i]).name.len() == b[i].name.len(),
    ensures
        placed(a, n, sector, off) == placed(b, n, sector, off),
    decreases a.len(),
{
    if a.len() > 0 {
        let len = entry_size(a[0].name.len());
        let (s, o) = if off + len > 512 {
            (sector + 1, 0nat)
        } else {
            (sector, off)
        };
        assert forall|i: int| 0 <= i < a.skip(1).len() implies (#[trigger] a.skip(1)[i]).name.len()
            == b.skip(1)[i].name.len() by {
            assert(a.skip(1)[i] == a[i + 1]);
            assert(b.skip(1)[i] == b[i + 1]);
        }
        lemma_placed_by_names(a.skip(1), b.skip(1), n, s, o + len);
    }
}

/// Entries that fit take at least 52 bytes each of what is left of the sectors.
pub proof fn lemma_placed_count(entries: Seq<EntryView>, n: nat, sector: nat, off: nat)
    requires
        off <= 512,
        placed(entries, n, sector, off) is Some,
        entries.len() > 0,
    ensures
        sector * 512 + off + entries.len() * 52 <= n * 512,
    decreases entries.len(),
{
    let len = entry_size(entries[0].name.len());
    let (s, o) = if off + len > 512 {
        (sector + 1, 0nat)
    } else {
        (sector, off)
    };
    if entries.len() > 1 {
        lemma_placed_count(entries.skip(1), n, s, o + len);
    }
}

/// Entries that fit still fit with one of them gone.
pub proof fn lemma_placed_without(
    entries: Seq<EntryView>,
    k: int,
    n: nat,
    sector: nat,
    off: nat,
)
    requires
        0 <= k < entries.len(),
        off <= 512,
        placed(entries, n, sector, off) is Some,
    ensures
        placed(entries.remove(k), n, sector, off) is Some,
    decreases entries.len(),
{
    let len = entry_size(entries[0].name.len());
    let (s, o) = if off + len > 512 {
        (sector + 1, 0nat)
    } else {
        (sector, off)
    };
    if k == 0 {
        assert(entries.remove(0) =~= entries.skip(1));
        lemma_placed_earlier(entries.skip(1), n, s, o + len, sector, off);
    } else {
        lemma_placed_without(entries.skip(1), k - 1, n, s, o + len);
        assert(entries.remove(k).skip(1) =~= entries.skip(1).remove(k - 1));
        assert(entries.remove(k)[0] == entries[0]);
    }
}

/// An entry is read from its own bytes alone.
proof fn lemma_entry_cut(s: Seq<u8>, at: int, len: int)
    requires
        0 <= at && at + len <= s.len(),
        len >= 51 + s[at + 50],
    ensures
        entry_from(s, at) == entry_from(s.subrange(at, at + len), 0),
{
    reveal(entry_from);
    let p = s.subrange(at, at + len);
    let n = s[at + 50] as int;
    assert(p[50] == s[at + 50]);
    assert(s.subrange(at + 2, at + 6) =~= p.subrange(2, 6));
    assert(s.subrange(at + 6, at + 10) =~= p.subrange(6, 10));
    assert(s.subrange(at + 51, at + 51 + n) =~= p.subrange(51, 51 + n));
    assert(entry_from(s, at) =~= entry_from(p, 0));
}

/// An entry reads the same wherever the bytes it is made of stand.
proof fn lemma_entry_moved(s: Seq<u8>, at: int, t: Seq<u8>, to: int, len: int)
    requires
        0 <= at && at + len <= s.len(),
        0 <= to && to + len <= t.len(),
        len >= 51 + s[at + 50],
        s.subrange(at, at + len) == t.subrange(to, to + len),
    ensures
        entry_from(s, at) == entry_from(t, to),
{
    let p = s.subrange(at, at + len);
    let q = t.subrange(to, to + len);
    assert(s[at + 50] == p[50] && t[to + 50] == q[50]);
    lemma_entry_cut(s, at, len);
    lemma_entry_cut(t, to, len);
}

/// The entries of a region stand in it as they do behind another one.
proof fn lemma_entries_behind(a: Seq<u8>, b: Seq<u8>, off: nat, pos: nat)
    requires
        a.len() % 512 == 0,
        b.len() % 512 == 0,
        off % 512 == 0,
        pos <= 512,
    ensures
        entries_from(a + b, a.len() + off, pos) == entries_from(b, off, pos),
    decreases b.len() - off, 512 - pos,
{
    let c = a + b;
    if off + 512 > b.len() {
    } else if pos + 51 > 512 || b[(off + pos) as int] < 128 {
        lemma_entries_behind(a, b, off + 512, 0);
    } else {
        let at = (off + pos) as int;
        let to = a.len() + at;
        assert(c[to] == b[at] && c[to + 50] == b[at + 50]);
        let len = entry_size(b[at + 50] as nat);
        if pos + len <= 512 {
            lemma_entries_behind(a, b, off, pos + len);
            assert(b.subrange(at, at + len) =~= c.subrange(to, to + len));
            lemma_entry_moved(b, at, c, to, len as int);
        }
    }
}

/// The entries of a region with another one behind it, from a sector of the
/// first on.
proof fn lemma_entries_joined(a: Seq<u8>, b: Seq<u8>, off: nat, pos: nat)
    requires
        a.len() % 512 == 0,
        b.len() % 512 == 0,
        off % 512 == 0,
        off <= a.len(),
        pos <= 512,
        off == a.len() ==> pos == 0,
    ensures
        entries_from(a + b, off, pos) == (match entries_from(a, off, pos) {
            Ok(s) => after(s, entries_from(b, 0, 0)),
            Err(f) => Err(f),
        }),
    decreases a.len() - off, 512 - pos,
{
    let c = a + b;
    let tail = entries_from(b, 0, 0);
    if off == a.len() {
        lemma_entries_behind(a, b, 0, 0);
        if let Ok(t) = tail {
            assert(Seq::<EntryView>::empty() + t =~= t);
        }
    } else if pos + 51 > 512 || a[(off + pos) as int] < 128 {
        lemma_entries_joined(a, b, off + 512, 0);
    } else {
        let at = (off + pos) as int;
        assert(c[at] == a[at] && c[at + 50] == a[at + 50]);
        let len = entry_size(a[at + 50] as nat);
        if pos + len <= 512 {
            lemma_entries_joined(a, b, off, pos + len);
            assert(a.subrange(at, at + len) =~= c.subrange(at, at + len));
            lemma_entry_moved(a, at, c, at, len as int);
            let head = seq![entry_from(a, at)];
            if let Ok(s) = entries_from(a, off, pos + len) {
                if let Ok(t) = tail {
                    assert(head + (s + t) =~= (head + s) + t);
                }
            }
        }
    }
}

/// Sectors are parsed one by one: two directory regions, one behind the other,
/// hold the entries of the first and then those of the second.
pub proof fn lemma_parse_joined(a: Seq<u8>, b: Seq<u8>)
    requires
        a.len() % 512 == 0,
        b.len() % 512 == 0,
    ensures
        parse_outcome(a + b) == (match parse_outcome(a) {
            Ok(s) => after(s, parse_outcome(b)),
            Err(f) => Err(f),
        }),
{
    lemma_entries_joined(a, b, 0, 0);
}

/// Whether `offsets` are places for the entries in `n` sectors: in order, none
/// of them overlapping the next, and each inside a single sector.
pub open spec fn is_placement(entries: Seq<EntryView>, n: nat, offsets: Seq<nat>) -> bool {
    &&& offsets.len() == entries.len()
    &&& forall|i: int|
        0 <= i < entries.len() ==> {
            let len = entry_size((#[trigger] entries[i]).name.len());
            &&& entries[i].name.len() <= 255
            &&& offsets[i] % 512 + len <= 512
            &&& offsets[i] < n * 512
        }
    &&& forall|i: int, j: int|
        0 <= i < j < entries.len() ==> offsets[i] + entry_size((#[trigger] entries[i]).name.len())
            <= #[trigger] offsets[j]
}

/// Packing from byte `off` of `sector` on puts no entry later than any placement
/// that begins there does.
proof fn lemma_placed_first(
    entries: Seq<EntryView>,
    n: nat,
    sector: nat,
    off: nat,
    offsets: Seq<nat>,
)
    requires
        off <= 512,
        is_placement(entries, n, offsets),
        entries.len() > 0 ==> sector * 512 + off <= offsets[0],
    ensures
        placed(entries, n, sector, off) is Some,
        placed(entries, n, sector, off)->0.len() == entries.len(),
        forall|i: int|
            0 <= i < entries.len() ==> #[trigger] placed(entries, n, sector, off)->0[i]
                <= offsets[i],
    decreases entries.len(),
{
    if entries.len() > 0 {
        let len = entry_size(entries[0].name.len());
        let (s, o) = if off + len > 512 {
            (sector + 1, 0nat)
        } else {
            (sector, off)
        };
        assert(s * 512 + o <= offsets[0]);
        let rest = entries.skip(1);
        let later = offsets.skip(1);
        assert forall|i: int| 0 <= i < rest.len() implies {
            let len = entry_size((#[trigger] rest[i]).name.len());
            &&& rest[i].name.len() <= 255
            &&& later[i] % 512 + len <= 512
            &&& later[i] < n * 512
        } by {
            assert(rest[i] == entries[i + 1]);
        }
        assert forall|i: int, j: int| 0 <= i < j < rest.len() implies later[i] + entry_size(
            (#[trigger] rest[i]).name.len(),
        ) <= #[trigger] later[j] by {
            assert(rest[i] == entries[i + 1] && later[j] == offsets[j + 1]);
        }
        if rest.len() > 0 {
            assert(offsets[0] + len <= offsets[1]);
        }
        lemma_placed_first(rest, n, s, o + len, later);
        let t = placed(rest, n, s, o + len)->0;
        let all = placed(entries, n, sector, off)->0;
        assert(all =~= seq![s * 512 + o] + t);
        assert forall|i: int| 0 <= i < entries.len() implies #[trigger] all[i] <= offsets[i] by {
            if i > 0 {
                assert(all[i] == t[i - 1]);
                assert(offsets[i] == later[i - 1]);
            }
        }
    }
}

/// Packing from byte `off` of `sector` on gives a placement that begins there.
proof fn lemma_placed_is_placement(entries: Seq<EntryView>, n: nat, sector: nat, off: nat)
    requires
        off <= 512,
        placed(entries, n, sector, off) is Some,
    ensures
        is_placement(entries, n, placed(entries, n, sector, off)->0),
        forall|i: int|
            0 <= i < entries.len() ==> sector * 512 + off <= #[trigger] placed(
                entries,
                n,
                sector,
                off,
            )->0[i],
    decreases entries.len(),
{
    if entries.len() > 0 {
        let len = entry_size(entries[0].name.len());
        let (s, o) = if off + len > 512 {
            (sector + 1, 0nat)
        } else {
            (sector, off)
        };
        let rest = entries.skip(1);
        let t = placed(rest, n, s, o + len)->0;
        let all = placed(entries, n, sector, off)->0;
        lemma_placed_is_placement(rest, n, s, o + len);
        assert(all =~= seq![s * 512 + o] + t);
        assert forall|i: int| 0 <= i < entries.len() implies {
            let len = entry_size((#[trigger] entries[i]).name.len());
            &&& entries[i].name.len() <= 255
            &&& all[i] % 512 + len <= 512
            &&& all[i] < n * 512
        } by {
            if i > 0 {
                assert(entries[i] == rest[i - 1] && all[i] == t[i - 1]);
            }
        }
        assert forall|i: int, j: int| 0 <= i < j < entries.len() implies all[i] + entry_size(
            (#[trigger] entries[i]).name.len(),
        ) <= #[trigger] all[j] by {
            assert(all[j] == t[j - 1]);
            if i > 0 {
                assert(entries[i] == rest[i - 1] && all[i] == t[i - 1]);
            }
        }
        assert forall|i: int| 0 <= i < entries.len() implies sector * 512 + off
            <= #[trigger] all[i] by {
            if i > 0 {
                assert(all[i] == t[i - 1]);
            }
        }
    }
}

/// The packing of a directory is the tightest there is: entries can be packed if
/// and only if there are places for them in order, and then no other places put
/// any of them earlier.
pub proof fn lemma_packing_is_tightest(entries: Seq<EntryView>, n: nat, offsets: Seq<nat>)
    ensures
        packable(entries, n) ==> is_placement(entries, n, placed(entries, n, 0, 0)->0),
        is_placement(entries, n, offsets) ==> packable(entries, n) && forall|i: int|
            0 <= i < entries.len() ==> #[trigger] placed(entries, n, 0, 0)->0[i] <= offsets[i],
{
    if packable(entries, n) {
        lemma_placed_is_placement(entries, n, 0, 0);
    }
    if is_placement(entries, n, offsets) {
        lemma_placed_first(entries, n, 0, 0, offsets);
    }
}

/// Whether byte `p` is one that belongs to an entry that begins at one of `at`.
pub open spec fn covered(entries: Seq<EntryView>, at: Seq<nat>, p: int) -> bool {
    exists|i: int|
        0 <= i < entries.len() && #[trigger] at[i] <= p < at[i] + 51 + entries[i].name.len()
}

/// Whether the bytes of an entry stand at byte `p`, `img` being what stands from
/// byte `base` on.
pub open spec fn stands_at(img: Seq<u8>, base: nat, p: nat, e: EntryView) -> bool {
    let len = entry_size(e.name.len());
    &&& base <= p
    &&& p - base + len <= img.len()
    &&& e.name.len() <= 255
    &&& img.subrange(p - base, p - base + len) == entry_bytes(e)
}

/// The bytes of packed sectors from the middle on.
#[verifier::rlimit(60)]
proof fn lemma_image_placed(entries: Seq<EntryView>, n: nat, sector: nat, off: nat)
    requires
        off <= 512,
        sector * 512 + off <= n * 512,
        placed(entries, n, sector, off) is Some,
        all_in_use(entries),
    ensures
        ({
            let base = sector * 512 + off;
            let img = image(entries, n, sector, off);
            let at = placed(entries, n, sector, off)->0;
            &&& img.len() == n * 512 - base
            &&& at.len() == entries.len()
            &&& forall|i: int|
                0 <= i < at.len() ==> stands_at(img, base, #[trigger] at[i], entries[i])
            &&& forall|p: int|
                base <= p < n * 512 && !covered(entries, at, p) ==> #[trigger] img[p - base] == 0
        }),
    decreases entries.len(), off,
{
    let base = sector * 512 + off;
    let img = image(entries, n, sector, off);
    let at = placed(entries, n, sector, off)->0;
    assert forall|i: int| 0 <= i < entries.len() implies (#[trigger] entries[i]).codes_ok() by {}
    lemma_image_len(entries, n, sector, off);
    if entries.len() > 0 {
        let e = entries[0];
        assert(e.in_use() && e.codes_ok());
        let len = entry_size(e.name.len());
        if off + len > 512 {
            assert(placed(entries, n, sector, off) == placed(entries, n, sector + 1, 0));
            lemma_image_placed(entries, n, sector + 1, 0);
            let rest = image(entries, n, sector + 1, 0);
            let gap = (512 - off) as int;
            assert(img == util::zeros(gap as nat) + rest);
            assert forall|i: int| 0 <= i < at.len() implies stands_at(
                img,
                base,
                #[trigger] at[i],
                entries[i],
            ) by {
                let k = entry_size(entries[i].name.len());
                let b = base + gap;
                assert(stands_at(rest, b as nat, at[i], entries[i]));
                assert(img.subrange(at[i] - base, at[i] - base + k) =~= rest.subrange(
                    at[i] - b,
                    at[i] - b + k,
                ));
            }
            assert forall|p: int| base <= p < n * 512 && !covered(entries, at, p) implies
                #[trigger] img[p - base] == 0 by {
                if p >= base + gap {
                    assert(rest[p - (base + gap)] == 0);
                }
            }
        } else {
            let rest = entries.skip(1);
            assert(all_in_use(rest)) by {
                assert forall|i: int| 0 <= i < rest.len() implies (#[trigger] rest[i]).in_use()
                    && rest[i].codes_ok() by {
                    assert(rest[i] == entries[i + 1]);
                }
            }
            lemma_entry_bytes(e);
            lemma_image_placed(rest, n, sector, off + len);
            let t = placed(rest, n, sector, off + len)->0;
            let tail = image(rest, n, sector, off + len);
            assert(at == seq![base] + t);
            assert(img == entry_bytes(e) + tail);
            assert forall|i: int| 0 <= i < at.len() implies stands_at(
                img,
                base,
                #[trigger] at[i],
                entries[i],
            ) by {
                let k = entry_size(entries[i].name.len());
                if i == 0 {
                    assert(img.subrange(0, len as int) =~= entry_bytes(e));
                } else {
                    let b = base + len;
                    assert(rest[i - 1] == entries[i] && t[i - 1] == at[i]);
                    assert(stands_at(tail, b as nat, t[i - 1], rest[i - 1]));
                    assert(img.subrange(at[i] - base, at[i] - base + k) =~= tail.subrange(
                        at[i] - b,
                        at[i] - b + k,
                    ));
                }
            }
            assert forall|p: int| base <= p < n * 512 && !covered(entries, at, p) implies
                #[trigger] img[p - base] == 0 by {
                if p >= base + len {
                    if covered(rest, t, p) {
                        let i = choose|i: int|
                            0 <= i < rest.len() && #[trigger] t[i] <= p < t[i] + 51
                                + rest[i].name.len();
                        assert(at[i + 1] == t[i] && entries[i + 1] == rest[i]);
                        assert(covered(entries, at, p));
                    }
                    assert(tail[p - (base + len)] == 0);
                } else {
                    assert(at[0] == base);
                    reveal(entry_bytes);
                    assert(p >= base + 51 + e.name.len());
                    lemma_fixed_bytes_low(e);
                    lemma_fixed_bytes_high(e);
                    assert(fixed_bytes(e).len() == 51);
                }
            }
        }
    }
}

/// A directory that was written holds each entry at its place, and zeros
/// everywhere else: so behind a name of odd length, and behind the last entry of
/// a sector.
pub proof fn lemma_directory_written(entries: Seq<EntryView>, n: nat)
    requires
        packable(entries, n),
        all_in_use(entries),
    ensures
        ({
            let img = image(entries, n, 0, 0);
            let at = placed(entries, n, 0, 0)->0;
            &&& img.len() == n * 512
            &&& is_placement(entries, n, at)
            &&& forall|i: int|
                0 <= i < entries.len() ==> entry_from(img, #[trigger] at[i] as int) == entries[i]
            &&& forall|p: int|
                0 <= p < n * 512 && !covered(entries, at, p) ==> #[trigger] img[p] == 0
        }),
{
    let img = image(entries, n, 0, 0);
    let at = placed(entries, n, 0, 0)->0;
    lemma_image_placed(entries, n, 0, 0);
    lemma_packing_is_tightest(entries, n, at);
    assert forall|i: int| 0 <= i < entries.len() implies entry_from(img, #[trigger] at[i] as int)
        == entries[i] by {
        let e = entries[i];
        assert(e.in_use() && e.codes_ok());
        assert(stands_at(img, 0, at[i], e));
        lemma_entry_round_trip(img, at[i] as int, e);
    }
    assert forall|p: int| 0 <= p < n * 512 && !covered(entries, at, p) implies #[trigger] img[p]
        == 0 by {
        assert(img[p - 0] == 0);
    }
}

/// Entries cannot be written if the region is not made of whole sectors, which is
/// said with its length, or if there are no places for them.
pub proof fn lemma_writing_refused(entries: Seq<EntryView>, region: Seq<u8>, at: Seq<nat>)
    ensures
        ({
            let r = write_outcome(entries, region);
            let whole = region.len() % 512 == 0;
            let complaint = "directory region is "@ + text::decimal(region.len())
                + " bytes, not a multiple of 512"@;
            &&& !whole ==> r == Err::<Seq<u8>, Fault>(Fault::CorruptVolume(complaint))
            &&& !whole ==> parse_outcome(region) == Err::<Seq<EntryView>, Fault>(
                Fault::CorruptVolume(complaint),
            )
            &&& whole && is_placement(entries, region.len() / 512, at) ==> r is Ok
            &&& whole && r is Err ==> r == Err::<Seq<u8>, Fault>(Fault::DirectoryFull)
        }),
{
    lemma_packing_is_tightest(entries, region.len() / 512, at);
}

} // verus!
