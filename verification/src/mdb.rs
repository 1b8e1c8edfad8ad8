//! Master Directory Block (MDB) parse/serialize.
//!
//! The MDB occupies the first 64 bytes of logical sector 2 (volume byte offset
//! 1024). All fields are big-endian. The 12-bit allocation block map follows
//! immediately at byte 64 of the same region and is handled by
//! [`crate::blockmap`].

use vstd::prelude::*;
use vstd::string::*;

use crate::error;
use crate::error::{Fault, MfsError, Result};
use crate::text;
use crate::text::push_decimal;
use crate::util;
use crate::util::{put_bytes, rd_u16, rd_u32, wr_u16, wr_u32};

verus! {

/// `drSigWord` — the value that marks a volume as MFS.
pub const MFS_SIGNATURE: u16 = 0xD2D7;

/// `drSigWord` of an HFS volume ("BD"), whose MDB sits at the same offset.
/// Recognized only so HFS images can be reported as unsupported.
pub const HFS_SIGNATURE: u16 = 0x4244;

/// Serialized size of the MDB proper (the allocation block map starts right after).
pub const MDB_LEN: usize = 64;

/// The Master Directory Block, field-for-field as stored on disk.
#[derive(Debug, Clone, PartialEq, Eq)]
pub struct Mdb {
    /// `drSigWord` @0 — always [`MFS_SIGNATURE`].
    pub sig_word: u16,
    /// `drCrDate` @2 — volume creation date (1904 epoch).
    pub cr_date: u32,
    /// `drLsMod` @6 — last modification date (1904 epoch).
    pub ls_mod: u32,
    /// `drAtrb` @10 — bit 15 hardware lock, bit 7 software lock. Stored verbatim.
    pub atrb: u16,
    /// `drNmFls` @12 — number of files in the directory.
    pub nm_fls: u16,
    /// `drDirSt` @14 — first sector of the file directory.
    pub dir_st: u16,
    /// `drDirLen` @16 — length of the file directory, in sectors.
    pub dir_len: u16,
    /// `drNmAlBlks` @18 — number of allocation blocks on the volume.
    pub nm_al_blks: u16,
    /// `drAlBlkSiz` @20 — allocation block size in bytes; a multiple of 512.
    pub al_blk_siz: u32,
    /// `drClpSiz` @24 — default clump size in bytes. Stored verbatim.
    pub clp_siz: u32,
    /// `drAlBlSt` @28 — first sector of the allocation block area.
    pub al_bl_st: u16,
    /// `drNxtFNum` @30 — next unused file number.
    pub nxt_fnum: u32,
    /// `drFreeBks` @34 — number of unused allocation blocks.
    pub free_bks: u16,
    /// `drVN` @36 — volume name as a Pascal string: length byte plus up to 27
    /// MacRoman bytes. Stored verbatim (including trailing garbage) so that
    /// open→save round-trips byte-identically.
    pub name_raw: [u8; 28],
}

/// The fields of an [`Mdb`], the name as a sequence.
#[verifier::ext_equal]
pub struct MdbView {
    pub sig_word: u16,
    pub cr_date: u32,
    pub ls_mod: u32,
    pub atrb: u16,
    pub nm_fls: u16,
    pub dir_st: u16,
    pub dir_len: u16,
    pub nm_al_blks: u16,
    pub al_blk_siz: u32,
    pub clp_siz: u32,
    pub al_bl_st: u16,
    pub nxt_fnum: u32,
    pub free_bks: u16,
    pub name_raw: Seq<u8>,
}

impl View for Mdb {
    type V = MdbView;

    open spec fn view(&self) -> MdbView {
        MdbView {
            sig_word: self.sig_word,
            cr_date: self.cr_date,
            ls_mod: self.ls_mod,
            atrb: self.atrb,
            nm_fls: self.nm_fls,
            dir_st: self.dir_st,
            dir_len: self.dir_len,
            nm_al_blks: self.nm_al_blks,
            al_blk_siz: self.al_blk_siz,
            clp_siz: self.clp_siz,
            al_bl_st: self.al_bl_st,
            nxt_fnum: self.nxt_fnum,
            free_bks: self.free_bks,
            name_raw: self.name_raw@,
        }
    }
}

/// The fields stored in the first 64 bytes of `region`.
pub open spec fn fields_at(region: Seq<u8>) -> MdbView {
    MdbView {
        sig_word: util::be16(region, 0),
        cr_date: util::be32(region, 2),
        ls_mod: util::be32(region, 6),
        atrb: util::be16(region, 10),
        nm_fls: util::be16(region, 12),
        dir_st: util::be16(region, 14),
        dir_len: util::be16(region, 16),
        nm_al_blks: util::be16(region, 18),
        al_blk_siz: util::be32(region, 20),
        clp_siz: util::be32(region, 24),
        al_bl_st: util::be16(region, 28),
        nxt_fnum: util::be32(region, 30),
        free_bks: util::be16(region, 34),
        name_raw: region.subrange(36, 64),
    }
}

/// The 64 bytes that the fields are stored as.
pub open spec fn bytes_of(m: MdbView) -> Seq<u8> {
    util::be16_bytes(m.sig_word) + util::be32_bytes(m.cr_date) + util::be32_bytes(m.ls_mod)
        + util::be16_bytes(m.atrb) + util::be16_bytes(m.nm_fls) + util::be16_bytes(m.dir_st)
        + util::be16_bytes(m.dir_len) + util::be16_bytes(m.nm_al_blks) + util::be32_bytes(
        m.al_blk_siz,
    ) + util::be32_bytes(m.clp_siz) + util::be16_bytes(m.al_bl_st) + util::be32_bytes(m.nxt_fnum)
        + util::be16_bytes(m.free_bks) + m.name_raw
}

/// The relations between the fields that every later stage relies on.
pub open spec fn valid(m: MdbView) -> bool {
    &&& m.sig_word == MFS_SIGNATURE
    &&& m.al_blk_siz != 0
    &&& m.al_blk_siz % 512 == 0
    &&& m.dir_st >= 3
    &&& m.dir_len >= 1
    &&& m.al_bl_st >= m.dir_st + m.dir_len
    &&& m.name_raw.len() == 28
    &&& m.name_raw[0] <= 27
}

/// What parsing an MDB at the start of `region` comes to.
pub open spec fn parse_outcome(region: Seq<u8>) -> core::result::Result<MdbView, Fault> {
    let m = fields_at(region);
    if region.len() < 64 {
        Err(
            Fault::CorruptVolume(
                "MDB region is "@ + text::decimal(region.len()) + " bytes, need at least 64"@,
            ),
        )
    } else if m.sig_word == HFS_SIGNATURE {
        Err(Fault::UnsupportedHfs)
    } else if m.sig_word != MFS_SIGNATURE {
        Err(Fault::BadSignature { found: m.sig_word })
    } else if m.al_blk_siz == 0 || m.al_blk_siz % 512 != 0 {
        Err(
            Fault::CorruptVolume(
                "drAlBlkSiz is "@ + text::decimal(m.al_blk_siz as nat)
                    + ", expected a nonzero multiple of 512"@,
            ),
        )
    } else if m.dir_st < 3 {
        Err(
            Fault::CorruptVolume(
                "drDirSt is "@ + text::decimal(m.dir_st as nat)
                    + ", expected at least 3 (boot blocks + MDB)"@,
            ),
        )
    } else if m.dir_len < 1 {
        Err(Fault::CorruptVolume("drDirLen is 0, expected at least 1 sector"@))
    } else if m.al_bl_st < m.dir_st + m.dir_len {
        Err(
            Fault::CorruptVolume(
                "drAlBlSt is "@ + text::decimal(m.al_bl_st as nat) + ", expected at least "@
                    + text::decimal((m.dir_st + m.dir_len) as nat) + " (drDirSt "@ + text::decimal(
                    m.dir_st as nat,
                ) + " + drDirLen "@ + text::decimal(m.dir_len as nat) + ")"@,
            ),
        )
    } else if m.name_raw[0] > 27 {
        Err(
            Fault::CorruptVolume(
                "volume name length byte is "@ + text::decimal(m.name_raw[0] as nat)
                    + ", maximum is 27"@,
            ),
        )
    } else {
        Ok(m)
    }
}

/// The message `head`, `n`, `tail`.
fn message(head: &str, n: u64, tail: &str) -> (m: MfsError)
    ensures
        m@ == Fault::CorruptVolume(head@ + text::decimal(n as nat) + tail@),
{
    let mut m = String::from_str(head);
    push_decimal(&mut m, n);
    m.append(tail);
    MfsError::CorruptVolume(m)
}

/// The 28 bytes of `region` from byte 36 on.
fn name_field(region: &[u8]) -> (a: [u8; 28])
    requires
        region@.len() >= 64,
    ensures
        a@ == region@.subrange(36, 64),
{
    let mut a = [0u8; 28];
    let mut i: usize = 0;
    while i < 28
        invariant
            i <= 28,
            region@.len() >= 64,
            forall|j: int| 0 <= j < i ==> #[trigger] a@[j] == region@[36 + j],
        decreases 28 - i,
    {
        a[i] = region[36 + i];
        i += 1;
    }
    assert(a@ =~= region@.subrange(36, 64));
    a
}

impl Mdb {
    /// Parse an MDB from a region whose byte 0 is the MDB's first byte
    /// (volume byte offset 1024).
    ///
    /// Performs the sanity checks that every later stage relies on: signature,
    /// allocation block size, and the relative ordering of the directory and
    /// allocation block areas.
    pub fn parse(region: &[u8]) -> (r: Result<Mdb>)
        ensures
            error::outcome(r) == parse_outcome(region@),
            r matches Ok(m) ==> valid(m@),
    {
        if region.len() < MDB_LEN {
            return Err(message("MDB region is ", region.len() as u64, " bytes, need at least 64"));
        }
        let sig_word: u16 = rd_u16(region, 0);
        if sig_word == HFS_SIGNATURE {
            return Err(MfsError::UnsupportedHfs);
        }
        if sig_word != MFS_SIGNATURE {
            return Err(MfsError::BadSignature { found: sig_word });
        }
        let al_blk_siz: u32 = rd_u32(region, 20);
        if al_blk_siz == 0 || al_blk_siz % 512 != 0 {
            return Err(
                message(
                    "drAlBlkSiz is ",
                    al_blk_siz as u64,
                    ", expected a nonzero multiple of 512",
                ),
            );
        }
        let dir_st: u16 = rd_u16(region, 14);
        if dir_st < 3 {
            return Err(
                message(
                    "drDirSt is ",
                    dir_st as u64,
                    ", expected at least 3 (boot blocks + MDB)",
                ),
            );
        }
        let dir_len: u16 = rd_u16(region, 16);
        if dir_len < 1 {
            return Err(
                MfsError::CorruptVolume(
                    String::from_str("drDirLen is 0, expected at least 1 sector"),
                ),
            );
        }
        let al_bl_st: u16 = rd_u16(region, 28);
        // dir_st and dir_len are u16; widen so the sum cannot wrap.
        let dir_end: u32 = dir_st as u32 + dir_len as u32;
        if (al_bl_st as u32) < dir_end {
            let mut m = String::from_str("drAlBlSt is ");
            push_decimal(&mut m, al_bl_st as u64);
            m.append(", expected at least ");
            push_decimal(&mut m, dir_end as u64);
            m.append(" (drDirSt ");
            push_decimal(&mut m, dir_st as u64);
            m.append(" + drDirLen ");
            push_decimal(&mut m, dir_len as u64);
            m.append(")");
            return Err(MfsError::CorruptVolume(m));
        }
        let name_raw = name_field(region);
        if name_raw[0] > 27 {
            return Err(
                message("volume name length byte is ", name_raw[0] as u64, ", maximum is 27"),
            );
        }
        Ok(
            Mdb {
                sig_word,
                cr_date: rd_u32(region, 2),
                ls_mod: rd_u32(region, 6),
                atrb: rd_u16(region, 10),
                nm_fls: rd_u16(region, 12),
                dir_st,
                dir_len,
                nm_al_blks: rd_u16(region, 18),
                al_blk_siz,
                clp_siz: rd_u32(region, 24),
                al_bl_st,
                nxt_fnum: rd_u32(region, 30),
                free_bks: rd_u16(region, 34),
                name_raw,
            },
        )
    }

    /// Serialize the MDB into the first 64 bytes of `out` — the exact inverse
    /// of [`Mdb::parse`].
    pub fn write_to(&self, out: &mut [u8])
        requires
            old(out)@.len() >= 64,
        ensures
            final(out)@ == util::splice(old(out)@, 0, bytes_of(self@)),
    {
        wr_u16(out, 0, self.sig_word);
        wr_u32(out, 2, self.cr_date);
        wr_u32(out, 6, self.ls_mod);
        wr_u16(out, 10, self.atrb);
        wr_u16(out, 12, self.nm_fls);
        wr_u16(out, 14, self.dir_st);
        wr_u16(out, 16, self.dir_len);
        wr_u16(out, 18, self.nm_al_blks);
        wr_u32(out, 20, self.al_blk_siz);
        wr_u32(out, 24, self.clp_siz);
        wr_u16(out, 28, self.al_bl_st);
        wr_u32(out, 30, self.nxt_fnum);
        wr_u16(out, 34, self.free_bks);
        put_bytes(out, 36, self.name_raw.as_slice());
        assert(out@ =~= util::splice(old(out)@, 0, bytes_of(self@)));
    }
}

/// Where each field stands among the 64 bytes.
pub proof fn lemma_bytes_of(m: MdbView)
    requires
        m.name_raw.len() == 28,
    ensures
        bytes_of(m).len() == 64,
        bytes_of(m).subrange(0, 2) == util::be16_bytes(m.sig_word),
        bytes_of(m).subrange(2, 6) == util::be32_bytes(m.cr_date),
        bytes_of(m).subrange(6, 10) == util::be32_bytes(m.ls_mod),
        bytes_of(m).subrange(10, 12) == util::be16_bytes(m.atrb),
        bytes_of(m).subrange(12, 14) == util::be16_bytes(m.nm_fls),
        bytes_of(m).subrange(14, 16) == util::be16_bytes(m.dir_st),
        bytes_of(m).subrange(16, 18) == util::be16_bytes(m.dir_len),
        bytes_of(m).subrange(18, 20) == util::be16_bytes(m.nm_al_blks),
        bytes_of(m).subrange(20, 24) == util::be32_bytes(m.al_blk_siz),
        bytes_of(m).subrange(24, 28) == util::be32_bytes(m.clp_siz),
        bytes_of(m).subrange(28, 30) == util::be16_bytes(m.al_bl_st),
        bytes_of(m).subrange(30, 34) == util::be32_bytes(m.nxt_fnum),
        bytes_of(m).subrange(34, 36) == util::be16_bytes(m.free_bks),
        bytes_of(m).subrange(36, 64) == m.name_raw,
{
}

/// The fields that were written are the ones that are read back.
pub proof fn lemma_fields_written(m: MdbView, out: Seq<u8>)
    requires
        m.name_raw.len() == 28,
        out.len() >= 64,
    ensures
        fields_at(util::splice(out, 0, bytes_of(m))) == m,
        util::splice(out, 0, bytes_of(m)).len() == out.len(),
{
    let b = bytes_of(m);
    let s = util::splice(out, 0, b);
    lemma_bytes_of(m);
    util::lemma_be16_read(s, b, 0, m.sig_word);
    util::lemma_be32_read(s, b, 2, m.cr_date);
    util::lemma_be32_read(s, b, 6, m.ls_mod);
    util::lemma_be16_read(s, b, 10, m.atrb);
    util::lemma_be16_read(s, b, 12, m.nm_fls);
    util::lemma_be16_read(s, b, 14, m.dir_st);
    util::lemma_be16_read(s, b, 16, m.dir_len);
    util::lemma_be16_read(s, b, 18, m.nm_al_blks);
    util::lemma_be32_read(s, b, 20, m.al_blk_siz);
    util::lemma_be32_read(s, b, 24, m.clp_siz);
    util::lemma_be16_read(s, b, 28, m.al_bl_st);
    util::lemma_be32_read(s, b, 30, m.nxt_fnum);
    util::lemma_be16_read(s, b, 34, m.free_bks);
    assert(s.subrange(36, 64) =~= b.subrange(36, 64));
    assert(fields_at(s) =~= m);
}

/// Parsing what was written gives the fields back.
pub proof fn lemma_parse_inverts_write(m: MdbView, out: Seq<u8>)
    requires
        valid(m),
        out.len() >= 64,
    ensures
        parse_outcome(util::splice(out, 0, bytes_of(m))) == Ok::<MdbView, Fault>(m),
{
    lemma_fields_written(m, out);
}

/// Writing back what was parsed changes nothing.
pub proof fn lemma_write_inverts_parse(region: Seq<u8>)
    requires
        region.len() >= 64,
    ensures
        util::splice(region, 0, bytes_of(fields_at(region))) == region,
{
    let m = fields_at(region);
    let b = bytes_of(m);
    lemma_bytes_of(m);
    util::lemma_be16_rewrite(region, 0);
    util::lemma_be32_rewrite(region, 2);
    util::lemma_be32_rewrite(region, 6);
    util::lemma_be16_rewrite(region, 10);
    util::lemma_be16_rewrite(region, 12);
    util::lemma_be16_rewrite(region, 14);
    util::lemma_be16_rewrite(region, 16);
    util::lemma_be16_rewrite(region, 18);
    util::lemma_be32_rewrite(region, 20);
    util::lemma_be32_rewrite(region, 24);
    util::lemma_be16_rewrite(region, 28);
    util::lemma_be32_rewrite(region, 30);
    util::lemma_be16_rewrite(region, 34);
    util::lemma_same_range(b, region, 0, 2);
    util::lemma_same_range(b, region, 2, 6);
    util::lemma_same_range(b, region, 6, 10);
    util::lemma_same_range(b, region, 10, 12);
    util::lemma_same_range(b, region, 12, 14);
    util::lemma_same_range(b, region, 14, 16);
    util::lemma_same_range(b, region, 16, 18);
    util::lemma_same_range(b, region, 18, 20);
    util::lemma_same_range(b, region, 20, 24);
    util::lemma_same_range(b, region, 24, 28);
    util::lemma_same_range(b, region, 28, 30);
    util::lemma_same_range(b, region, 30, 34);
    util::lemma_same_range(b, region, 34, 36);
    util::lemma_same_range(b, region, 36, 64);
    assert forall|i: int| 0 <= i < 64 implies b[i] == region[i] by {}
    assert(util::splice(region, 0, b) =~= region);
}

} // verus!
