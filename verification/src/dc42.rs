//! DiskCopy 4.2 container.
//!
//! DiskCopy 4.2 is the Apple disk-image format produced by the Disk Copy utility
//! and understood by essentially every Macintosh emulator. It wraps a raw sector
//! image in an 84-byte big-endian header carrying the image name, the data and
//! tag sizes, two checksums, and the floppy geometry.
//!
//! ```text
//! offset  size  field
//!      0    64  image name, Pascal string (length byte <= 63), zero padded
//!     64     4  dataSize      bytes of disk data
//!     68     4  tagSize       bytes of tag data (12 per 512-byte sector, or 0)
//!     72     4  dataChecksum
//!     76     4  tagChecksum
//!     80     1  diskFormat    0 = 400K, 1 = 800K, 2 = 720K, 3 = 1440K
//!     81     1  formatByte    0x02 = 400K, 0x22 = >400K Mac, 0x24 = 720K/1440K
//!     82     2  magic         0x0100
//!     84     n  disk data
//!   84+n     m  tag data
//! ```
//!
//! Tags are advisory sector metadata written by GCR floppy controllers. This
//! module preserves them verbatim, and with them whatever stands behind the name
//! in its field, so that an open/save cycle is byte-identical.

use vstd::prelude::*;
use vstd::string::*;

use crate::error;
use crate::error::{Fault, MfsError, Result};
use crate::text;
use crate::text::{push_decimal, push_hex};
use crate::util;
use crate::util::{push_be16, push_be32, push_bytes, push_zeros, rd_u16, rd_u32};

verus! {

/// Size of the DiskCopy 4.2 header that precedes the disk data.
pub const HEADER_LEN: usize = 84;

/// Maximum number of bytes in the header's Pascal-string image name.
pub const MAX_NAME_LEN: usize = 63;

// Header field offsets.
pub const OFF_DATA_SIZE: usize = 64;

pub const OFF_TAG_SIZE: usize = 68;

pub const OFF_DATA_CKSUM: usize = 72;

pub const OFF_TAG_CKSUM: usize = 76;

pub const OFF_DISK_FORMAT: usize = 80;

pub const OFF_FORMAT_BYTE: usize = 81;

pub const OFF_MAGIC: usize = 82;

/// The header magic word stored at [`OFF_MAGIC`].
pub const MAGIC: u16 = 0x0100;

/// The number of leading tag bytes excluded from `tagChecksum`.
///
/// Disk Copy 4.2 skips the tag bytes belonging to the first sector when
/// checksumming tag data. The quirk is undocumented by Apple but universal
/// across implementations, so it must be reproduced to match real images.
pub const TAG_CHECKSUM_SKIP: usize = 12;

/// Tag bytes per 512-byte sector on a GCR floppy.
pub const TAG_BYTES_PER_SECTOR: usize = 12;

/// Bytes in a 400K floppy image.
pub const SIZE_400K: usize = 409_600;

/// Bytes in an 800K floppy image.
pub const SIZE_800K: usize = 819_200;

/// A parsed DiskCopy 4.2 container.
#[derive(Debug)]
pub struct Dc42Image {
    /// Raw Pascal-string content bytes of the image name (at most 63),
    /// preserved verbatim without any character-set interpretation.
    pub name: Vec<u8>,
    /// The bytes behind the name, up to the end of its 64-byte field,
    /// preserved verbatim. Disk Copy leaves them zero.
    pub padding: Vec<u8>,
    /// The disk data — a raw sector image.
    pub data: Vec<u8>,
    /// Tag data, preserved verbatim. May be empty.
    pub tags: Vec<u8>,
    /// `diskFormat`: 0 = 400K, 1 = 800K, 2 = 720K, 3 = 1440K.
    pub disk_format: u8,
    /// `formatByte`: 0x02 for 400K, 0x22 for larger Mac disks, 0x24 for MFM.
    pub format_byte: u8,
}

/// What a [`Dc42Image`] holds, as sequences.
#[verifier::ext_equal]
pub struct Dc42View {
    pub name: Seq<u8>,
    pub padding: Seq<u8>,
    pub data: Seq<u8>,
    pub tags: Seq<u8>,
    pub disk_format: u8,
    pub format_byte: u8,
}

impl View for Dc42Image {
    type V = Dc42View;

    open spec fn view(&self) -> Dc42View {
        Dc42View {
            name: self.name@,
            padding: self.padding@,
            data: self.data@,
            tags: self.tags@,
            disk_format: self.disk_format,
            format_byte: self.format_byte,
        }
    }
}

// ----------------------------------------------------------------- checksums

/// A sum with one more word added, modulo 2^32, and rotated right by one bit.
pub open spec fn rolled(sum: u32, word: u16) -> u32 {
    let s = (sum + word) % 0x1_0000_0000;
    (s / 2 + (s % 2) * 0x8000_0000) as u32
}

/// The rotating sum over the big-endian words of `bytes`, begun at `sum`. A
/// trailing odd byte is ignored.
pub open spec fn sum_from(sum: u32, bytes: Seq<u8>) -> u32
    decreases bytes.len(),
{
    if bytes.len() < 2 {
        sum
    } else {
        sum_from(rolled(sum, util::be16(bytes, 0)), bytes.skip(2))
    }
}

/// The DiskCopy 4.2 checksum.
pub open spec fn data_sum(bytes: Seq<u8>) -> u32 {
    sum_from(0, bytes)
}

/// The checksum of tag data, which leaves out the first sector's tags.
pub open spec fn tag_sum(tags: Seq<u8>) -> u32 {
    if tags.len() <= 12 {
        0
    } else {
        data_sum(tags.skip(12))
    }
}

// -------------------------------------------------------------------- header

/// The data and tag sizes of a structurally sound container, or what is wrong
/// with it.
pub open spec fn header_outcome(bytes: Seq<u8>) -> core::result::Result<(nat, nat), Seq<char>> {
    let magic = util::be16(bytes, 82);
    let data_size = util::be32(bytes, 64) as nat;
    let tag_size = util::be32(bytes, 68) as nat;
    if bytes.len() < 84 {
        Err(
            "image is "@ + text::decimal(bytes.len())
                + " bytes, shorter than the 84-byte header"@,
        )
    } else if magic != MAGIC {
        Err("bad magic "@ + text::hex(magic as nat, 4) + " at offset 82 (expected 0x0100)"@)
    } else if bytes[0] > 63 {
        Err(
            "image name length "@ + text::decimal(bytes[0] as nat)
                + " exceeds the 63-byte maximum"@,
        )
    } else if 84 + data_size + tag_size != bytes.len() {
        Err(
            "size mismatch: header declares "@ + text::decimal(data_size) + " data + "@
                + text::decimal(tag_size) + " tag bytes (total "@ + text::decimal(
                84 + data_size + tag_size,
            ) + ") but the image is "@ + text::decimal(bytes.len()) + " bytes"@,
        )
    } else {
        Ok((data_size, tag_size))
    }
}

/// What a container holds, its checksums not looked at.
pub open spec fn contents(bytes: Seq<u8>) -> Dc42View {
    let data_end = 84 + util::be32(bytes, 64);
    Dc42View {
        name: bytes.subrange(1, 1 + bytes[0]),
        padding: bytes.subrange(1 + bytes[0], 64),
        data: bytes.subrange(84, data_end),
        tags: bytes.skip(data_end),
        disk_format: bytes[80],
        format_byte: bytes[81],
    }
}

/// What parsing a container comes to.
pub open spec fn parse_outcome(bytes: Seq<u8>) -> core::result::Result<Dc42View, Fault> {
    match header_outcome(bytes) {
        Err(m) => Err(Fault::Dc42(m)),
        Ok(_) => {
            let c = contents(bytes);
            if util::be32(bytes, 72) != data_sum(c.data) {
                Err(
                    Fault::Dc42(
                        "data checksum mismatch: header says "@ + text::hex(
                            util::be32(bytes, 72) as nat,
                            8,
                        ) + ", computed "@ + text::hex(data_sum(c.data) as nat, 8),
                    ),
                )
            } else if util::be32(bytes, 76) != tag_sum(c.tags) {
                Err(
                    Fault::Dc42(
                        "tag checksum mismatch: header says "@ + text::hex(
                            util::be32(bytes, 76) as nat,
                            8,
                        ) + ", computed "@ + text::hex(tag_sum(c.tags) as nat, 8),
                    ),
                )
            } else {
                Ok(c)
            }
        },
    }
}

/// The first 63 bytes of `name`, or all of them.
pub open spec fn short_name(name: Seq<u8>) -> Seq<u8> {
    if name.len() <= 63 {
        name
    } else {
        name.take(63)
    }
}

/// The first `n` bytes of `padding`, with zeros behind it where it is shorter.
pub open spec fn fitted(padding: Seq<u8>, n: nat) -> Seq<u8> {
    if padding.len() < n {
        padding + util::zeros((n - padding.len()) as nat)
    } else {
        padding.take(n as int)
    }
}

/// The 84-byte header of a container.
pub open spec fn header(c: Dc42View) -> Seq<u8> {
    let name = short_name(c.name);
    seq![name.len() as u8] + name + fitted(c.padding, (63 - name.len()) as nat) + util::be32_bytes(
        c.data.len() as u32,
    ) + util::be32_bytes(c.tags.len() as u32) + util::be32_bytes(data_sum(c.data))
        + util::be32_bytes(tag_sum(c.tags)) + seq![c.disk_format, c.format_byte]
        + util::be16_bytes(MAGIC)
}

/// The bytes of a container.
pub open spec fn container(c: Dc42View) -> Seq<u8> {
    header(c) + c.data + c.tags
}

/// What wrapping `data` in a fresh container comes to.
pub open spec fn blank_outcome(name: Seq<u8>, data: Seq<u8>) -> core::result::Result<
    Dc42View,
    Fault,
> {
    if data.len() == 409_600 || data.len() == 819_200 {
        Ok(
            Dc42View {
                name: short_name(name),
                padding: util::zeros((63 - short_name(name).len()) as nat),
                data,
                tags: util::zeros(data.len() / 512 * 12),
                disk_format: if data.len() == 409_600 {
                    0
                } else {
                    1
                },
                format_byte: if data.len() == 409_600 {
                    0x02
                } else {
                    0x22
                },
            },
        )
    } else {
        Err(
            Fault::Dc42(
                "cannot wrap "@ + text::decimal(data.len())
                    + " bytes: DiskCopy 4.2 only defines floppy geometries (409600 bytes for 400K or 819200 bytes for 800K)"@,
            ),
        )
    }
}

/// The DiskCopy 4.2 checksum: a rotating sum over big-endian 16-bit words.
///
/// A trailing odd byte, which cannot occur in a well-formed image, is ignored.
pub fn checksum(bytes: &[u8]) -> (sum: u32)
    ensures
        sum == data_sum(bytes@),
{
    let n: usize = bytes.len();
    let mut sum: u32 = 0;
    let mut i: usize = 0;
    assert(bytes@.skip(0) =~= bytes@);
    while n - i >= 2
        invariant
            i <= n,
            n == bytes@.len(),
            data_sum(bytes@) == sum_from(sum, bytes@.skip(i as int)),
        decreases n - i,
    {
        let word: u16 = rd_u16(bytes, i);
        assert(bytes@.skip(i as int).skip(2) =~= bytes@.skip(i + 2));
        let s: u32 = sum.wrapping_add(word as u32);
        sum = s / 2 + (s % 2) * 0x8000_0000;
        i += 2;
    }
    sum
}

/// The checksum stored in `tagChecksum`, which skips the first sector's tags.
pub fn tag_checksum(tags: &[u8]) -> (sum: u32)
    ensures
        sum == tag_sum(tags@),
{
    if tags.len() <= TAG_CHECKSUM_SKIP {
        0
    } else {
        assert(tags@.subrange(12, tags@.len() as int) =~= tags@.skip(12));
        checksum(&tags[TAG_CHECKSUM_SKIP..tags.len()])
    }
}

/// Validates the structural invariants shared by [`Dc42Image::detect`] and
/// [`Dc42Image::parse`], returning the data and tag sizes as `usize`.
///
/// The size arithmetic is done in `u64` so that a hostile header claiming a
/// 4 GB data size cannot wrap around into a plausible-looking total.
pub fn validate_header(bytes: &[u8]) -> (r: core::result::Result<(usize, usize), String>)
    ensures
        match r {
            Ok((d, t)) => header_outcome(bytes@) == Ok::<(nat, nat), Seq<char>>(
                (d as nat, t as nat),
            ),
            Err(m) => header_outcome(bytes@) == Err::<(nat, nat), Seq<char>>(m@),
        },
{
    let n: usize = bytes.len();
    if n < HEADER_LEN {
        let mut m = String::from_str("image is ");
        push_decimal(&mut m, n as u64);
        m.append(" bytes, shorter than the 84-byte header");
        return Err(m);
    }
    let magic: u16 = rd_u16(bytes, OFF_MAGIC);
    if magic != MAGIC {
        let mut m = String::from_str("bad magic ");
        push_hex(&mut m, magic as u32, 4);
        m.append(" at offset 82 (expected 0x0100)");
        return Err(m);
    }
    let name_len: usize = bytes[0] as usize;
    if name_len > MAX_NAME_LEN {
        let mut m = String::from_str("image name length ");
        push_decimal(&mut m, name_len as u64);
        m.append(" exceeds the 63-byte maximum");
        return Err(m);
    }
    let data_size: u64 = rd_u32(bytes, OFF_DATA_SIZE) as u64;
    let tag_size: u64 = rd_u32(bytes, OFF_TAG_SIZE) as u64;
    let expected: u64 = HEADER_LEN as u64 + data_size + tag_size;
    if expected != n as u64 {
        let mut m = String::from_str("size mismatch: header declares ");
        push_decimal(&mut m, data_size);
        m.append(" data + ");
        push_decimal(&mut m, tag_size);
        m.append(" tag bytes (total ");
        push_decimal(&mut m, expected);
        m.append(") but the image is ");
        push_decimal(&mut m, n as u64);
        m.append(" bytes");
        return Err(m);
    }
    // The equality above proves both sizes fit in usize.
    Ok((data_size as usize, tag_size as usize))
}

/// The bytes of `b` from `lo` up to `hi`.
fn copied(b: &[u8], lo: usize, hi: usize) -> (v: Vec<u8>)
    requires
        lo <= hi <= b@.len(),
    ensures
        v@ == b@.subrange(lo as int, hi as int),
{
    let mut v: Vec<u8> = Vec::new();
    push_bytes(&mut v, &b[lo..hi]);
    assert(v@ =~= b@.subrange(lo as int, hi as int));
    v
}

/// The complaint that the checksum of `what` is not the one in the header.
fn mismatch(head: &str, want: u32, got: u32) -> (e: MfsError)
    ensures
        e@ == Fault::Dc42(
            head@ + text::hex(want as nat, 8) + ", computed "@ + text::hex(got as nat, 8),
        ),
{
    let mut m = String::from_str(head);
    push_hex(&mut m, want, 8);
    m.append(", computed ");
    push_hex(&mut m, got, 8);
    MfsError::Dc42(m)
}

impl Dc42Image {
    /// Returns true if `bytes` looks like a DiskCopy 4.2 container.
    ///
    /// Checks the magic, the name length, and that the declared data and tag
    /// sizes account for exactly the bytes after the header. Checksums are not
    /// verified — that is [`parse`](Self::parse)'s job — so a corrupted image is
    /// still detected as DiskCopy 4.2 and reported as such rather than as an
    /// unknown format.
    pub fn detect(bytes: &[u8]) -> (b: bool)
        ensures
            b == (header_outcome(bytes@) is Ok),
    {
        validate_header(bytes).is_ok()
    }

    /// Parses a DiskCopy 4.2 container, verifying both checksums.
    pub fn parse(bytes: &[u8]) -> (r: Result<Dc42Image>)
        ensures
            error::outcome(r) == parse_outcome(bytes@),
    {
        let (data_size, tag_size) = match validate_header(bytes) {
            Ok(sizes) => sizes,
            Err(m) => {
                return Err(MfsError::Dc42(m));
            },
        };
        let name_len: usize = bytes[0] as usize;
        let name = copied(bytes, 1, 1 + name_len);
        let padding = copied(bytes, 1 + name_len, 64);
        let data = copied(bytes, HEADER_LEN, HEADER_LEN + data_size);
        let tags = copied(bytes, HEADER_LEN + data_size, HEADER_LEN + data_size + tag_size);
        assert(tags@ =~= contents(bytes@).tags);

        let want_data: u32 = rd_u32(bytes, OFF_DATA_CKSUM);
        let got_data: u32 = checksum(data.as_slice());
        if want_data != got_data {
            return Err(mismatch("data checksum mismatch: header says ", want_data, got_data));
        }
        let want_tag: u32 = rd_u32(bytes, OFF_TAG_CKSUM);
        let got_tag: u32 = tag_checksum(tags.as_slice());
        if want_tag != got_tag {
            return Err(mismatch("tag checksum mismatch: header says ", want_tag, got_tag));
        }
        Ok(
            Dc42Image {
                name,
                padding,
                data,
                tags,
                disk_format: bytes[OFF_DISK_FORMAT],
                format_byte: bytes[OFF_FORMAT_BYTE],
            },
        )
    }

    /// Serializes the container, recomputing both checksums from the current
    /// data and tags. A name beyond 63 bytes is cut off, its padding is cut off
    /// or filled up with zeros to the end of the field, and of a size the header
    /// takes the low 32 bits.
    pub fn to_bytes(&self) -> (out: Vec<u8>)
        ensures
            out@ == container(self@),
    {
        wrap(
            self.name.as_slice(),
            self.padding.as_slice(),
            self.data.as_slice(),
            self.tags.as_slice(),
            self.disk_format,
            self.format_byte,
        )
    }

    /// Builds a fresh container around `data`, with zeroed tag data.
    ///
    /// DiskCopy 4.2 encodes the geometry as a one-byte format code, so only the
    /// standard floppy sizes can be represented. `name` is truncated to 63
    /// bytes, the longest a Pascal string in the header can hold.
    pub fn new_blank(name: &[u8], data: Vec<u8>) -> (r: Result<Dc42Image>)
        ensures
            error::outcome(r) == blank_outcome(name@, data@),
    {
        let size: usize = data.len();
        let (disk_format, format_byte) = if size == SIZE_400K {
            (0u8, 0x02u8)
        } else if size == SIZE_800K {
            (1u8, 0x22u8)
        } else {
            let mut m = String::from_str("cannot wrap ");
            push_decimal(&mut m, size as u64);
            m.append(
                " bytes: DiskCopy 4.2 only defines floppy geometries (409600 bytes for 400K or 819200 bytes for 800K)",
            );
            return Err(MfsError::Dc42(m));
        };
        let keep: usize = if name.len() <= MAX_NAME_LEN {
            name.len()
        } else {
            MAX_NAME_LEN
        };
        let kept = copied(name, 0, keep);
        assert(kept@ =~= short_name(name@));
        let mut tags: Vec<u8> = Vec::new();
        push_zeros(&mut tags, size / 512 * TAG_BYTES_PER_SECTOR);
        assert(tags@ =~= util::zeros(data@.len() / 512 * 12));
        let mut padding: Vec<u8> = Vec::new();
        push_zeros(&mut padding, MAX_NAME_LEN - keep);
        assert(padding@ =~= util::zeros((63 - short_name(name@).len()) as nat));
        Ok(Dc42Image { name: kept, padding, data, tags, disk_format, format_byte })
    }
}

/// The bytes of a container with these parts.
pub fn wrap(
    name: &[u8],
    padding: &[u8],
    data: &[u8],
    tags: &[u8],
    disk_format: u8,
    format_byte: u8,
) -> (out: Vec<u8>)
    ensures
        out@ == container(
            (Dc42View {
                name: name@,
                padding: padding@,
                data: data@,
                tags: tags@,
                disk_format,
                format_byte,
            }),
        ),
{
    let name_len: usize = if name.len() <= MAX_NAME_LEN {
        name.len()
    } else {
        MAX_NAME_LEN
    };
    let short = copied(name, 0, name_len);
    assert(short@ =~= short_name(name@));
    let mut out: Vec<u8> = Vec::new();
    out.push(name_len as u8);
    assert(out@ =~= seq![short@.len() as u8]);
    push_bytes(&mut out, short.as_slice());
    let room: usize = MAX_NAME_LEN - name_len;
    let ghost named = out@;
    if padding.len() < room {
        push_bytes(&mut out, padding);
        push_zeros(&mut out, room - padding.len());
    } else {
        push_bytes(&mut out, &padding[0..room]);
    }
    assert(out@ =~= named + fitted(padding@, room as nat));
    push_be32(&mut out, data.len() as u32);
    push_be32(&mut out, tags.len() as u32);
    push_be32(&mut out, checksum(data));
    push_be32(&mut out, tag_checksum(tags));
    let ghost before = out@;
    out.push(disk_format);
    out.push(format_byte);
    assert(out@ =~= before + seq![disk_format, format_byte]);
    push_be16(&mut out, MAGIC);
    push_bytes(&mut out, data);
    push_bytes(&mut out, tags);
    out
}

// ------------------------------------------------------------------------- laws

/// Where the fields of a header stand.
proof fn lemma_header(c: Dc42View)
    ensures
        header(c).len() == 84,
        header(c)[0] == short_name(c.name).len(),
        header(c).subrange(1, 1 + short_name(c.name).len() as int) == short_name(c.name),
        header(c).subrange(1 + short_name(c.name).len() as int, 64) == fitted(
            c.padding,
            (63 - short_name(c.name).len()) as nat,
        ),
        header(c).subrange(64, 68) == util::be32_bytes(c.data.len() as u32),
        header(c).subrange(68, 72) == util::be32_bytes(c.tags.len() as u32),
        header(c).subrange(72, 76) == util::be32_bytes(data_sum(c.data)),
        header(c).subrange(76, 80) == util::be32_bytes(tag_sum(c.tags)),
        header(c)[80] == c.disk_format,
        header(c)[81] == c.format_byte,
        header(c).subrange(82, 84) == util::be16_bytes(MAGIC),
{
    let name = short_name(c.name);
    assert(header(c).subrange(1, 1 + name.len() as int) =~= name);
    assert(header(c).subrange(1 + name.len() as int, 64) =~= fitted(
        c.padding,
        (63 - name.len()) as nat,
    ));
}

/// Where the data stands in a container.
pub proof fn lemma_data_in_container(c: Dc42View)
    ensures
        container(c).len() == 84 + c.data.len() + c.tags.len(),
        forall|i: int| 0 <= i < c.data.len() ==> #[trigger] container(c)[84 + i] == c.data[i],
{
    lemma_header(c);
}

/// Parsing a container that was written gives its contents back, the padding
/// of the name as it was written.
#[verifier::rlimit(30)]
pub proof fn lemma_parse_wrapped(c: Dc42View)
    requires
        c.name.len() <= 63,
        c.data.len() <= u32::MAX,
        c.tags.len() <= u32::MAX,
    ensures
        parse_outcome(container(c)) == Ok::<Dc42View, Fault>(
            (Dc42View { padding: fitted(c.padding, (63 - c.name.len()) as nat), ..c }),
        ),
{
    let h = header(c);
    let b = container(c);
    let padding = fitted(c.padding, (63 - c.name.len()) as nat);
    lemma_header(c);
    assert forall|i: int| 0 <= i < 84 implies #[trigger] b[i] == h[i] by {}
    util::lemma_be32_read(b, h, 64, c.data.len() as u32);
    util::lemma_be32_read(b, h, 68, c.tags.len() as u32);
    util::lemma_be32_read(b, h, 72, data_sum(c.data));
    util::lemma_be32_read(b, h, 76, tag_sum(c.tags));
    util::lemma_be16_read(b, h, 82, MAGIC);
    assert(b.subrange(1, 1 + b[0]) =~= h.subrange(1, 1 + c.name.len() as int));
    assert(b.subrange(1 + b[0], 64) =~= h.subrange(1 + c.name.len() as int, 64));
    assert(b.subrange(84, 84 + c.data.len() as int) =~= c.data);
    assert(b.skip(84 + c.data.len() as int) =~= c.tags);
    assert(contents(b) =~= Dc42View { padding, ..c });
}

/// Parsing a container that was written gives its contents back.
pub proof fn lemma_parse_inverts_wrap(c: Dc42View)
    requires
        c.name.len() + c.padding.len() == 63,
        c.data.len() <= u32::MAX,
        c.tags.len() <= u32::MAX,
    ensures
        parse_outcome(container(c)) == Ok::<Dc42View, Fault>(c),
{
    lemma_parse_wrapped(c);
    assert(fitted(c.padding, c.padding.len()) =~= c.padding);
}

/// Writing back a container that was parsed reproduces it byte for byte.
pub proof fn lemma_wrap_inverts_parse(bytes: Seq<u8>)
    requires
        parse_outcome(bytes) is Ok,
    ensures
        container(parse_outcome(bytes)->Ok_0) == bytes,
{
    let c = contents(bytes);
    let h = header(c);
    let b = container(c);
    let n = c.name.len() as int;
    lemma_header(c);
    assert(b.len() == bytes.len());
    util::lemma_be32_rewrite(bytes, 64);
    util::lemma_be32_rewrite(bytes, 68);
    util::lemma_be32_rewrite(bytes, 72);
    util::lemma_be32_rewrite(bytes, 76);
    util::lemma_be16_rewrite(bytes, 82);
    assert(c.name =~= short_name(c.name));
    assert(fitted(c.padding, c.padding.len()) =~= c.padding);
    util::lemma_same_range(h, bytes, 1, 1 + n);
    util::lemma_same_range(h, bytes, 1 + n, 64);
    util::lemma_same_range(h, bytes, 64, 68);
    util::lemma_same_range(h, bytes, 68, 72);
    util::lemma_same_range(h, bytes, 72, 76);
    util::lemma_same_range(h, bytes, 76, 80);
    util::lemma_same_range(h, bytes, 82, 84);
    assert forall|i: int| 0 <= i < 84 implies #[trigger] b[i] == bytes[i] by {
        assert(b[i] == h[i]);
    }
    assert(b =~= bytes);
}

/// The first sector's tags have no part in the checksum, which is zero where
/// there are no others.
pub proof fn lemma_tag_sum_skips_first_sector(a: Seq<u8>, b: Seq<u8>)
    requires
        a.len() == b.len(),
        forall|i: int| 12 <= i < a.len() ==> a[i] == b[i],
    ensures
        tag_sum(a) == tag_sum(b),
        a.len() <= 12 ==> tag_sum(a) == 0,
{
    if a.len() > 12 {
        assert(a.skip(12) =~= b.skip(12));
    }
}

/// Whether `a` and `b` have the same length and differ in exactly one of their
/// 16-bit words, the one at byte `i`.
pub open spec fn one_word_differs(a: Seq<u8>, b: Seq<u8>, i: int) -> bool {
    &&& a.len() == b.len()
    &&& 0 <= i && i + 2 <= a.len() && i % 2 == 0
    &&& util::be16(a, i) != util::be16(b, i)
    &&& forall|k: int| 0 <= k < a.len() && k != i && k != i + 1 ==> #[trigger] a[k] == b[k]
}

/// Adding the same word to two sums, or two words to the same sum, gives the
/// same sum for equal ones alone.
proof fn lemma_rolled(s: u32, t: u32, w: u16, x: u16)
    ensures
        rolled(s, w) == rolled(t, w) ==> s == t,
        rolled(s, w) == rolled(s, x) ==> w == x,
{
}

/// Sums that differ still do once the same bytes were added to both.
proof fn lemma_sums_stay_apart(s: u32, t: u32, bytes: Seq<u8>)
    requires
        s != t,
    ensures
        sum_from(s, bytes) != sum_from(t, bytes),
    decreases bytes.len(),
{
    if bytes.len() >= 2 {
        let w = util::be16(bytes, 0);
        lemma_rolled(s, t, w, w);
        lemma_sums_stay_apart(rolled(s, w), rolled(t, w), bytes.skip(2));
    }
}

/// A single word that differs shows in a sum that was begun anywhere.
proof fn lemma_word_shows(sum: u32, a: Seq<u8>, b: Seq<u8>, i: int)
    requires
        one_word_differs(a, b, i),
    ensures
        sum_from(sum, a) != sum_from(sum, b),
    decreases a.len(),
{
    let v = util::be16(a, 0);
    let w = util::be16(b, 0);
    let p = a.skip(2);
    let q = b.skip(2);
    if i == 0 {
        assert forall|k: int| 0 <= k < p.len() implies p[k] == q[k] by {
            assert(a[k + 2] == b[k + 2]);
        }
        assert(p =~= q);
        lemma_rolled(sum, sum, v, w);
        lemma_sums_stay_apart(rolled(sum, v), rolled(sum, w), p);
    } else {
        assert(a[0] == b[0] && a[1] == b[1]);
        assert(util::be16(p, i - 2) == util::be16(a, i));
        assert(util::be16(q, i - 2) == util::be16(b, i));
        assert forall|k: int| 0 <= k < p.len() && k != i - 2 && k != i - 1 implies #[trigger] p[k]
            == q[k] by {
            assert(a[k + 2] == b[k + 2]);
        }
        lemma_word_shows(rolled(sum, v), p, q, i - 2);
    }
}

/// A single word that differs changes the checksum.
pub proof fn lemma_data_sum_shows_a_word(a: Seq<u8>, b: Seq<u8>, i: int)
    requires
        one_word_differs(a, b, i),
    ensures
        data_sum(a) != data_sum(b),
{
    lemma_word_shows(0, a, b, i);
}

/// A single word that differs behind the first sector's tags changes the
/// checksum of tag data, whatever stands in those.
pub proof fn lemma_tag_sum_shows_a_word(a: Seq<u8>, b: Seq<u8>, i: int)
    requires
        a.len() == b.len(),
        a.len() > 12,
        one_word_differs(a.skip(12), b.skip(12), i),
    ensures
        tag_sum(a) != tag_sum(b),
{
    lemma_word_shows(0, a.skip(12), b.skip(12), i);
}

/// One byte that differs is one word that differs.
proof fn lemma_byte_in_word(a: Seq<u8>, k: int, x: u8)
    requires
        0 <= k < a.len(),
        a.len() % 2 == 0,
        x != a[k],
    ensures
        one_word_differs(a, a.update(k, x), k - k % 2),
{
    let i = k - k % 2;
    assert(util::be16(a, i) != util::be16(a.update(k, x), i));
}

/// Two containers with the same header differ in their data and tags alone.
proof fn lemma_same_header(a: Seq<u8>, b: Seq<u8>)
    requires
        a.len() == b.len(),
        header_outcome(a) is Ok,
        forall|i: int| 0 <= i < 84 ==> #[trigger] a[i] == b[i],
    ensures
        header_outcome(b) is Ok,
        util::be32(b, 64) == util::be32(a, 64),
        util::be32(b, 72) == util::be32(a, 72),
        util::be32(b, 76) == util::be32(a, 76),
        contents(b) == (Dc42View {
            data: contents(b).data,
            tags: contents(b).tags,
            ..contents(a)
        }),
{
    assert(contents(b).name =~= contents(a).name);
    assert(contents(b).padding =~= contents(a).padding);
}

/// What parsing comes to for a container with a sound header, as far as its
/// checksums decide.
proof fn lemma_sums_decide(bytes: Seq<u8>)
    requires
        header_outcome(bytes) is Ok,
    ensures
        ({
            let c = contents(bytes);
            let data_right = util::be32(bytes, 72) == data_sum(c.data);
            let tags_right = util::be32(bytes, 76) == tag_sum(c.tags);
            &&& data_right && tags_right ==> parse_outcome(bytes) == Ok::<Dc42View, Fault>(c)
            &&& !(data_right && tags_right) ==> parse_outcome(bytes) is Err
                && parse_outcome(bytes)->Err_0 is Dc42
        }),
{
}

/// What a container holds once byte `k` of it, behind the header, is `x`.
#[verifier::rlimit(30)]
proof fn lemma_contents_updated(b: Seq<u8>, k: int, x: u8)
    requires
        header_outcome(b) is Ok,
        84 <= k < b.len(),
    ensures
        ({
            let d = contents(b);
            let e = contents(b.update(k, x));
            let first_tag = 84 + d.data.len();
            &&& b.len() == first_tag + d.tags.len()
            &&& k < first_tag ==> e == (Dc42View { data: d.data.update(k - 84, x), ..d }) && d.data[k
                - 84] == b[k]
            &&& k >= first_tag ==> e == (Dc42View { tags: d.tags.update(k - first_tag, x), ..d })
                && d.tags[k - first_tag] == b[k]
        }),
{
    let bad = b.update(k, x);
    lemma_same_header(b, bad);
    let d = contents(b);
    let e = contents(bad);
    let first_tag = 84 + d.data.len() as int;
    if k < first_tag {
        assert(e.data =~= d.data.update(k - 84, x));
        assert(e.tags =~= d.tags);
    } else {
        assert(e.data =~= d.data);
        assert(e.tags =~= d.tags.update(k - first_tag, x));
    }
}

/// A container in which a single byte of the data, or of the tags behind those
/// of the first sector, was changed is still taken for one, and refused. The
/// first sector's tags may change unnoticed.
#[verifier::rlimit(30)]
pub proof fn lemma_changed_byte(bytes: Seq<u8>, k: int, x: u8)
    requires
        parse_outcome(bytes) is Ok,
        parse_outcome(bytes)->Ok_0.data.len() % 2 == 0,
        parse_outcome(bytes)->Ok_0.tags.len() % 2 == 0,
        84 <= k < bytes.len(),
        x != bytes[k],
    ensures
        ({
            let c = parse_outcome(bytes)->Ok_0;
            let bad = bytes.update(k, x);
            let first_tag = 84 + c.data.len();
            &&& header_outcome(bad) is Ok
            &&& k < first_tag || first_tag + 12 <= k ==> parse_outcome(bad) is Err
                && parse_outcome(bad)->Err_0 is Dc42
            &&& first_tag <= k < first_tag + 12 ==> parse_outcome(bad) == Ok::<Dc42View, Fault>(
                (Dc42View { tags: c.tags.update(k - first_tag, x), ..c }),
            )
        }),
{
    let bad = bytes.update(k, x);
    lemma_same_header(bytes, bad);
    lemma_sums_decide(bytes);
    lemma_sums_decide(bad);
    lemma_contents_updated(bytes, k, x);
    let c = contents(bytes);
    let e = contents(bad);
    let first_tag = 84 + c.data.len() as int;
    if k < first_tag {
        let j = k - 84;
        lemma_byte_in_word(c.data, j, x);
        lemma_data_sum_shows_a_word(c.data, e.data, j - j % 2);
    } else if k < first_tag + 12 {
        lemma_tag_sum_skips_first_sector(c.tags, e.tags);
    } else {
        let j = k - first_tag - 12;
        let t = c.tags.skip(12);
        assert(e.tags.skip(12) =~= t.update(j, x));
        lemma_byte_in_word(t, j, x);
        lemma_tag_sum_shows_a_word(c.tags, e.tags, j - j % 2);
    }
}

} // verus!
