//! What is said of an image, a name or a size that is refused: each complaint,
//! the condition it comes on, and the numbers in it, as they stand in the image.

use vstd::prelude::*;

use crate::blockmap;
use crate::cli;
use crate::dc42;
use crate::effects;
use crate::error;
use crate::error::Fault;
use crate::layout::{header_sound, lemma_numbers_read, number_at};
use crate::macroman;
use crate::args::FailureView;
use crate::mdb;
use crate::mkfs;
use crate::model;
use crate::model::{ContainerView, VolumeView};
use crate::text::{decimal, hex, quoted, quoted_char};
use crate::volume::{Fork, ImageFormat};

verus! {

/// Whether opening an image ended in a complaint about a corrupt volume.
pub open spec fn corrupt(r: core::result::Result<VolumeView, Fault>, text: Seq<char>) -> bool {
    r == Err::<VolumeView, Fault>(Fault::CorruptVolume(text))
}

// --------------------------------------------------------------- sector images

/// An image that is too short is refused with its length, and one with another
/// signature with that.
pub proof fn lemma_signature_refused(data: Seq<u8>, container: ContainerView)
    ensures
        ({
            let r = model::parts_outcome(data, container);
            let found = number_at(data, 1024, 2);
            &&& data.len() < 1088 ==> corrupt(
                r,
                "image is "@ + decimal(data.len())
                    + " bytes, too short to hold an MDB at offset 1024"@,
            )
            &&& data.len() >= 1088 && found == 0x4244 ==> r == Err::<VolumeView, Fault>(
                Fault::UnsupportedHfs,
            )
            &&& data.len() >= 1088 && found != 0x4244 && found != 0xD2D7 ==> r == Err::<
                VolumeView,
                Fault,
            >(Fault::BadSignature { found: found as u16 })
        }),
{
    if data.len() >= 1088 {
        let m = mdb::fields_at(data.skip(1024));
        lemma_numbers_read(data, 1024);
        assert(m.sig_word == number_at(data, 1024, 2));
    }
}

/// Volume information of less than 64 bytes is refused with their number.
pub proof fn lemma_short_information(region: Seq<u8>)
    requires
        region.len() < 64,
    ensures
        mdb::parse_outcome(region) == Err::<mdb::MdbView, Fault>(
            Fault::CorruptVolume(
                "MDB region is "@ + decimal(region.len()) + " bytes, need at least 64"@,
            ),
        ),
{
}

/// The first thing that is wrong with the volume information is complained of,
/// with the number that stands there.
#[verifier::rlimit(60)]
pub proof fn lemma_information_refused(data: Seq<u8>, container: ContainerView)
    requires
        data.len() >= 1088,
        number_at(data, 1024, 2) == 0xD2D7,
    ensures
        ({
            let r = model::parts_outcome(data, container);
            let size = number_at(data, 1044, 4);
            let first = number_at(data, 1038, 2);
            let sectors = number_at(data, 1040, 2);
            let blocks = number_at(data, 1052, 2);
            let name = data[1060];
            let size_bad = size == 0 || size % 512 != 0;
            &&& size_bad ==> corrupt(
                r,
                "drAlBlkSiz is "@ + decimal(size) + ", expected a nonzero multiple of 512"@,
            )
            &&& !size_bad && first < 3 ==> corrupt(
                r,
                "drDirSt is "@ + decimal(first) + ", expected at least 3 (boot blocks + MDB)"@,
            )
            &&& !size_bad && first >= 3 && sectors == 0 ==> corrupt(
                r,
                "drDirLen is 0, expected at least 1 sector"@,
            )
            &&& !size_bad && first >= 3 && sectors > 0 && blocks < first + sectors ==> corrupt(
                r,
                "drAlBlSt is "@ + decimal(blocks) + ", expected at least "@ + decimal(
                    first + sectors,
                ) + " (drDirSt "@ + decimal(first) + " + drDirLen "@ + decimal(sectors) + ")"@,
            )
            &&& !size_bad && first >= 3 && sectors > 0 && blocks >= first + sectors && name > 27
                ==> corrupt(
                r,
                "volume name length byte is "@ + decimal(name as nat) + ", maximum is 27"@,
            )
        }),
{
    let m = mdb::fields_at(data.skip(1024));
    lemma_numbers_read(data, 1024);
    lemma_numbers_read(data, 1038);
    lemma_numbers_read(data, 1040);
    lemma_numbers_read(data, 1044);
    lemma_numbers_read(data, 1052);
    assert(m.sig_word == number_at(data, 1024, 2));
    assert(m.dir_st == number_at(data, 1038, 2));
    assert(m.dir_len == number_at(data, 1040, 2));
    assert(m.al_blk_siz == number_at(data, 1044, 4));
    assert(m.al_bl_st == number_at(data, 1052, 2));
    assert(m.name_raw[0] == data[1060]);
}

/// The first region that does not fit in its place is complained of, with where
/// it ends or how long it is.
#[verifier::rlimit(60)]
pub proof fn lemma_regions_refused(data: Seq<u8>, container: ContainerView)
    requires
        data.len() >= 1088,
        mdb::parse_outcome(data.skip(1024)) is Ok,
    ensures
        ({
            let r = model::parts_outcome(data, container);
            let size = number_at(data, 1044, 4);
            let n = number_at(data, 1042, 2);
            let blocks = number_at(data, 1052, 2);
            let first = number_at(data, 1038, 2);
            let dir_end = 512 * (first + number_at(data, 1040, 2));
            let end = 512 * blocks + n * size;
            let room = (512 * first - 1088) as nat;
            let need = (3 * n + 1) / 2;
            &&& dir_end > data.len() ==> corrupt(
                r,
                "file directory runs to byte "@ + decimal(dir_end) + ", past the "@ + decimal(
                    data.len(),
                ) + "-byte image"@,
            )
            &&& dir_end <= data.len() && end > data.len() ==> corrupt(
                r,
                decimal(n) + " allocation blocks of "@ + decimal(size) + " bytes from sector "@
                    + decimal(blocks) + " run to byte "@ + decimal(end) + ", past the "@ + decimal(
                    data.len(),
                ) + "-byte image"@,
            )
            &&& dir_end <= data.len() && end <= data.len() && room < need ==> corrupt(
                r,
                "allocation block map is "@ + decimal(room) + " bytes, need "@ + decimal(need)
                    + " for "@ + decimal(n) + " blocks"@,
            )
        }),
{
    let m = mdb::fields_at(data.skip(1024));
    lemma_numbers_read(data, 1038);
    lemma_numbers_read(data, 1040);
    lemma_numbers_read(data, 1042);
    lemma_numbers_read(data, 1044);
    lemma_numbers_read(data, 1052);
    assert(m.dir_st == number_at(data, 1038, 2));
    assert(m.dir_len == number_at(data, 1040, 2));
    assert(m.nm_al_blks == number_at(data, 1042, 2));
    assert(m.al_blk_siz == number_at(data, 1044, 4));
    assert(m.al_bl_st == number_at(data, 1052, 2));
    assert(model::dir_end(m) == 512 * (m.dir_st + m.dir_len));
}

// ------------------------------------------------------------------ containers

/// The first thing that is wrong with a container is complained of, with the
/// number that stands in its header and the one it should be.
pub proof fn lemma_container_refused(bytes: Seq<u8>)
    ensures
        ({
            let r = dc42::parse_outcome(bytes);
            let magic = number_at(bytes, 82, 2);
            let size = number_at(bytes, 64, 4);
            let tags = number_at(bytes, 68, 4);
            let long = bytes.len() >= 84;
            let data = bytes.subrange(84, 84 + size as int);
            let behind = bytes.subrange(84 + size as int, bytes.len() as int);
            &&& !long ==> refused_as(
                r,
                "image is "@ + decimal(bytes.len()) + " bytes, shorter than the 84-byte header"@,
            )
            &&& long && magic != 0x0100 ==> refused_as(
                r,
                "bad magic "@ + hex(magic, 4) + " at offset 82 (expected 0x0100)"@,
            )
            &&& long && magic == 0x0100 && bytes[0] > 63 ==> refused_as(
                r,
                "image name length "@ + decimal(bytes[0] as nat)
                    + " exceeds the 63-byte maximum"@,
            )
            &&& long && magic == 0x0100 && bytes[0] <= 63 && bytes.len() != 84 + size + tags
                ==> refused_as(
                r,
                "size mismatch: header declares "@ + decimal(size) + " data + "@ + decimal(tags)
                    + " tag bytes (total "@ + decimal(84 + size + tags)
                    + ") but the image is "@ + decimal(bytes.len()) + " bytes"@,
            )
            &&& header_sound(bytes) && number_at(bytes, 72, 4) != dc42::data_sum(data)
                ==> refused_as(
                r,
                "data checksum mismatch: header says "@ + hex(number_at(bytes, 72, 4), 8)
                    + ", computed "@ + hex(dc42::data_sum(data) as nat, 8),
            )
            &&& header_sound(bytes) && number_at(bytes, 72, 4) == dc42::data_sum(data)
                && number_at(bytes, 76, 4) != dc42::tag_sum(behind) ==> refused_as(
                r,
                "tag checksum mismatch: header says "@ + hex(number_at(bytes, 76, 4), 8)
                    + ", computed "@ + hex(dc42::tag_sum(behind) as nat, 8),
            )
        }),
{
    if bytes.len() >= 84 {
        lemma_numbers_read(bytes, 64);
        lemma_numbers_read(bytes, 68);
        lemma_numbers_read(bytes, 72);
        lemma_numbers_read(bytes, 76);
        lemma_numbers_read(bytes, 82);
        if header_sound(bytes) {
            let n = number_at(bytes, 64, 4) as int;
            assert(bytes.skip(84 + n) =~= bytes.subrange(84 + n, bytes.len() as int));
        }
    }
}

/// Whether parsing a container ended in this complaint.
pub open spec fn refused_as(
    r: core::result::Result<dc42::Dc42View, Fault>,
    text: Seq<char>,
) -> bool {
    r == Err::<dc42::Dc42View, Fault>(Fault::Dc42(text))
}

/// A new container for anything but a floppy is refused with the length.
pub proof fn lemma_wrapping_refused(name: Seq<u8>, data: Seq<u8>)
    requires
        data.len() != 800 * 512,
        data.len() != 1600 * 512,
    ensures
        refused_as(
            dc42::blank_outcome(name, data),
            "cannot wrap "@ + decimal(data.len())
                + " bytes: DiskCopy 4.2 only defines floppy geometries (409600 bytes for 400K or 819200 bytes for 800K)"@,
        ),
{
}

// ------------------------------------------------------------------ formatting

/// What formatting is refused with: a name that cannot be stored comes first,
/// then a size that the container does not have, then one that is no whole number
/// of sectors or too small. Each size is named.
pub proof fn lemma_format_refused(size: u32, name: Seq<char>, format: ImageFormat, now: u32)
    ensures
        ({
            let r = mkfs::format_outcome(size, name, format, now);
            let named = effects::storable(name, 27);
            let floppy = size == 800 * 512 || size == 1600 * 512;
            let wrapped = format == ImageFormat::DiskCopy42;
            &&& !named ==> r is Err && r->Err_0 is InvalidName
            &&& named && wrapped && !floppy ==> r == Err::<VolumeView, Fault>(
                Fault::InvalidGeometry(
                    "DiskCopy 4.2 only defines the standard floppy geometries: "@ + decimal(
                        size as nat,
                    ) + " bytes is neither 409600 nor 819200"@,
                ),
            )
            &&& named && !wrapped && size % 512 != 0 ==> r == Err::<VolumeView, Fault>(
                Fault::InvalidGeometry(
                    decimal(size as nat) + " bytes is not a multiple of the 512-byte sector size"@,
                ),
            )
            &&& named && !wrapped && size % 512 == 0 && size < 200 * 512 ==> r == Err::<
                VolumeView,
                Fault,
            >(
                Fault::InvalidGeometry(
                    decimal(size as nat) + " bytes is below the 102400-byte minimum volume size"@,
                ),
            )
        }),
{
    effects::lemma_name_taken(name, 27);
}

// ----------------------------------------------------------------------- names

/// What is said of a name that cannot be stored: that it is empty, which of its
/// characters has no MacRoman byte, how long it is and may be, or which of its
/// bytes may not stand in a name.
pub proof fn lemma_name_refused(name: Seq<char>, max: nat)
    requires
        !effects::storable(name, max),
    ensures
        model::name_outcome(name, max) matches Err(Fault::InvalidName(t)) && {
            let encodable = forall|i: int|
                0 <= i < name.len() ==> macroman::mappable(#[trigger] name[i]);
            &&& name.len() == 0 ==> t == "name is empty"@
            &&& !encodable ==> exists|k: int|
                {
                    &&& 0 <= k < name.len()
                    &&& !macroman::mappable(#[trigger] name[k])
                    &&& forall|i: int| 0 <= i < k ==> macroman::mappable(#[trigger] name[i])
                    &&& t == quoted(name) + " contains "@ + quoted_char(name[k])
                        + ", which MacRoman cannot represent"@
                }
            &&& encodable && name.len() > 0 && name.len() > max ==> t == quoted(name) + " is "@
                + decimal(name.len()) + " bytes, the maximum is "@ + decimal(max)
            &&& encodable && 0 < name.len() <= max ==> exists|k: int|
                {
                    &&& 0 <= k < name.len()
                    &&& #[trigger] name[k] == ':' || name[k] == '\0'
                    &&& forall|i: int|
                        0 <= i < k ==> #[trigger] name[i] != ':' && name[i] != '\0'
                    &&& t == quoted(name) + " contains a forbidden byte "@ + hex(
                        name[k] as nat,
                        2,
                    )
                }
        },
{
    effects::lemma_name_taken(name, max);
    macroman::lemma_encodable(name);
    macroman::lemma_decode_inverts_encode(name);
    if let Ok(raw) = macroman::encoded(name) {
        if 0 < name.len() <= max {
            let k = lemma_first_forbidden_at(raw);
            assert(macroman::decoded(raw)[k] == name[k]);
            assert forall|i: int| 0 <= i < k implies #[trigger] name[i] != ':' && name[i]
                != '\0' by {
                assert(macroman::decoded(raw)[i] == name[i]);
                assert(raw[i] != 0x3A && raw[i] != 0);
                macroman::lemma_table_is_a_bijection(raw[i], 0x3A);
                macroman::lemma_table_is_a_bijection(raw[i], 0);
            }
            assert(name[k] == ':' || name[k] == '\0');
        }
    }
}

/// Where the first byte stands that may not stand in a name.
proof fn lemma_first_forbidden_at(bytes: Seq<u8>) -> (k: int)
    requires
        model::first_forbidden(bytes) is Some,
    ensures
        0 <= k < bytes.len(),
        model::first_forbidden(bytes) == Some(bytes[k]),
        bytes[k] == 0x3A || bytes[k] == 0,
        forall|i: int| 0 <= i < k ==> #[trigger] bytes[i] != 0x3A && bytes[i] != 0,
    decreases bytes.len(),
{
    if bytes[0] == 0x3A || bytes[0] == 0 {
        0
    } else {
        let rest = bytes.skip(1);
        let k = lemma_first_forbidden_at(rest);
        assert forall|i: int| 0 <= i < k + 1 implies #[trigger] bytes[i] != 0x3A && bytes[i]
            != 0 by {
            if i > 0 {
                assert(bytes[i] == rest[i - 1]);
            }
        }
        k + 1
    }
}

// ---------------------------------------------------------------- block chains

/// Whether block `a` stands in the map and names block `b` there.
pub open spec fn leads_to(map: Seq<u16>, a: u16, b: u16) -> bool {
    &&& 2 <= a < 2 + map.len()
    &&& map[a - 2] == b
    &&& b != 0 && b != 1 && b != 0xFFF
}

/// Whether `path` follows the map from block to block, beginning at `start`.
pub open spec fn follows(map: Seq<u16>, start: u16, path: Seq<u16>) -> bool {
    &&& path.len() > 0
    &&& path[0] == start
    &&& forall|i: int, j: int|
        0 <= i && j == i + 1 && j < path.len() ==> leads_to(
            map,
            #[trigger] path[i],
            #[trigger] path[j],
        )
}

/// What a walk along the map comes to.
#[verifier::rlimit(60)]
proof fn lemma_walked(map: Seq<u16>, start: u16, cur: u16, left: nat) -> (path: Seq<u16>)
    requires
        left <= map.len(),
    ensures
        follows(map, cur, path),
        path.len() <= left + 1,
        walk_ends(map, start, path, blockmap::walk(map, start, cur, left)),
        blockmap::walk(map, start, cur, left) is Err && 2 <= path.last() < 2 + map.len()
            && map[path.last() - 2] != 0 && map[path.last() - 2] != 0xFFF ==> path.len() == left
            + 1,
    decreases left,
{
    let r = blockmap::walk(map, start, cur, left);
    if !blockmap::has_block(map, cur) || map[cur - 2] == 0 || map[cur - 2] == 0xFFF || left == 0
        || map[cur - 2] == 1 {
        seq![cur]
    } else {
        let next = map[cur - 2];
        let t = lemma_walked(map, start, next, (left - 1) as nat);
        let path = seq![cur] + t;
        assert forall|i: int, j: int| 0 <= i && j == i + 1 && j < path.len() implies leads_to(
            map,
            #[trigger] path[i],
            #[trigger] path[j],
        ) by {
            assert(path[j] == t[j - 1]);
            if i > 0 {
                assert(path[i] == t[i - 1]);
            } else {
                assert(path[i] == cur && t[0] == next);
            }
        }
        assert(path.last() == t.last());
        path
    }
}

/// What a walk ends in, by the last block it came to: the chain, where that
/// block ends it, and else a complaint about that block.
pub open spec fn walk_ends(
    map: Seq<u16>,
    start: u16,
    path: Seq<u16>,
    r: core::result::Result<Seq<u16>, Fault>,
) -> bool {
    let b = path.last();
    if b < 2 || b >= 2 + map.len() {
        r == Err::<Seq<u16>, Fault>(
            Fault::CorruptVolume(
                "block chain references block "@ + decimal(b as nat) + ", outside 2.."@ + decimal(
                    2 + map.len(),
                ),
            ),
        )
    } else if map[b - 2] == 0 {
        r == Err::<Seq<u16>, Fault>(
            Fault::CorruptVolume("block chain enters free block "@ + decimal(b as nat)),
        )
    } else if map[b - 2] == 0xFFF {
        r == Err::<Seq<u16>, Fault>(
            Fault::CorruptVolume("block chain enters reserved block "@ + decimal(b as nat)),
        )
    } else {
        ||| map[b - 2] == 1 && r == Ok::<Seq<u16>, Fault>(path)
        ||| r == Err::<Seq<u16>, Fault>(
            Fault::CorruptVolume(
                "block chain starting at "@ + decimal(start as nat) + " exceeds "@ + decimal(
                    map.len(),
                ) + " blocks (cycle)"@,
            ),
        )
    }
}

/// A chain is found by following the map from its first block. It is whole where
/// the last block says so, and otherwise what is wrong with the last block come
/// to is said: that it does not exist, is free or reserved, or comes after more
/// blocks than there are.
pub proof fn lemma_chain_followed(map: Seq<u16>, start: u16) -> (path: Seq<u16>)
    ensures
        follows(map, start, path),
        path.len() <= map.len() + 1,
        walk_ends(map, start, path, blockmap::chain_from(map, start)),
        ({
            let b = path.last();
            let sound = 2 <= b < 2 + map.len() && map[b - 2] != 0 && map[b - 2] != 0xFFF;
            blockmap::chain_from(map, start) is Err && sound ==> path.len() == map.len() + 1
        }),
{
    lemma_walked(map, start, start, map.len())
}

/// A fork that is longer than its blocks cannot be read: the name that was asked
/// for, the kind of fork, its length and what the blocks hold are said.
pub proof fn lemma_uncovered(v: VolumeView, name: Seq<char>, fork: Fork)
    requires
        effects::has_file(v, name),
        ({
            let e = v.entries[model::lookup(v.entries, name)->0 as int];
            let start = match fork {
                Fork::Data => e.df_st_blk,
                Fork::Resource => e.rf_st_blk,
            };
            let len = match fork {
                Fork::Data => e.df_log_len,
                Fork::Resource => e.rf_log_len,
            };
            start == 0 && len > 0 || start != 0 && (blockmap::chain_from(v.map, start) matches Ok(s)
                && s.len() * v.mdb.al_blk_siz < len)
        }),
    ensures
        ({
            let e = v.entries[model::lookup(v.entries, name)->0 as int];
            let blocks = |start: u16|
                if start == 0 {
                    0
                } else {
                    blockmap::chain_from(v.map, start)->Ok_0.len()
                };
            let size = v.mdb.al_blk_siz as nat;
            let said = match fork {
                Fork::Data => name + ": data fork holds "@ + decimal(e.df_log_len as nat)
                    + " bytes but its block chain only covers "@ + decimal(
                    blocks(e.df_st_blk) * size,
                ),
                Fork::Resource => name + ": resource fork holds "@ + decimal(e.rf_log_len as nat)
                    + " bytes but its block chain only covers "@ + decimal(
                    blocks(e.rf_st_blk) * size,
                ),
            };
            model::read_outcome(v, name, fork) == Err::<Seq<u8>, Fault>(Fault::CorruptVolume(said))
        }),
{
    effects::lemma_found(v, name, fork);
    reveal_strlit(": data fork holds ");
    reveal_strlit(": resource fork holds ");
    reveal_strlit(": ");
    reveal_strlit("data");
    reveal_strlit("resource");
    reveal_strlit(" fork holds ");
    assert(": "@ + "data"@ + " fork holds "@ =~= ": data fork holds "@);
    assert(": "@ + "resource"@ + " fork holds "@ =~= ": resource fork holds "@);
    assert(name + ": "@ + "data"@ + " fork holds "@ =~= name + (": "@ + "data"@
        + " fork holds "@));
    assert(name + ": "@ + "resource"@ + " fork holds "@ =~= name + (": "@ + "resource"@
        + " fork holds "@));
    assert(0 * (v.mdb.al_blk_siz as nat) == 0);
}

// -------------------------------------------------------------------- sentences

/// What an error is reported with, by the tool as well: a sentence for its kind,
/// with what was asked for or found.
pub proof fn lemma_sentences(m: Seq<char>, cause: Seq<char>, found: u16, needed: u32, free: u32)
    ensures
        said(Fault::Dc42(m), cause, "DiskCopy 4.2 container: "@ + m),
        said(Fault::CorruptVolume(m), cause, "corrupt MFS volume: "@ + m),
        said(Fault::FileNotFound(m), cause, "file not found: "@ + m),
        said(Fault::FileExists(m), cause, "file already exists: "@ + m),
        said(Fault::InvalidName(m), cause, "invalid name: "@ + m),
        said(Fault::FileLocked(m), cause, "file is locked: "@ + m),
        said(Fault::InvalidGeometry(m), cause, "invalid geometry: "@ + m),
        said(Fault::DirectoryFull, cause, "file directory is full"@),
        said(Fault::VolumeLocked, cause, "volume is locked"@),
        said(
            Fault::UnsupportedHfs,
            cause,
            "HFS volume detected (signature 0x4244): HFS is not supported"@,
        ),
        said(
            Fault::UnknownImageFormat,
            cause,
            "unrecognized image: neither raw MFS nor DiskCopy 4.2"@,
        ),
        said(
            Fault::BadSignature { found },
            cause,
            "not an MFS volume: signature "@ + hex(found as nat, 4) + " (expected 0xd2d7)"@,
        ),
        said(
            Fault::VolumeFull { needed_blocks: needed, free_blocks: free },
            cause,
            "volume full: need "@ + decimal(needed as nat) + " allocation blocks, "@ + decimal(
                free as nat,
            ) + " free"@,
        ),
{
}

/// Whether a fault is reported with this sentence, by the library and the tool.
pub open spec fn said(f: Fault, cause: Seq<char>, sentence: Seq<char>) -> bool {
    &&& error::message(f, cause) == sentence
    &&& cli::refusal(f, cause) == FailureView::Error(sentence)
}

} // verus!
