//! Where everything stands in an image: the volume information, the allocation
//! block map and the directory of a sector image, and the header of a DiskCopy
//! 4.2 container, byte by byte; and which images can be opened at all.

use crate::blockmap;
use crate::dc42;
use crate::dir::{self, EntryView};
use crate::error::Fault;
use crate::mdb;
use crate::model::{self, ContainerView, VolumeView};
use crate::util;
use crate::volume::{Fork, ImageFormat};
use vstd::prelude::*;

verus! {

// --------------------------------------------------------------------- numbers

/// The number that bytes stand for, the first being the most significant.
pub open spec fn number(bytes: Seq<u8>) -> nat
    decreases bytes.len(),
{
    if bytes.len() == 0 {
        0
    } else {
        number(bytes.drop_last()) * 256 + bytes.last() as nat
    }
}

/// The number in the `n` bytes from byte `off` of `s` on.
pub open spec fn number_at(s: Seq<u8>, off: int, n: int) -> nat {
    number(s.subrange(off, off + n))
}

/// The number in one byte, two, three and four.
proof fn lemma_few(s: Seq<u8>, off: int)
    requires
        0 <= off,
    ensures
        off + 2 <= s.len() ==> number_at(s, off, 2) == s[off] * 256 + s[off + 1],
        off + 3 <= s.len() ==> number_at(s, off, 3) == s[off] * 65536 + s[off + 1] * 256 + s[off
            + 2],
        off + 4 <= s.len() ==> number_at(s, off, 4) == s[off] * 16777216 + s[off + 1] * 65536 + s[off
            + 2] * 256 + s[off + 3],
{
    reveal_with_fuel(number, 5);
    if off + 2 <= s.len() {
        let t = s.subrange(off, off + 2);
        assert(t.drop_last().drop_last() =~= Seq::<u8>::empty());
    }
    if off + 3 <= s.len() {
        let t = s.subrange(off, off + 3);
        assert(t.drop_last().drop_last().drop_last() =~= Seq::<u8>::empty());
    }
    if off + 4 <= s.len() {
        let t = s.subrange(off, off + 4);
        assert(t.drop_last().drop_last().drop_last().drop_last() =~= Seq::<u8>::empty());
    }
}

/// Numbers are read big end first.
pub proof fn lemma_numbers_read(s: Seq<u8>, off: int)
    requires
        0 <= off,
    ensures
        off + 2 <= s.len() ==> util::be16(s, off) == number_at(s, off, 2),
        off + 4 <= s.len() ==> util::be32(s, off) == number_at(s, off, 4),
{
    lemma_few(s, off);
}

/// Numbers are written big end first, in two and in four bytes.
pub proof fn lemma_numbers_written(v: u16, w: u32)
    ensures
        util::be16_bytes(v).len() == 2,
        number(util::be16_bytes(v)) == v,
        util::be32_bytes(w).len() == 4,
        number(util::be32_bytes(w)) == w,
{
    let a = util::be16_bytes(v);
    let b = util::be32_bytes(w);
    lemma_few(a, 0);
    lemma_few(b, 0);
    assert(a.subrange(0, 2) =~= a);
    assert(b.subrange(0, 4) =~= b);
}

// ---------------------------------------------------------- the sector image

/// The volume information of an opened image stands from byte 1024 on.
#[verifier::rlimit(60)]
pub proof fn lemma_information_read(data: Seq<u8>, container: ContainerView)
    requires
        model::parts_outcome(data, container) is Ok,
    ensures
        model::parts_outcome(data, container) matches Ok(v) && {
            &&& v.data == data
            &&& v.container == container
            &&& !v.dir_dirty
            &&& v.mdb.sig_word == number_at(data, 1024, 2)
            &&& v.mdb.cr_date == number_at(data, 1026, 4)
            &&& v.mdb.ls_mod == number_at(data, 1030, 4)
            &&& v.mdb.atrb == number_at(data, 1034, 2)
            &&& v.mdb.nm_fls == number_at(data, 1036, 2)
            &&& v.mdb.dir_st == number_at(data, 1038, 2)
            &&& v.mdb.dir_len == number_at(data, 1040, 2)
            &&& v.mdb.nm_al_blks == number_at(data, 1042, 2)
            &&& v.mdb.al_blk_siz == number_at(data, 1044, 4)
            &&& v.mdb.clp_siz == number_at(data, 1048, 4)
            &&& v.mdb.al_bl_st == number_at(data, 1052, 2)
            &&& v.mdb.nxt_fnum == number_at(data, 1054, 4)
            &&& v.mdb.free_bks == number_at(data, 1058, 2)
            &&& v.mdb.name_raw == data.subrange(1060, 1088)
        },
{
    let region = data.skip(1024);
    lemma_numbers_read(data, 1024);
    lemma_numbers_read(data, 1026);
    lemma_numbers_read(data, 1030);
    lemma_numbers_read(data, 1034);
    lemma_numbers_read(data, 1036);
    lemma_numbers_read(data, 1038);
    lemma_numbers_read(data, 1040);
    lemma_numbers_read(data, 1042);
    lemma_numbers_read(data, 1044);
    lemma_numbers_read(data, 1048);
    lemma_numbers_read(data, 1052);
    lemma_numbers_read(data, 1054);
    lemma_numbers_read(data, 1058);
    assert(region.subrange(36, 64) =~= data.subrange(1060, 1088));
}

/// The allocation block map of an opened image stands from byte 1088 on, two
/// entries in every three bytes, the first of them in the upper half.
pub proof fn lemma_map_read(data: Seq<u8>, container: ContainerView, k: int)
    requires
        model::parts_outcome(data, container) is Ok,
        0 <= k,
    ensures
        model::parts_outcome(data, container) matches Ok(v) && {
            &&& v.map.len() == number_at(data, 1042, 2)
            &&& 2 * k + 1 < v.map.len() ==> {
                &&& v.map[2 * k] * 4096 + v.map[2 * k + 1] == number_at(data, 1088 + 3 * k, 3)
                &&& v.map[2 * k] < 4096 && v.map[2 * k + 1] < 4096
            }
            &&& 2 * k + 1 == v.map.len() ==> v.map[2 * k] == number_at(data, 1088 + 3 * k, 2) / 16
        },
{
    lemma_information_read(data, container);
    let v = model::parts_outcome(data, container)->Ok_0;
    let raw = data.subrange(1088, model::dir_start(v.mdb));
    assert(v.map =~= blockmap::unpacked(raw, v.mdb.nm_al_blks as nat));
    if 2 * k < v.map.len() {
        lemma_few(data, 1088 + 3 * k);
        let o = 3 * k;
        assert((2 * k) / 2 * 3 == o && (2 * k + 1) / 2 * 3 == o);
        assert(v.map[2 * k] == blockmap::entry_at(raw, 2 * k));
        assert(raw[o] == data[1088 + o] && raw[o + 1] == data[1088 + o + 1]);
        if 2 * k + 1 < v.map.len() {
            assert(v.map[2 * k + 1] == blockmap::entry_at(raw, 2 * k + 1));
            assert(raw[o + 2] == data[1088 + o + 2]);
        }
    }
}

/// Where the fields of a directory entry stand.
#[verifier::rlimit(60)]
pub proof fn lemma_entry_read(s: Seq<u8>, at: int)
    requires
        0 <= at,
        at + 51 <= s.len(),
        at + 51 + s[at + 50] <= s.len(),
    ensures
        ({
            let e = dir::entry_from(s, at);
            &&& e.flags == s[at]
            &&& e.version == s[at + 1]
            &&& e.type_code == s.subrange(at + 2, at + 6)
            &&& e.creator == s.subrange(at + 6, at + 10)
            &&& e.fndr_flags == number_at(s, at + 10, 2)
            &&& e.pos == number_at(s, at + 12, 4)
            &&& e.fldr_num == number_at(s, at + 16, 2)
            &&& e.fnum == number_at(s, at + 18, 4)
            &&& e.df_st_blk == number_at(s, at + 22, 2)
            &&& e.df_log_len == number_at(s, at + 24, 4)
            &&& e.df_alloc_len == number_at(s, at + 28, 4)
            &&& e.rf_st_blk == number_at(s, at + 32, 2)
            &&& e.rf_log_len == number_at(s, at + 34, 4)
            &&& e.rf_alloc_len == number_at(s, at + 38, 4)
            &&& e.cr_dat == number_at(s, at + 42, 4)
            &&& e.md_dat == number_at(s, at + 46, 4)
            &&& e.name.len() == s[at + 50]
            &&& e.name == s.subrange(at + 51, at + 51 + s[at + 50])
        }),
{
    reveal(dir::entry_from);
    lemma_numbers_read(s, at + 10);
    lemma_numbers_read(s, at + 12);
    lemma_numbers_read(s, at + 16);
    lemma_numbers_read(s, at + 18);
    lemma_numbers_read(s, at + 22);
    lemma_numbers_read(s, at + 24);
    lemma_numbers_read(s, at + 28);
    lemma_numbers_read(s, at + 32);
    lemma_numbers_read(s, at + 34);
    lemma_numbers_read(s, at + 38);
    lemma_numbers_read(s, at + 42);
    lemma_numbers_read(s, at + 46);
}

/// The length of the directory entry at byte `at` of `s`: 51 bytes and its name,
/// and one more where that is odd.
pub open spec fn entry_length(s: Seq<u8>, at: int) -> int {
    let n = 51 + s[at + 50];
    if n % 2 == 0 {
        n
    } else {
        n + 1
    }
}

/// Whether byte `p` of a directory is where an entry in use begins that does
/// not reach into the next sector.
pub open spec fn begins_entry(region: Seq<u8>, p: int) -> bool {
    &&& 0 <= p < region.len()
    &&& p % 512 + 51 <= 512
    &&& region[p] >= 128
    &&& p % 512 + entry_length(region, p) <= 512
}

/// Whether the entries of a directory from byte `from` on are those that begin
/// at `at`: none overlaps another, each stands at the beginning of a sector or
/// right behind the one before it, and wherever an entry in use stands in such
/// a place it is among them.
pub open spec fn entries_begin(
    region: Seq<u8>,
    from: int,
    at: Seq<int>,
    entries: Seq<EntryView>,
) -> bool {
    &&& at.len() == entries.len()
    &&& forall|i: int|
        0 <= i < at.len() ==> {
            &&& from <= #[trigger] at[i]
            &&& begins_entry(region, at[i])
            &&& entries[i] == dir::entry_from(region, at[i])
        }
    &&& forall|i: int|
        0 <= i < at.len() ==> {
            ||| #[trigger] at[i] == from
            ||| at[i] % 512 == 0
            ||| i > 0 && at[i] == at[i - 1] + entry_length(region, at[i - 1])
        }
    &&& forall|i: int, j: int|
        0 <= i < j < at.len() ==> #[trigger] at[i] + entry_length(region, at[i])
            <= #[trigger] at[j]
    &&& forall|i: int|
        0 <= i < at.len() ==> {
            let next = #[trigger] at[i] + entry_length(region, at[i]);
            at[i] % 512 + entry_length(region, at[i]) + 51 <= 512 && region[next] >= 128
                ==> at.contains(next)
        }
    &&& forall|p: int|
        from < p < region.len() && p % 512 == 0 && #[trigger] region[p] >= 128 ==> at.contains(p)
    &&& from < region.len() && from % 512 + 51 <= 512 && region[from] >= 128 ==> at.contains(from)
}

/// The entries from byte `pos` of the sector at `off` on stand where they should.
#[verifier::rlimit(60)]
proof fn lemma_entries_begin(region: Seq<u8>, off: nat, pos: nat) -> (at: Seq<int>)
    requires
        region.len() % 512 == 0,
        off % 512 == 0,
        pos < 512,
        off <= region.len(),
        dir::entries_from(region, off, pos) is Ok,
    ensures
        entries_begin(
            region,
            (off + pos) as int,
            at,
            dir::entries_from(region, off, pos)->Ok_0,
        ),
    decreases region.len() - off, 512 - pos,
{
    let all = dir::entries_from(region, off, pos)->Ok_0;
    let from = off + pos;
    if off + 512 > region.len() {
        assert(off == region.len());
        Seq::empty()
    } else if pos + 51 > 512 || region[from as int] < 128 {
        let at = lemma_entries_begin(region, off + 512, 0);
        assert(entries_begin(region, (off + 512) as int, at, all));
        assert forall|p: int|
            from < p < region.len() && p % 512 == 0 && #[trigger] region[p] >= 128 implies at.contains(
            p,
        ) by {
            assert(p >= off + 512);
            assert(at.contains(p));
        }
        assert(from % 512 == pos);
        at
    } else {
        let len = dir::entry_size(region[from as int + 50] as nat);
        assert(len == entry_length(region, from as int));
        assert(from % 512 == pos);
        let rest = dir::entries_from(region, off, pos + len)->Ok_0;
        assert(all == seq![dir::entry_from(region, from as int)] + rest);
        if pos + len < 512 {
            let t = lemma_entries_begin(region, off, pos + len);
            lemma_entry_before(region, off, pos, from + len, t, rest)
        } else {
            // The sector is full: what follows begins with the next one.
            assert(dir::entries_from(region, off, pos + len) == dir::entries_from(
                region,
                off + 512,
                0,
            ));
            let t = lemma_entries_begin(region, off + 512, 0);
            lemma_entry_before(region, off, pos, from + len, t, rest)
        }
    }
}

/// An entry and those that begin behind it.
#[verifier::rlimit(60)]
proof fn lemma_entry_before(
    region: Seq<u8>,
    off: nat,
    pos: nat,
    next: nat,
    t: Seq<int>,
    rest: Seq<EntryView>,
) -> (at: Seq<int>)
    requires
        region.len() % 512 == 0,
        off % 512 == 0,
        pos < 512,
        off + pos < region.len(),
        begins_entry(region, (off + pos) as int),
        next == off + pos + entry_length(region, (off + pos) as int),
        entries_begin(region, next as int, t, rest),
    ensures
        entries_begin(
            region,
            (off + pos) as int,
            at,
            seq![dir::entry_from(region, (off + pos) as int)] + rest,
        ),
{
    let from = (off + pos) as int;
    let at = seq![from] + t;
    assert(from % 512 == pos);
    assert forall|p: int| t.contains(p) implies at.contains(p) by {
        let i = choose|i: int| 0 <= i < t.len() && t[i] == p;
        assert(at[i + 1] == p);
    }
    assert(at[0] == from);
    let all = seq![dir::entry_from(region, from)] + rest;
    assert forall|i: int| 0 <= i < at.len() implies {
        &&& from <= #[trigger] at[i]
        &&& begins_entry(region, at[i])
        &&& all[i] == dir::entry_from(region, at[i])
    } by {
        if i > 0 {
            assert(at[i] == t[i - 1]);
        }
    }
    assert forall|i: int| 0 <= i < at.len() implies {
        ||| #[trigger] at[i] == from
        ||| at[i] % 512 == 0
        ||| i > 0 && at[i] == at[i - 1] + entry_length(region, at[i - 1])
    } by {
        if i > 0 {
            assert(at[i] == t[i - 1]);
            if i > 1 {
                assert(at[i - 1] == t[i - 2]);
            } else if t[0] == next {
                assert(at[1] == at[0] + entry_length(region, at[0]));
            }
            if i > 1 && t[i - 1] == next {
                assert(t[0] + entry_length(region, t[0]) <= t[i - 1]);
            }
        }
    }
    assert forall|i: int, j: int| 0 <= i < j < at.len() implies #[trigger] at[i] + entry_length(
        region,
        at[i],
    ) <= #[trigger] at[j] by {
        assert(at[j] == t[j - 1]);
        if i > 0 {
            assert(at[i] == t[i - 1]);
        }
    }
    assert forall|i: int| 0 <= i < at.len() implies {
        let n = #[trigger] at[i] + entry_length(region, at[i]);
        at[i] % 512 + entry_length(region, at[i]) + 51 <= 512 && region[n] >= 128 ==> at.contains(n)
    } by {
        if i > 0 {
            assert(at[i] == t[i - 1]);
        } else if from % 512 + entry_length(region, from) + 51 <= 512 && region[next as int]
            >= 128 {
            assert(next % 512 == pos + entry_length(region, from));
            assert(region.len() >= off + 512);
            assert(t.contains(next as int));
        }
    }
    assert forall|p: int|
        from < p < region.len() && p % 512 == 0 && #[trigger] region[p] >= 128 implies at.contains(
        p,
    ) by {
        assert(p >= off + 512);
        if p == next {
            assert(next % 512 == 0);
            assert(t.contains(p));
        } else {
            assert(t.contains(p));
        }
    }
    at
}

/// The sectors of a sector image that hold its directory: which is the first of
/// them, and how many there are, stand in the volume information.
pub open spec fn directory_region(data: Seq<u8>) -> Seq<u8> {
    let first = number_at(data, 1038, 2) as int;
    let sectors = number_at(data, 1040, 2) as int;
    data.subrange(512 * first, 512 * (first + sectors))
}

/// The directory of an opened image stands in the sectors that the volume
/// information names; `at` is where its entries begin.
pub proof fn lemma_directory_read(data: Seq<u8>, container: ContainerView) -> (at: Seq<int>)
    requires
        model::parts_outcome(data, container) is Ok,
    ensures
        model::parts_outcome(data, container) matches Ok(v) && entries_begin(
            directory_region(data),
            0,
            at,
            v.entries,
        ),
{
    lemma_information_read(data, container);
    let v = model::parts_outcome(data, container)->Ok_0;
    let region = data.subrange(model::dir_start(v.mdb), model::dir_end(v.mdb));
    assert(region.len() == 512 * v.mdb.dir_len);
    lemma_entries_begin(region, 0, 0)
}

/// Whether the regions that a sector image says it has lie inside it, one behind
/// the other: the volume information with the map, the directory, and the
/// allocation blocks.
pub open spec fn regions_sound(data: Seq<u8>) -> bool {
    let dir_first = number_at(data, 1038, 2);
    let dir_sectors = number_at(data, 1040, 2);
    let blocks = number_at(data, 1042, 2);
    let block_size = number_at(data, 1044, 4);
    let blocks_first = number_at(data, 1052, 2);
    &&& block_size > 0 && block_size % 512 == 0
    &&& dir_sectors > 0
    &&& dir_first > 2
    &&& 2 * (512 * dir_first - 1088) >= 3 * blocks
    &&& dir_first + dir_sectors <= blocks_first
    &&& 512 * (dir_first + dir_sectors) <= data.len()
    &&& 512 * blocks_first + blocks * block_size <= data.len()
}

/// A sector image can be opened if and only if it is long enough, has the
/// signature of an MFS volume and a volume name of at most 27 bytes, its regions
/// are sound, and no directory entry reaches into the next sector.
#[verifier::rlimit(60)]
pub proof fn lemma_opens(data: Seq<u8>, container: ContainerView)
    ensures
        model::parts_outcome(data, container) is Ok <==> {
            &&& data.len() >= 1088
            &&& number_at(data, 1024, 2) == 0xD2D7
            &&& data[1060] <= 27
            &&& regions_sound(data)
            &&& dir::parse_outcome(directory_region(data)) is Ok
        },
{
    if data.len() >= 1088 {
        let region = data.skip(1024);
        let m = mdb::fields_at(region);
        lemma_numbers_read(data, 1024);
        lemma_numbers_read(data, 1038);
        lemma_numbers_read(data, 1040);
        lemma_numbers_read(data, 1042);
        lemma_numbers_read(data, 1044);
        lemma_numbers_read(data, 1052);
        assert(m.name_raw[0] == data[1060]);
        assert(m.sig_word == number_at(data, 1024, 2));
        assert(m.dir_st == number_at(data, 1038, 2));
        assert(m.dir_len == number_at(data, 1040, 2));
        assert(m.nm_al_blks == number_at(data, 1042, 2));
        assert(m.al_blk_siz == number_at(data, 1044, 4));
        assert(m.al_bl_st == number_at(data, 1052, 2));
        assert(model::dir_end(m) == 512 * (m.dir_st + m.dir_len));
    }
}

/// Where reading a directory fails, an entry in use reaches into the next
/// sector, and that is what is said.
proof fn lemma_overrun_from(region: Seq<u8>, off: nat, pos: nat) -> (p: int)
    requires
        region.len() % 512 == 0,
        off % 512 == 0,
        pos <= 512,
        dir::entries_from(region, off, pos) is Err,
    ensures
        dir::entries_from(region, off, pos) == Err::<Seq<EntryView>, Fault>(
            Fault::CorruptVolume("directory entry overruns sector"@),
        ),
        off + pos <= p < region.len(),
        p % 512 + 51 <= 512,
        region[p] >= 128,
        p % 512 + entry_length(region, p) > 512,
    decreases region.len() - off, 512 - pos,
{
    let from = (off + pos) as int;
    if pos + 51 > 512 || region[from] < 128 {
        lemma_overrun_from(region, off + 512, 0)
    } else {
        let len = dir::entry_size(region[from + 50] as nat);
        assert(len == entry_length(region, from));
        assert(from % 512 == pos);
        if pos + len > 512 {
            from
        } else {
            lemma_overrun_from(region, off, pos + len)
        }
    }
}

/// Reading a directory fails where an entry in use, the one at `p`, reaches into
/// the next sector, and that is what is said.
pub proof fn lemma_overrun(region: Seq<u8>) -> (p: int)
    requires
        region.len() % 512 == 0,
        dir::parse_outcome(region) is Err,
    ensures
        dir::parse_outcome(region) == Err::<Seq<EntryView>, Fault>(
            Fault::CorruptVolume("directory entry overruns sector"@),
        ),
        0 <= p < region.len(),
        p % 512 + 51 <= 512,
        region[p] >= 128,
        p % 512 + entry_length(region, p) > 512,
{
    lemma_overrun_from(region, 0, 0)
}

/// An image is taken for a container if its header is sound, else for a bare
/// sector image if it is made of whole sectors and has the signature of an MFS
/// volume; anything else is refused, an HFS volume as such.
pub proof fn lemma_detected(bytes: Seq<u8>)
    ensures
        ({
            let wrapped = header_sound(bytes);
            let signature = number_at(bytes, 1024, 2);
            let bare = bytes.len() % 512 == 0 && bytes.len() >= 1088 && signature == 0xD2D7;
            &&& wrapped ==> model::open_outcome(bytes) == model::forced_outcome(
                bytes,
                ImageFormat::DiskCopy42,
            )
            &&& !wrapped && bare ==> model::open_outcome(bytes) == model::forced_outcome(
                bytes,
                ImageFormat::Raw,
            )
            &&& !wrapped && !bare ==> model::open_outcome(bytes) == Err::<model::VolumeView, Fault>(
                if bytes.len() >= 1088 && signature == 0x4244 {
                    Fault::UnsupportedHfs
                } else {
                    Fault::UnknownImageFormat
                },
            )
        }),
{
    lemma_header_sound(bytes);
    if bytes.len() >= 1088 {
        lemma_numbers_read(bytes, 1024);
    }
}

// -------------------------------------------------------------- the container

/// Whether bytes begin with the header of a container that is as long as they
/// are.
pub open spec fn header_sound(bytes: Seq<u8>) -> bool {
    &&& bytes.len() >= 84
    &&& number_at(bytes, 82, 2) == 0x0100
    &&& bytes[0] <= 63
    &&& bytes.len() == 84 + number_at(bytes, 64, 4) + number_at(bytes, 68, 4)
}

/// What a sound header is.
proof fn lemma_header_sound(bytes: Seq<u8>)
    ensures
        dc42::header_outcome(bytes) is Ok <==> header_sound(bytes),
{
    if bytes.len() >= 84 {
        lemma_numbers_read(bytes, 82);
        lemma_numbers_read(bytes, 64);
        lemma_numbers_read(bytes, 68);
    }
}

/// A container can be opened if and only if its header is sound and both sums in
/// it are those of what it holds; and where its parts stand.
pub proof fn lemma_container_read(bytes: Seq<u8>)
    ensures
        ({
            let n = number_at(bytes, 64, 4) as int;
            let data = bytes.subrange(84, 84 + n);
            let tags = bytes.subrange(84 + n, bytes.len() as int);
            &&& dc42::parse_outcome(bytes) is Ok <==> {
                &&& header_sound(bytes)
                &&& number_at(bytes, 72, 4) == dc42::data_sum(data)
                &&& number_at(bytes, 76, 4) == dc42::tag_sum(tags)
            }
            &&& dc42::parse_outcome(bytes) matches Ok(c) ==> {
                &&& c.name == bytes.subrange(1, 1 + bytes[0])
                &&& c.name + c.padding == bytes.subrange(1, 64)
                &&& c.data == data
                &&& c.tags == tags
                &&& c.disk_format == bytes[80]
                &&& c.format_byte == bytes[81]
            }
        }),
{
    lemma_header_sound(bytes);
    if header_sound(bytes) {
        lemma_numbers_read(bytes, 64);
        lemma_numbers_read(bytes, 72);
        lemma_numbers_read(bytes, 76);
        let n = number_at(bytes, 64, 4) as int;
        assert(bytes.skip(84 + n) =~= bytes.subrange(84 + n, bytes.len() as int));
        let c = dc42::contents(bytes);
        assert(c.name + c.padding =~= bytes.subrange(1, 64));
    }
}

/// Adding bytes to a sum, one piece after the other.
proof fn lemma_sum_joined(sum: u32, a: Seq<u8>, b: Seq<u8>)
    requires
        a.len() % 2 == 0,
    ensures
        dc42::sum_from(sum, a + b) == dc42::sum_from(dc42::sum_from(sum, a), b),
    decreases a.len(),
{
    if a.len() == 0 {
        assert(a + b =~= b);
    } else {
        let w = util::be16(a, 0);
        assert(util::be16(a + b, 0) == w);
        assert((a + b).skip(2) =~= a.skip(2) + b);
        lemma_sum_joined(dc42::rolled(sum, w), a.skip(2), b);
    }
}

/// A sum begins at zero. With one more word it is what it was plus the word,
/// modulo 2^32, turned to the right by one bit: turned back, it is that again. An
/// odd byte at the end adds nothing.
pub proof fn lemma_sums(a: Seq<u8>, word: Seq<u8>, odd: u8)
    requires
        a.len() % 2 == 0,
        word.len() == 2,
    ensures
        dc42::data_sum(Seq::empty()) == 0,
        ({
            let s = dc42::data_sum(a + word);
            (2 * s) % 0x1_0000_0000 + (2 * s) / 0x1_0000_0000 == (dc42::data_sum(a) + number(word))
                % 0x1_0000_0000
        }),
        dc42::data_sum(a + seq![odd]) == dc42::data_sum(a),
{
    lemma_sum_joined(0, a, word);
    lemma_sum_joined(0, a, seq![odd]);
    lemma_numbers_read(word, 0);
    assert(word.subrange(0, 2) =~= word);
    let c = dc42::data_sum(a);
    assert(dc42::sum_from(dc42::rolled(c, util::be16(word, 0)), word.skip(2)) == dc42::rolled(
        c,
        util::be16(word, 0),
    ));
}

/// The sum of tag bytes is that of those behind the first sector's twelve.
pub proof fn lemma_tag_sums(first: Seq<u8>, rest: Seq<u8>)
    requires
        first.len() == 12,
    ensures
        dc42::tag_sum(first + rest) == dc42::data_sum(rest),
{
    assert((first + rest).skip(12) =~= rest);
}

/// A new container is made for the two sizes of floppies alone. It has the name,
/// or its first 63 bytes, with zeros behind it, the data, and twelve zero tag
/// bytes for each sector; its format bytes tell the sizes apart.
pub proof fn lemma_new_container(name: Seq<u8>, data: Seq<u8>)
    ensures
        dc42::blank_outcome(name, data) is Ok <==> data.len() == 800 * 512 || data.len() == 1600
            * 512,
        dc42::blank_outcome(name, data) matches Ok(c) ==> {
            &&& name.len() <= 63 ==> c.name == name
            &&& name.len() > 63 ==> c.name == name.subrange(0, 63)
            &&& c.padding.len() == 63 - c.name.len()
            &&& forall|i: int| 0 <= i < c.padding.len() ==> c.padding[i] == 0
            &&& c.data == data
            &&& c.tags.len() * 512 == 12 * data.len()
            &&& forall|i: int| 0 <= i < c.tags.len() ==> c.tags[i] == 0
            &&& data.len() == 800 * 512 ==> c.disk_format == 0 && c.format_byte == 0x02
            &&& data.len() == 1600 * 512 ==> c.disk_format == 1 && c.format_byte == 0x22
        },
{
}

// --------------------------------------------------------------------- writing

/// A map is written two entries to every three bytes, the first of them in the
/// upper half. Behind a last entry that has no other, half a byte is left as it
/// was, and so is everything that follows.
pub proof fn lemma_map_written(map: Seq<u16>, out: Seq<u8>, k: int)
    requires
        blockmap::well_formed(map),
        2 * out.len() >= 3 * map.len(),
        0 <= k,
    ensures
        ({
            let b = blockmap::packed(map, out);
            &&& b.len() == out.len()
            &&& 2 * k + 1 < map.len() ==> number_at(b, 3 * k, 3) == map[2 * k] * 4096 + map[2 * k
                + 1]
            &&& 2 * k + 1 == map.len() ==> number_at(b, 3 * k, 2) == map[2 * k] * 16 + out[3 * k
                + 1] % 16
            &&& 2 * k >= 3 * map.len() && k < out.len() ==> b[k] == out[k]
        }),
{
    let b = blockmap::packed(map, out);
    if 2 * k < map.len() {
        lemma_few(b, 3 * k);
        assert((3 * k) / 3 * 2 == 2 * k && (3 * k + 1) / 3 * 2 == 2 * k && (3 * k + 2) / 3 * 2 == 2
            * k);
        assert((3 * k) % 3 == 0 && (3 * k + 1) % 3 == 1 && (3 * k + 2) % 3 == 2);
        assert(map[2 * k] <= 0xFFF);
        if 2 * k + 1 < map.len() {
            assert(map[2 * k + 1] <= 0xFFF);
        }
    }
}

/// A container is written as its header, the data and the tags. In the header
/// stand the name, cut to 63 bytes, with its padding or zeros behind it, both
/// lengths, both sums, the format bytes and the magic number.
#[verifier::rlimit(60)]
pub proof fn lemma_container_written(c: dc42::Dc42View)
    requires
        c.data.len() <= u32::MAX,
        c.tags.len() <= u32::MAX,
    ensures
        ({
            let b = dc42::container(c);
            let n = if c.name.len() <= 63 {
                c.name.len() as int
            } else {
                63
            };
            &&& b.len() == 84 + c.data.len() + c.tags.len()
            &&& b[0] == n
            &&& b.subrange(1, 1 + n) == c.name.subrange(0, n)
            &&& forall|i: int|
                0 <= i < 63 - n ==> #[trigger] b[1 + n + i] == (if i < c.padding.len() {
                    c.padding[i]
                } else {
                    0
                })
            &&& number_at(b, 64, 4) == c.data.len()
            &&& number_at(b, 68, 4) == c.tags.len()
            &&& number_at(b, 72, 4) == dc42::data_sum(c.data)
            &&& number_at(b, 76, 4) == dc42::tag_sum(c.tags)
            &&& b[80] == c.disk_format
            &&& b[81] == c.format_byte
            &&& number_at(b, 82, 2) == 0x0100
            &&& b.subrange(84, 84 + c.data.len() as int) == c.data
            &&& b.subrange(84 + c.data.len() as int, b.len() as int) == c.tags
        }),
{
    let b = dc42::container(c);
    let short = dc42::short_name(c.name);
    let n = short.len() as int;
    let h = dc42::header(c);
    assert(h.len() == 84);
    assert(short =~= c.name.subrange(0, n));
    assert(b.subrange(1, 1 + n) =~= short);
    assert(b.subrange(64, 68) =~= util::be32_bytes(c.data.len() as u32));
    assert(b.subrange(68, 72) =~= util::be32_bytes(c.tags.len() as u32));
    assert(b.subrange(72, 76) =~= util::be32_bytes(dc42::data_sum(c.data)));
    assert(b.subrange(76, 80) =~= util::be32_bytes(dc42::tag_sum(c.tags)));
    assert(b.subrange(82, 84) =~= util::be16_bytes(0x0100));
    assert(b.subrange(84, 84 + c.data.len() as int) =~= c.data);
    assert(b.subrange(84 + c.data.len() as int, b.len() as int) =~= c.tags);
    lemma_numbers_written(0x0100, c.data.len() as u32);
    lemma_numbers_written(0x0100, c.tags.len() as u32);
    lemma_numbers_written(0x0100, dc42::data_sum(c.data));
    lemma_numbers_written(0x0100, dc42::tag_sum(c.tags));
}

/// The volume information is written as it is read: every field in its place, and
/// the name as it is.
pub proof fn lemma_information_written(m: mdb::MdbView)
    requires
        m.name_raw.len() == 28,
    ensures
        ({
            let b = mdb::bytes_of(m);
            &&& b.len() == 64
            &&& number_at(b, 0, 2) == m.sig_word
            &&& number_at(b, 2, 4) == m.cr_date
            &&& number_at(b, 6, 4) == m.ls_mod
            &&& number_at(b, 10, 2) == m.atrb
            &&& number_at(b, 12, 2) == m.nm_fls
            &&& number_at(b, 14, 2) == m.dir_st
            &&& number_at(b, 16, 2) == m.dir_len
            &&& number_at(b, 18, 2) == m.nm_al_blks
            &&& number_at(b, 20, 4) == m.al_blk_siz
            &&& number_at(b, 24, 4) == m.clp_siz
            &&& number_at(b, 28, 2) == m.al_bl_st
            &&& number_at(b, 30, 4) == m.nxt_fnum
            &&& number_at(b, 34, 2) == m.free_bks
            &&& b.subrange(36, 64) == m.name_raw
        }),
{
    let b = mdb::bytes_of(m);
    mdb::lemma_bytes_of(m);
    lemma_numbers_written(m.sig_word, m.cr_date);
    lemma_numbers_written(m.atrb, m.ls_mod);
    lemma_numbers_written(m.nm_fls, m.al_blk_siz);
    lemma_numbers_written(m.dir_st, m.clp_siz);
    lemma_numbers_written(m.dir_len, m.nxt_fnum);
    lemma_numbers_written(m.nm_al_blks, 0);
    lemma_numbers_written(m.al_bl_st, 0);
    lemma_numbers_written(m.free_bks, 0);
    assert(b.subrange(0, 2) =~= util::be16_bytes(m.sig_word));
    assert(b.subrange(2, 6) =~= util::be32_bytes(m.cr_date));
    assert(b.subrange(6, 10) =~= util::be32_bytes(m.ls_mod));
    assert(b.subrange(10, 12) =~= util::be16_bytes(m.atrb));
    assert(b.subrange(12, 14) =~= util::be16_bytes(m.nm_fls));
    assert(b.subrange(14, 16) =~= util::be16_bytes(m.dir_st));
    assert(b.subrange(16, 18) =~= util::be16_bytes(m.dir_len));
    assert(b.subrange(18, 20) =~= util::be16_bytes(m.nm_al_blks));
    assert(b.subrange(20, 24) =~= util::be32_bytes(m.al_blk_siz));
    assert(b.subrange(24, 28) =~= util::be32_bytes(m.clp_siz));
    assert(b.subrange(28, 30) =~= util::be16_bytes(m.al_bl_st));
    assert(b.subrange(30, 34) =~= util::be32_bytes(m.nxt_fnum));
    assert(b.subrange(34, 36) =~= util::be16_bytes(m.free_bks));
    assert(b.subrange(36, 64) =~= m.name_raw);
}

// ------------------------------------------------------------------------ forks

/// The bytes of some blocks, one by one.
proof fn lemma_block_bytes(v: VolumeView, blocks: Seq<u16>, k: int)
    requires
        v.wf(),
        forall|i: int| 0 <= i < blocks.len() ==> blockmap::has_block(v.map, #[trigger] blocks[i]),
        0 <= k < blocks.len() * (v.mdb.al_blk_siz as int),
    ensures
        ({
            let size = v.mdb.al_blk_siz as int;
            let b = blocks[k / size];
            &&& 0 <= k / size < blocks.len()
            &&& k < model::chain_bytes(v.data, v.mdb, blocks).len()
            &&& model::chain_bytes(v.data, v.mdb, blocks)[k] == v.data[512 * v.mdb.al_bl_st + (b
                - 2) * size + k % size]
        }),
    decreases blocks.len(),
{
    let size = v.mdb.al_blk_siz as int;
    let n = blocks.len() as int;
    assert(n > 0) by (nonlinear_arith)
        requires
            0 <= k < n * size,
            n >= 0,
    ;
    assert(blockmap::has_block(v.map, blocks[0]));
    model::lemma_block_inside(v, blocks[0]);
    model::lemma_chain_bytes_len(v, blocks);
    let rest = blocks.skip(1);
    if k < size {
        vstd::arithmetic::div_mod::lemma_fundamental_div_mod_converse(k, size, 0, k);
        assert(0 * size == 0);
    } else {
        assert forall|i: int| 0 <= i < rest.len() implies blockmap::has_block(
            v.map,
            #[trigger] rest[i],
        ) by {
            assert(rest[i] == blocks[i + 1]);
        }
        assert((n - 1) * size == n * size - size) by (nonlinear_arith);
        lemma_block_bytes(v, rest, k - size);
        let q = (k - size) / size;
        let r = (k - size) % size;
        vstd::arithmetic::div_mod::lemma_fundamental_div_mod(k - size, size);
        assert((q + 1) * size == size * q + size) by (nonlinear_arith);
        vstd::arithmetic::div_mod::lemma_fundamental_div_mod_converse(k, size, q + 1, r);
        assert(rest[q] == blocks[q + 1]);
    }
}

/// What a fork holds stands in its blocks: byte `k` in the block that comes up
/// after so many whole blocks, the first allocation block, number two, being
/// where the volume information says.
pub proof fn lemma_fork_bytes(v: VolumeView, name: Seq<char>, fork: Fork, k: int)
    requires
        v.wf(),
        model::read_outcome(v, name, fork) matches Ok(bytes) && 0 <= k < bytes.len(),
    ensures
        ({
            let e = v.entries[model::lookup(v.entries, name)->0 as int];
            let start = match fork {
                Fork::Data => e.df_st_blk,
                Fork::Resource => e.rf_st_blk,
            };
            let size = v.mdb.al_blk_siz as int;
            let chain = blockmap::chain_from(v.map, start);
            &&& chain matches Ok(s) && 0 <= k / size < s.len() && model::read_outcome(
                v,
                name,
                fork,
            )->Ok_0[k] == v.data[512 * v.mdb.al_bl_st + (s[k / size] - 2) * size + k % size]
        }),
{
    let e = v.entries[model::lookup(v.entries, name)->0 as int];
    let start = model::fork_start(e, fork);
    let chain = blockmap::chain_from(v.map, start)->Ok_0;
    let len = model::fork_len(e, fork) as int;
    if start != 0 {
        blockmap::lemma_chain_found(v.map, start, chain);
        assert forall|i: int| 0 <= i < chain.len() implies blockmap::has_block(
            v.map,
            #[trigger] chain[i],
        ) by {}
        model::lemma_chain_bytes_len(v, chain);
        let bytes = model::chain_bytes(v.data, v.mdb, chain);
        assert(len <= bytes.len());
        assert(bytes.take(len).len() == len);
        lemma_block_bytes(v, chain, k);
    }
}

/// The field of a volume name holds its length, its bytes, and zeros behind them.
pub proof fn lemma_name_field(name: Seq<u8>)
    requires
        name.len() <= 27,
    ensures
        model::name_field(name).len() == 28,
        model::name_field(name)[0] == name.len(),
        model::name_field(name).subrange(1, 1 + name.len() as int) == name,
        forall|i: int|
            1 + name.len() <= i < 28 ==> #[trigger] model::name_field(name)[i] == 0,
{
    assert(model::name_field(name).subrange(1, 1 + name.len() as int) =~= name);
}

} // verus!
