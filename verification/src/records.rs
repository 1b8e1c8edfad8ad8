//! What the values that callers hold have to do with the image: every field of
//! [`FileEntry`], [`VolumeInfo`] and the tables, with the bytes it comes from, and
//! the errors and commands with what contracts say of them.

use vstd::prelude::*;

use crate::args::{BootAction, BootActionView, Command, CommandView, Failure, FailureView};
use crate::dc42::{self, Dc42Image};
use crate::dir::{self, RawEntry};
use crate::error::{self, Fault, MfsError};
use crate::layout::{self, number_at};
use crate::macroman;
use crate::mdb::{self, Mdb};
use crate::model::{self, ContainerView, VolumeView};
use crate::text;
use crate::timestamp::MacTimestamp;
use crate::volume::{self, Container, FileEntry, ImageFormat, VolumeInfo};

verus! {

// ---------------------------------------------------------------------- reports

/// What is reported of a file, field by field, where its entry stands at byte
/// `at` of a directory.
#[verifier::rlimit(60)]
pub proof fn lemma_file_record(s: Seq<u8>, at: int, f: FileEntry)
    requires
        0 <= at,
        at + 51 <= s.len(),
        at + 51 + s[at + 50] <= s.len(),
        f@ == model::file_of(dir::entry_from(s, at)),
    ensures
        f.name@ == macroman::decoded(s.subrange(at + 51, at + 51 + s[at + 50])),
        f.file_num == number_at(s, at + 18, 4),
        f.type_code@ == s.subrange(at + 2, at + 6),
        f.creator@ == s.subrange(at + 6, at + 10),
        f.finder_flags == number_at(s, at + 10, 2),
        f.locked <==> s[at] % 2 == 1,
        f.created.0 == number_at(s, at + 42, 4),
        f.modified.0 == number_at(s, at + 46, 4),
        f.data_len == number_at(s, at + 24, 4),
        f.data_alloc == number_at(s, at + 28, 4),
        f.rsrc_len == number_at(s, at + 34, 4),
        f.rsrc_alloc == number_at(s, at + 38, 4),
{
    layout::lemma_entry_read(s, at);
}

/// What is reported of a volume, field by field, once its image was opened.
pub proof fn lemma_info_record(data: Seq<u8>, container: ContainerView, i: VolumeInfo)
    requires
        model::parts_outcome(data, container) matches Ok(v) && i@ == model::info_of(v),
    ensures
        i.name@ == macroman::decoded(data.subrange(1061, 1061 + data[1060])),
        i.created.0 == number_at(data, 1026, 4),
        i.modified.0 == number_at(data, 1030, 4),
        i.file_count == number_at(data, 1036, 2),
        i.alloc_block_size == number_at(data, 1044, 4),
        i.total_blocks == number_at(data, 1042, 2),
        i.free_blocks == number_at(data, 1058, 2),
        i.format == ImageFormat::Raw <==> container is Raw,
{
    layout::lemma_information_read(data, container);
    layout::lemma_opens(data, container);
    let raw = data.subrange(1060, 1088);
    assert(raw.subrange(1, 1 + raw[0]) =~= data.subrange(1061, 1061 + data[1060]));
}

/// The reports on several files, or several lines, are those on each, in order.
pub proof fn lemma_in_order(files: Seq<FileEntry>, entries: Seq<RawEntry>, lines: Seq<String>, k: int)
    ensures
        volume::file_views(files).len() == files.len(),
        0 <= k < files.len() ==> volume::file_views(files)[k] == files[k]@,
        dir::views(entries).len() == entries.len(),
        0 <= k < entries.len() ==> dir::views(entries)[k] == entries[k]@,
        text::texts(lines).len() == lines.len(),
        0 <= k < lines.len() ==> text::texts(lines)[k] == lines[k]@,
{
}

// ----------------------------------------------------------------------- tables

/// The fields of volume information that was read, or is written, are the numbers
/// that stand in its place.
pub proof fn lemma_information_record(region: Seq<u8>, m: Mdb)
    requires
        region.len() >= 64,
        m@ == mdb::fields_at(region),
    ensures
        m.sig_word == number_at(region, 0, 2),
        m.cr_date == number_at(region, 2, 4),
        m.ls_mod == number_at(region, 6, 4),
        m.atrb == number_at(region, 10, 2),
        m.nm_fls == number_at(region, 12, 2),
        m.dir_st == number_at(region, 14, 2),
        m.dir_len == number_at(region, 16, 2),
        m.nm_al_blks == number_at(region, 18, 2),
        m.al_blk_siz == number_at(region, 20, 4),
        m.clp_siz == number_at(region, 24, 4),
        m.al_bl_st == number_at(region, 28, 2),
        m.nxt_fnum == number_at(region, 30, 4),
        m.free_bks == number_at(region, 34, 2),
        m.name_raw@ == region.subrange(36, 64),
{
    layout::lemma_numbers_read(region, 0);
    layout::lemma_numbers_read(region, 2);
    layout::lemma_numbers_read(region, 6);
    layout::lemma_numbers_read(region, 10);
    layout::lemma_numbers_read(region, 12);
    layout::lemma_numbers_read(region, 14);
    layout::lemma_numbers_read(region, 16);
    layout::lemma_numbers_read(region, 18);
    layout::lemma_numbers_read(region, 20);
    layout::lemma_numbers_read(region, 24);
    layout::lemma_numbers_read(region, 28);
    layout::lemma_numbers_read(region, 30);
    layout::lemma_numbers_read(region, 34);
}

/// The fields of a directory entry that was read are what stands in its place.
#[verifier::rlimit(60)]
pub proof fn lemma_entry_record(s: Seq<u8>, at: int, e: RawEntry)
    requires
        0 <= at,
        at + 51 <= s.len(),
        at + 51 + s[at + 50] <= s.len(),
        e@ == dir::entry_from(s, at),
    ensures
        e.flags == s[at],
        e.version == s[at + 1],
        e.type_code@ == s.subrange(at + 2, at + 6),
        e.creator@ == s.subrange(at + 6, at + 10),
        e.fndr_flags == number_at(s, at + 10, 2),
        e.pos == number_at(s, at + 12, 4),
        e.fldr_num == number_at(s, at + 16, 2),
        e.fnum == number_at(s, at + 18, 4),
        e.df_st_blk == number_at(s, at + 22, 2),
        e.df_log_len == number_at(s, at + 24, 4),
        e.df_alloc_len == number_at(s, at + 28, 4),
        e.rf_st_blk == number_at(s, at + 32, 2),
        e.rf_log_len == number_at(s, at + 34, 4),
        e.rf_alloc_len == number_at(s, at + 38, 4),
        e.cr_dat == number_at(s, at + 42, 4),
        e.md_dat == number_at(s, at + 46, 4),
        e.name@ == s.subrange(at + 51, at + 51 + s[at + 50]),
{
    layout::lemma_entry_read(s, at);
}

/// What was taken out of a container, and what a volume keeps of it.
pub proof fn lemma_container_record(bytes: Seq<u8>, c: Dc42Image, k: Container)
    requires
        dc42::parse_outcome(bytes) == Ok::<dc42::Dc42View, Fault>(c@),
        k@ == model::container_of(c@),
    ensures
        ({
            let n = number_at(bytes, 64, 4) as int;
            &&& c.name@ == bytes.subrange(1, 1 + bytes[0])
            &&& c.padding@ == bytes.subrange(1 + bytes[0], 64)
            &&& c.data@ == bytes.subrange(84, 84 + n)
            &&& c.tags@ == bytes.subrange(84 + n, bytes.len() as int)
            &&& c.disk_format == bytes[80]
            &&& c.format_byte == bytes[81]
            &&& k matches Container::Dc42 { name, padding, tags, disk_format, format_byte } && {
                &&& name@ == c.name@
                &&& padding@ == c.padding@
                &&& tags@ == c.tags@
                &&& disk_format == c.disk_format
                &&& format_byte == c.format_byte
            }
        }),
{
    layout::lemma_container_read(bytes);
    let c = c@;
    assert(c.padding =~= (c.name + c.padding).skip(c.name.len() as int));
    assert(bytes.subrange(1, 64).skip(bytes[0] as int) =~= bytes.subrange(1 + bytes[0], 64));
}

// --------------------------------------------------------------------- outcomes

/// An operation either succeeds and leaves the volume it comes to, or fails with
/// its error and leaves the volume as it was.
pub proof fn lemma_comes_to(
    outcome: core::result::Result<VolumeView, Fault>,
    before: VolumeView,
    r: core::result::Result<(), MfsError>,
    after: VolumeView,
)
    requires
        model::comes_to(outcome, before, error::outcome(r), after),
    ensures
        r is Ok <==> outcome is Ok,
        r is Ok ==> after == outcome->Ok_0,
        r is Err ==> after == before && outcome->Err_0 == (r->Err_0)@,
{
}

/// An error says of itself what contracts say of it.
pub proof fn lemma_error_record(e: MfsError)
    ensures
        e@ matches Fault::Io(c) ==> e == MfsError::Io(c),
        e@ matches Fault::BadSignature { found } ==> e == (MfsError::BadSignature { found }),
        e@ is UnsupportedHfs <==> e is UnsupportedHfs,
        e@ is UnknownImageFormat <==> e is UnknownImageFormat,
        e@ is DirectoryFull <==> e is DirectoryFull,
        e@ is VolumeLocked <==> e is VolumeLocked,
        e@ matches Fault::VolumeFull { needed_blocks, free_blocks } ==> e == (
        MfsError::VolumeFull { needed_blocks, free_blocks }),
        e@ matches Fault::Dc42(t) ==> e matches MfsError::Dc42(m) && m@ == t,
        e@ matches Fault::CorruptVolume(t) ==> e matches MfsError::CorruptVolume(m) && m@ == t,
        e@ matches Fault::FileNotFound(t) ==> e matches MfsError::FileNotFound(m) && m@ == t,
        e@ matches Fault::FileExists(t) ==> e matches MfsError::FileExists(m) && m@ == t,
        e@ matches Fault::InvalidName(t) ==> e matches MfsError::InvalidName(m) && m@ == t,
        e@ matches Fault::FileLocked(t) ==> e matches MfsError::FileLocked(m) && m@ == t,
        e@ matches Fault::InvalidGeometry(t) ==> e matches MfsError::InvalidGeometry(m) && m@ == t,
{
}

/// A failure of the tool is a refusal or a malformed command line, with its text.
pub proof fn lemma_failure_record(f: Failure)
    ensures
        f@ matches FailureView::Error(t) ==> f matches Failure::Error(m) && m@ == t,
        f@ matches FailureView::Usage(t) ==> f matches Failure::Usage(m) && m@ == t,
{
}

/// Dates that are given are those that are set.
pub proof fn lemma_dates_given(t: Option<MacTimestamp>)
    ensures
        t is Some <==> model::seconds(t) is Some,
        t is Some ==> model::seconds(t)->0 == (t->0).0,
{
}

// --------------------------------------------------------------------- commands

/// Whether a string that may be missing is this text, or both are missing.
pub open spec fn is_text(s: Option<String>, t: Option<Seq<char>>) -> bool {
    &&& s is Some <==> t is Some
    &&& s is Some ==> (s->0)@ == t->0
}

/// A command has the arguments that contracts say it has.
#[verifier::rlimit(60)]
pub proof fn lemma_command_record(c: Command)
    ensures
        c@ is Help <==> c is Help,
        c@ matches CommandView::Info { image: i } ==> c matches Command::Info { image } && image@
            == i,
        c@ matches CommandView::Check { image: i } ==> c matches Command::Check { image } && image@
            == i,
        c@ matches CommandView::Ls { image: i, long: l } ==> c matches Command::Ls { image, long }
            && image@ == i && long == l,
        c@ matches CommandView::Cat { image: i, name: n, fork: f } ==> c matches Command::Cat {
            image,
            name,
            fork,
        } && image@ == i && name@ == n && fork == f,
        c@ matches CommandView::Extract { image: i, name: n, fork: f, out: o }
            ==> c matches Command::Extract { image, name, fork, out } && image@ == i && name@ == n
            && fork == f && is_text(out, o),
        c@ matches CommandView::Add {
            image: i,
            hostfile: h,
            name: n,
            type_code: t,
            creator: k,
            rsrc: r,
        } ==> c matches Command::Add { image, hostfile, name, type_code, creator, rsrc } && image@
            == i && hostfile@ == h && is_text(name, n) && type_code@ == t && creator@ == k
            && is_text(rsrc, r),
        c@ matches CommandView::Rm { image: i, name: n, force: f } ==> c matches Command::Rm {
            image,
            name,
            force,
        } && image@ == i && name@ == n && force == f,
        c@ matches CommandView::Mv { image: i, from: a, to: b } ==> c matches Command::Mv {
            image,
            from,
            to,
        } && image@ == i && from@ == a && to@ == b,
        c@ matches CommandView::Mkfs { image: i, size: s, name: n, format: k, force: f }
            ==> c matches Command::Mkfs { image, size, name, format, force } && image@ == i && size
            == s && name@ == n && format == k && force == f,
        c@ matches CommandView::BootBlocks { image: i, action: a } ==> c matches Command::BootBlocks {
            image,
            action,
        } && image@ == i && action@ == a,
{
}

/// What is to be done with boot blocks, and with which host file.
pub proof fn lemma_action_record(a: BootAction)
    ensures
        a@ is Show <==> a is Show,
        a@ matches BootActionView::Export(t) ==> a matches BootAction::Export(p) && p@ == t,
        a@ matches BootActionView::Import(t) ==> a matches BootAction::Import(p) && p@ == t,
{
}

} // verus!
