//! What the commands of `mfs` do to a volume and what they print.

use vstd::prelude::*;
use vstd::string::*;

use crate::args::{Failure, FailureView};
use crate::error;
use crate::error::{Fault, MfsError};
use crate::model;
use crate::model::{FileView, InfoView, VolumeView};
use crate::text;
use crate::text::{chars, push_decimal, push_decimal_padded, push_left, push_right, quote};
use crate::timestamp;
use crate::timestamp::MacTimestamp;
use crate::volume;
use crate::volume::{FileEntry, Fork, ImageFormat, MfsVolume, VolumeInfo};

verus! {

// --------------------------------------------------------------------- refusals

/// The failure of an operation that was refused. What an I/O error says of
/// itself is left open.
pub open spec fn refusal(f: Fault, cause: Seq<char>) -> FailureView {
    FailureView::Error(error::message(f, cause))
}

/// The failure of an operation that was refused.
pub fn refused(e: &MfsError) -> (f: Failure)
    ensures
        exists|cause: Seq<char>| f@ == #[trigger] refusal(e@, cause),
        !(e is Io) ==> f@ == refusal(e@, Seq::empty()),
{
    let m = e.to_string();
    proof {
        if e is Io {
            let cause = choose|cause: Seq<char>| m@ == #[trigger] error::message(e@, cause);
            assert(FailureView::Error(m@) == refusal(e@, cause));
        } else {
            assert(FailureView::Error(m@) == refusal(e@, Seq::empty()));
        }
    }
    Failure::Error(m)
}

/// The failure to open an image.
pub fn open_failure(image: &str, e: &MfsError) -> (f: Failure)
    ensures
        exists|cause: Seq<char>|
            f@ == FailureView::Error(image@ + ": "@ + #[trigger] error::message(e@, cause)),
        !(e is Io) ==> f@ == FailureView::Error(
            image@ + ": "@ + error::message(e@, Seq::empty()),
        ),
{
    let text = e.to_string();
    proof {
        if !(e is Io) {
            assert(text@ == error::message(e@, Seq::empty()));
        }
    }
    host_failure(image, text.as_str())
}

/// The failure to read or write a host file, `cause` being what the host says.
pub fn host_failure(path: &str, cause: &str) -> (f: Failure)
    ensures
        f@ == FailureView::Error(path@ + ": "@ + cause@),
{
    let mut m = String::from_str(path);
    m.append(": ");
    m.append(cause);
    Failure::Error(m)
}

/// What keeps an image from being created: that it exists, unless forced.
pub open spec fn create_outcome(image: Seq<char>, force: bool, exists: bool) ->
    core::result::Result<(), FailureView> {
    if exists && !force {
        Err(FailureView::Error(image + " already exists (pass --force to overwrite it)"@))
    } else {
        Ok(())
    }
}

/// Whether an image may be created: not over one that exists, unless forced.
pub fn may_create(image: &str, force: bool, exists: bool) -> (r: core::result::Result<(), Failure>)
    ensures
        match r {
            Ok(_) => create_outcome(image@, force, exists) is Ok,
            Err(f) => create_outcome(image@, force, exists) == Err::<(), FailureView>(f@),
        },
        match r {
            Ok(_) => force || !exists,
            Err(f) => !force && exists && f@ == FailureView::Error(
                image@ + " already exists (pass --force to overwrite it)"@,
            ),
        },
{
    if !force && exists {
        let mut m = String::from_str(image);
        m.append(" already exists (pass --force to overwrite it)");
        return Err(Failure::Error(m));
    }
    Ok(())
}

// ------------------------------------------------------------------------- info

/// Whether boot blocks begin with the signature of a bootable disk.
pub open spec fn bootable(blocks: Seq<u8>) -> bool {
    blocks.len() >= 2 && blocks[0] == 0x4C && blocks[1] == 0x4B
}

/// The words for a container.
pub open spec fn format_words(format: ImageFormat) -> Seq<char> {
    match format {
        ImageFormat::Raw => "raw sector image"@,
        ImageFormat::DiskCopy42 => "DiskCopy 4.2"@,
    }
}

/// What `info` prints.
pub open spec fn info_printed(i: InfoView, blocks: Seq<u8>) -> Seq<char> {
    "volume:      "@ + i.name + "\nformat:      "@ + format_words(i.format) + "\ncreated:     "@
        + timestamp::rendered(i.created) + "\nmodified:    "@ + timestamp::rendered(i.modified)
        + "\nfiles:       "@ + text::decimal(i.file_count as nat) + "\nblock size:  "@
        + text::decimal(i.alloc_block_size as nat) + " bytes\nblocks:      "@ + text::decimal(
        i.total_blocks as nat,
    ) + " total, "@ + text::decimal(i.free_blocks as nat) + " free ("@ + text::decimal(
        (i.free_blocks * i.alloc_block_size) as nat,
    ) + " bytes)\nbootable:    "@ + (if bootable(blocks) {
        "yes"@
    } else {
        "no"@
    }) + "\n"@
}

/// Whether boot blocks begin with the signature of a bootable disk.
fn is_bootable(blocks: &[u8]) -> (b: bool)
    ensures
        b == bootable(blocks@),
{
    blocks.len() >= 2 && blocks[0] == 0x4C && blocks[1] == 0x4B
}

/// What `info` prints.
pub fn info_text(i: &VolumeInfo, blocks: &[u8]) -> (m: String)
    ensures
        m@ == info_printed(i@, blocks@),
{
    let free: u16 = i.free_blocks;
    let size: u32 = i.alloc_block_size;
    assert(0 <= free * size <= 65535 * 0xFFFF_FFFF) by (nonlinear_arith)
        requires
            0 <= free <= 65535,
            0 <= size <= 0xFFFF_FFFF,
    ;
    let free_bytes: u64 = free as u64 * size as u64;
    let mut m = String::from_str("volume:      ");
    m.append(i.name.as_str());
    m.append("\nformat:      ");
    match i.format {
        ImageFormat::Raw => m.append("raw sector image"),
        ImageFormat::DiskCopy42 => m.append("DiskCopy 4.2"),
    }
    m.append("\ncreated:     ");
    m.append(i.created.to_string().as_str());
    m.append("\nmodified:    ");
    m.append(i.modified.to_string().as_str());
    m.append("\nfiles:       ");
    push_decimal(&mut m, i.file_count as u64);
    m.append("\nblock size:  ");
    push_decimal(&mut m, size as u64);
    m.append(" bytes\nblocks:      ");
    push_decimal(&mut m, i.total_blocks as u64);
    m.append(" total, ");
    push_decimal(&mut m, free as u64);
    m.append(" free (");
    push_decimal(&mut m, free_bytes);
    m.append(" bytes)\nbootable:    ");
    if is_bootable(blocks) {
        m.append("yes");
    } else {
        m.append("no");
    }
    m.append("\n");
    m
}

// --------------------------------------------------------------------------- ls

/// The character a byte of a Finder code is shown as.
pub open spec fn shown(b: u8) -> char {
    if 0x20 <= b <= 0x7E {
        b as char
    } else {
        '.'
    }
}

/// A Finder code, with anything unprintable shown as `.`.
pub open spec fn code_shown(code: Seq<u8>) -> Seq<char> {
    Seq::new(code.len(), |i: int| shown(code[i]))
}

/// The heading of a long listing.
pub open spec fn heading() -> Seq<char> {
    "TYPE CREA  "@ + text::pad_left("DATA"@, 8, ' ') + "  "@ + text::pad_left("RSRC"@, 8, ' ')
        + "  "@ + text::pad_right("MODIFIED"@, 19) + "      NAME\n"@
}

/// The line of a file in a listing.
pub open spec fn file_line(f: FileView, long: bool) -> Seq<char> {
    if long {
        code_shown(f.type_code) + " "@ + code_shown(f.creator) + "  "@ + text::pad_left(
            text::decimal(f.data_len as nat),
            8,
            ' ',
        ) + "  "@ + text::pad_left(text::decimal(f.rsrc_len as nat), 8, ' ') + "  "@
            + timestamp::rendered(f.modified) + "  "@ + text::pad_right(
            if f.locked {
                "[L]"@
            } else {
                ""@
            },
            3,
        ) + " "@ + f.name + "\n"@
    } else {
        f.name + "\n"@
    }
}

/// The lines of the first `k` files.
pub open spec fn file_lines(files: Seq<FileView>, long: bool, k: nat) -> Seq<char>
    decreases k,
{
    if k == 0 {
        Seq::empty()
    } else {
        file_lines(files, long, (k - 1) as nat) + file_line(files[k - 1], long)
    }
}

/// What `ls` prints.
pub open spec fn ls_printed(files: Seq<FileView>, long: bool) -> Seq<char> {
    (if long {
        heading()
    } else {
        Seq::empty()
    }) + file_lines(files, long, files.len())
}

/// Four-character Finder code, with anything unprintable shown as `.`.
pub fn code(bytes: &[u8; 4]) -> (s: String)
    ensures
        s@ == code_shown(bytes@),
{
    let mut s = String::new();
    let mut i: usize = 0;
    while i < 4
        invariant
            i <= 4,
            bytes@.len() == 4,
            s@ == code_shown(bytes@).take(i as int),
        decreases 4 - i,
    {
        let b: u8 = bytes[i];
        if 0x20 <= b && b <= 0x7E {
            s.push(b as char);
        } else {
            s.push('.');
        }
        i = i + 1;
        assert(s@ =~= code_shown(bytes@).take(i as int));
    }
    assert(s@ =~= code_shown(bytes@));
    s
}

/// The line of a file in a listing.
fn file_text(f: &FileEntry, long: bool) -> (m: String)
    ensures
        m@ == file_line(f@, long),
{
    if long {
        let mut m = code(&f.type_code);
        m.append(" ");
        m.append(code(&f.creator).as_str());
        m.append("  ");
        push_decimal_padded(&mut m, f.data_len as u64, 8, ' ');
        m.append("  ");
        push_decimal_padded(&mut m, f.rsrc_len as u64, 8, ' ');
        m.append("  ");
        m.append(f.modified.to_string().as_str());
        m.append("  ");
        let mark = if f.locked {
            "[L]"
        } else {
            ""
        };
        push_right(&mut m, mark, 3);
        m.append(" ");
        m.append(f.name.as_str());
        m.append("\n");
        m
    } else {
        let mut m = f.name.clone();
        m.append("\n");
        m
    }
}

/// What `ls` prints.
pub fn ls_text(files: &Vec<FileEntry>, long: bool) -> (m: String)
    ensures
        m@ == ls_printed(volume::file_views(files@), long),
{
    let mut m = String::new();
    if long {
        m.append("TYPE CREA  ");
        push_left(&mut m, "DATA", 8, ' ');
        m.append("  ");
        push_left(&mut m, "RSRC", 8, ' ');
        m.append("  ");
        push_right(&mut m, "MODIFIED", 19);
        m.append("      NAME\n");
        assert(m@ =~= heading());
    }
    let ghost head = m@;
    let mut i: usize = 0;
    assert(head + file_lines(volume::file_views(files@), long, 0) =~= head);
    while i < files.len()
        invariant
            i <= files@.len(),
            m@ == head + file_lines(volume::file_views(files@), long, i as nat),
        decreases files@.len() - i,
    {
        let ghost before = m@;
        m.append(file_text(&files[i], long).as_str());
        i = i + 1;
        assert(m@ =~= head + file_lines(volume::file_views(files@), long, i as nat));
    }
    m
}

// ---------------------------------------------------------------------- extract

/// A file name with every slash replaced.
pub open spec fn without_slashes(name: Seq<char>) -> Seq<char> {
    Seq::new(
        name.len(),
        |i: int|
            if name[i] == '/' {
                '_'
            } else {
                name[i]
            },
    )
}

/// The host file a fork goes to unless one is named.
pub open spec fn default_path(name: Seq<char>, fork: Fork) -> Seq<char> {
    match fork {
        Fork::Data => without_slashes(name),
        Fork::Resource => without_slashes(name) + ".rsrc"@,
    }
}

/// The host file a fork goes to unless one is named.
pub fn extract_path(name: &str, fork: Fork) -> (p: String)
    ensures
        p@ == default_path(name@, fork),
{
    let c = chars(name);
    let mut p = String::new();
    let mut i: usize = 0;
    while i < c.len()
        invariant
            i <= c@.len(),
            p@ == without_slashes(c@).take(i as int),
        decreases c@.len() - i,
    {
        if c[i] == '/' {
            p.push('_');
        } else {
            p.push(c[i]);
        }
        i = i + 1;
        assert(p@ =~= without_slashes(c@).take(i as int));
    }
    assert(p@ =~= without_slashes(name@));
    match fork {
        Fork::Data => {},
        Fork::Resource => p.append(".rsrc"),
    }
    p
}

/// What `extract` says once `len` bytes were written to `path`.
pub open spec fn extract_said(len: nat, path: Seq<char>) -> Seq<char> {
    "wrote "@ + text::decimal(len) + " bytes to "@ + path
}

/// What `extract` prints.
pub fn extracted_text(len: usize, path: &str) -> (m: String)
    ensures
        m@ == extract_said(len as nat, path@),
        m@ == "wrote "@ + text::decimal(len as nat) + " bytes to "@ + path@,
{
    let mut m = String::from_str("wrote ");
    push_decimal(&mut m, len as u64);
    m.append(" bytes to ");
    m.append(path);
    m
}

// -------------------------------------------------------------------------- add

/// What a write to a fork comes to, `None` if what it leaves behind could not
/// be written down.
pub open spec fn written(
    v: VolumeView,
    name: Seq<char>,
    fork: Fork,
    content: Seq<u8>,
    now: u32,
) -> Option<core::result::Result<VolumeView, FailureView>> {
    if !model::representable(v, name, fork, content.len()) {
        None
    } else {
        match model::write_outcome(v, name, fork, content, now) {
            Err(f) => Some(Err(refusal(f, ""@))),
            Ok(w) => Some(Ok(w)),
        }
    }
}

/// What adding a file with its forks comes to, `None` if what a write leaves
/// behind could not be written down. The file is created at the first of the
/// times, and its forks are written at the other two.
pub open spec fn added(
    v: VolumeView,
    name: Seq<char>,
    codes: (Seq<u8>, Seq<u8>),
    data: Seq<u8>,
    rsrc: Option<Seq<u8>>,
    times: (u32, u32, u32),
) -> Option<core::result::Result<VolumeView, FailureView>> {
    if model::lookup(v.entries, name) is Some {
        Some(
            Err(
                FailureView::Error(
                    "file already exists: "@ + name + " (delete it first with `mfs rm`)"@,
                ),
            ),
        )
    } else {
        match model::create_outcome(v, name, codes.0, codes.1, times.0) {
            Err(f) => Some(Err(refusal(f, ""@))),
            Ok(v1) => match written(v1, name, Fork::Data, data, times.1) {
                None => None,
                Some(Err(f)) => Some(Err(f)),
                Some(Ok(v2)) => match rsrc {
                    None => Some(Ok(v2)),
                    Some(content) => written(v2, name, Fork::Resource, content, times.2),
                },
            },
        }
    }
}

/// The bytes of a slice that may be missing.
pub open spec fn bytes_of(content: Option<&[u8]>) -> Option<Seq<u8>> {
    match content {
        Some(c) => Some(c@),
        None => None,
    }
}

/// Whether an operation that comes to `expected` gave the result `r` and, if it
/// succeeded, left the volume as it should.
pub open spec fn agrees(
    expected: Option<core::result::Result<VolumeView, FailureView>>,
    r: Option<core::result::Result<(), Failure>>,
    after: VolumeView,
) -> bool {
    match (expected, r) {
        (None, None) => true,
        (Some(Ok(v)), Some(Ok(_))) => after == v,
        (Some(Err(f)), Some(Err(e))) => e@ == f,
        _ => false,
    }
}

/// The failure of an operation on a volume.
fn turned_down(e: &MfsError) -> (f: Failure)
    ensures
        f@ == refusal(e@, ""@),
{
    Failure::Error(e.to_string_with(""))
}

/// Replace the contents of a fork, `None` if what that leaves behind could not
/// be written down.
fn write(vol: &mut MfsVolume, name: &str, fork: Fork, content: &[u8], now: MacTimestamp) -> (r:
    Option<core::result::Result<(), Failure>>)
    requires
        old(vol).wf(),
    ensures
        final(vol).wf(),
        agrees(written(old(vol)@, name@, fork, content@, now.0), r, final(vol)@),
{
    if !vol.can_represent(name, fork, content.len()) {
        return None;
    }
    match vol.write_fork_at(name, fork, content, now) {
        Ok(_) => Some(Ok(())),
        Err(e) => Some(Err(turned_down(&e))),
    }
}

/// Add a file with its forks.
///
/// Nothing is returned where what a write leaves behind could not be written
/// down. Where it fails the volume must not be saved: the file may be there
/// without its contents.
pub fn add(
    vol: &mut MfsVolume,
    name: &str,
    type_code: [u8; 4],
    creator: [u8; 4],
    data: &[u8],
    rsrc: Option<&[u8]>,
) -> (r: Option<core::result::Result<(), Failure>>)
    requires
        old(vol).wf(),
    ensures
        final(vol).wf(),
        exists|times: (u32, u32, u32)|
            agrees(
                #[trigger] added(
                    old(vol)@,
                    name@,
                    (type_code@, creator@),
                    data@,
                    bytes_of(rsrc),
                    times,
                ),
                r,
                final(vol)@,
            ),
{
    let first = MacTimestamp::now();
    let second = MacTimestamp::now();
    let third = MacTimestamp::now();
    let r = add_at(vol, name, type_code, creator, data, rsrc, first, second, third);
    assert(agrees(
        added(
            old(vol)@,
            name@,
            (type_code@, creator@),
            data@,
            bytes_of(rsrc),
            (first.0, second.0, third.0),
        ),
        r,
        vol@,
    ));
    r
}

/// Add a file with its forks at given times: it is created at the first, its
/// data fork is written at the second and its resource fork at the third.
pub fn add_at(
    vol: &mut MfsVolume,
    name: &str,
    type_code: [u8; 4],
    creator: [u8; 4],
    data: &[u8],
    rsrc: Option<&[u8]>,
    first: MacTimestamp,
    second: MacTimestamp,
    third: MacTimestamp,
) -> (r: Option<core::result::Result<(), Failure>>)
    requires
        old(vol).wf(),
    ensures
        final(vol).wf(),
        agrees(
            added(
                old(vol)@,
                name@,
                (type_code@, creator@),
                data@,
                bytes_of(rsrc),
                (first.0, second.0, third.0),
            ),
            r,
            final(vol)@,
        ),
{
    if vol.file(name).is_ok() {
        let mut m = String::from_str("file already exists: ");
        m.append(name);
        m.append(" (delete it first with `mfs rm`)");
        return Some(Err(Failure::Error(m)));
    }
    match vol.create_file_at(name, type_code, creator, first) {
        Ok(_) => {},
        Err(e) => return Some(Err(turned_down(&e))),
    }
    match write(vol, name, Fork::Data, data, second) {
        None => return None,
        Some(Err(f)) => return Some(Err(f)),
        Some(Ok(_)) => {},
    }
    match rsrc {
        None => Some(Ok(())),
        Some(content) => write(vol, name, Fork::Resource, content, third),
    }
}

/// What `add` says once a file was added, with forks of these lengths.
pub open spec fn add_said(name: Seq<char>, data_len: nat, rsrc_len: nat) -> Seq<char> {
    "added "@ + name + " ("@ + text::decimal(data_len) + " bytes data, "@ + text::decimal(rsrc_len)
        + " bytes resource)"@
}

/// What `add` prints.
pub fn added_text(name: &str, data_len: usize, rsrc_len: usize) -> (m: String)
    ensures
        m@ == add_said(name@, data_len as nat, rsrc_len as nat),
        m@ == "added "@ + name@ + " ("@ + text::decimal(data_len as nat) + " bytes data, "@
            + text::decimal(rsrc_len as nat) + " bytes resource)"@,
{
    let mut m = String::from_str("added ");
    m.append(name);
    m.append(" (");
    push_decimal(&mut m, data_len as u64);
    m.append(" bytes data, ");
    push_decimal(&mut m, rsrc_len as u64);
    m.append(" bytes resource)");
    m
}

// -------------------------------------------------------------------------- rm

/// A volume with the file `name` unlocked, if it is there and locked.
pub open spec fn unlocked(v: VolumeView, name: Seq<char>, now: u32) -> core::result::Result<
    VolumeView,
    Fault,
> {
    match model::lookup(v.entries, name) {
        None => Err(Fault::FileNotFound(name)),
        Some(i) => if v.entries[i as int].locked() {
            model::locked_outcome(v, name, false, now)
        } else {
            Ok(v)
        },
    }
}

/// What deleting a file comes to, its lock aside where that is forced. The lock
/// is taken off at the first of the times, and the file deleted at the second.
pub open spec fn removed(v: VolumeView, name: Seq<char>, force: bool, times: (u32, u32)) ->
    core::result::Result<VolumeView, FailureView> {
    match (if force {
        unlocked(v, name, times.0)
    } else {
        Ok(v)
    }) {
        Err(f) => Err(refusal(f, ""@)),
        Ok(v1) => match model::delete_outcome(v1, name, times.1) {
            Err(f) => Err(refusal(f, ""@)),
            Ok(w) => Ok(w),
        },
    }
}

/// Delete a file, its lock aside where that is forced.
///
/// Where it fails the volume must not be saved.
pub fn rm(vol: &mut MfsVolume, name: &str, force: bool) -> (r: core::result::Result<(), Failure>)
    requires
        old(vol).wf(),
    ensures
        final(vol).wf(),
        exists|times: (u32, u32)|
            agrees(
                Some(#[trigger] removed(old(vol)@, name@, force, times)),
                Some(r),
                final(vol)@,
            ),
{
    let first = MacTimestamp::now();
    let second = MacTimestamp::now();
    let r = rm_at(vol, name, force, first, second);
    assert(agrees(
        Some(removed(old(vol)@, name@, force, (first.0, second.0))),
        Some(r),
        vol@,
    ));
    r
}

/// Delete a file, its lock aside where that is forced, at given times.
pub fn rm_at(
    vol: &mut MfsVolume,
    name: &str,
    force: bool,
    first: MacTimestamp,
    second: MacTimestamp,
) -> (r: core::result::Result<(), Failure>)
    requires
        old(vol).wf(),
    ensures
        final(vol).wf(),
        agrees(
            Some(removed(old(vol)@, name@, force, (first.0, second.0))),
            Some(r),
            final(vol)@,
        ),
{
    if force {
        match vol.file(name) {
            Ok(f) => {
                if f.locked {
                    match vol.set_locked_at(name, false, first) {
                        Ok(_) => {},
                        Err(e) => return Err(turned_down(&e)),
                    }
                }
            },
            Err(e) => return Err(turned_down(&e)),
        }
    }
    match vol.delete_file_at(name, second) {
        Ok(_) => Ok(()),
        Err(e) => Err(turned_down(&e)),
    }
}

/// What `rm` says once a file was deleted.
pub open spec fn rm_said(name: Seq<char>) -> Seq<char> {
    "deleted "@ + name
}

/// What `rm` prints.
pub fn removed_text(name: &str) -> (m: String)
    ensures
        m@ == rm_said(name@),
        m@ == "deleted "@ + name@,
{
    let mut m = String::from_str("deleted ");
    m.append(name);
    m
}

/// What `mv` says once a file was renamed.
pub open spec fn mv_said(from: Seq<char>, to: Seq<char>) -> Seq<char> {
    "renamed "@ + from + " to "@ + to
}

/// What `mv` prints.
pub fn renamed_text(from: &str, to: &str) -> (m: String)
    ensures
        m@ == mv_said(from@, to@),
        m@ == "renamed "@ + from@ + " to "@ + to@,
{
    let mut m = String::from_str("renamed ");
    m.append(from);
    m.append(" to ");
    m.append(to);
    m
}

// ------------------------------------------------------------------------ mkfs

/// What `mkfs` says once an image was created.
pub open spec fn mkfs_said(
    image: Seq<char>,
    size: nat,
    name: Seq<char>,
    format: ImageFormat,
) -> Seq<char> {
    "created "@ + image + ": "@ + text::decimal(size) + " byte "@ + (match format {
        ImageFormat::Raw => "raw"@,
        ImageFormat::DiskCopy42 => "DiskCopy 4.2"@,
    }) + " volume "@ + text::quoted(name)
}

/// What `mkfs` prints.
pub fn created_text(image: &str, size: u32, name: &str, format: ImageFormat) -> (m: String)
    ensures
        m@ == mkfs_said(image@, size as nat, name@, format),
        m@ == "created "@ + image@ + ": "@ + text::decimal(size as nat) + " byte "@ + (match format {
            ImageFormat::Raw => "raw"@,
            ImageFormat::DiskCopy42 => "DiskCopy 4.2"@,
        }) + " volume "@ + text::quoted(name@),
{
    let mut m = String::from_str("created ");
    m.append(image);
    m.append(": ");
    push_decimal(&mut m, size as u64);
    m.append(" byte ");
    match format {
        ImageFormat::Raw => m.append("raw"),
        ImageFormat::DiskCopy42 => m.append("DiskCopy 4.2"),
    }
    m.append(" volume ");
    m.append(quote(name).as_str());
    m
}

// ------------------------------------------------------------------------ check

/// The first `k` problems, a line each.
pub open spec fn problem_lines(problems: Seq<Seq<char>>, k: nat) -> Seq<char>
    decreases k,
{
    if k == 0 {
        Seq::empty()
    } else {
        problem_lines(problems, (k - 1) as nat) + problems[k - 1] + "\n"@
    }
}

/// What `check` prints.
pub open spec fn check_printed(problems: Seq<Seq<char>>) -> Seq<char> {
    if problems.len() == 0 {
        "ok\n"@
    } else {
        problem_lines(problems, problems.len()) + text::decimal(problems.len())
            + " problem(s) found\n"@
    }
}

/// What `check` prints.
pub fn check_text(problems: &Vec<String>) -> (m: String)
    ensures
        m@ == check_printed(text::texts(problems@)),
{
    if problems.len() == 0 {
        return String::from_str("ok\n");
    }
    let mut m = String::new();
    let mut i: usize = 0;
    while i < problems.len()
        invariant
            i <= problems@.len(),
            m@ == problem_lines(text::texts(problems@), i as nat),
        decreases problems@.len() - i,
    {
        m.append(problems[i].as_str());
        m.append("\n");
        i = i + 1;
    }
    push_decimal(&mut m, problems.len() as u64);
    m.append(" problem(s) found\n");
    m
}

// ------------------------------------------------------------------- bootblocks

/// What `bootblocks` says of boot blocks.
pub open spec fn boot_said(blocks: Seq<u8>) -> Seq<char> {
    if bootable(blocks) {
        "bootable: yes ('LK' boot block signature present)"@
    } else if forall|i: int| 0 <= i < blocks.len() ==> #[trigger] blocks[i] == 0 {
        "not bootable (no boot code; the boot block region is all zeros)"@
    } else {
        "not bootable (no 'LK' signature, but the boot block region is not empty)"@
    }
}

/// What `bootblocks` says of boot blocks.
pub fn boot_text(blocks: &[u8]) -> (s: &'static str)
    ensures
        s@ == boot_said(blocks@),
{
    if is_bootable(blocks) {
        return "bootable: yes ('LK' boot block signature present)";
    }
    let mut i: usize = 0;
    while i < blocks.len()
        invariant
            i <= blocks@.len(),
            !bootable(blocks@),
            forall|k: int| 0 <= k < i ==> #[trigger] blocks@[k] == 0,
        decreases blocks@.len() - i,
    {
        if blocks[i] != 0 {
            assert(blocks@[i as int] != 0);
            return "not bootable (no 'LK' signature, but the boot block region is not empty)";
        }
        i = i + 1;
    }
    "not bootable (no boot code; the boot block region is all zeros)"
}

/// The boot blocks that a host file holds, or what is said if it does not have
/// their size.
pub open spec fn import_outcome(path: Seq<char>, bytes: Seq<u8>) -> core::result::Result<
    Seq<u8>,
    FailureView,
> {
    if bytes.len() == 1024 {
        Ok(bytes)
    } else {
        Err(
            FailureView::Error(
                path + ": boot blocks must be exactly 1024 bytes, this file is "@ + text::decimal(
                    bytes.len(),
                ),
            ),
        )
    }
}

/// The boot blocks that a host file holds, if it has their size.
pub fn boot_import(path: &str, bytes: &[u8]) -> (r: core::result::Result<[u8; 1024], Failure>)
    ensures
        match r {
            Ok(blocks) => import_outcome(path@, bytes@) == Ok::<Seq<u8>, FailureView>(blocks@),
            Err(f) => import_outcome(path@, bytes@) == Err::<Seq<u8>, FailureView>(f@),
        },
        match r {
            Ok(blocks) => blocks@ == bytes@,
            Err(f) => bytes@.len() != 1024 && f@ == FailureView::Error(
                path@ + ": boot blocks must be exactly 1024 bytes, this file is "@
                    + text::decimal(bytes@.len()),
            ),
        },
{
    if bytes.len() != 1024 {
        let mut m = String::from_str(path);
        m.append(": boot blocks must be exactly 1024 bytes, this file is ");
        push_decimal(&mut m, bytes.len() as u64);
        return Err(Failure::Error(m));
    }
    let mut blocks: [u8; 1024] = [0u8;1024];
    let mut i: usize = 0;
    while i < 1024
        invariant
            i <= 1024,
            bytes@.len() == 1024,
            blocks@.len() == 1024,
            forall|k: int| 0 <= k < i ==> blocks@[k] == bytes@[k],
        decreases 1024 - i,
    {
        blocks[i] = bytes[i];
        i = i + 1;
    }
    assert(blocks@ =~= bytes@);
    Ok(blocks)
}

/// What `bootblocks --export` says once `len` bytes were written to `path`.
pub open spec fn export_said(len: nat, path: Seq<char>) -> Seq<char> {
    "wrote "@ + text::decimal(len) + " boot block bytes to "@ + path
}

/// What `bootblocks --export` prints.
pub fn exported_text(len: usize, path: &str) -> (m: String)
    ensures
        m@ == export_said(len as nat, path@),
        m@ == "wrote "@ + text::decimal(len as nat) + " boot block bytes to "@ + path@,
{
    let mut m = String::from_str("wrote ");
    push_decimal(&mut m, len as u64);
    m.append(" boot block bytes to ");
    m.append(path);
    m
}

/// What `bootblocks --import` says once the boot blocks were taken from `path`.
pub open spec fn import_said(path: Seq<char>) -> Seq<char> {
    "installed 1024 boot block bytes from "@ + path
}

/// What `bootblocks --import` prints.
pub fn imported_text(path: &str) -> (m: String)
    ensures
        m@ == import_said(path@),
        m@ == "installed 1024 boot block bytes from "@ + path@,
{
    let mut m = String::from_str("installed 1024 boot block bytes from ");
    m.append(path);
    m
}

} // verus!
