//! What each operation on a volume is for: when it succeeds, what can be asked
//! of the volume afterwards, and what stays as it was.

use vstd::prelude::*;

use crate::blockmap;
use crate::dir;
use crate::dir::EntryView;
use crate::error::Fault;
use crate::laws;
use crate::macroman;
use crate::mdb::MdbView;
use crate::model;
use crate::model::{FileView, InfoView, VolumeView};
use crate::report;
use crate::volume::Fork;

verus! {

// ------------------------------------------------------------------------- names

/// Whether a name can be stored in `max` bytes: it is not empty, every character
/// has a MacRoman byte, and none is a colon or NUL.
pub open spec fn storable(name: Seq<char>, max: nat) -> bool {
    &&& 1 <= name.len() <= max
    &&& forall|i: int|
        0 <= i < name.len() ==> macroman::mappable(#[trigger] name[i]) && name[i] != ':' && name[i]
            != '\0'
}

/// What stands before the first byte that may not stand in a name.
proof fn lemma_first_forbidden(bytes: Seq<u8>)
    ensures
        model::first_forbidden(bytes) is None <==> forall|i: int|
            0 <= i < bytes.len() ==> #[trigger] bytes[i] != 0x3A && bytes[i] != 0,
    decreases bytes.len(),
{
    if bytes.len() > 0 && bytes[0] != 0x3A && bytes[0] != 0 {
        let rest = bytes.skip(1);
        lemma_first_forbidden(rest);
        if model::first_forbidden(bytes) is None {
            assert forall|i: int| 0 <= i < bytes.len() implies #[trigger] bytes[i] != 0x3A
                && bytes[i] != 0 by {
                if i > 0 {
                    assert(bytes[i] == rest[i - 1]);
                }
            }
        } else {
            let k = choose|k: int|
                0 <= k < rest.len() && !(#[trigger] rest[k] != 0x3A && rest[k] != 0);
            assert(bytes[k + 1] == rest[k]);
        }
    }
}

/// A name is taken if and only if it can be stored, and is stored as a byte per
/// character that reads as the same name. Any other is an invalid name.
pub proof fn lemma_name_taken(name: Seq<char>, max: nat)
    ensures
        model::name_outcome(name, max) is Ok <==> storable(name, max),
        model::name_outcome(name, max) matches Ok(raw) ==> raw.len() == name.len()
            && macroman::decoded(raw) == name,
        model::name_outcome(name, max) matches Err(f) ==> f is InvalidName,
{
    macroman::lemma_encodable(name);
    macroman::lemma_decode_inverts_encode(name);
    if let Ok(raw) = macroman::encoded(name) {
        lemma_first_forbidden(raw);
        assert forall|i: int| 0 <= i < name.len() implies (raw[i] == 0x3A <==> #[trigger] name[i]
            == ':') && (raw[i] == 0 <==> name[i] == '\0') by {
            assert(macroman::decoded(raw)[i] == name[i]);
            macroman::lemma_table_is_a_bijection(raw[i], 0x3A);
            macroman::lemma_table_is_a_bijection(raw[i], 0);
        }
        if forall|i: int| 0 <= i < raw.len() ==> #[trigger] raw[i] != 0x3A && raw[i] != 0 {
            assert forall|i: int| 0 <= i < name.len() implies macroman::mappable(#[trigger] name[i])
                && name[i] != ':' && name[i] != '\0' by {
                assert(raw[i] != 0x3A && raw[i] != 0);
            }
        } else {
            let k = choose|k: int|
                0 <= k < raw.len() && !(#[trigger] raw[k] != 0x3A && raw[k] != 0);
            assert(name[k] == ':' || name[k] == '\0');
        }
    }
}

/// Whether a volume has a file of this name, case aside.
pub open spec fn has_file(v: VolumeView, name: Seq<char>) -> bool {
    exists|i: int|
        0 <= i < v.entries.len() && macroman::same_name(
            macroman::decoded((#[trigger] v.entries[i]).name),
            name,
        )
}

/// What is asked for by a name is found if and only if there is such a file.
/// What is found is the first file of that name, and what cannot be found is
/// reported by the name it was asked for.
pub proof fn lemma_found(v: VolumeView, name: Seq<char>, fork: Fork)
    ensures
        has_file(v, name) <==> model::lookup(v.entries, name) is Some,
        has_file(v, name) <==> model::file_outcome(v, name) is Ok,
        model::lookup(v.entries, name) matches Some(i) ==> {
            &&& i < v.entries.len()
            &&& macroman::same_name(macroman::decoded(v.entries[i as int].name), name)
            &&& forall|k: int|
                0 <= k < i ==> !macroman::same_name(
                    macroman::decoded((#[trigger] v.entries[k]).name),
                    name,
                )
            &&& model::file_outcome(v, name) == Ok::<FileView, Fault>(
                model::files_of(v.entries)[i as int],
            )
        },
        !has_file(v, name) ==> model::file_outcome(v, name) == Err::<FileView, Fault>(
            Fault::FileNotFound(name),
        ) && model::read_outcome(v, name, fork) == Err::<Seq<u8>, Fault>(Fault::FileNotFound(name)),
{
    laws::lemma_lookup(v.entries, name, 0);
    match model::lookup(v.entries, name) {
        Some(i) => {
            assert(model::named(v.entries[i as int], name));
            assert forall|k: int| 0 <= k < i implies !macroman::same_name(
                macroman::decoded((#[trigger] v.entries[k]).name),
                name,
            ) by {
                assert(!model::named(v.entries[k], name));
            }
        },
        None => {
            if has_file(v, name) {
                let i = choose|i: int|
                    0 <= i < v.entries.len() && macroman::same_name(
                        macroman::decoded((#[trigger] v.entries[i]).name),
                        name,
                    );
                assert(!model::named(v.entries[i], name));
            }
        },
    }
}

/// A file is reported under its own name, with the flags, codes, dates and
/// number of its entry, and is locked where the lowest bit of its flags is set.
pub proof fn lemma_reported(e: EntryView)
    ensures
        ({
            let f = model::file_of(e);
            &&& f.name.len() == e.name.len()
            &&& forall|i: int| 0 <= i < e.name.len() ==> #[trigger] f.name[i] == macroman::char_of(
                e.name[i],
            )
            &&& f.file_num == e.fnum
            &&& f.type_code == e.type_code
            &&& f.creator == e.creator
            &&& f.finder_flags == e.fndr_flags
            &&& f.created == e.cr_dat
            &&& f.modified == e.md_dat
            &&& f.data_alloc == e.df_alloc_len
            &&& f.rsrc_alloc == e.rf_alloc_len
            &&& f.locked <==> e.flags & 1 == 1
        }),
{
    let flags = e.flags;
    assert(flags % 2 == 1 <==> flags & 1 == 1) by (bit_vector);
}

/// The lengths that are reported of a file are those of its forks: as many bytes
/// as can be read, whenever they can be.
pub proof fn lemma_lengths_read(v: VolumeView, name: Seq<char>)
    requires
        v.wf(),
        has_file(v, name),
    ensures
        model::file_outcome(v, name) is Ok,
        model::read_outcome(v, name, Fork::Data) matches Ok(bytes) ==> bytes.len()
            == model::file_outcome(v, name)->Ok_0.data_len,
        model::read_outcome(v, name, Fork::Resource) matches Ok(bytes) ==> bytes.len()
            == model::file_outcome(v, name)->Ok_0.rsrc_len,
{
    lemma_found(v, name, Fork::Data);
    let i = model::lookup(v.entries, name)->0;
    lemma_fork_length(v, i, name, Fork::Data);
    lemma_fork_length(v, i, name, Fork::Resource);
}

/// A fork that can be read has the length that is reported of it.
pub proof fn lemma_fork_length(v: VolumeView, i: nat, asked: Seq<char>, fork: Fork)
    requires
        v.wf(),
        i < v.entries.len(),
    ensures
        model::fork_outcome(v, v.entries[i as int], asked, fork) matches Ok(bytes) ==> bytes.len()
            == (match fork {
            Fork::Data => model::files_of(v.entries)[i as int].data_len,
            Fork::Resource => model::files_of(v.entries)[i as int].rsrc_len,
        }),
{
    let e = v.entries[i as int];
    let start = model::fork_start(e, fork);
    if start != 0 {
        if let Ok(chain) = blockmap::chain_from(v.map, start) {
            blockmap::lemma_chain_found(v.map, start, chain);
            model::lemma_chain_bytes_len(v, chain);
        }
    }
}

/// On a consistent volume every fork can be read.
pub proof fn lemma_all_readable(v: VolumeView, i: nat, asked: Seq<char>, fork: Fork)
    requires
        v.wf(),
        report::consistent(v),
        i < v.entries.len(),
    ensures
        model::fork_outcome(v, v.entries[i as int], asked, fork) is Ok,
        model::lookup(v.entries, asked) == Some(i) ==> model::read_outcome(v, asked, fork) is Ok,
{
    let k = match fork {
        Fork::Data => report::data_fork(i),
        Fork::Resource => report::rsrc_fork(i),
    };
    assert(report::entry_of(v, k) == v.entries[i as int] && report::fork_of(k) == fork);
    report::lemma_sound(v, k);
    let start = model::fork_start(v.entries[i as int], fork);
    if start == 0 {
        let size = v.mdb.al_blk_siz as nat;
        assert(0 * size == 0);
    }
}

// ------------------------------------------------------------------------- locks

/// A volume can be written to if and only if bits 15 and 7 of its attributes are
/// clear.
pub proof fn lemma_writable(v: VolumeView)
    ensures
        model::writable(v) <==> v.mdb.atrb & 0x8080 == 0,
{
    let a = v.mdb.atrb;
    assert((a < 0x8000 && a / 0x80 % 2 == 0) <==> a & 0x8080 == 0) by (bit_vector);
}

/// On a volume that can be written to, what is asked of a file that is not there
/// is refused under the name that was given.
pub proof fn lemma_missing(
    v: VolumeView,
    name: Seq<char>,
    fork: Fork,
    content: Seq<u8>,
    codes: (Seq<u8>, Seq<u8>),
    locked: bool,
    dates: (Option<u32>, Option<u32>),
    now: u32,
)
    requires
        v.mdb.atrb & 0x8080 == 0,
        !has_file(v, name),
    ensures
        model::write_outcome(v, name, fork, content, now) == Err::<VolumeView, Fault>(
            Fault::FileNotFound(name),
        ),
        model::delete_outcome(v, name, now) == Err::<VolumeView, Fault>(Fault::FileNotFound(name)),
        model::type_creator_outcome(v, name, codes.0, codes.1, now) == Err::<VolumeView, Fault>(
            Fault::FileNotFound(name),
        ),
        model::locked_outcome(v, name, locked, now) == Err::<VolumeView, Fault>(
            Fault::FileNotFound(name),
        ),
        model::times_outcome(v, name, dates.0, dates.1, now) == Err::<VolumeView, Fault>(
            Fault::FileNotFound(name),
        ),
{
    lemma_writable(v);
    lemma_found(v, name, fork);
}

// ---------------------------------------------------------------------- counters

/// The volume with other counters and another modification date.
pub open spec fn recounted(m: MdbView, files: u16, free: u16, now: u32) -> MdbView {
    MdbView { nm_fls: files, free_bks: free, ls_mod: now, ..m }
}

/// The counters of a volume are right once they were derived anew.
proof fn lemma_counted(v: VolumeView)
    requires
        v.map.len() <= 65535,
        v.entries.len() <= 65535,
    ensures
        model::counted(v).mdb.nm_fls == v.entries.len(),
        model::counted(v).mdb.free_bks == blockmap::count_free(v.map),
{
    blockmap::lemma_free_blocks(v.map);
}

// ---------------------------------------------------------------------- creating

/// A file is added if and only if the volume can be written to, the name can be
/// stored in 63 bytes, no file has it yet, and the directory has room for one
/// entry more. Each refusal has its own error.
pub proof fn lemma_create_owed(
    v: VolumeView,
    name: Seq<char>,
    type_code: Seq<u8>,
    creator: Seq<u8>,
    now: u32,
    e: EntryView,
)
    requires
        e.name.len() == name.len(),
    ensures
        ({
            let r = model::create_outcome(v, name, type_code, creator, now);
            let room = dir::packable(v.entries.push(e), v.mdb.dir_len as nat);
            &&& v.mdb.atrb & 0x8080 != 0 ==> r == Err::<VolumeView, Fault>(Fault::VolumeLocked)
            &&& v.mdb.atrb & 0x8080 == 0 && !storable(name, 63) ==> r is Err
                && r->Err_0 is InvalidName
            &&& v.mdb.atrb & 0x8080 == 0 && storable(name, 63) && has_file(v, name) ==> r == Err::<
                VolumeView,
                Fault,
            >(Fault::FileExists(name))
            &&& v.mdb.atrb & 0x8080 == 0 && storable(name, 63) && !has_file(v, name) && !room
                ==> r == Err::<VolumeView, Fault>(Fault::DirectoryFull)
            &&& v.mdb.atrb & 0x8080 == 0 && storable(name, 63) && !has_file(v, name) && room
                ==> r is Ok
        }),
{
    lemma_writable(v);
    lemma_name_taken(name, 63);
    lemma_found(v, name, Fork::Data);
    if let Ok(raw) = model::name_outcome(name, 63) {
        let d = model::new_entry(v, raw, type_code, creator, now);
        dir::lemma_placed_by_names(
            v.entries.push(d),
            v.entries.push(e),
            v.mdb.dir_len as nat,
            0,
            0,
        );
    }
}

/// The file that was added stands behind all others and is empty, unlocked and
/// without Finder flags. It has the name, codes and dates that it was given and
/// the number that was next. Nothing else changes but the counters and the
/// modification date of the volume.
pub proof fn lemma_create_adds(
    v: VolumeView,
    name: Seq<char>,
    type_code: Seq<u8>,
    creator: Seq<u8>,
    now: u32,
)
    requires
        v.wf(),
        v.entries.len() < 65535,
        model::create_outcome(v, name, type_code, creator, now) is Ok,
    ensures
        ({
            let w = model::create_outcome(v, name, type_code, creator, now)->Ok_0;
            &&& model::files_of(w.entries) == model::files_of(v.entries).push(
                FileView {
                    name,
                    file_num: v.mdb.nxt_fnum,
                    type_code,
                    creator,
                    finder_flags: 0,
                    locked: false,
                    created: now,
                    modified: now,
                    data_len: 0,
                    data_alloc: 0,
                    rsrc_len: 0,
                    rsrc_alloc: 0,
                },
            )
            &&& w.entries.drop_last() == v.entries
            &&& w.entries.last().flags == 0x80
            &&& w.entries.last().version == 0
            &&& w.entries.last().pos == 0
            &&& w.entries.last().fldr_num == 0
            &&& w.entries.last().df_st_blk == 0
            &&& w.entries.last().rf_st_blk == 0
            &&& v.mdb.nxt_fnum < u32::MAX ==> w.mdb.nxt_fnum == v.mdb.nxt_fnum + 1
            &&& v.mdb.nxt_fnum == u32::MAX ==> w.mdb.nxt_fnum == 0
            &&& w.map == v.map
            &&& w.data == v.data
            &&& w.container == v.container
            &&& w.mdb == (MdbView {
                nxt_fnum: w.mdb.nxt_fnum,
                ..recounted(
                    v.mdb,
                    (v.entries.len() + 1) as u16,
                    blockmap::count_free(v.map) as u16,
                    now,
                )
            })
        }),
{
    let w = model::create_outcome(v, name, type_code, creator, now)->Ok_0;
    lemma_name_taken(name, 63);
    lemma_counted(w);
    assert(w.entries.drop_last() =~= v.entries);
    assert(model::files_of(w.entries) =~= model::files_of(v.entries).push(
        model::file_of(w.entries.last()),
    ));
}

// ----------------------------------------------------------------------- writing

/// A write to a file of a consistent volume is made if and only if the volume and
/// the file can be written to and the free blocks, with those of the fork given
/// back, hold the contents. If they do not, both numbers are reported.
pub proof fn lemma_write_owed(
    v: VolumeView,
    name: Seq<char>,
    fork: Fork,
    content: Seq<u8>,
    now: u32,
)
    requires
        v.wf(),
        report::consistent(v),
        has_file(v, name),
        content.len() <= u32::MAX,
    ensures
        ({
            let r = model::write_outcome(v, name, fork, content, now);
            let f = model::file_outcome(v, name)->Ok_0;
            let size = v.mdb.al_blk_siz as int;
            let held = match fork {
                Fork::Data => f.data_alloc,
                Fork::Resource => f.rsrc_alloc,
            };
            let room = blockmap::count_free(v.map) * size + held;
            &&& v.mdb.atrb & 0x8080 != 0 ==> r == Err::<VolumeView, Fault>(Fault::VolumeLocked)
            &&& v.mdb.atrb & 0x8080 == 0 && f.locked ==> r == Err::<VolumeView, Fault>(
                Fault::FileLocked(name),
            )
            &&& v.mdb.atrb & 0x8080 == 0 && !f.locked && content.len() <= room ==> r is Ok
            &&& v.mdb.atrb & 0x8080 == 0 && !f.locked && content.len() > room ==> {
                &&& r is Err
                &&& r->Err_0 matches Fault::VolumeFull { needed_blocks, free_blocks } && {
                    &&& free_blocks * size == room
                    &&& (needed_blocks - 1) * size < content.len() <= needed_blocks * size
                }
            }
        }),
{
    lemma_writable(v);
    lemma_found(v, name, fork);
    let i = model::lookup(v.entries, name)->0;
    let e = v.entries[i as int];
    let k = match fork {
        Fork::Data => report::data_fork(i),
        Fork::Resource => report::rsrc_fork(i),
    };
    assert(report::entry_of(v, k) == e && report::fork_of(k) == fork);
    report::lemma_sound(v, k);
    laws::lemma_blocks_needed(content.len(), v.mdb.al_blk_siz);
    blockmap::lemma_free_blocks(v.map);
    let old = model::fork_chain(v, model::fork_start(e, fork))->Ok_0;
    let size = v.mdb.al_blk_siz as int;
    let needed = model::blocks_needed(content.len(), v.mdb.al_blk_siz) as int;
    let free = blockmap::count_free(v.map) as int;
    let have = free + old.len();
    if model::fork_start(e, fork) != 0 {
        blockmap::lemma_chain_found(v.map, model::fork_start(e, fork), old);
    }
    assert(have * size == free * size + old.len() * size) by (nonlinear_arith)
        requires
            have == free + old.len(),
    ;
    assert(needed <= have ==> needed * size <= have * size) by (nonlinear_arith)
        requires
            size >= 0,
    ;
    assert(needed > have ==> (needed - 1) * size >= have * size) by (nonlinear_arith)
        requires
            size >= 0,
    ;
    assert((needed - 1) * size == needed * size - size) by (nonlinear_arith);
}

// ---------------------------------------------------------------------- deleting

/// The file that was deleted is gone from the directory, and all others stand in
/// it in the same order. The image is not touched, and of the volume nothing
/// changes but its counters and its modification date.
pub proof fn lemma_delete_removes(v: VolumeView, name: Seq<char>, now: u32)
    requires
        v.wf(),
        v.entries.len() <= 65535,
        model::delete_outcome(v, name, now) is Ok,
    ensures
        has_file(v, name),
        ({
            let w = model::delete_outcome(v, name, now)->Ok_0;
            let i = model::lookup(v.entries, name)->0 as int;
            &&& !v.entries[i].locked()
            &&& w.entries == v.entries.remove(i)
            &&& w.data == v.data
            &&& w.container == v.container
            &&& w.map.len() == v.map.len()
            &&& w.mdb == recounted(
                v.mdb,
                (v.entries.len() - 1) as u16,
                blockmap::count_free(w.map) as u16,
                now,
            )
        }),
{
    lemma_found(v, name, Fork::Data);
    lemma_counted(model::delete_outcome(v, name, now)->Ok_0);
}

// ---------------------------------------------------------------------- renaming

/// A file is renamed if and only if the volume can be written to, the new name
/// can be stored in 63 bytes, the file is there, no other file has the new name,
/// and the directory has room for the longer entry. Each refusal has its own
/// error.
pub proof fn lemma_rename_owed(v: VolumeView, a: Seq<char>, b: Seq<char>, now: u32, e: EntryView)
    requires
        e.name.len() == b.len(),
    ensures
        ({
            let r = model::rename_outcome(v, a, b, now);
            let i = model::lookup(v.entries, a);
            let taken = has_file(v, b) && model::lookup(v.entries, b) != i;
            let room = dir::packable(v.entries.update(i->0 as int, e), v.mdb.dir_len as nat);
            let open = v.mdb.atrb & 0x8080 == 0;
            &&& !open ==> r == Err::<VolumeView, Fault>(Fault::VolumeLocked)
            &&& open && !storable(b, 63) ==> r is Err && r->Err_0 is InvalidName
            &&& open && storable(b, 63) && !has_file(v, a) ==> r == Err::<VolumeView, Fault>(
                Fault::FileNotFound(a),
            )
            &&& open && storable(b, 63) && has_file(v, a) && taken ==> r == Err::<
                VolumeView,
                Fault,
            >(Fault::FileExists(b))
            &&& open && storable(b, 63) && has_file(v, a) && !taken && !room ==> r == Err::<
                VolumeView,
                Fault,
            >(Fault::DirectoryFull)
            &&& open && storable(b, 63) && has_file(v, a) && !taken && room ==> r is Ok
        }),
{
    lemma_writable(v);
    lemma_name_taken(b, 63);
    lemma_found(v, a, Fork::Data);
    lemma_found(v, b, Fork::Data);
    if let Ok(raw) = model::name_outcome(b, 63) {
        if let Some(i) = model::lookup(v.entries, a) {
            let d = EntryView { name: raw, ..v.entries[i as int] };
            dir::lemma_placed_by_names(
                v.entries.update(i as int, d),
                v.entries.update(i as int, e),
                v.mdb.dir_len as nat,
                0,
                0,
            );
        }
    }
}

/// A file that was renamed has the new name, letter for letter, and is otherwise
/// reported as it was. No other file changes, the image and the map stay as they
/// were, and of the volume nothing changes but its counters and its modification
/// date.
pub proof fn lemma_renamed(v: VolumeView, a: Seq<char>, b: Seq<char>, now: u32)
    requires
        v.wf(),
        v.entries.len() <= 65535,
        model::rename_outcome(v, a, b, now) is Ok,
    ensures
        has_file(v, a),
        ({
            let w = model::rename_outcome(v, a, b, now)->Ok_0;
            let i = model::lookup(v.entries, a)->0 as int;
            &&& model::files_of(w.entries) == model::files_of(v.entries).update(
                i,
                FileView { name: b, ..model::files_of(v.entries)[i] },
            )
            &&& w.entries == v.entries.update(i, EntryView {
                name: w.entries[i].name,
                ..v.entries[i]
            })
            &&& w.data == v.data
            &&& w.map == v.map
            &&& w.container == v.container
            &&& w.mdb == recounted(
                v.mdb,
                v.entries.len() as u16,
                blockmap::count_free(v.map) as u16,
                now,
            )
        }),
{
    let w = model::rename_outcome(v, a, b, now)->Ok_0;
    lemma_found(v, a, Fork::Data);
    lemma_name_taken(b, 63);
    lemma_counted(w);
    let i = model::lookup(v.entries, a)->0 as int;
    assert(model::files_of(w.entries) =~= model::files_of(v.entries).update(
        i,
        FileView { name: b, ..model::files_of(v.entries)[i] },
    ));
    assert(w.entries =~= v.entries.update(i, EntryView {
        name: w.entries[i].name,
        ..v.entries[i]
    }));
}

/// The volume is renamed if and only if it can be written to and the name can be
/// stored in 27 bytes. It is then reported under that name, and nothing else
/// changes but its counters and its modification date.
pub proof fn lemma_volume_renamed(v: VolumeView, name: Seq<char>, now: u32)
    requires
        v.wf(),
        v.entries.len() <= 65535,
    ensures
        ({
            let r = model::rename_volume_outcome(v, name, now);
            let open = v.mdb.atrb & 0x8080 == 0;
            &&& !open ==> r == Err::<VolumeView, Fault>(Fault::VolumeLocked)
            &&& open && !storable(name, 27) ==> r is Err && r->Err_0 is InvalidName
            &&& open && storable(name, 27) ==> r is Ok
            &&& r matches Ok(w) ==> {
                &&& model::info_of(w) == (InfoView {
                    name,
                    modified: now,
                    file_count: v.entries.len() as u16,
                    free_blocks: blockmap::count_free(v.map) as u16,
                    ..model::info_of(v)
                })
                &&& w == (VolumeView {
                    mdb: MdbView {
                        name_raw: w.mdb.name_raw,
                        ..recounted(
                            v.mdb,
                            v.entries.len() as u16,
                            blockmap::count_free(v.map) as u16,
                            now,
                        )
                    },
                    ..v
                })
            }
        }),
{
    lemma_writable(v);
    lemma_name_taken(name, 27);
    if let Ok(w) = model::rename_volume_outcome(v, name, now) {
        let raw = model::name_outcome(name, 27)->Ok_0;
        lemma_counted(w);
        assert(w.mdb.name_raw.subrange(1, 1 + w.mdb.name_raw[0]) =~= raw);
    }
}

// ------------------------------------------------------------------ the setters

/// A file's codes, locked bit and dates are set if and only if the volume can be
/// written to and the file is there.
pub proof fn lemma_setters_owed(
    v: VolumeView,
    name: Seq<char>,
    codes: (Seq<u8>, Seq<u8>),
    locked: bool,
    dates: (Option<u32>, Option<u32>),
    now: u32,
)
    ensures
        ({
            let owed = v.mdb.atrb & 0x8080 == 0 && has_file(v, name);
            &&& model::type_creator_outcome(v, name, codes.0, codes.1, now) is Ok <==> owed
            &&& model::locked_outcome(v, name, locked, now) is Ok <==> owed
            &&& model::times_outcome(v, name, dates.0, dates.1, now) is Ok <==> owed
        }),
{
    lemma_writable(v);
    lemma_found(v, name, Fork::Data);
}

/// Whether a volume differs from another in one entry, its counters and its
/// modification date alone.
pub open spec fn one_entry_set(v: VolumeView, w: VolumeView, i: int, now: u32) -> bool {
    &&& 0 <= i < v.entries.len()
    &&& w.entries == v.entries.update(i, w.entries[i])
    &&& w.data == v.data
    &&& w.map == v.map
    &&& w.container == v.container
    &&& w.mdb == recounted(v.mdb, v.entries.len() as u16, blockmap::count_free(v.map) as u16, now)
}

/// A file whose type and creator were set is reported with the one as its type
/// and the other as its creator, and otherwise as it was. No other file changes.
pub proof fn lemma_codes_set(
    v: VolumeView,
    name: Seq<char>,
    type_code: Seq<u8>,
    creator: Seq<u8>,
    now: u32,
)
    requires
        v.wf(),
        v.entries.len() <= 65535,
        model::type_creator_outcome(v, name, type_code, creator, now) is Ok,
    ensures
        ({
            let w = model::type_creator_outcome(v, name, type_code, creator, now)->Ok_0;
            let i = model::lookup(v.entries, name)->0 as int;
            &&& one_entry_set(v, w, i, now)
            &&& w.entries[i] == (EntryView { type_code, creator, ..v.entries[i] })
            &&& model::files_of(w.entries) == model::files_of(v.entries).update(
                i,
                FileView { type_code, creator, ..model::files_of(v.entries)[i] },
            )
        }),
{
    let w = model::type_creator_outcome(v, name, type_code, creator, now)->Ok_0;
    lemma_found(v, name, Fork::Data);
    lemma_counted(w);
    let i = model::lookup(v.entries, name)->0 as int;
    assert(w.entries =~= v.entries.update(i, w.entries[i]));
    assert(model::files_of(w.entries) =~= model::files_of(v.entries).update(
        i,
        FileView { type_code, creator, ..model::files_of(v.entries)[i] },
    ));
}

/// A file whose dates were set is reported with those that were given, with the
/// others as they were, and otherwise as it was. No other file changes.
pub proof fn lemma_dates_set(
    v: VolumeView,
    name: Seq<char>,
    created: Option<u32>,
    modified: Option<u32>,
    now: u32,
)
    requires
        v.wf(),
        v.entries.len() <= 65535,
        model::times_outcome(v, name, created, modified, now) is Ok,
    ensures
        ({
            let w = model::times_outcome(v, name, created, modified, now)->Ok_0;
            let i = model::lookup(v.entries, name)->0 as int;
            let before = model::files_of(v.entries)[i];
            let after = model::files_of(w.entries)[i];
            &&& one_entry_set(v, w, i, now)
            &&& created matches Some(t) ==> after.created == t
            &&& created is None ==> after.created == before.created
            &&& modified matches Some(t) ==> after.modified == t
            &&& modified is None ==> after.modified == before.modified
            &&& w.entries[i] == (EntryView {
                cr_dat: w.entries[i].cr_dat,
                md_dat: w.entries[i].md_dat,
                ..v.entries[i]
            })
            &&& model::files_of(w.entries) == model::files_of(v.entries).update(
                i,
                FileView { created: after.created, modified: after.modified, ..before },
            )
        }),
{
    let w = model::times_outcome(v, name, created, modified, now)->Ok_0;
    lemma_found(v, name, Fork::Data);
    lemma_counted(w);
    let i = model::lookup(v.entries, name)->0 as int;
    let after = model::files_of(w.entries)[i];
    assert(w.entries =~= v.entries.update(i, w.entries[i]));
    assert(model::files_of(w.entries) =~= model::files_of(v.entries).update(
        i,
        FileView {
            created: after.created,
            modified: after.modified,
            ..model::files_of(v.entries)[i]
        },
    ));
}

/// A file that was locked or unlocked changes in the lowest bit of its flags
/// alone.
pub proof fn lemma_lock_bit(v: VolumeView, name: Seq<char>, locked: bool, now: u32)
    requires
        v.wf(),
        v.entries.len() <= 65535,
        model::locked_outcome(v, name, locked, now) is Ok,
    ensures
        ({
            let w = model::locked_outcome(v, name, locked, now)->Ok_0;
            let i = model::lookup(v.entries, name)->0 as int;
            &&& one_entry_set(v, w, i, now)
            &&& w.entries[i] == (EntryView { flags: w.entries[i].flags, ..v.entries[i] })
            &&& w.entries[i].flags / 2 == v.entries[i].flags / 2
            &&& w.entries[i].flags & 1 == (if locked {
                1u8
            } else {
                0u8
            })
        }),
{
    let w = model::locked_outcome(v, name, locked, now)->Ok_0;
    lemma_found(v, name, Fork::Data);
    lemma_counted(w);
    let i = model::lookup(v.entries, name)->0 as int;
    assert(w.entries =~= v.entries.update(i, w.entries[i]));
    let flags = w.entries[i].flags;
    assert(flags & 1 == flags % 2) by (bit_vector);
}

// ------------------------------------------------------------------------ saving

/// A stream that was written to begins with the image and keeps what lies behind
/// it.
pub proof fn lemma_overwritten(stream: Seq<u8>, bytes: Seq<u8>)
    ensures
        ({
            let s = model::overwritten(stream, bytes);
            &&& s.take(bytes.len() as int) == bytes
            &&& s.len() >= stream.len()
            &&& s.len() == bytes.len() || s.len() == stream.len()
            &&& forall|i: int| bytes.len() <= i < s.len() ==> #[trigger] s[i] == stream[i]
        }),
{
    let s = model::overwritten(stream, bytes);
    assert(s.take(bytes.len() as int) =~= bytes);
}

/// Whatever of an image is not in use is saved as it was read: the boot blocks,
/// and everything behind the directory.
pub proof fn lemma_saved_verbatim(v: VolumeView)
    requires
        v.wf(),
    ensures
        ({
            let d = model::serialized(v);
            &&& d.len() == v.data.len()
            &&& d.take(1024) == v.data.take(1024)
            &&& d.skip(model::dir_end(v.mdb)) == v.data.skip(model::dir_end(v.mdb))
        }),
{
    let d = model::serialized(v);
    laws::lemma_serialized(v);
    assert(d.take(1024) =~= v.data.take(1024));
    assert(d.skip(model::dir_end(v.mdb)) =~= v.data.skip(model::dir_end(v.mdb)));
}

} // verus!
