//! What the commands of `mfs` are for: what a command leaves on the volume, and
//! where in its output a reader finds what.

use vstd::prelude::*;

use crate::args::FailureView;
use crate::blockmap;
use crate::cli;
use crate::effects;
use crate::error;
use crate::error::Fault;
use crate::history;
use crate::history::Op;
use crate::laws;
use crate::macroman;
use crate::mdb::MdbView;
use crate::model;
use crate::model::{FileView, InfoView, VolumeView};
use crate::report;
use crate::text;
use crate::timestamp;
use crate::upkeep;
use crate::volume::{Fork, ImageFormat};

verus! {

// ------------------------------------------------------------------------- `rm`

/// Whenever `rm` succeeds, forced or not, the file is gone: the directory holds
/// what it held before without the entry that went by the name. A locked file
/// goes only by force. The contents of the image are not touched, and of the
/// volume nothing changes but its counters and its modification date.
pub proof fn lemma_rm_removes(v: VolumeView, name: Seq<char>, force: bool, times: (u32, u32))
    requires
        v.wf(),
        v.entries.len() <= 65535,
        cli::removed(v, name, force, times) is Ok,
    ensures
        effects::has_file(v, name),
        ({
            let w = cli::removed(v, name, force, times)->Ok_0;
            let i = model::lookup(v.entries, name)->0 as int;
            &&& w.entries == v.entries.remove(i)
            &&& model::files_of(w.entries) == model::files_of(v.entries).remove(i)
            &&& force || !model::files_of(v.entries)[i].locked
            &&& w.data == v.data
            &&& w.container == v.container
            &&& w.mdb == effects::recounted(
                v.mdb,
                (v.entries.len() - 1) as u16,
                blockmap::count_free(w.map) as u16,
                times.1,
            )
            &&& upkeep::unique_names(v.entries) ==> !effects::has_file(w, name)
                && model::file_outcome(w, name) == Err::<FileView, Fault>(
                Fault::FileNotFound(name),
            )
        }),
{
    let w = cli::removed(v, name, force, times)->Ok_0;
    let v1 = unlocked_if(v, name, force, times.0);
    lemma_unlocked(v, name, force, times.0);
    effects::lemma_found(v, name, Fork::Data);
    effects::lemma_found(v1, name, Fork::Data);
    effects::lemma_delete_removes(v1, name, times.1);
    let i = model::lookup(v.entries, name)->0 as int;
    assert(w.entries =~= v.entries.remove(i));
    assert(model::files_of(w.entries) =~= model::files_of(v.entries).remove(i));
    if upkeep::unique_names(v.entries) {
        assert forall|a: int, b: int| 0 <= a < b < v1.entries.len() implies !macroman::same_name(
            macroman::decoded(#[trigger] v1.entries[a].name),
            macroman::decoded(#[trigger] v1.entries[b].name),
        ) by {
            assert(v1.entries[a].name == v.entries[a].name);
            assert(v1.entries[b].name == v.entries[b].name);
        }
        upkeep::lemma_delete_unique(v1, name, times.1);
        effects::lemma_found(w, name, Fork::Data);
    }
}

/// The volume whose file is deleted: with its lock taken off, where that is
/// forced and it has one.
spec fn unlocked_if(v: VolumeView, name: Seq<char>, force: bool, now: u32) -> VolumeView {
    if force {
        cli::unlocked(v, name, now)->Ok_0
    } else {
        v
    }
}

/// Taking a lock off changes that entry's flags alone, and leaves it unlocked.
proof fn lemma_unlocked(v: VolumeView, name: Seq<char>, force: bool, now: u32)
    requires
        v.wf(),
        v.entries.len() <= 65535,
        force ==> cli::unlocked(v, name, now) is Ok,
    ensures
        ({
            let u = unlocked_if(v, name, force, now);
            &&& u.wf()
            &&& u.data == v.data
            &&& u.map == v.map
            &&& u.container == v.container
            &&& u.entries.len() == v.entries.len()
            &&& u.mdb == (MdbView {
                nm_fls: u.mdb.nm_fls,
                free_bks: u.mdb.free_bks,
                ls_mod: u.mdb.ls_mod,
                ..v.mdb
            })
            &&& model::lookup(u.entries, name) == model::lookup(v.entries, name)
            &&& forall|k: int|
                0 <= k < v.entries.len() && model::lookup(v.entries, name) != Some(k as nat)
                    ==> #[trigger] u.entries[k] == v.entries[k]
            &&& forall|k: int|
                0 <= k < v.entries.len() ==> (#[trigger] u.entries[k]).name == v.entries[k].name
            &&& force && effects::has_file(v, name) ==> !u.entries[model::lookup(
                v.entries,
                name,
            )->0 as int].locked()
            &&& report::consistent(v) ==> report::consistent(u)
        }),
{
    effects::lemma_found(v, name, Fork::Data);
    if force {
        let i = model::lookup(v.entries, name)->0;
        if v.entries[i as int].locked() {
            let u = model::locked_outcome(v, name, false, now)->Ok_0;
            history::lemma_step_wf(v, Op::SetLocked { name, locked: false, now });
            effects::lemma_lock_bit(v, name, false, now);
            laws::lemma_lookup_by_names(v.entries, u.entries, name, 0);
            if report::consistent(v) {
                upkeep::lemma_lock_alone(v, name, false, now);
            }
        }
    }
}

/// On a consistent volume that is not locked, `rm` deletes every file that is
/// there: the unlocked ones always, the locked ones by force. It gives back just
/// the blocks of the file's two forks, the volume stays consistent, and every
/// other file can be read as before.
pub proof fn lemma_rm_owed(v: VolumeView, name: Seq<char>, force: bool, times: (u32, u32))
    requires
        v.wf(),
        report::consistent(v),
        v.mdb.atrb & 0x8080 == 0,
        effects::has_file(v, name),
        force || !model::file_outcome(v, name)->Ok_0.locked,
    ensures
        cli::removed(v, name, force, times) is Ok,
        ({
            let w = cli::removed(v, name, force, times)->Ok_0;
            let f = model::file_outcome(v, name)->Ok_0;
            let size = v.mdb.al_blk_siz as int;
            &&& report::consistent(w)
            &&& blockmap::count_free(w.map) * size == blockmap::count_free(v.map) * size
                + f.data_alloc + f.rsrc_alloc
            &&& model::info_of(w).free_blocks == blockmap::count_free(w.map)
            &&& model::info_of(w).file_count == v.entries.len() - 1
        }),
{
    effects::lemma_writable(v);
    effects::lemma_found(v, name, Fork::Data);
    let i = model::lookup(v.entries, name)->0;
    let e = v.entries[i as int];
    let v1 = unlocked_if(v, name, force, times.0);
    lemma_unlocked(v, name, force, times.0);
    effects::lemma_writable(v1);
    upkeep::lemma_delete_consistent(v1, name, times.1);
    upkeep::lemma_delete_frees(v1, name, times.1);
    let w = cli::removed(v, name, force, times)->Ok_0;
    let ka = report::data_fork(i);
    let kb = report::rsrc_fork(i);
    assert(ka / 2 == i && kb / 2 == i);
    assert(report::fork_of(ka) == Fork::Data && report::fork_of(kb) == Fork::Resource);
    report::lemma_sound(v1, ka);
    report::lemma_sound(v1, kb);
    let d = v1.entries[i as int];
    assert(d.df_alloc_len == e.df_alloc_len && d.rf_alloc_len == e.rf_alloc_len) by {
        if force && e.locked() {
            effects::lemma_lock_bit(v, name, false, times.0);
        }
    }
    let a = report::blocks_of(v1, ka).len() as int;
    let b = report::blocks_of(v1, kb).len() as int;
    let n = blockmap::count_free(v.map) as int;
    let size = v.mdb.al_blk_siz as int;
    assert((n + a + b) * size == n * size + a * size + b * size) by (nonlinear_arith);
}

/// What `rm` refuses it refuses with a message that names the file: one that is
/// not there, and one that is locked, unless forced. A locked volume is never
/// changed.
pub proof fn lemma_rm_refused(v: VolumeView, name: Seq<char>, force: bool, times: (u32, u32))
    ensures
        v.mdb.atrb & 0x8080 == 0 && !effects::has_file(v, name) ==> cli::removed(
            v,
            name,
            force,
            times,
        ) == Err::<VolumeView, FailureView>(FailureView::Error("file not found: "@ + name)),
        v.mdb.atrb & 0x8080 == 0 && effects::has_file(v, name) && model::file_outcome(
            v,
            name,
        )->Ok_0.locked && !force ==> cli::removed(v, name, force, times) == Err::<
            VolumeView,
            FailureView,
        >(FailureView::Error("file is locked: "@ + name)),
        v.mdb.atrb & 0x8080 != 0 ==> cli::removed(v, name, force, times) is Err,
{
    effects::lemma_writable(v);
    effects::lemma_found(v, name, Fork::Data);
    if force && effects::has_file(v, name) && !model::writable(v) {
        assert(model::target(v, name) is Err);
    }
}

/// Where `rm` deletes a file, deleting it by force makes no difference to what is
/// left, whatever the file.
pub proof fn lemma_rm_force(v: VolumeView, name: Seq<char>, times: (u32, u32))
    requires
        cli::removed(v, name, false, times) is Ok,
    ensures
        cli::removed(v, name, true, times) == cli::removed(v, name, false, times),
{
    effects::lemma_found(v, name, Fork::Data);
}

// ------------------------------------------------------------------------ `add`

/// The steps of `add` that succeeds: the file is created, and its forks written.
proof fn lemma_add_steps(
    v: VolumeView,
    name: Seq<char>,
    codes: (Seq<u8>, Seq<u8>),
    data: Seq<u8>,
    rsrc: Option<Seq<u8>>,
    times: (u32, u32, u32),
)
    requires
        v.wf(),
        codes.0.len() == 4,
        codes.1.len() == 4,
        cli::added(v, name, codes, data, rsrc, times) matches Some(r) && r is Ok,
    ensures
        !effects::has_file(v, name),
        ({
            let v1 = model::create_outcome(v, name, codes.0, codes.1, times.0);
            let v2 = model::write_outcome(v1->Ok_0, name, Fork::Data, data, times.1);
            let w = cli::added(v, name, codes, data, rsrc, times)->0->Ok_0;
            &&& v1 is Ok
            &&& v1->Ok_0.wf()
            &&& model::lookup(v1->Ok_0.entries, name) == Some(v.entries.len())
            &&& v2 is Ok
            &&& v2->Ok_0.wf()
            &&& model::lookup(v2->Ok_0.entries, name) == Some(v.entries.len())
            &&& model::representable(v1->Ok_0, name, Fork::Data, data.len())
            &&& w.wf()
            &&& model::lookup(w.entries, name) == Some(v.entries.len())
            &&& w.entries.len() == v.entries.len() + 1
            &&& match rsrc {
                None => w == v2->Ok_0,
                Some(content) => {
                    &&& model::representable(v2->Ok_0, name, Fork::Resource, content.len())
                    &&& model::write_outcome(v2->Ok_0, name, Fork::Resource, content, times.2)
                        == Ok::<VolumeView, Fault>(w)
                },
            }
        }),
{
    effects::lemma_found(v, name, Fork::Data);
    let v1 = model::create_outcome(v, name, codes.0, codes.1, times.0)->Ok_0;
    let w = cli::added(v, name, codes, data, rsrc, times)->0->Ok_0;
    history::lemma_step_wf(
        v,
        Op::CreateFile { name, type_code: codes.0, creator: codes.1, now: times.0 },
    );
    upkeep::lemma_created(v, name, codes.0, codes.1, times.0, Fork::Data);
    effects::lemma_found(v1, name, Fork::Data);
    lemma_new_is_last(v, name, codes, times.0);
    let v2 = model::write_outcome(v1, name, Fork::Data, data, times.1)->Ok_0;
    laws::lemma_write_wf(v1, name, Fork::Data, data, times.1);
    laws::lemma_lookup_by_names(v1.entries, v2.entries, name, 0);
    match rsrc {
        None => {},
        Some(content) => {
            laws::lemma_write_wf(v2, name, Fork::Resource, content, times.2);
            laws::lemma_lookup_by_names(v2.entries, w.entries, name, 0);
        },
    }
}

/// A new file is found behind all others.
proof fn lemma_new_is_last(v: VolumeView, name: Seq<char>, codes: (Seq<u8>, Seq<u8>), now: u32)
    requires
        model::create_outcome(v, name, codes.0, codes.1, now) is Ok,
    ensures
        model::lookup(
            model::create_outcome(v, name, codes.0, codes.1, now)->Ok_0.entries,
            name,
        ) == Some(v.entries.len()),
{
    let w = model::create_outcome(v, name, codes.0, codes.1, now)->Ok_0;
    laws::lemma_lookup(v.entries, name, 0);
    laws::lemma_lookup(w.entries, name, 0);
    effects::lemma_name_taken(name, 63);
    let n = v.entries.len();
    assert(model::named(w.entries[n as int], name));
    assert forall|i: int| 0 <= i < n implies !model::named(#[trigger] w.entries[i], name) by {
        assert(w.entries[i] == v.entries[i]);
        assert(!model::named(v.entries[i], name));
    }
}

/// Whenever `add` succeeds, the volume has a file of the given name with the
/// given type as its type and the given creator as its creator, created when it
/// was, last modified with its last fork, unlocked, and with the next number.
/// All files that were there before are still there, before it, as they were.
pub proof fn lemma_add_reported(
    v: VolumeView,
    name: Seq<char>,
    codes: (Seq<u8>, Seq<u8>),
    data: Seq<u8>,
    rsrc: Option<Seq<u8>>,
    times: (u32, u32, u32),
)
    requires
        v.wf(),
        v.entries.len() < 65535,
        codes.0.len() == 4,
        codes.1.len() == 4,
        cli::added(v, name, codes, data, rsrc, times) matches Some(r) && r is Ok,
    ensures
        ({
            let w = cli::added(v, name, codes, data, rsrc, times)->0->Ok_0;
            let f = model::file_outcome(w, name)->Ok_0;
            &&& model::file_outcome(v, name) is Err
            &&& model::file_outcome(w, name) is Ok
            &&& f.name == name
            &&& f.type_code == codes.0
            &&& f.creator == codes.1
            &&& f.created == times.0
            &&& f.modified == (match rsrc {
                None => times.1,
                Some(_) => times.2,
            })
            &&& !f.locked
            &&& f.finder_flags == 0
            &&& f.file_num == v.mdb.nxt_fnum
            &&& w.entries.drop_last() == v.entries
            &&& model::files_of(w.entries) == model::files_of(v.entries).push(f)
            &&& w.container == v.container
            &&& model::info_of(w).name == model::info_of(v).name
            &&& model::info_of(w).created == model::info_of(v).created
            &&& model::info_of(w).file_count == v.entries.len() + 1
        }),
{
    lemma_add_steps(v, name, codes, data, rsrc, times);
    effects::lemma_found(v, name, Fork::Data);
    effects::lemma_create_adds(v, name, codes.0, codes.1, times.0);
    let v1 = model::create_outcome(v, name, codes.0, codes.1, times.0)->Ok_0;
    let v2 = model::write_outcome(v1, name, Fork::Data, data, times.1)->Ok_0;
    let w = cli::added(v, name, codes, data, rsrc, times)->0->Ok_0;
    let n = v.entries.len() as int;
    assert(model::files_of(v1.entries)[n] == model::file_of(v1.entries[n]));
    assert(w.entries.drop_last() =~= v.entries) by {
        assert forall|i: int| 0 <= i < n implies w.entries[i] == v.entries[i] by {
            assert(v1.entries.drop_last()[i] == v.entries[i]);
        }
    }
    let f = model::file_outcome(w, name)->Ok_0;
    assert(model::files_of(w.entries) =~= model::files_of(v.entries).push(f)) by {
        assert forall|i: int| 0 <= i < n implies w.entries[i] == v.entries[i] by {
            assert(w.entries.drop_last()[i] == v.entries[i]);
        }
    }
}

/// Whenever `add` succeeds on a volume whose block numbers all fit in a map entry,
/// the forks of the new file can be read and hold the given bytes, the resource
/// fork none where none were given, and their lengths are reported.
pub proof fn lemma_add_read_back(
    v: VolumeView,
    name: Seq<char>,
    codes: (Seq<u8>, Seq<u8>),
    data: Seq<u8>,
    rsrc: Option<Seq<u8>>,
    times: (u32, u32, u32),
)
    requires
        v.wf(),
        report::consistent(v),
        v.map.len() <= 4093,
        v.entries.len() < 65535,
        data.len() <= u32::MAX,
        rsrc matches Some(content) ==> content.len() <= u32::MAX,
        codes.0.len() == 4,
        codes.1.len() == 4,
        cli::added(v, name, codes, data, rsrc, times) matches Some(r) && r is Ok,
    ensures
        ({
            let w = cli::added(v, name, codes, data, rsrc, times)->0->Ok_0;
            let f = model::file_outcome(w, name)->Ok_0;
            let content = match rsrc {
                Some(content) => content,
                None => Seq::empty(),
            };
            &&& w.wf()
            &&& report::consistent(w)
            &&& model::read_outcome(w, name, Fork::Data) == Ok::<Seq<u8>, Fault>(data)
            &&& model::read_outcome(w, name, Fork::Resource) == Ok::<Seq<u8>, Fault>(content)
            &&& f.data_len == data.len()
            &&& f.rsrc_len == content.len()
            &&& forall|asked: Seq<char>, fork: Fork|
                effects::has_file(v, asked) ==> #[trigger] model::read_outcome(w, asked, fork)
                    == model::read_outcome(v, asked, fork)
        }),
{
    lemma_add_steps(v, name, codes, data, rsrc, times);
    let v1 = model::create_outcome(v, name, codes.0, codes.1, times.0)->Ok_0;
    let v2 = model::write_outcome(v1, name, Fork::Data, data, times.1)->Ok_0;
    let w = cli::added(v, name, codes, data, rsrc, times)->0->Ok_0;
    upkeep::lemma_created(v, name, codes.0, codes.1, times.0, Fork::Resource);
    upkeep::lemma_create_consistent(v, name, codes.0, codes.1, times.0);
    laws::lemma_small_map_linkable(v1, name, Fork::Data, data.len());
    laws::lemma_write_read(v1, name, Fork::Data, data, times.1);
    upkeep::lemma_write_consistent(v1, name, Fork::Data, data, times.1);
    upkeep::lemma_write_leaves(v1, name, Fork::Data, data, times.1);
    laws::lemma_write_plan(v1, name, Fork::Data, data.len());
    assert(v2.map.len() == v.map.len());
    match rsrc {
        None => {},
        Some(content) => {
            laws::lemma_small_map_linkable(v2, name, Fork::Resource, content.len());
            laws::lemma_write_read(v2, name, Fork::Resource, content, times.2);
            upkeep::lemma_write_consistent(v2, name, Fork::Resource, content, times.2);
            upkeep::lemma_write_leaves(v2, name, Fork::Resource, content, times.2);
        },
    }
    effects::lemma_found(w, name, Fork::Data);
    effects::lemma_lengths_read(w, name);
    assert forall|asked: Seq<char>, fork: Fork| effects::has_file(v, asked) implies
        #[trigger] model::read_outcome(w, asked, fork) == model::read_outcome(v, asked, fork) by {
        lemma_add_keeps_read(v, name, codes, data, rsrc, times, asked, fork);
    }
}

/// A file that was there before `add` is found and read as before.
proof fn lemma_add_keeps_read(
    v: VolumeView,
    name: Seq<char>,
    codes: (Seq<u8>, Seq<u8>),
    data: Seq<u8>,
    rsrc: Option<Seq<u8>>,
    times: (u32, u32, u32),
    asked: Seq<char>,
    fork: Fork,
)
    requires
        v.wf(),
        report::consistent(v),
        v.map.len() <= 4093,
        v.entries.len() < 65535,
        data.len() <= u32::MAX,
        rsrc matches Some(content) ==> content.len() <= u32::MAX,
        codes.0.len() == 4,
        codes.1.len() == 4,
        cli::added(v, name, codes, data, rsrc, times) matches Some(r) && r is Ok,
        effects::has_file(v, asked),
    ensures
        model::read_outcome(
            cli::added(v, name, codes, data, rsrc, times)->0->Ok_0,
            asked,
            fork,
        ) == model::read_outcome(v, asked, fork),
{
    lemma_add_steps(v, name, codes, data, rsrc, times);
    let v1 = model::create_outcome(v, name, codes.0, codes.1, times.0)->Ok_0;
    let v2 = model::write_outcome(v1, name, Fork::Data, data, times.1)->Ok_0;
    let w = cli::added(v, name, codes, data, rsrc, times)->0->Ok_0;
    upkeep::lemma_create_consistent(v, name, codes.0, codes.1, times.0);
    effects::lemma_found(v, asked, fork);
    let j = model::lookup(v.entries, asked)->0;
    assert(model::lookup(v1.entries, asked) == Some(j)) by {
        effects::lemma_found(v1, asked, fork);
        assert forall|k: int| 0 <= k < v.entries.len() implies #[trigger] v1.entries[k]
            == v.entries[k] by {}
        assert(v1.entries[j as int] == v.entries[j as int]);
        assert(effects::has_file(v1, asked));
        let l = model::lookup(v1.entries, asked)->0;
        if l < j {
            assert(v1.entries[l as int] == v.entries[l as int]);
        }
    }
    upkeep::lemma_changes_keep_contents(
        v,
        name,
        name,
        codes,
        false,
        (None, None),
        times.0,
    );
    assert(model::fork_outcome(v1, v1.entries[j as int], asked, fork) == model::fork_outcome(
        v,
        v.entries[j as int],
        asked,
        fork,
    ));
    laws::lemma_small_map_linkable(v1, name, Fork::Data, data.len());
    upkeep::lemma_write_consistent(v1, name, Fork::Data, data, times.1);
    upkeep::lemma_write_leaves(v1, name, Fork::Data, data, times.1);
    laws::lemma_write_plan(v1, name, Fork::Data, data.len());
    laws::lemma_lookup_by_names(v1.entries, v2.entries, asked, 0);
    match rsrc {
        None => {},
        Some(content) => {
            laws::lemma_small_map_linkable(v2, name, Fork::Resource, content.len());
            upkeep::lemma_write_leaves(v2, name, Fork::Resource, content, times.2);
        },
    }
}

/// `add` does not replace a file, and says how to do that. What cannot be created
/// is refused with the message for that.
pub proof fn lemma_add_refused(
    v: VolumeView,
    name: Seq<char>,
    codes: (Seq<u8>, Seq<u8>),
    data: Seq<u8>,
    rsrc: Option<Seq<u8>>,
    times: (u32, u32, u32),
)
    ensures
        effects::has_file(v, name) ==> cli::added(v, name, codes, data, rsrc, times) == Some(
            Err::<VolumeView, FailureView>(
                FailureView::Error(
                    "file already exists: "@ + name + " (delete it first with `mfs rm`)"@,
                ),
            ),
        ),
        !effects::has_file(v, name) ==> (model::create_outcome(
            v,
            name,
            codes.0,
            codes.1,
            times.0,
        ) matches Err(f) ==> cli::added(v, name, codes, data, rsrc, times) == Some(
            Err::<VolumeView, FailureView>(FailureView::Error(error::message(f, ""@))),
        )),
{
    effects::lemma_found(v, name, Fork::Data);
}

/// `add` succeeds on a consistent volume that can be written to, for a name that
/// can be stored and that no file has, as long as the directory has room for one
/// entry more and the free blocks hold both forks.
pub proof fn lemma_add_owed(
    v: VolumeView,
    name: Seq<char>,
    codes: (Seq<u8>, Seq<u8>),
    data: Seq<u8>,
    rsrc: Option<Seq<u8>>,
    times: (u32, u32, u32),
    e: crate::dir::EntryView,
)
    requires
        v.wf(),
        report::consistent(v),
        v.map.len() <= 4093,
        v.data.len() <= u32::MAX,
        v.entries.len() < 65535,
        v.mdb.atrb & 0x8080 == 0,
        codes.0.len() == 4,
        codes.1.len() == 4,
        data.len() <= u32::MAX,
        rsrc matches Some(content) ==> content.len() <= u32::MAX,
        effects::storable(name, 63),
        !effects::has_file(v, name),
        e.name.len() == name.len(),
        crate::dir::packable(v.entries.push(e), v.mdb.dir_len as nat),
        model::blocks_needed(data.len(), v.mdb.al_blk_siz) + (match rsrc {
            Some(content) => model::blocks_needed(content.len(), v.mdb.al_blk_siz) as int,
            None => 0,
        }) <= blockmap::count_free(v.map),
    ensures
        cli::added(v, name, codes, data, rsrc, times) matches Some(r) && r is Ok,
{
    effects::lemma_create_owed(v, name, codes.0, codes.1, times.0, e);
    effects::lemma_found(v, name, Fork::Data);
    let v1 = model::create_outcome(v, name, codes.0, codes.1, times.0)->Ok_0;
    effects::lemma_create_adds(v, name, codes.0, codes.1, times.0);
    history::lemma_step_wf(
        v,
        Op::CreateFile { name, type_code: codes.0, creator: codes.1, now: times.0 },
    );
    lemma_new_is_last(v, name, codes, times.0);
    effects::lemma_writable(v);
    assert(model::fork_start(v1.entries[v.entries.len() as int], Fork::Data) == 0);
    laws::lemma_representable(v1, name, Fork::Data, data.len());
    assert(model::write_plan(v1, name, Fork::Data, data.len()) is Ok);
    let v2 = model::write_outcome(v1, name, Fork::Data, data, times.1)->Ok_0;
    laws::lemma_write_wf(v1, name, Fork::Data, data, times.1);
    laws::lemma_write_plan(v1, name, Fork::Data, data.len());
    laws::lemma_lookup_by_names(v1.entries, v2.entries, name, 0);
    match rsrc {
        None => {},
        Some(content) => {
            laws::lemma_small_map_linkable(v1, name, Fork::Data, data.len());
            upkeep::lemma_write_count(v1, name, Fork::Data, data, times.1);
            history::lemma_step_size(
                v1,
                Op::WriteFork { name, fork: Fork::Data, content: data, now: times.1 },
            );
            laws::lemma_representable(v2, name, Fork::Resource, content.len());
            assert(model::fork_start(v2.entries[v.entries.len() as int], Fork::Resource) == 0);
            assert(model::write_plan(v2, name, Fork::Resource, content.len()) is Ok);
        },
    }
}

// ------------------------------------------------------------------------- `ls`

/// A Finder code is shown in as many characters as it has bytes: the printable
/// ASCII characters as themselves, and a dot for anything else.
pub proof fn lemma_code_shown(code: Seq<u8>)
    ensures
        cli::code_shown(code).len() == code.len(),
        forall|i: int|
            0 <= i < code.len() ==> {
                let c = #[trigger] cli::code_shown(code)[i];
                &&& ' ' <= c <= '~'
                &&& 0x20 <= code[i] < 0x7F ==> c as int == code[i]
                &&& code[i] < 0x20 || code[i] >= 0x7F ==> c == '.'
            },
{
}

/// The number of bytes of a fork, in the column for it.
pub open spec fn length_column(len: nat) -> Seq<char> {
    text::pad_left(text::decimal(len), 8, ' ')
}

/// Where in the line of a long listing everything stands, for any file: its type
/// in the first four characters and its creator in the four from the sixth on,
/// then the lengths of its data and resource forks, each in eight characters or
/// as many as it takes, its modification date in nineteen, the mark of a lock in
/// three, its name, and the end of the line.
#[verifier::rlimit(30)]
pub proof fn lemma_long_line(f: FileView)
    requires
        f.type_code.len() == 4,
        f.creator.len() == 4,
    ensures
        ({
            let l = cli::file_line(f, true);
            let d = length_column(f.data_len as nat).len() as int;
            let r = length_column(f.rsrc_len as nat).len() as int;
            let date = 15 + d + r;
            let name = date + 25;
            &&& 8 <= d <= 10 && 8 <= r <= 10
            &&& l.len() == name + f.name.len() + 1
            &&& l.subrange(0, 4) == cli::code_shown(f.type_code)
            &&& l[4] == ' '
            &&& l.subrange(5, 9) == cli::code_shown(f.creator)
            &&& l[9] == ' ' && l[10] == ' '
            &&& l.subrange(11, 11 + d) == length_column(f.data_len as nat)
            &&& l[11 + d] == ' ' && l[12 + d] == ' '
            &&& l.subrange(13 + d, 13 + d + r) == length_column(f.rsrc_len as nat)
            &&& l[13 + d + r] == ' ' && l[14 + d + r] == ' '
            &&& l.subrange(date, date + 19) == timestamp::rendered(f.modified)
            &&& l[date + 19] == ' ' && l[date + 20] == ' '
            &&& l[date + 21] == (if f.locked {
                '['
            } else {
                ' '
            })
            &&& l[date + 22] == (if f.locked {
                'L'
            } else {
                ' '
            })
            &&& l[date + 23] == (if f.locked {
                ']'
            } else {
                ' '
            })
            &&& l[date + 24] == ' '
            &&& l.subrange(name, name + f.name.len() as int) == f.name
            &&& l.last() == '\n'
        }),
{
    reveal_strlit(" ");
    reveal_strlit("  ");
    reveal_strlit("\n");
    reveal_strlit("[L]");
    reveal_strlit("");
    text::lemma_decimal_len(f.data_len as nat);
    text::lemma_decimal_len(f.rsrc_len as nat);
    text::lemma_pad_left(text::decimal(f.data_len as nat), 8, ' ');
    text::lemma_pad_left(text::decimal(f.rsrc_len as nat), 8, ' ');
    timestamp::lemma_rendered(f.modified);
    let mark = if f.locked {
        "[L]"@
    } else {
        ""@
    };
    text::lemma_pad_right(mark, 3);
    let l = cli::file_line(f, true);
    let d = length_column(f.data_len as nat);
    let r = length_column(f.rsrc_len as nat);
    let date = 15 + d.len() as int + r.len() as int;
    let m = text::pad_right(mark, 3);
    assert(l.subrange(0, 4) =~= cli::code_shown(f.type_code));
    assert(l.subrange(5, 9) =~= cli::code_shown(f.creator));
    assert(l.subrange(11, 11 + d.len() as int) =~= d);
    assert(l.subrange(13 + d.len() as int, 13 + d.len() as int + r.len() as int) =~= r);
    assert(l.subrange(date, date + 19) =~= timestamp::rendered(f.modified));
    assert(l.subrange(date + 21, date + 24) =~= m);
    assert(l[date + 21] == m[0] && l[date + 22] == m[1] && l[date + 23] == m[2]) by {
        let t = l.subrange(date + 21, date + 24);
        assert(t[0] == m[0] && t[1] == m[1] && t[2] == m[2]);
    }
    if f.locked {
        let t = m.take(3);
        assert(m[0] == t[0] && m[1] == t[1] && m[2] == t[2]);
    }
    assert(l.subrange(date + 25, date + 25 + f.name.len()) =~= f.name);
}

/// In a long listing of a volume the line of a file has, right-aligned in the
/// eight characters from column 11 on, the number of bytes that reading its data
/// fork gives, and in the eight from column 21 on, that of its resource fork, its
/// modification date from column 31 on and its name from column 56 on, as long as
/// the numbers have no more than eight digits.
pub proof fn lemma_listed(v: VolumeView, i: nat, asked: Seq<char>)
    requires
        v.wf(),
        i < v.entries.len(),
        model::fork_outcome(v, v.entries[i as int], asked, Fork::Data) is Ok,
        model::fork_outcome(v, v.entries[i as int], asked, Fork::Resource) is Ok,
    ensures
        ({
            let f = model::files_of(v.entries)[i as int];
            let data = model::fork_outcome(v, v.entries[i as int], asked, Fork::Data)->Ok_0;
            let rsrc = model::fork_outcome(v, v.entries[i as int], asked, Fork::Resource)->Ok_0;
            let l = cli::file_line(f, true);
            data.len() < 100_000_000 && rsrc.len() < 100_000_000 ==> {
                &&& right_aligned(l, 11, 8, data.len())
                &&& right_aligned(l, 21, 8, rsrc.len())
                &&& l.subrange(31, 50) == timestamp::rendered(v.entries[i as int].md_dat)
                &&& l.subrange(56, l.len() - 1) == macroman::decoded(v.entries[i as int].name)
            }
        }),
{
    let e = v.entries[i as int];
    let f = model::files_of(v.entries)[i as int];
    let data = model::fork_outcome(v, e, asked, Fork::Data)->Ok_0;
    let rsrc = model::fork_outcome(v, e, asked, Fork::Resource)->Ok_0;
    effects::lemma_fork_length(v, i, asked, Fork::Data);
    effects::lemma_fork_length(v, i, asked, Fork::Resource);
    effects::lemma_reported(e);
    assert(e.codes_ok());
    if data.len() < 100_000_000 && rsrc.len() < 100_000_000 {
        let l = cli::file_line(f, true);
        lemma_long_line(f);
        text::lemma_decimal_len(data.len());
        text::lemma_decimal_len(rsrc.len());
        lemma_right_aligned(l, 11, data.len());
        lemma_right_aligned(l, 21, rsrc.len());
        assert(f.name =~= macroman::decoded(e.name));
        assert(l.subrange(56, l.len() - 1) =~= f.name);
    }
}

/// Whether a number stands at the right end of a column of a line, with nothing
/// but spaces before it.
pub open spec fn right_aligned(l: Seq<char>, at: int, width: int, n: nat) -> bool {
    exists|k: int|
        {
            &&& at <= k < at + width
            &&& #[trigger] text::spells(l.subrange(k, at + width), n)
            &&& forall|j: int| at <= j < k ==> #[trigger] l[j] == ' '
        }
}

/// A number in its column is right-aligned.
proof fn lemma_right_aligned(l: Seq<char>, at: int, n: nat)
    requires
        0 <= at,
        at + 8 <= l.len(),
        n < 100_000_000,
        l.subrange(at, at + 8) == length_column(n),
    ensures
        right_aligned(l, at, 8, n),
{
    let c = length_column(n);
    let d = text::decimal(n);
    text::lemma_decimal(n, n);
    text::lemma_decimal_len(n);
    text::lemma_pad_left(d, 8, ' ');
    let w = 8 - d.len();
    let k = at + w;
    assert(l.subrange(k, at + 8) =~= d) by {
        assert(c.skip(w as int) == d);
        assert forall|j: int| 0 <= j < d.len() implies l.subrange(k, at + 8)[j] == d[j] by {
            assert(l.subrange(at, at + 8)[w + j] == c[w + j]);
            assert(c.skip(w as int)[j] == c[w + j]);
        }
    }
    assert forall|j: int| at <= j < k implies #[trigger] l[j] == ' ' by {
        assert(l.subrange(at, at + 8)[j - at] == c[j - at]);
    }
    assert(text::spells(l.subrange(k, at + 8), n));
}

/// A short listing has nothing but names, and every listing has a line for each
/// file, in the order of the files; a long one has a heading before them, whatever
/// the files.
pub proof fn lemma_listing(files: Seq<FileView>, f: FileView, long: bool)
    ensures
        cli::ls_printed(Seq::empty(), false) == Seq::<char>::empty(),
        cli::file_line(f, false) == f.name.push('\n'),
        cli::ls_printed(files.push(f), long) == cli::ls_printed(files, long) + cli::file_line(
            f,
            long,
        ),
{
    reveal_strlit("\n");
    assert(cli::ls_printed(Seq::empty(), false) =~= Seq::<char>::empty());
    assert(cli::file_line(f, false) =~= f.name.push('\n'));
    let more = files.push(f);
    lemma_same_lines(files, more, long, files.len());
    assert(cli::ls_printed(more, long) =~= cli::ls_printed(files, long) + cli::file_line(f, long));
}

/// The lines of the first files depend on those files alone.
proof fn lemma_same_lines(a: Seq<FileView>, b: Seq<FileView>, long: bool, k: nat)
    requires
        k <= a.len(),
        k <= b.len(),
        forall|i: int| 0 <= i < k ==> a[i] == b[i],
    ensures
        cli::file_lines(a, long, k) == cli::file_lines(b, long, k),
    decreases k,
{
    if k > 0 {
        lemma_same_lines(a, b, long, (k - 1) as nat);
    }
}

/// The heading of a long listing has each of its words over the column it is for:
/// the types from column 0, the creators from column 5, the lengths of the data
/// forks up to column 19 and of the resource forks up to column 29, the dates from
/// column 31 and the names from column 56.
pub proof fn lemma_heading()
    ensures
        ({
            let h = cli::ls_printed(Seq::empty(), true);
            &&& h.subrange(0, 4) == "TYPE"@
            &&& h.subrange(5, 9) == "CREA"@
            &&& h.subrange(15, 19) == "DATA"@
            &&& h.subrange(25, 29) == "RSRC"@
            &&& h.subrange(31, 39) == "MODIFIED"@
            &&& h.subrange(56, 60) == "NAME"@
            &&& h.len() == 61
            &&& h.last() == '\n'
        }),
{
    reveal_strlit("TYPE CREA  ");
    reveal_strlit("      NAME\n");
    reveal_strlit("TYPE");
    reveal_strlit("CREA");
    reveal_strlit("DATA");
    reveal_strlit("RSRC");
    reveal_strlit("MODIFIED");
    reveal_strlit("NAME");
    reveal_strlit("  ");
    let h = cli::ls_printed(Seq::empty(), true);
    assert(h =~= cli::heading());
    assert(h.subrange(0, 4) =~= "TYPE"@);
    assert(h.subrange(5, 9) =~= "CREA"@);
    assert(h.subrange(15, 19) =~= "DATA"@);
    assert(h.subrange(25, 29) =~= "RSRC"@);
    assert(h.subrange(31, 39) =~= "MODIFIED"@);
    assert(h.subrange(56, 60) =~= "NAME"@);
}

// ----------------------------------------------------------------------- `info`

/// A line of the description of a volume.
pub open spec fn described(label: Seq<char>, value: Seq<char>) -> Seq<char> {
    label + value + "\n"@
}

/// What `info` prints of a consistent volume: its name, its container, its dates,
/// how many files it has, the size and number of its allocation blocks, how many
/// of them are free and how many bytes those hold, and whether it begins with the
/// boot signature; a line for each, in this order.
#[verifier::rlimit(30)]
pub proof fn lemma_info_described(v: VolumeView)
    requires
        v.wf(),
        report::consistent(v),
    ensures
        ({
            let free = blockmap::count_free(v.map);
            let size = v.mdb.al_blk_siz as nat;
            let name = v.mdb.name_raw.subrange(1, 1 + v.mdb.name_raw[0]);
            cli::info_printed(model::info_of(v), v.data.take(1024)) == described(
                "volume:      "@,
                macroman::decoded(name),
            ) + described(
                "format:      "@,
                match v.container {
                    model::ContainerView::Raw => "raw sector image"@,
                    model::ContainerView::Dc42 { .. } => "DiskCopy 4.2"@,
                },
            ) + described("created:     "@, timestamp::rendered(v.mdb.cr_date)) + described(
                "modified:    "@,
                timestamp::rendered(v.mdb.ls_mod),
            ) + described("files:       "@, text::decimal(model::files_of(v.entries).len()))
                + described("block size:  "@, text::decimal(size) + " bytes"@) + described(
                "blocks:      "@,
                text::decimal(v.map.len()) + " total, "@ + text::decimal(free) + " free ("@
                    + text::decimal(free * size) + " bytes)"@,
            ) + described(
                "bootable:    "@,
                if v.data[0] == 0x4C && v.data[1] == 0x4B {
                    "yes"@
                } else {
                    "no"@
                },
            )
        }),
{
    let i = model::info_of(v);
    let blocks = v.data.take(1024);
    lemma_info_lines(i, blocks);
    blockmap::lemma_free_blocks(v.map);
    assert((i.free_blocks * i.alloc_block_size) as nat == blockmap::count_free(v.map)
        * v.mdb.al_blk_siz as nat);
}

/// The lines that `info` prints.
#[verifier::rlimit(60)]
proof fn lemma_info_lines(i: InfoView, blocks: Seq<u8>)
    ensures
        cli::info_printed(i, blocks) == described("volume:      "@, i.name) + described(
            "format:      "@,
            cli::format_words(i.format),
        ) + described("created:     "@, timestamp::rendered(i.created)) + described(
            "modified:    "@,
            timestamp::rendered(i.modified),
        ) + described("files:       "@, text::decimal(i.file_count as nat)) + described(
            "block size:  "@,
            text::decimal(i.alloc_block_size as nat) + " bytes"@,
        ) + described(
            "blocks:      "@,
            text::decimal(i.total_blocks as nat) + " total, "@ + text::decimal(
                i.free_blocks as nat,
            ) + " free ("@ + text::decimal((i.free_blocks * i.alloc_block_size) as nat)
                + " bytes)"@,
        ) + described(
            "bootable:    "@,
            if cli::bootable(blocks) {
                "yes"@
            } else {
                "no"@
            },
        ),
{
    reveal_strlit("\n");
    reveal_strlit("format:      ");
    reveal_strlit("\nformat:      ");
    reveal_strlit("created:     ");
    reveal_strlit("\ncreated:     ");
    reveal_strlit("modified:    ");
    reveal_strlit("\nmodified:    ");
    reveal_strlit("files:       ");
    reveal_strlit("\nfiles:       ");
    reveal_strlit("block size:  ");
    reveal_strlit("\nblock size:  ");
    reveal_strlit(" bytes");
    reveal_strlit("blocks:      ");
    reveal_strlit(" bytes\nblocks:      ");
    reveal_strlit(" bytes)");
    reveal_strlit("bootable:    ");
    reveal_strlit(" bytes)\nbootable:    ");
    assert("\nformat:      "@ =~= "\n"@ + "format:      "@);
    assert("\ncreated:     "@ =~= "\n"@ + "created:     "@);
    assert("\nmodified:    "@ =~= "\n"@ + "modified:    "@);
    assert("\nfiles:       "@ =~= "\n"@ + "files:       "@);
    assert("\nblock size:  "@ =~= "\n"@ + "block size:  "@);
    assert(" bytes\nblocks:      "@ =~= " bytes"@ + "\n"@ + "blocks:      "@);
    assert(" bytes)\nbootable:    "@ =~= " bytes)"@ + "\n"@ + "bootable:    "@);
    assert(cli::info_printed(i, blocks) =~= described("volume:      "@, i.name) + described(
        "format:      "@,
        cli::format_words(i.format),
    ) + described("created:     "@, timestamp::rendered(i.created)) + described(
        "modified:    "@,
        timestamp::rendered(i.modified),
    ) + described("files:       "@, text::decimal(i.file_count as nat)) + described(
        "block size:  "@,
        text::decimal(i.alloc_block_size as nat) + " bytes"@,
    ) + described(
        "blocks:      "@,
        text::decimal(i.total_blocks as nat) + " total, "@ + text::decimal(i.free_blocks as nat)
            + " free ("@ + text::decimal((i.free_blocks * i.alloc_block_size) as nat) + " bytes)"@,
    ) + described(
        "bootable:    "@,
        if cli::bootable(blocks) {
            "yes"@
        } else {
            "no"@
        },
    ));
}

// -------------------------------------------------------------------- `extract`

/// The host file that a fork goes to has the name of the file, character by
/// character, but for an underscore in place of every slash; a resource fork goes
/// to one with `.rsrc` behind it.
pub proof fn lemma_extract_path(name: Seq<char>)
    ensures
        ({
            let p = cli::default_path(name, Fork::Data);
            &&& p.len() == name.len()
            &&& forall|i: int| 0 <= i < p.len() ==> #[trigger] p[i] != '/'
            &&& forall|i: int| 0 <= i < p.len() && name[i] != '/' ==> #[trigger] p[i] == name[i]
            &&& forall|i: int| 0 <= i < p.len() && name[i] == '/' ==> #[trigger] p[i] == '_'
            &&& cli::default_path(name, Fork::Resource) == p + ".rsrc"@
        }),
{
}

// ---------------------------------------------------------------------- `check`

/// A check that finds nothing prints `ok` and nothing else. Any other prints the
/// problems, each on a line of its own and in order, and then how many there are.
pub proof fn lemma_check_printed(problems: Seq<Seq<char>>, p: Seq<char>)
    ensures
        cli::check_printed(Seq::empty()) == "ok\n"@,
        cli::check_printed(seq![p]) == p + "\n1 problem(s) found\n"@,
        ({
            let n = problems.len();
            let tail = |k: nat| text::decimal(k) + " problem(s) found\n"@;
            let a = cli::check_printed(problems);
            let b = cli::check_printed(problems.push(p));
            n > 0 ==> {
                &&& a.len() >= tail(n).len()
                &&& a.skip(a.len() - tail(n).len()) == tail(n)
                &&& b == a.take(a.len() - tail(n).len()) + p + "\n"@ + tail(n + 1)
            }
        }),
{
    let n = problems.len();
    let more = problems.push(p);
    reveal_strlit("\n");
    reveal_strlit(" problem(s) found\n");
    reveal_strlit("\n1 problem(s) found\n");
    let one = seq![p];
    reveal_with_fuel(cli::problem_lines, 2);
    assert(cli::check_printed(one) =~= p + "\n1 problem(s) found\n"@);
    lemma_same_problems(problems, more, n);
    let a = cli::check_printed(problems);
    let t = text::decimal(n) + " problem(s) found\n"@;
    let u = text::decimal(n + 1) + " problem(s) found\n"@;
    if n > 0 {
        let body = cli::problem_lines(problems, n);
        assert(a =~= body + t);
        assert(a.skip(a.len() - t.len()) =~= t);
        assert(a.take(a.len() - t.len()) =~= body);
        assert(cli::check_printed(more) =~= body + p + "\n"@ + u);
    }
}

/// The lines of the first problems depend on those alone.
proof fn lemma_same_problems(a: Seq<Seq<char>>, b: Seq<Seq<char>>, k: nat)
    requires
        k <= a.len(),
        k <= b.len(),
        forall|i: int| 0 <= i < k ==> a[i] == b[i],
    ensures
        cli::problem_lines(a, k) == cli::problem_lines(b, k),
    decreases k,
{
    if k > 0 {
        lemma_same_problems(a, b, (k - 1) as nat);
    }
}

// ----------------------------------------------------------------- `bootblocks`

/// What is said of boot blocks: they are bootable if and only if they begin with
/// the letters LK, and what is not is told apart by whether it is all zeros. What
/// `info` says agrees.
pub proof fn lemma_boot_said(blocks: Seq<u8>)
    requires
        blocks.len() == 1024,
    ensures
        ({
            let lk = blocks[0] as char == 'L' && blocks[1] as char == 'K';
            let zero = blocks == crate::util::zeros(1024);
            let said = cli::boot_said(blocks);
            &&& cli::bootable(blocks) <==> lk
            &&& lk ==> said == "bootable: yes ('LK' boot block signature present)"@
            &&& zero ==> said
                == "not bootable (no boot code; the boot block region is all zeros)"@
            &&& !lk && !zero ==> said
                == "not bootable (no 'LK' signature, but the boot block region is not empty)"@
        }),
{
    assert(forall|b: u8| #[trigger] (b as char) == 'L' <==> b == 0x4C);
    assert(forall|b: u8| #[trigger] (b as char) == 'K' <==> b == 0x4B);
    if forall|i: int| 0 <= i < blocks.len() ==> #[trigger] blocks[i] == 0 {
        assert(blocks =~= crate::util::zeros(1024));
    } else {
        let k = choose|k: int| 0 <= k < blocks.len() && #[trigger] blocks[k] != 0;
        assert(crate::util::zeros(1024)[k] == 0);
    }
}

// --------------------------------------------------------------------- messages

/// What a command says once it is done names the file, the host file or the image
/// it was done to, as it was given, and the numbers of bytes.
pub proof fn lemma_done_said(
    image: Seq<char>,
    name: Seq<char>,
    other: Seq<char>,
    path: Seq<char>,
    data: nat,
    rsrc: nat,
)
    ensures
        cli::extract_said(data, path) == "wrote "@ + text::decimal(data) + " bytes to "@ + path,
        cli::add_said(name, data, rsrc) == "added "@ + name + " ("@ + text::decimal(data)
            + " bytes data, "@ + text::decimal(rsrc) + " bytes resource)"@,
        cli::rm_said(name) == "deleted "@ + name,
        cli::mv_said(name, other) == "renamed "@ + name + " to "@ + other,
        cli::mkfs_said(image, data, name, ImageFormat::Raw) == "created "@ + image + ": "@
            + text::decimal(data) + " byte "@ + "raw"@ + " volume "@ + text::quoted(name),
        cli::mkfs_said(image, data, name, ImageFormat::DiskCopy42) == "created "@ + image + ": "@
            + text::decimal(data) + " byte "@ + "DiskCopy 4.2"@ + " volume "@ + text::quoted(name),
        cli::export_said(data, path) == "wrote "@ + text::decimal(data) + " boot block bytes to "@
            + path,
        cli::import_said(path) == "installed 1024 boot block bytes from "@ + path,
{
}

/// Boot blocks are taken from a host file if and only if it has 1024 bytes, and
/// are those. Any other is refused with its path and length.
pub proof fn lemma_import(path: Seq<char>, bytes: Seq<u8>)
    ensures
        cli::import_outcome(path, bytes) is Ok <==> bytes.len() == 2 * 512,
        cli::import_outcome(path, bytes) matches Ok(b) ==> b == bytes,
        cli::import_outcome(path, bytes) matches Err(f) ==> f == FailureView::Error(
            path + ": boot blocks must be exactly 1024 bytes, this file is "@ + text::decimal(
                bytes.len(),
            ),
        ),
{
}

/// An image is created unless there is one already; with `--force` it is then
/// too. The image that stands in the way is named.
pub proof fn lemma_create(image: Seq<char>, force: bool, exists: bool)
    ensures
        cli::create_outcome(image, true, exists) is Ok,
        cli::create_outcome(image, force, false) is Ok,
        cli::create_outcome(image, false, true) == Err::<(), FailureView>(
            FailureView::Error(image + " already exists (pass --force to overwrite it)"@),
        ),
{
}

} // verus!
