//! What holds of a volume after any sequence of operations.
//!
//! [`Op`] is a call on a volume with its arguments and the time it reads from
//! the clock. [`after`] is the volume that a sequence of calls leaves, those
//! that are refused among them.

use vstd::prelude::*;

use crate::blockmap;
use crate::dir;
use crate::dir::EntryView;
use crate::error::Fault;
use crate::laws;
use crate::mdb;
use crate::mkfs;
use crate::model;
use crate::model::VolumeView;
use crate::report;
use crate::upkeep;
use crate::volume::{Fork, ImageFormat};

verus! {

/// A call on a volume.
pub enum Op {
    CreateFile { name: Seq<char>, type_code: Seq<u8>, creator: Seq<u8>, now: u32 },
    WriteFork { name: Seq<char>, fork: Fork, content: Seq<u8>, now: u32 },
    DeleteFile { name: Seq<char>, now: u32 },
    RenameFile { from: Seq<char>, to: Seq<char>, now: u32 },
    RenameVolume { name: Seq<char>, now: u32 },
    SetBootBlocks { blocks: Seq<u8> },
    SetTypeCreator { name: Seq<char>, type_code: Seq<u8>, creator: Seq<u8>, now: u32 },
    SetLocked { name: Seq<char>, locked: bool, now: u32 },
    SetTimes { name: Seq<char>, created: Option<u32>, modified: Option<u32>, now: u32 },
    /// Save the volume and go on with it.
    Save,
    /// Save the volume and go on with what is read back from the image.
    Reopen,
}

/// What a call comes to.
pub open spec fn outcome_of(v: VolumeView, op: Op) -> core::result::Result<VolumeView, Fault> {
    match op {
        Op::CreateFile { name, type_code, creator, now } => model::create_outcome(
            v,
            name,
            type_code,
            creator,
            now,
        ),
        Op::WriteFork { name, fork, content, now } => model::write_outcome(
            v,
            name,
            fork,
            content,
            now,
        ),
        Op::DeleteFile { name, now } => model::delete_outcome(v, name, now),
        Op::RenameFile { from, to, now } => model::rename_outcome(v, from, to, now),
        Op::RenameVolume { name, now } => model::rename_volume_outcome(v, name, now),
        Op::SetBootBlocks { blocks } => model::boot_outcome(v, blocks),
        Op::SetTypeCreator { name, type_code, creator, now } => model::type_creator_outcome(
            v,
            name,
            type_code,
            creator,
            now,
        ),
        Op::SetLocked { name, locked, now } => model::locked_outcome(v, name, locked, now),
        Op::SetTimes { name, created, modified, now } => model::times_outcome(
            v,
            name,
            created,
            modified,
            now,
        ),
        Op::Save => Ok(VolumeView { data: model::serialized(v), ..v }),
        Op::Reopen => model::forced_outcome(model::image(v), model::format_of(v.container)),
    }
}

/// The volume as a call leaves it: one that is refused leaves it as it was.
pub open spec fn step(v: VolumeView, op: Op) -> VolumeView {
    match outcome_of(v, op) {
        Ok(w) => w,
        Err(_) => v,
    }
}

/// The volume as a sequence of calls leaves it.
pub open spec fn after(v: VolumeView, ops: Seq<Op>) -> VolumeView
    decreases ops.len(),
{
    if ops.len() == 0 {
        v
    } else {
        step(after(v, ops.drop_last()), ops.last())
    }
}

/// Whether a call can be made: its codes have four bytes each, boot blocks are
/// 1024 bytes, and what a write leaves behind can be written down.
pub open spec fn possible(v: VolumeView, op: Op) -> bool {
    match op {
        Op::CreateFile { type_code, creator, .. } => type_code.len() == 4 && creator.len() == 4,
        Op::WriteFork { name, fork, content, .. } => model::representable(
            v,
            name,
            fork,
            content.len(),
        ),
        Op::SetBootBlocks { blocks } => blocks.len() == 1024,
        Op::SetTypeCreator { type_code, creator, .. } => type_code.len() == 4 && creator.len() == 4,
        _ => true,
    }
}

/// Whether each of a sequence of calls can be made when its turn comes.
pub open spec fn all_possible(v: VolumeView, ops: Seq<Op>) -> bool
    decreases ops.len(),
{
    ops.len() > 0 ==> all_possible(v, ops.drop_last()) && possible(
        after(v, ops.drop_last()),
        ops.last(),
    )
}

// ----------------------------------------------------------------- well-formedness

/// Replacing an entry that still fits keeps a volume well formed.
proof fn lemma_entries_wf(v: VolumeView, w: VolumeView)
    requires
        v.wf(),
        w.data == v.data,
        w.container == v.container,
        w.mdb.sig_word == v.mdb.sig_word,
        w.mdb.al_blk_siz == v.mdb.al_blk_siz,
        w.mdb.dir_st == v.mdb.dir_st,
        w.mdb.dir_len == v.mdb.dir_len,
        w.mdb.al_bl_st == v.mdb.al_bl_st,
        w.mdb.nm_al_blks == v.mdb.nm_al_blks,
        w.mdb.name_raw == v.mdb.name_raw,
        w.map.len() == v.map.len(),
        blockmap::well_formed(w.map),
        dir::all_in_use(w.entries),
        dir::packable(w.entries, w.mdb.dir_len as nat),
        w.dir_dirty,
    ensures
        w.wf(),
{
}

/// Adding a file keeps a volume well formed.
proof fn lemma_create_wf(
    v: VolumeView,
    name: Seq<char>,
    type_code: Seq<u8>,
    creator: Seq<u8>,
    now: u32,
)
    requires
        v.wf(),
        type_code.len() == 4,
        creator.len() == 4,
    ensures
        model::create_outcome(v, name, type_code, creator, now) matches Ok(w) ==> w.wf(),
{
    if let Ok(w) = model::create_outcome(v, name, type_code, creator, now) {
        assert forall|i: int| 0 <= i < w.entries.len() implies (#[trigger] w.entries[i]).in_use()
            && w.entries[i].codes_ok() by {
            if i < v.entries.len() {
                assert(w.entries[i] == v.entries[i]);
            }
        }
        lemma_entries_wf(v, w);
    }
}

/// Deleting a file keeps a volume well formed.
proof fn lemma_delete_wf(v: VolumeView, name: Seq<char>, now: u32)
    requires
        v.wf(),
    ensures
        model::delete_outcome(v, name, now) matches Ok(w) ==> w.wf(),
{
    if let Ok(w) = model::delete_outcome(v, name, now) {
        laws::lemma_lookup(v.entries, name, 0);
        let k = model::lookup(v.entries, name)->0 as int;
        dir::lemma_placed_without(v.entries, k, v.mdb.dir_len as nat, 0, 0);
        assert forall|i: int| 0 <= i < w.entries.len() implies (#[trigger] w.entries[i]).in_use()
            && w.entries[i].codes_ok() by {
            let j = if i < k {
                i
            } else {
                i + 1
            };
            assert(w.entries[i] == v.entries[j]);
        }
        lemma_entries_wf(v, w);
    }
}

/// Renaming a file keeps a volume well formed.
proof fn lemma_rename_wf(v: VolumeView, a: Seq<char>, b: Seq<char>, now: u32)
    requires
        v.wf(),
    ensures
        model::rename_outcome(v, a, b, now) matches Ok(w) ==> w.wf(),
{
    if let Ok(w) = model::rename_outcome(v, a, b, now) {
        laws::lemma_lookup(v.entries, a, 0);
        assert forall|i: int| 0 <= i < w.entries.len() implies (#[trigger] w.entries[i]).in_use()
            && w.entries[i].codes_ok() by {
            assert(v.entries[i].in_use() && v.entries[i].codes_ok());
        }
        lemma_entries_wf(v, w);
    }
}

/// Setting a file's type, creator, locked bit or dates keeps a volume well
/// formed.
#[verifier::rlimit(60)]
proof fn lemma_set_wf(v: VolumeView, op: Op)
    requires
        v.wf(),
        possible(v, op),
        op is SetTypeCreator || op is SetLocked || op is SetTimes,
    ensures
        step(v, op).wf(),
{
    let name = match op {
        Op::SetTypeCreator { name, .. } => name,
        Op::SetLocked { name, .. } => name,
        Op::SetTimes { name, .. } => name,
        _ => Seq::empty(),
    };
    laws::lemma_lookup(v.entries, name, 0);
    if let Ok(i) = model::target(v, name) {
        let e = v.entries[i as int];
        assert(e.in_use() && e.codes_ok());
        match op {
            Op::SetTypeCreator { type_code, creator, now, .. } => {
                model::lemma_with_entry_wf(v, i, EntryView { type_code, creator, ..e }, now);
            },
            Op::SetLocked { locked, now, .. } => {
                let flags = model::with_lock(e.flags, locked);
                model::lemma_with_entry_wf(v, i, EntryView { flags, ..e }, now);
            },
            Op::SetTimes { created, modified, now, .. } => {
                let cr_dat = match created {
                    Some(t) => t,
                    None => e.cr_dat,
                };
                let md_dat = match modified {
                    Some(t) => t,
                    None => e.md_dat,
                };
                model::lemma_with_entry_wf(v, i, EntryView { cr_dat, md_dat, ..e }, now);
            },
            _ => {},
        }
    }
}

/// Renaming a volume keeps it well formed.
proof fn lemma_rename_volume_wf(v: VolumeView, name: Seq<char>, now: u32)
    requires
        v.wf(),
    ensures
        model::rename_volume_outcome(v, name, now) matches Ok(w) ==> w.wf(),
{
    if let Ok(w) = model::rename_volume_outcome(v, name, now) {
        let raw = model::name_outcome(name, 27)->Ok_0;
        assert(model::name_field(raw).len() == 28);
        assert(model::name_field(raw)[0] == raw.len());
    }
}

/// Every call keeps a volume well formed.
pub proof fn lemma_step_wf(v: VolumeView, op: Op)
    requires
        v.wf(),
        possible(v, op),
    ensures
        step(v, op).wf(),
{
    match op {
        Op::CreateFile { name, type_code, creator, now } => {
            lemma_create_wf(v, name, type_code, creator, now);
        },
        Op::WriteFork { name, fork, content, now } => {
            if model::write_plan(v, name, fork, content.len()) is Ok {
                laws::lemma_write_wf(v, name, fork, content, now);
            }
        },
        Op::DeleteFile { name, now } => lemma_delete_wf(v, name, now),
        Op::RenameFile { from, to, now } => lemma_rename_wf(v, from, to, now),
        Op::RenameVolume { name, now } => lemma_rename_volume_wf(v, name, now),
        Op::SetBootBlocks { blocks } => {
            if model::writable(v) {
                upkeep::lemma_boot_blocks(v, blocks);
            }
        },
        Op::Save => laws::lemma_save_twice(v),
        Op::Reopen => laws::lemma_save_open(v),
        _ => lemma_set_wf(v, op),
    }
}

/// Every sequence of calls keeps a volume well formed.
pub proof fn lemma_after_wf(v: VolumeView, ops: Seq<Op>)
    requires
        v.wf(),
        all_possible(v, ops),
    ensures
        after(v, ops).wf(),
    decreases ops.len(),
{
    if ops.len() > 0 {
        lemma_after_wf(v, ops.drop_last());
        lemma_step_wf(after(v, ops.drop_last()), ops.last());
    }
}

// --------------------------------------------------------------------- consistency

/// Whether a call stays within what the tables of a volume can count: there are
/// no more files than 16 bits count, and what is written can be read back.
pub open spec fn countable(v: VolumeView, op: Op) -> bool {
    match op {
        Op::CreateFile { .. } => outcome_of(v, op) matches Ok(w) ==> w.entries.len() <= 65535,
        Op::WriteFork { name, fork, content, .. } => outcome_of(v, op) is Ok
            ==> laws::write_succeeds(v, name, fork, content),
        _ => true,
    }
}

/// Whether each of a sequence of calls stays within what the tables can count.
pub open spec fn all_countable(v: VolumeView, ops: Seq<Op>) -> bool
    decreases ops.len(),
{
    ops.len() > 0 ==> all_countable(v, ops.drop_last()) && countable(
        after(v, ops.drop_last()),
        ops.last(),
    )
}

/// Every call keeps a consistent volume consistent.
#[verifier::rlimit(30)]
pub proof fn lemma_step_consistent(v: VolumeView, op: Op)
    requires
        v.wf(),
        report::consistent(v),
        possible(v, op),
        countable(v, op),
    ensures
        report::consistent(step(v, op)),
{
    match op {
        Op::CreateFile { name, type_code, creator, now } => {
            if outcome_of(v, op) is Ok {
                upkeep::lemma_create_consistent(v, name, type_code, creator, now);
            }
        },
        Op::WriteFork { name, fork, content, now } => {
            if outcome_of(v, op) is Ok {
                upkeep::lemma_write_consistent(v, name, fork, content, now);
            }
        },
        Op::DeleteFile { name, now } => {
            if outcome_of(v, op) is Ok {
                upkeep::lemma_delete_consistent(v, name, now);
            }
        },
        Op::RenameFile { from, to, now } => upkeep::lemma_rename_consistent(v, from, to, now),
        Op::RenameVolume { name, now } => upkeep::lemma_rename_volume_consistent(v, name, now),
        Op::SetBootBlocks { blocks } => upkeep::lemma_boot_consistent(v, blocks),
        Op::SetTypeCreator { name, type_code, creator, now } => {
            upkeep::lemma_setters_consistent(
                v,
                name,
                type_code,
                creator,
                false,
                None,
                None,
                now,
            );
        },
        Op::SetLocked { name, locked, now } => {
            upkeep::lemma_setters_consistent(
                v,
                name,
                Seq::empty(),
                Seq::empty(),
                locked,
                None,
                None,
                now,
            );
        },
        Op::SetTimes { name, created, modified, now } => {
            upkeep::lemma_setters_consistent(
                v,
                name,
                Seq::empty(),
                Seq::empty(),
                false,
                created,
                modified,
                now,
            );
        },
        Op::Save => upkeep::lemma_saved_consistent(v),
        Op::Reopen => {
            laws::lemma_save_open(v);
            upkeep::lemma_saved_consistent(v);
        },
    }
}

/// Every sequence of calls keeps a consistent volume consistent, and so gives a
/// check nothing to report.
pub proof fn lemma_after_consistent(v: VolumeView, ops: Seq<Op>)
    requires
        v.wf(),
        report::consistent(v),
        all_possible(v, ops),
        all_countable(v, ops),
    ensures
        after(v, ops).wf(),
        report::consistent(after(v, ops)),
        model::info_of(after(v, ops)).file_count == model::files_of(after(v, ops).entries).len(),
        after(v, ops).map.len() < 65535 ==> report::lines(after(v, ops)).len() == 0,
    decreases ops.len(),
{
    lemma_after_wf(v, ops);
    if ops.len() > 0 {
        let u = after(v, ops.drop_last());
        lemma_after_consistent(v, ops.drop_last());
        lemma_step_consistent(u, ops.last());
    }
    if after(v, ops).map.len() < 65535 {
        report::lemma_report_empty(after(v, ops));
    }
}

// ------------------------------------------------------------------- small volumes

/// Whether a volume is so small that its tables can count all that it can hold:
/// its block numbers fit in a map entry, its lengths in 32 bits, and no more
/// entries fit in its directory than 16 bits can count.
pub open spec fn small(v: VolumeView) -> bool {
    &&& v.map.len() <= 4093
    &&& v.data.len() <= u32::MAX
    &&& v.mdb.dir_len <= 6655
}

/// Whether a call has arguments that can be made, `size` being the size of an
/// allocation block: what is written takes a number of blocks that fits in 32
/// bits.
pub open spec fn ordinary(op: Op, size: u32) -> bool {
    match op {
        Op::CreateFile { type_code, creator, .. } => type_code.len() == 4 && creator.len() == 4,
        Op::WriteFork { content, .. } => content.len() <= u32::MAX * size,
        Op::SetBootBlocks { blocks } => blocks.len() == 1024,
        Op::SetTypeCreator { type_code, creator, .. } => type_code.len() == 4 && creator.len() == 4,
        _ => true,
    }
}

/// Whether all of a sequence of calls have arguments that can be made.
pub open spec fn all_ordinary(ops: Seq<Op>, size: u32) -> bool {
    forall|i: int| 0 <= i < ops.len() ==> ordinary(#[trigger] ops[i], size)
}

/// What is written to a small volume is no longer than 32 bits can count.
#[verifier::rlimit(30)]
proof fn lemma_small_write(
    v: VolumeView,
    name: Seq<char>,
    fork: Fork,
    content: Seq<u8>,
)
    requires
        v.wf(),
        small(v),
        content.len() <= u32::MAX * v.mdb.al_blk_siz,
        model::write_plan(v, name, fork, content.len()) is Ok,
    ensures
        laws::write_succeeds(v, name, fork, content),
{
    let len = content.len();
    let size = v.mdb.al_blk_siz as int;
    let n = v.map.len() as int;
    let p = model::write_plan(v, name, fork, len)->Ok_0;
    laws::lemma_representable(v, name, fork, len);
    laws::lemma_small_map_linkable(v, name, fork, len);
    laws::lemma_write_plan(v, name, fork, len);
    blockmap::lemma_free_blocks(blockmap::released(v.map, p.old));
    let q = (len + size - 1) / size;
    vstd::arithmetic::div_mod::lemma_fundamental_div_mod(len + size - 1, size);
    vstd::arithmetic::div_mod::lemma_mod_bound(len + size - 1, size);
    vstd::arithmetic::div_mod::lemma_div_pos_is_pos(len + size - 1, size);
    assert(size * q == q * size) by (nonlinear_arith);
    assert(q <= u32::MAX) by (nonlinear_arith)
        requires
            q * size <= len + size - 1,
            len <= u32::MAX * size,
            size > 0,
    ;
    assert(p.needed == q);
    assert(q * size <= n * size) by (nonlinear_arith)
        requires
            q <= n,
            size > 0,
    ;
}

/// Every ordinary call on a small volume can be made and stays within what the
/// tables can count.
proof fn lemma_small_step(v: VolumeView, op: Op)
    requires
        v.wf(),
        small(v),
        ordinary(op, v.mdb.al_blk_siz),
    ensures
        possible(v, op),
        countable(v, op),
{
    match op {
        Op::CreateFile { name, type_code, creator, now } => {
            if let Ok(w) = outcome_of(v, op) {
                dir::lemma_placed_count(w.entries, v.mdb.dir_len as nat, 0, 0);
            }
        },
        Op::WriteFork { name, fork, content, now } => {
            laws::lemma_representable(v, name, fork, content.len());
            if outcome_of(v, op) is Ok {
                lemma_small_write(v, name, fork, content);
            }
        },
        _ => {},
    }
}

/// No call changes the size of a volume or of its regions.
#[verifier::rlimit(30)]
pub proof fn lemma_step_size(v: VolumeView, op: Op)
    requires
        v.wf(),
        possible(v, op),
    ensures
        ({
            let w = step(v, op);
            &&& w.map.len() == v.map.len()
            &&& w.data.len() == v.data.len()
            &&& w.mdb.dir_len == v.mdb.dir_len
            &&& w.mdb.al_blk_siz == v.mdb.al_blk_siz
        }),
{
    lemma_step_wf(v, op);
    match op {
        Op::WriteFork { name, fork, content, now } => {
            if let Ok(p) = model::write_plan(v, name, fork, content.len()) {
                let blocks = model::blocks_taken(v, p);
                laws::lemma_write_plan(v, name, fork, content.len());
                laws::lemma_written_elsewhere(v.data, v.mdb, v.map.len(), blocks, content);
            }
        },
        Op::SetBootBlocks { blocks } => {
            if model::writable(v) {
                upkeep::lemma_boot_blocks(v, blocks);
                let w = step(v, op);
                assert(w.data.skip(1024).len() == v.data.skip(1024).len());
            }
        },
        Op::Save => laws::lemma_serialized(v),
        Op::Reopen => {
            laws::lemma_serialized(v);
            laws::lemma_save_open(v);
        },
        _ => {},
    }
}

/// Every sequence of ordinary calls on a small volume can be made and stays
/// within what the tables can count.
pub proof fn lemma_small_after(v: VolumeView, ops: Seq<Op>)
    requires
        v.wf(),
        small(v),
        all_ordinary(ops, v.mdb.al_blk_siz),
    ensures
        all_possible(v, ops),
        all_countable(v, ops),
        after(v, ops).wf(),
        small(after(v, ops)),
        after(v, ops).mdb.al_blk_siz == v.mdb.al_blk_siz,
    decreases ops.len(),
{
    if ops.len() > 0 {
        let before = ops.drop_last();
        let u = after(v, before);
        assert forall|i: int| 0 <= i < before.len() implies ordinary(
            #[trigger] before[i],
            v.mdb.al_blk_siz,
        ) by {
            assert(before[i] == ops[i]);
        }
        lemma_small_after(v, before);
        assert(ordinary(ops[ops.len() - 1], v.mdb.al_blk_siz));
        lemma_small_step(u, ops.last());
        lemma_step_wf(u, ops.last());
        lemma_step_size(u, ops.last());
    }
}

/// A new floppy disk is small.
proof fn lemma_floppy_small(size: u32, name: Seq<u8>, format: ImageFormat, now: u32)
    requires
        size == 409_600 || size == 819_200,
        name.len() <= 27,
    ensures
        small(mkfs::fresh(size, name, format, now)),
{
    mkfs::lemma_fields_fit((size / 512) as nat);
    mkfs::lemma_geometry_consistent(size);
    let v = mkfs::fresh(size, name, format, now);
    let g = mkfs::layout((size / 512) as nat);
    assert(v.map.len() == g.n_blocks);
    assert(g.n_blocks * g.al_blk_siz >= 0) by (nonlinear_arith);
    assert(model::name_field(name).len() == 28);
    mdb::lemma_bytes_of(v.mdb);
    assert(v.data.len() == size);
}

/// A floppy disk stays consistent from the moment it was formatted, whatever is
/// done to it: a check has nothing to report, and there are as many files as the
/// volume counts.
pub proof fn lemma_floppy_stays_consistent(
    size: u32,
    name: Seq<char>,
    format: ImageFormat,
    now: u32,
    ops: Seq<Op>,
)
    requires
        size == 409_600 || size == 819_200,
        mkfs::format_outcome(size, name, format, now) is Ok,
        all_ordinary(
            ops,
            mkfs::format_outcome(size, name, format, now)->Ok_0.mdb.al_blk_siz,
        ),
    ensures
        ({
            let v = mkfs::format_outcome(size, name, format, now)->Ok_0;
            let w = after(v, ops);
            &&& w.wf()
            &&& report::consistent(w)
            &&& report::lines(w).len() == 0
            &&& model::info_of(w).file_count == model::files_of(w.entries).len()
        }),
{
    let raw = model::name_outcome(name, 27)->Ok_0;
    let v = mkfs::fresh(size, raw, format, now);
    lemma_floppy_small(size, raw, format, now);
    mkfs::lemma_format_is_fresh(size, name, format, now);
    upkeep::lemma_fresh_consistent(size, raw, format, now);
    lemma_small_after(v, ops);
    lemma_after_consistent(v, ops);
}

// -------------------------------------------------------------------- file numbers

/// Whether a call adds a file.
pub open spec fn creates(v: VolumeView, op: Op) -> bool {
    op is CreateFile && outcome_of(v, op) is Ok
}

/// How many of a sequence of calls add a file.
pub open spec fn creations(v: VolumeView, ops: Seq<Op>) -> nat
    decreases ops.len(),
{
    if ops.len() == 0 {
        0
    } else {
        creations(v, ops.drop_last()) + (if creates(after(v, ops.drop_last()), ops.last()) {
            1nat
        } else {
            0nat
        })
    }
}

/// A volume with the same files has spent the same numbers.
proof fn lemma_same_numbers(v: VolumeView, w: VolumeView)
    requires
        upkeep::numbers_spent(v),
        upkeep::same_files(v, w),
    ensures
        upkeep::numbers_spent(w),
{
    assert forall|i: int| 0 <= i < w.entries.len() implies (#[trigger] w.entries[i]).fnum
        < w.mdb.nxt_fnum by {
        assert(v.entries[i].fnum < v.mdb.nxt_fnum);
    }
    assert forall|i: int, j: int| 0 <= i < j < w.entries.len() implies (
    #[trigger] w.entries[i]).fnum != (#[trigger] w.entries[j]).fnum by {
        assert(v.entries[i].fnum != v.entries[j].fnum);
    }
}

/// What a call does to the file numbers: one that adds a file uses up one of
/// them, and no other does.
#[verifier::rlimit(30)]
proof fn lemma_step_numbers(v: VolumeView, op: Op)
    requires
        v.wf(),
        upkeep::numbers_spent(v),
        creates(v, op) ==> v.mdb.nxt_fnum < u32::MAX,
    ensures
        upkeep::numbers_spent(step(v, op)),
        step(v, op).mdb.nxt_fnum == v.mdb.nxt_fnum + (if creates(v, op) {
            1int
        } else {
            0int
        }),
{
    let none: (Seq<u8>, Seq<u8>) = (Seq::empty(), Seq::empty());
    let w = step(v, op);
    if outcome_of(v, op) is Ok {
        match op {
            Op::CreateFile { name, type_code, creator, now } => {
                upkeep::lemma_create_numbers(v, name, type_code, creator, now);
            },
            Op::DeleteFile { name, now } => upkeep::lemma_delete_numbers(v, name, now),
            Op::RenameFile { from, to, now } => upkeep::lemma_rename_numbers(v, from, to, now),
            Op::WriteFork { name, fork, content, now } => {
                upkeep::lemma_others_keep_identity(
                    v,
                    name,
                    fork,
                    content,
                    none,
                    false,
                    (None, None),
                    now,
                );
                lemma_same_numbers(v, w);
            },
            Op::SetTypeCreator { name, type_code, creator, now } => {
                upkeep::lemma_others_keep_identity(
                    v,
                    name,
                    Fork::Data,
                    Seq::empty(),
                    (type_code, creator),
                    false,
                    (None, None),
                    now,
                );
                lemma_same_numbers(v, w);
            },
            Op::SetLocked { name, locked, now } => {
                upkeep::lemma_others_keep_identity(
                    v,
                    name,
                    Fork::Data,
                    Seq::empty(),
                    none,
                    locked,
                    (None, None),
                    now,
                );
                lemma_same_numbers(v, w);
            },
            Op::SetTimes { name, created, modified, now } => {
                upkeep::lemma_others_keep_identity(
                    v,
                    name,
                    Fork::Data,
                    Seq::empty(),
                    none,
                    false,
                    (created, modified),
                    now,
                );
                lemma_same_numbers(v, w);
            },
            Op::Reopen => {
                laws::lemma_save_open(v);
                lemma_same_numbers(v, w);
            },
            _ => lemma_same_numbers(v, w),
        }
    }
}

/// File numbers are given out one by one, and none of them twice, whatever else
/// is done to a volume: no two files share one, every call that adds a file uses
/// up one, and no other call does, not even one that fails.
pub proof fn lemma_numbers(v: VolumeView, ops: Seq<Op>)
    requires
        v.wf(),
        all_possible(v, ops),
        upkeep::numbers_spent(v),
        v.mdb.nxt_fnum + creations(v, ops) <= u32::MAX,
    ensures
        upkeep::numbers_spent(after(v, ops)),
        after(v, ops).mdb.nxt_fnum == v.mdb.nxt_fnum + creations(v, ops),
    decreases ops.len(),
{
    if ops.len() > 0 {
        let before = ops.drop_last();
        lemma_numbers(v, before);
        lemma_after_wf(v, before);
        lemma_step_numbers(after(v, before), ops.last());
    }
}

/// The `k`-th file that is added to a new volume has the number `k`, whatever
/// else was done to the volume before.
pub proof fn lemma_number_given(
    size: u32,
    volume: Seq<char>,
    format: ImageFormat,
    formatted: u32,
    ops: Seq<Op>,
    name: Seq<char>,
    type_code: Seq<u8>,
    creator: Seq<u8>,
    now: u32,
)
    requires
        mkfs::format_outcome(size, volume, format, formatted) is Ok,
        ({
            let v = mkfs::format_outcome(size, volume, format, formatted)->Ok_0;
            &&& all_possible(v, ops)
            &&& creations(v, ops) < u32::MAX
            &&& model::create_outcome(after(v, ops), name, type_code, creator, now) is Ok
        }),
    ensures
        ({
            let v = mkfs::format_outcome(size, volume, format, formatted)->Ok_0;
            let w = model::create_outcome(after(v, ops), name, type_code, creator, now)->Ok_0;
            &&& model::file_outcome(w, name) is Ok
            &&& model::file_outcome(w, name)->Ok_0.file_num == creations(v, ops) + 1
        }),
{
    let raw = model::name_outcome(volume, 27)->Ok_0;
    let v = mkfs::fresh(size, raw, format, formatted);
    mkfs::lemma_format_is_fresh(size, volume, format, formatted);
    lemma_numbers(v, ops);
    upkeep::lemma_created(after(v, ops), name, type_code, creator, now, Fork::Data);
}

// ------------------------------------------------------------------ new containers

/// A new volume in a DiskCopy 4.2 container is refused as a bare image.
pub proof fn lemma_new_container_not_raw(size: u32, name: Seq<char>, now: u32)
    requires
        mkfs::format_outcome(size, name, ImageFormat::DiskCopy42, now) is Ok,
    ensures
        ({
            let v = mkfs::format_outcome(size, name, ImageFormat::DiskCopy42, now)->Ok_0;
            model::forced_outcome(model::image(v), ImageFormat::Raw) == Err::<VolumeView, Fault>(
                Fault::BadSignature { found: 0 },
            )
        }),
{
    let raw = model::name_outcome(name, 27)->Ok_0;
    let v = mkfs::fresh(size, raw, ImageFormat::DiskCopy42, now);
    lemma_floppy_small(size, raw, ImageFormat::DiskCopy42, now);
    mkfs::lemma_format_is_fresh(size, name, ImageFormat::DiskCopy42, now);
    assert(v.data.take(1024)[940] == 0 && v.data.take(1024)[941] == 0);
    laws::lemma_container_not_raw(v);
}

} // verus!
