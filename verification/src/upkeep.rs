//! What every operation on a volume keeps: a consistent volume stays
//! consistent, no two files go by the same name, and no file number is given
//! out twice.

use vstd::prelude::*;

use crate::blockmap;
use crate::dir::EntryView;
use crate::error::Fault;
use crate::laws;
use crate::macroman;
use crate::mkfs;
use crate::model;
use crate::model::{FileView, InfoView, VolumeView, WritePlan};
use crate::report;
use crate::volume::{Fork, ImageFormat};

verus! {

// ------------------------------------------------------------------- consistency

/// All entries of a map of free blocks count.
proof fn lemma_all_free(map: Seq<u16>)
    requires
        forall|i: int| 0 <= i < map.len() ==> #[trigger] map[i] == blockmap::FREE,
    ensures
        blockmap::count_free(map) == map.len(),
    decreases map.len(),
{
    if map.len() > 0 {
        lemma_all_free(map.drop_last());
    }
}

/// A new volume is consistent.
pub proof fn lemma_fresh_consistent(size: u32, name: Seq<u8>, format: ImageFormat, now: u32)
    ensures
        report::consistent(mkfs::fresh(size, name, format, now)),
{
    reveal(report::forks_sound);
    reveal(report::all_owned);
    let v = mkfs::fresh(size, name, format, now);
    lemma_all_free(v.map);
    assert forall|b: u16| #[trigger] blockmap::has_block(v.map, b) implies !report::taken(
        blockmap::entry(v.map, b),
    ) by {
        assert(v.map[b - 2] == blockmap::FREE);
    }
}

/// The counters of a volume that was just settled are right.
proof fn lemma_counters(v: VolumeView)
    requires
        v.map.len() <= 65535,
        v.entries.len() <= 65535,
    ensures
        model::counted(v).mdb.nm_fls == v.entries.len(),
        model::counted(v).mdb.free_bks == blockmap::count_free(v.map),
{
    blockmap::lemma_free_blocks(v.map);
}

/// Whether two entries have the same forks and are both in use or not.
spec fn same_forks(a: EntryView, b: EntryView) -> bool {
    &&& a.in_use() == b.in_use()
    &&& a.df_st_blk == b.df_st_blk
    &&& a.df_log_len == b.df_log_len
    &&& a.df_alloc_len == b.df_alloc_len
    &&& a.rf_st_blk == b.rf_st_blk
    &&& a.rf_log_len == b.rf_log_len
    &&& a.rf_alloc_len == b.rf_alloc_len
}

/// A volume with the same forks, and counters that are right, is as consistent.
proof fn lemma_same_forks(v: VolumeView, w: VolumeView)
    requires
        report::consistent(v),
        w.map == v.map,
        w.entries.len() == v.entries.len(),
        w.mdb.al_blk_siz == v.mdb.al_blk_siz,
        forall|i: int| 0 <= i < v.entries.len() ==> same_forks(#[trigger] v.entries[i], w.entries[i]),
        w.mdb.nm_fls == w.entries.len(),
        w.mdb.free_bks == blockmap::count_free(w.map),
    ensures
        report::consistent(w),
{
    reveal(report::forks_sound);
    reveal(report::all_owned);
    let n = report::fork_count(v);
    assert forall|k: int| 0 <= k < n implies report::blocks_of(w, k) == report::blocks_of(v, k) && (
    #[trigger] report::sound(v, k) ==> report::sound(w, k)) by {
        assert(same_forks(v.entries[k / 2], w.entries[k / 2]));
    }
    assert forall|k: int| 0 <= k < n implies #[trigger] report::sound(w, k) by {
        assert(report::sound(v, k));
    }
    assert forall|j: int, k: int| 0 <= j < k < n implies blockmap::disjoint(
        #[trigger] report::blocks_of(w, j),
        #[trigger] report::blocks_of(w, k),
    ) by {
        assert(report::sound(v, j) && report::sound(v, k));
        assert(blockmap::disjoint(report::blocks_of(v, j), report::blocks_of(v, k)));
    }
    assert forall|b: u16|
        #[trigger] blockmap::has_block(w.map, b) && report::taken(
            blockmap::entry(w.map, b),
        ) implies report::owned(w, n, b) by {
        assert(report::owned(v, n, b));
        let k = choose|k: int| 0 <= k < n && #[trigger] report::blocks_of(v, k).contains(b);
        assert(report::sound(v, k));
        assert(report::blocks_of(w, k).contains(b));
    }
}

/// Adding a file keeps a volume consistent, as long as the files can be
/// counted in 16 bits.
#[verifier::rlimit(30)]
pub proof fn lemma_create_consistent(
    v: VolumeView,
    name: Seq<char>,
    type_code: Seq<u8>,
    creator: Seq<u8>,
    now: u32,
)
    requires
        v.wf(),
        report::consistent(v),
        v.entries.len() < 65535,
    ensures
        model::create_outcome(v, name, type_code, creator, now) matches Ok(w) ==> report::consistent(
            w,
        ),
{
    if let Ok(w) = model::create_outcome(v, name, type_code, creator, now) {
        reveal(report::forks_sound);
        reveal(report::all_owned);
        let n = report::fork_count(v);
        let size = v.mdb.al_blk_siz as nat;
        lemma_counters(w);
        assert forall|k: int| 0 <= k < n implies report::blocks_of(w, k) == report::blocks_of(v, k)
            && (#[trigger] report::sound(v, k) ==> report::sound(w, k)) by {
            assert(w.entries[k / 2] == v.entries[k / 2]);
        }
        assert forall|k: int| n <= k < n + 2 implies report::blocks_of(w, k).len() == 0
            && #[trigger] report::sound(w, k) by {
            assert(k / 2 == v.entries.len());
            assert(0 * size == 0);
        }
        assert forall|k: int| 0 <= k < n + 2 implies #[trigger] report::sound(w, k) by {
            if k < n {
                assert(report::sound(v, k));
            }
        }
        assert forall|j: int, k: int| 0 <= j < k < n + 2 implies blockmap::disjoint(
            #[trigger] report::blocks_of(w, j),
            #[trigger] report::blocks_of(w, k),
        ) by {
            assert(report::sound(w, k));
            if k < n {
                assert(report::sound(v, j) && report::sound(v, k));
                assert(blockmap::disjoint(report::blocks_of(v, j), report::blocks_of(v, k)));
            }
        }
        assert forall|b: u16|
            #[trigger] blockmap::has_block(w.map, b) && report::taken(
                blockmap::entry(w.map, b),
            ) implies report::owned(w, n + 2, b) by {
            assert(report::owned(v, n, b));
            let k = choose|k: int| 0 <= k < n && #[trigger] report::blocks_of(v, k).contains(b);
            assert(report::sound(v, k));
            assert(0 <= k < n + 2 && report::blocks_of(w, k).contains(b));
        }
        assert(report::fork_count(w) == n + 2);
    }
}

/// Renaming a file keeps a volume consistent.
pub proof fn lemma_rename_consistent(v: VolumeView, a: Seq<char>, b: Seq<char>, now: u32)
    requires
        v.wf(),
        report::consistent(v),
    ensures
        model::rename_outcome(v, a, b, now) matches Ok(w) ==> report::consistent(w),
{
    if let Ok(w) = model::rename_outcome(v, a, b, now) {
        laws::lemma_lookup(v.entries, a, 0);
        lemma_counters(w);
        lemma_same_forks(v, w);
    }
}

/// Renaming the volume keeps it consistent.
pub proof fn lemma_rename_volume_consistent(v: VolumeView, name: Seq<char>, now: u32)
    requires
        v.wf(),
        report::consistent(v),
    ensures
        model::rename_volume_outcome(v, name, now) matches Ok(w) ==> report::consistent(w),
{
    if let Ok(w) = model::rename_volume_outcome(v, name, now) {
        lemma_counters(w);
        lemma_same_forks(v, w);
    }
}

/// Replacing the boot blocks keeps a volume consistent.
pub proof fn lemma_boot_consistent(v: VolumeView, blocks: Seq<u8>)
    requires
        v.wf(),
        report::consistent(v),
    ensures
        model::boot_outcome(v, blocks) matches Ok(w) ==> report::consistent(w),
{
    if let Ok(w) = model::boot_outcome(v, blocks) {
        lemma_same_forks(v, w);
    }
}

/// Setting a file's type, creator, locked bit or dates keeps a volume
/// consistent.
pub proof fn lemma_setters_consistent(
    v: VolumeView,
    name: Seq<char>,
    type_code: Seq<u8>,
    creator: Seq<u8>,
    locked: bool,
    created: Option<u32>,
    modified: Option<u32>,
    now: u32,
)
    requires
        v.wf(),
        report::consistent(v),
    ensures
        model::type_creator_outcome(v, name, type_code, creator, now) matches Ok(w)
            ==> report::consistent(w),
        model::locked_outcome(v, name, locked, now) matches Ok(w) ==> report::consistent(w),
        model::times_outcome(v, name, created, modified, now) matches Ok(w) ==> report::consistent(
            w,
        ),
{
    laws::lemma_lookup(v.entries, name, 0);
    if let Ok(w) = model::type_creator_outcome(v, name, type_code, creator, now) {
        lemma_counters(w);
        lemma_same_forks(v, w);
    }
    if let Ok(w) = model::locked_outcome(v, name, locked, now) {
        lemma_counters(w);
        lemma_same_forks(v, w);
    }
    if let Ok(w) = model::times_outcome(v, name, created, modified, now) {
        lemma_counters(w);
        lemma_same_forks(v, w);
    }
}

/// Saving a volume, and reading it back, keeps it consistent.
pub proof fn lemma_saved_consistent(v: VolumeView)
    requires
        v.wf(),
        report::consistent(v),
    ensures
        report::consistent(VolumeView { data: model::serialized(v), ..v }),
        report::consistent(laws::reread(v)),
{
    lemma_same_forks(v, VolumeView { data: model::serialized(v), ..v });
    lemma_same_forks(v, laws::reread(v));
}

/// The number of the fork that a write replaces.
spec fn written_fork(p: WritePlan, fork: Fork) -> int {
    2 * p.index + (match fork {
        Fork::Data => 0int,
        Fork::Resource => 1int,
    })
}

/// What a write makes of the fork that is written.
#[verifier::rlimit(30)]
proof fn lemma_fork_written(v: VolumeView, name: Seq<char>, fork: Fork, content: Seq<u8>, now: u32)
    requires
        v.wf(),
        report::consistent(v),
        laws::write_succeeds(v, name, fork, content),
    ensures
        ({
            let w = model::write_outcome(v, name, fork, content, now)->Ok_0;
            let p = model::write_plan(v, name, fork, content.len())->Ok_0;
            let kw = written_fork(p, fork);
            &&& 0 <= kw < report::fork_count(v)
            &&& report::blocks_of(v, kw) == p.old
            &&& report::blocks_of(w, kw) == model::blocks_taken(v, p)
            &&& report::sound(w, kw)
        }),
{
    let w = model::write_outcome(v, name, fork, content, now)->Ok_0;
    let p = model::write_plan(v, name, fork, content.len())->Ok_0;
    let kw = written_fork(p, fork);
    let map1 = blockmap::released(v.map, p.old);
    let blocks = model::blocks_taken(v, p);
    laws::lemma_write_plan(v, name, fork, content.len());
    laws::lemma_blocks_needed(content.len(), v.mdb.al_blk_siz);
    assert(report::fork_of(kw) == fork);
    assert(report::entry_of(v, kw) == v.entries[p.index as int]);
    report::lemma_sound(v, kw);
    let e = report::entry_of(w, kw);
    assert(e.in_use());
    if blocks.len() > 0 {
        blockmap::lemma_allocated_is_chain(map1, p.needed as nat);
        blockmap::lemma_chain_unique(w.map, blocks[0], blocks);
        assert(blockmap::has_block(map1, blocks[0])) by {
            blockmap::lemma_picked(map1, p.needed as nat);
        }
        assert(model::fork_start(e, fork) == blocks[0]);
    } else {
        assert(report::blocks_of(w, kw) =~= blocks);
    }
    assert(model::fork_chain(w, model::fork_start(e, fork)) == Ok::<Seq<u16>, Fault>(blocks));
}

/// What a write makes of any other fork.
#[verifier::rlimit(30)]
proof fn lemma_fork_kept(
    v: VolumeView,
    name: Seq<char>,
    fork: Fork,
    content: Seq<u8>,
    now: u32,
    k: int,
)
    requires
        v.wf(),
        report::consistent(v),
        laws::write_succeeds(v, name, fork, content),
        0 <= k < report::fork_count(v),
        k != written_fork(model::write_plan(v, name, fork, content.len())->Ok_0, fork),
    ensures
        ({
            let w = model::write_outcome(v, name, fork, content, now)->Ok_0;
            let p = model::write_plan(v, name, fork, content.len())->Ok_0;
            &&& report::blocks_of(w, k) == report::blocks_of(v, k)
            &&& report::sound(w, k)
            &&& blockmap::disjoint(report::blocks_of(v, k), p.old)
            &&& blockmap::disjoint(report::blocks_of(v, k), model::blocks_taken(v, p))
        }),
{
    let w = model::write_outcome(v, name, fork, content, now)->Ok_0;
    let p = model::write_plan(v, name, fork, content.len())->Ok_0;
    let kw = written_fork(p, fork);
    let map1 = blockmap::released(v.map, p.old);
    laws::lemma_write_plan(v, name, fork, content.len());
    lemma_fork_written(v, name, fork, content, now);
    report::lemma_sound(v, k);
    let e = report::entry_of(v, k);
    let d = report::entry_of(w, k);
    let f = report::fork_of(k);
    let start = model::fork_start(e, f);
    let mine = report::blocks_of(v, k);
    if k / 2 == p.index {
        assert(f != fork);
    }
    assert(d.in_use());
    assert(model::fork_start(d, f) == start);
    assert(model::fork_len(d, f) == model::fork_len(e, f));
    assert(model::fork_alloc(d, f) == model::fork_alloc(e, f));
    report::lemma_apart(v, k, kw);
    if start != 0 {
        blockmap::lemma_chain_found(v.map, start, mine);
        blockmap::lemma_release_keeps_chain(v.map, p.old, start, mine);
        blockmap::lemma_allocate_keeps_chain(map1, p.needed as nat, start, mine);
        blockmap::lemma_chain_unique(w.map, start, mine);
    }
}

/// Every block in use belongs to a file after a write.
proof fn lemma_owners_written(
    v: VolumeView,
    name: Seq<char>,
    fork: Fork,
    content: Seq<u8>,
    now: u32,
    b: u16,
)
    requires
        v.wf(),
        report::consistent(v),
        laws::write_succeeds(v, name, fork, content),
        ({
            let w = model::write_outcome(v, name, fork, content, now)->Ok_0;
            blockmap::has_block(w.map, b) && report::taken(blockmap::entry(w.map, b))
        }),
    ensures
        ({
            let w = model::write_outcome(v, name, fork, content, now)->Ok_0;
            report::owned(w, report::fork_count(w), b)
        }),
{
    let w = model::write_outcome(v, name, fork, content, now)->Ok_0;
    let p = model::write_plan(v, name, fork, content.len())->Ok_0;
    let kw = written_fork(p, fork);
    let n = report::fork_count(v);
    let map1 = blockmap::released(v.map, p.old);
    let blocks = model::blocks_taken(v, p);
    laws::lemma_write_plan(v, name, fork, content.len());
    lemma_fork_written(v, name, fork, content, now);
    if blocks.contains(b) {
        assert(report::blocks_of(w, kw).contains(b));
    } else {
        blockmap::lemma_picked(map1, p.needed as nat);
        blockmap::lemma_linked(map1, blocks);
        assert(blockmap::has_block(map1, b));
        assert(blockmap::has_block(v.map, b));
        assert(blockmap::entry(w.map, b) == blockmap::entry(map1, b));
        blockmap::lemma_released(v.map, p.old, b);
        assert(!p.old.contains(b));
        let k = report::lemma_owner(v, b);
        assert(k != kw);
        lemma_fork_kept(v, name, fork, content, now, k);
        assert(report::blocks_of(w, k).contains(b));
    }
}

/// Writing a fork keeps a volume consistent, where reading it gives back what
/// was written.
pub proof fn lemma_write_consistent(
    v: VolumeView,
    name: Seq<char>,
    fork: Fork,
    content: Seq<u8>,
    now: u32,
)
    requires
        v.wf(),
        report::consistent(v),
        laws::write_succeeds(v, name, fork, content),
    ensures
        report::consistent(model::write_outcome(v, name, fork, content, now)->Ok_0),
{
    let w = model::write_outcome(v, name, fork, content, now)->Ok_0;
    let p = model::write_plan(v, name, fork, content.len())->Ok_0;
    let kw = written_fork(p, fork);
    let n = report::fork_count(v);
    laws::lemma_write_plan(v, name, fork, content.len());
    lemma_fork_written(v, name, fork, content, now);
    lemma_counters(w);
    reveal(report::forks_sound);
    reveal(report::all_owned);
    assert forall|k: int| 0 <= k < n implies #[trigger] report::sound(w, k) by {
        if k != kw {
            lemma_fork_kept(v, name, fork, content, now, k);
        }
    }
    assert forall|j: int, k: int| 0 <= j < k < n implies blockmap::disjoint(
        #[trigger] report::blocks_of(w, j),
        #[trigger] report::blocks_of(w, k),
    ) by {
        if j != kw {
            lemma_fork_kept(v, name, fork, content, now, j);
        }
        if k != kw {
            lemma_fork_kept(v, name, fork, content, now, k);
        }
        report::lemma_apart(v, j, k);
    }
    assert forall|b: u16|
        #[trigger] blockmap::has_block(w.map, b) && report::taken(
            blockmap::entry(w.map, b),
        ) implies report::owned(w, n, b) by {
        lemma_owners_written(v, name, fork, content, now, b);
    }
}

/// Writing one fork of a consistent volume leaves every other fork as it was.
pub proof fn lemma_write_keeps_others(
    v: VolumeView,
    name: Seq<char>,
    fork: Fork,
    content: Seq<u8>,
    now: u32,
    j: nat,
    other: Fork,
    asked: Seq<char>,
)
    requires
        v.wf(),
        report::consistent(v),
        laws::write_succeeds(v, name, fork, content),
        j < v.entries.len(),
        j != model::write_plan(v, name, fork, content.len())->Ok_0.index || other != fork,
    ensures
        ({
            let w = model::write_outcome(v, name, fork, content, now)->Ok_0;
            model::fork_outcome(w, w.entries[j as int], asked, other) == model::fork_outcome(
                v,
                v.entries[j as int],
                asked,
                other,
            )
        }),
{
    let k = match other {
        Fork::Data => report::data_fork(j),
        Fork::Resource => report::rsrc_fork(j),
    };
    assert(report::entry_of(v, k) == v.entries[j as int] && report::fork_of(k) == other);
    report::lemma_sound(v, k);
    lemma_fork_kept(v, name, fork, content, now, k);
    laws::lemma_write_keeps(v, name, fork, content, now, j as int, other, asked);
}

/// The report on a file one fork of which was replaced.
pub open spec fn file_written(
    f: FileView,
    fork: Fork,
    len: u32,
    alloc: u32,
    now: u32,
) -> FileView {
    match fork {
        Fork::Data => FileView { data_len: len, data_alloc: alloc, modified: now, ..f },
        Fork::Resource => FileView { rsrc_len: len, rsrc_alloc: alloc, modified: now, ..f },
    }
}

/// What a write to a consistent volume leaves as it was: every other fork, by
/// whatever name it is asked for, all that is reported of every other file, of
/// the written one all but the lengths of the fork and the modification date,
/// the boot blocks, and of the volume all but its free blocks and its
/// modification date.
#[verifier::rlimit(30)]
pub proof fn lemma_write_leaves(
    v: VolumeView,
    name: Seq<char>,
    fork: Fork,
    content: Seq<u8>,
    now: u32,
)
    requires
        v.wf(),
        report::consistent(v),
        laws::write_succeeds(v, name, fork, content),
    ensures
        ({
            let w = model::write_outcome(v, name, fork, content, now)->Ok_0;
            let i = model::lookup(v.entries, name)->0;
            let alloc = model::blocks_needed(content.len(), v.mdb.al_blk_siz) * v.mdb.al_blk_siz;
            &&& forall|asked: Seq<char>, other: Fork|
                model::lookup(v.entries, asked) != Some(i) || other != fork
                    ==> #[trigger] model::read_outcome(w, asked, other) == model::read_outcome(
                    v,
                    asked,
                    other,
                )
            &&& model::files_of(w.entries) == model::files_of(v.entries).update(
                i as int,
                file_written(
                    model::file_of(v.entries[i as int]),
                    fork,
                    content.len() as u32,
                    alloc as u32,
                    now,
                ),
            )
            &&& w.data.take(1024) == v.data.take(1024)
            &&& model::info_of(w) == (InfoView {
                modified: now,
                free_blocks: model::info_of(w).free_blocks,
                ..model::info_of(v)
            })
        }),
{
    let w = model::write_outcome(v, name, fork, content, now)->Ok_0;
    let p = model::write_plan(v, name, fork, content.len())->Ok_0;
    let i = model::lookup(v.entries, name)->0;
    laws::lemma_lookup(v.entries, name, 0);
    laws::lemma_write_plan(v, name, fork, content.len());
    assert forall|asked: Seq<char>, other: Fork|
        model::lookup(v.entries, asked) != Some(i) || other != fork implies
        #[trigger] model::read_outcome(w, asked, other) == model::read_outcome(v, asked, other) by {
        laws::lemma_lookup(v.entries, asked, 0);
        laws::lemma_lookup_by_names(v.entries, w.entries, asked, 0);
        if let Some(j) = model::lookup(v.entries, asked) {
            lemma_write_keeps_others(v, name, fork, content, now, j, other, asked);
        }
    }
    let blocks = model::blocks_taken(v, p);
    laws::lemma_written_elsewhere(v.data, v.mdb, v.map.len(), blocks, content);
    assert(w.data.take(1024) =~= v.data.take(1024));
    lemma_counters(w);
    let f = file_written(
        model::file_of(v.entries[i as int]),
        fork,
        content.len() as u32,
        (p.needed * v.mdb.al_blk_siz) as u32,
        now,
    );
    assert(model::file_of(w.entries[i as int]) == f);
    assert(model::files_of(w.entries) =~= model::files_of(v.entries).update(i as int, f));
}

/// The fork of a volume that fork `k` of it was before entry `i` was deleted.
spec fn before_delete(i: nat, k: int) -> int {
    if k < 2 * i {
        k
    } else {
        k + 2
    }
}

/// What deleting file `i` of a consistent volume makes of the map.
proof fn lemma_forks_deleted(v: VolumeView, i: nat)
    requires
        v.wf(),
        report::consistent(v),
        i < v.entries.len(),
    ensures
        ({
            let e = v.entries[i as int];
            let a = report::blocks_of(v, report::data_fork(i));
            let b = report::blocks_of(v, report::rsrc_fork(i));
            let map1 = blockmap::released(v.map, a);
            &&& model::fork_freed(v.map, e.df_st_blk) == Ok::<Seq<u16>, Fault>(map1)
            &&& model::fork_freed(map1, e.rf_st_blk) == Ok::<Seq<u16>, Fault>(
                blockmap::released(map1, b),
            )
            &&& blockmap::disjoint(a, b)
        }),
{
    let e = v.entries[i as int];
    let ka = report::data_fork(i);
    let kb = report::rsrc_fork(i);
    let a = report::blocks_of(v, ka);
    let b = report::blocks_of(v, kb);
    let map1 = blockmap::released(v.map, a);
    assert(ka / 2 == i && kb / 2 == i);
    assert(report::fork_of(ka) == Fork::Data && report::fork_of(kb) == Fork::Resource);
    report::lemma_sound(v, ka);
    report::lemma_sound(v, kb);
    report::lemma_apart(v, ka, kb);
    if e.df_st_blk == 0 {
        assert(a =~= Seq::empty());
        model::lemma_released_none(v.map);
    }
    if e.rf_st_blk == 0 {
        assert(b =~= Seq::empty());
        model::lemma_released_none(map1);
    } else {
        blockmap::lemma_chain_found(v.map, e.rf_st_blk, b);
        assert(blockmap::disjoint(b, a));
        blockmap::lemma_release_keeps_chain(v.map, a, e.rf_st_blk, b);
        blockmap::lemma_chain_unique(map1, e.rf_st_blk, b);
    }
}

/// A fork that is left when file `i` of a consistent volume is deleted.
#[verifier::rlimit(30)]
proof fn lemma_fork_left(v: VolumeView, i: nat, w: VolumeView, k: int)
    requires
        v.wf(),
        report::consistent(v),
        i < v.entries.len(),
        w.entries == v.entries.remove(i as int),
        w.map == blockmap::released(
            blockmap::released(v.map, report::blocks_of(v, report::data_fork(i))),
            report::blocks_of(v, report::rsrc_fork(i)),
        ),
        w.mdb.al_blk_siz == v.mdb.al_blk_siz,
        0 <= k < report::fork_count(v) - 2,
    ensures
        report::blocks_of(w, k) == report::blocks_of(v, before_delete(i, k)),
        report::sound(w, k),
{
    let l = before_delete(i, k);
    let a = report::blocks_of(v, report::data_fork(i));
    let b = report::blocks_of(v, report::rsrc_fork(i));
    let map1 = blockmap::released(v.map, a);
    report::lemma_sound(v, l);
    assert(report::entry_of(w, k) == report::entry_of(v, l));
    assert(report::fork_of(k) == report::fork_of(l));
    let mine = report::blocks_of(v, l);
    let start = model::fork_start(report::entry_of(v, l), report::fork_of(l));
    report::lemma_apart(v, l, report::data_fork(i));
    report::lemma_apart(v, l, report::rsrc_fork(i));
    if start != 0 {
        blockmap::lemma_chain_found(v.map, start, mine);
        blockmap::lemma_release_keeps_chain(v.map, a, start, mine);
        blockmap::lemma_release_keeps_chain(map1, b, start, mine);
        blockmap::lemma_chain_unique(w.map, start, mine);
    }
}

/// Every block in use still belongs to a file when file `i` of a consistent
/// volume is deleted.
#[verifier::rlimit(30)]
proof fn lemma_owners_left(v: VolumeView, i: nat, w: VolumeView, c: u16)
    requires
        v.wf(),
        report::consistent(v),
        i < v.entries.len(),
        w.entries == v.entries.remove(i as int),
        w.map == blockmap::released(
            blockmap::released(v.map, report::blocks_of(v, report::data_fork(i))),
            report::blocks_of(v, report::rsrc_fork(i)),
        ),
        w.mdb.al_blk_siz == v.mdb.al_blk_siz,
        blockmap::has_block(w.map, c),
        report::taken(blockmap::entry(w.map, c)),
    ensures
        report::owned(w, report::fork_count(w), c),
{
    let n = report::fork_count(v);
    let a = report::blocks_of(v, report::data_fork(i));
    let b = report::blocks_of(v, report::rsrc_fork(i));
    assert(blockmap::has_block(v.map, c));
    blockmap::lemma_released(v.map, a, c);
    blockmap::lemma_released(blockmap::released(v.map, a), b, c);
    assert(!a.contains(c) && !b.contains(c));
    let l = report::lemma_owner(v, c);
    let k = if l < 2 * i {
        l
    } else {
        l - 2
    };
    assert(before_delete(i, k) == l);
    lemma_fork_left(v, i, w, k);
    assert(report::blocks_of(w, k).contains(c));
}

/// Deleting an unlocked file of a consistent volume always succeeds, and keeps
/// the volume consistent.
#[verifier::rlimit(30)]
pub proof fn lemma_delete_consistent(v: VolumeView, name: Seq<char>, now: u32)
    requires
        v.wf(),
        report::consistent(v),
        model::target(v, name) is Ok,
        !v.entries[model::target(v, name)->Ok_0 as int].locked(),
    ensures
        model::delete_outcome(v, name, now) is Ok,
        report::consistent(model::delete_outcome(v, name, now)->Ok_0),
{
    laws::lemma_lookup(v.entries, name, 0);
    let i = model::target(v, name)->Ok_0;
    let w = model::delete_outcome(v, name, now)->Ok_0;
    lemma_forks_deleted(v, i);
    let n = report::fork_count(w);
    lemma_counters(w);
    reveal(report::forks_sound);
    reveal(report::all_owned);
    assert forall|k: int| 0 <= k < n implies #[trigger] report::sound(w, k) by {
        lemma_fork_left(v, i, w, k);
    }
    assert forall|j: int, k: int| 0 <= j < k < n implies blockmap::disjoint(
        #[trigger] report::blocks_of(w, j),
        #[trigger] report::blocks_of(w, k),
    ) by {
        lemma_fork_left(v, i, w, j);
        lemma_fork_left(v, i, w, k);
        report::lemma_apart(v, before_delete(i, j), before_delete(i, k));
    }
    assert forall|c: u16|
        #[trigger] blockmap::has_block(w.map, c) && report::taken(
            blockmap::entry(w.map, c),
        ) implies report::owned(w, n, c) by {
        lemma_owners_left(v, i, w, c);
    }
}

/// A file with a broken fork cannot be deleted.
pub proof fn lemma_broken_not_deleted(v: VolumeView, name: Seq<char>, fork: Fork, now: u32)
    requires
        v.wf(),
        model::target(v, name) is Ok,
        ({
            let e = v.entries[model::target(v, name)->Ok_0 as int];
            !e.locked() && model::fork_chain(v, model::fork_start(e, fork)) is Err
        }),
    ensures
        model::delete_outcome(v, name, now) is Err,
        model::delete_outcome(v, name, now)->Err_0 is CorruptVolume,
{
    let e = v.entries[model::target(v, name)->Ok_0 as int];
    let start = model::fork_start(e, fork);
    blockmap::lemma_release_mends_nothing(v.map, Seq::empty(), start);
    match fork {
        Fork::Data => {},
        Fork::Resource => {
            if e.df_st_blk != 0 {
                if let Ok(chain) = blockmap::chain_from(v.map, e.df_st_blk) {
                    blockmap::lemma_release_mends_nothing(v.map, chain, start);
                } else {
                    blockmap::lemma_release_mends_nothing(v.map, Seq::empty(), e.df_st_blk);
                }
            }
        },
    }
}

/// How many blocks are free once file `i` of a consistent volume is deleted.
#[verifier::rlimit(30)]
proof fn lemma_count_deleted(v: VolumeView, i: nat)
    requires
        v.wf(),
        report::consistent(v),
        i < v.entries.len(),
    ensures
        ({
            let a = report::blocks_of(v, report::data_fork(i));
            let b = report::blocks_of(v, report::rsrc_fork(i));
            let map1 = blockmap::released(v.map, a);
            blockmap::count_free(blockmap::released(map1, b)) == blockmap::count_free(v.map)
                + a.len() + b.len()
        }),
{
    let e = v.entries[i as int];
    lemma_forks_deleted(v, i);
    let a = report::blocks_of(v, report::data_fork(i));
    let b = report::blocks_of(v, report::rsrc_fork(i));
    let map1 = blockmap::released(v.map, a);
    assert(report::entry_of(v, report::data_fork(i)) == e);
    assert(report::entry_of(v, report::rsrc_fork(i)) == e);
    report::lemma_sound(v, report::data_fork(i));
    report::lemma_sound(v, report::rsrc_fork(i));
    if e.df_st_blk == 0 {
        assert(a =~= Seq::empty());
        model::lemma_released_none(v.map);
    } else {
        blockmap::lemma_freed_count(v.map, e.df_st_blk);
    }
    if e.rf_st_blk == 0 {
        assert(b =~= Seq::empty());
        model::lemma_released_none(map1);
    } else {
        blockmap::lemma_chain_found(v.map, e.rf_st_blk, b);
        assert(blockmap::disjoint(b, a));
        blockmap::lemma_release_keeps_chain(v.map, a, e.rf_st_blk, b);
        blockmap::lemma_chain_unique(map1, e.rf_st_blk, b);
        blockmap::lemma_freed_count(map1, e.rf_st_blk);
    }
}

/// Deleting a file gives back exactly the blocks of its two forks.
pub proof fn lemma_delete_frees(v: VolumeView, name: Seq<char>, now: u32)
    requires
        v.wf(),
        report::consistent(v),
        model::delete_outcome(v, name, now) is Ok,
    ensures
        ({
            let i = model::target(v, name)->Ok_0;
            let w = model::delete_outcome(v, name, now)->Ok_0;
            let a = report::blocks_of(v, report::data_fork(i));
            let b = report::blocks_of(v, report::rsrc_fork(i));
            &&& w.map == blockmap::released(blockmap::released(v.map, a), b)
            &&& blockmap::count_free(w.map) == blockmap::count_free(v.map) + a.len() + b.len()
            &&& w.mdb.free_bks == v.mdb.free_bks + a.len() + b.len()
        }),
{
    laws::lemma_lookup(v.entries, name, 0);
    let i = model::target(v, name)->Ok_0;
    lemma_forks_deleted(v, i);
    lemma_count_deleted(v, i);
    lemma_counters(model::delete_outcome(v, name, now)->Ok_0);
}

/// A fork with the same chain in an image of the same bytes reads the same.
proof fn lemma_reads_same(
    v: VolumeView,
    w: VolumeView,
    e: EntryView,
    asked: Seq<char>,
    fork: Fork,
)
    requires
        w.data == v.data,
        w.mdb.al_bl_st == v.mdb.al_bl_st,
        w.mdb.al_blk_siz == v.mdb.al_blk_siz,
        model::fork_chain(w, model::fork_start(e, fork)) == model::fork_chain(
            v,
            model::fork_start(e, fork),
        ),
    ensures
        model::fork_outcome(w, e, asked, fork) == model::fork_outcome(v, e, asked, fork),
{
    if let Ok(chain) = model::fork_chain(v, model::fork_start(e, fork)) {
        laws::lemma_chain_bytes_mdb(v.data, w.mdb, v.mdb, chain);
    }
}

/// Deleting a file leaves the contents of every other file as they were.
#[verifier::rlimit(30)]
pub proof fn lemma_delete_keeps(
    v: VolumeView,
    name: Seq<char>,
    now: u32,
    j: nat,
    fork: Fork,
    asked: Seq<char>,
)
    requires
        v.wf(),
        report::consistent(v),
        model::delete_outcome(v, name, now) is Ok,
        j < v.entries.len(),
        j != model::target(v, name)->Ok_0,
    ensures
        ({
            let i = model::target(v, name)->Ok_0;
            let w = model::delete_outcome(v, name, now)->Ok_0;
            let k = if j < i {
                j as int
            } else {
                j - 1
            };
            &&& w.entries[k] == v.entries[j as int]
            &&& model::fork_outcome(w, w.entries[k], asked, fork) == model::fork_outcome(
                v,
                v.entries[j as int],
                asked,
                fork,
            )
        }),
{
    laws::lemma_lookup(v.entries, name, 0);
    let i = model::target(v, name)->Ok_0;
    let w = model::delete_outcome(v, name, now)->Ok_0;
    lemma_forks_deleted(v, i);
    let e = v.entries[j as int];
    let l = match fork {
        Fork::Data => report::data_fork(j),
        Fork::Resource => report::rsrc_fork(j),
    };
    let k = if l < 2 * i {
        l
    } else {
        l - 2
    };
    assert(before_delete(i, k) == l);
    assert(report::entry_of(v, l) == e && report::fork_of(l) == fork);
    lemma_fork_left(v, i, w, k);
    assert(report::entry_of(w, k) == e && report::fork_of(k) == fork);
    report::lemma_sound(v, l);
    lemma_reads_same(v, w, e, asked, fork);
}

/// How many blocks are free after a write: those that were, with the old blocks
/// of the fork given back and the new ones taken.
pub proof fn lemma_write_count(
    v: VolumeView,
    name: Seq<char>,
    fork: Fork,
    content: Seq<u8>,
    now: u32,
)
    requires
        v.wf(),
        model::write_outcome(v, name, fork, content, now) is Ok,
        model::representable(v, name, fork, content.len()),
        blockmap::linkable(
            model::blocks_taken(v, model::write_plan(v, name, fork, content.len())->Ok_0),
        ),
    ensures
        ({
            let p = model::write_plan(v, name, fork, content.len())->Ok_0;
            let w = model::write_outcome(v, name, fork, content, now)->Ok_0;
            &&& blockmap::count_free(w.map) == blockmap::count_free(v.map) + p.old.len() - p.needed
            &&& w.mdb.free_bks == blockmap::count_free(w.map)
        }),
{
    let p = model::write_plan(v, name, fork, content.len())->Ok_0;
    let w = model::write_outcome(v, name, fork, content, now)->Ok_0;
    let map1 = blockmap::released(v.map, p.old);
    let start = model::fork_start(v.entries[p.index as int], fork);
    laws::lemma_write_plan(v, name, fork, content.len());
    if start == 0 {
        model::lemma_released_none(v.map);
    } else {
        blockmap::lemma_freed_count(v.map, start);
    }
    blockmap::lemma_allocated_count(map1, p.needed as nat);
    blockmap::lemma_free_blocks(w.map);
}

/// Deleting a file gives back all that a write to an empty file took: the map is
/// what it was before.
pub proof fn lemma_delete_undoes_write(
    v: VolumeView,
    name: Seq<char>,
    fork: Fork,
    content: Seq<u8>,
    now: u32,
    later: u32,
)
    requires
        v.wf(),
        model::write_outcome(v, name, fork, content, now) is Ok,
        model::representable(v, name, fork, content.len()),
        blockmap::linkable(
            model::blocks_taken(v, model::write_plan(v, name, fork, content.len())->Ok_0),
        ),
        ({
            let e = v.entries[model::target(v, name)->Ok_0 as int];
            e.df_st_blk == 0 && e.rf_st_blk == 0
        }),
    ensures
        ({
            let w = model::write_outcome(v, name, fork, content, now)->Ok_0;
            let d = model::delete_outcome(w, name, later);
            &&& d is Ok
            &&& d->Ok_0.map == v.map
            &&& d->Ok_0.entries == v.entries.remove(model::target(v, name)->Ok_0 as int)
        }),
{
    let p = model::write_plan(v, name, fork, content.len())->Ok_0;
    let w = model::write_outcome(v, name, fork, content, now)->Ok_0;
    let blocks = model::blocks_taken(v, p);
    laws::lemma_write_plan(v, name, fork, content.len());
    laws::lemma_lookup_by_names(v.entries, w.entries, name, 0);
    model::lemma_released_none(v.map);
    let d = model::delete_outcome(w, name, later);
    if p.needed > 0 {
        blockmap::lemma_free_undoes_allocate(v.map, p.needed as nat);
        assert(blockmap::has_block(v.map, blocks[0])) by {
            blockmap::lemma_picked(v.map, p.needed as nat);
        }
    }
    assert(d->Ok_0.entries =~= v.entries.remove(p.index as int));
}

// ------------------------------------------------------------------------- names

/// Whether no two entries go by the same name, case aside.
pub open spec fn unique_names(entries: Seq<EntryView>) -> bool {
    forall|i: int, j: int|
        0 <= i < j < entries.len() ==> !macroman::same_name(
            macroman::decoded(#[trigger] entries[i].name),
            macroman::decoded(#[trigger] entries[j].name),
        )
}

/// Where no two files go by the same name, every file is found by its own name,
/// in any case.
pub proof fn lemma_found_by_name(entries: Seq<EntryView>, i: nat, name: Seq<char>)
    requires
        unique_names(entries),
        i < entries.len(),
        model::named(entries[i as int], name),
    ensures
        model::lookup(entries, name) == Some(i),
{
    laws::lemma_lookup(entries, name, 0);
    let k = model::lookup(entries, name)->0;
    if k < i {
        assert(!macroman::same_name(
            macroman::decoded(entries[k as int].name),
            macroman::decoded(entries[i as int].name),
        ));
    }
}

/// What is asked for and what is found go by the same name, whatever the case
/// it is asked for in.
pub proof fn lemma_lookup_ignores_case(entries: Seq<EntryView>, a: Seq<char>, b: Seq<char>)
    requires
        macroman::same_name(a, b),
    ensures
        model::lookup(entries, a) == model::lookup(entries, b),
{
    laws::lemma_lookup(entries, a, 0);
    laws::lemma_lookup(entries, b, 0);
}

/// Adding a file to a volume leaves no two files with the same name.
pub proof fn lemma_create_unique(
    v: VolumeView,
    name: Seq<char>,
    type_code: Seq<u8>,
    creator: Seq<u8>,
    now: u32,
)
    requires
        unique_names(v.entries),
    ensures
        model::create_outcome(v, name, type_code, creator, now) matches Ok(w) ==> unique_names(
            w.entries,
        ),
{
    if let Ok(w) = model::create_outcome(v, name, type_code, creator, now) {
        laws::lemma_lookup(v.entries, name, 0);
        macroman::lemma_decode_inverts_encode(name);
        assert forall|i: int, j: int| 0 <= i < j < w.entries.len() implies !macroman::same_name(
            macroman::decoded(#[trigger] w.entries[i].name),
            macroman::decoded(#[trigger] w.entries[j].name),
        ) by {
            if j == v.entries.len() {
                assert(!model::named(v.entries[i], name));
            } else {
                assert(v.entries[i].name == w.entries[i].name);
                assert(v.entries[j].name == w.entries[j].name);
            }
        }
    }
}

/// Renaming a file leaves no two files with the same name.
pub proof fn lemma_rename_unique(v: VolumeView, a: Seq<char>, b: Seq<char>, now: u32)
    requires
        unique_names(v.entries),
    ensures
        model::rename_outcome(v, a, b, now) matches Ok(w) ==> unique_names(w.entries),
{
    if let Ok(w) = model::rename_outcome(v, a, b, now) {
        laws::lemma_lookup(v.entries, a, 0);
        laws::lemma_lookup(v.entries, b, 0);
        macroman::lemma_decode_inverts_encode(b);
        let k = model::lookup(v.entries, a)->0 as int;
        assert forall|i: int| 0 <= i < v.entries.len() && i != k implies !model::named(
            #[trigger] v.entries[i],
            b,
        ) by {
            if model::named(v.entries[i], b) {
                lemma_found_by_name(v.entries, i as nat, b);
            }
        }
        assert forall|i: int, j: int| 0 <= i < j < w.entries.len() implies !macroman::same_name(
            macroman::decoded(#[trigger] w.entries[i].name),
            macroman::decoded(#[trigger] w.entries[j].name),
        ) by {
            if i == k {
                assert(!model::named(v.entries[j], b));
            } else if j == k {
                assert(!model::named(v.entries[i], b));
            } else {
                assert(v.entries[i].name == w.entries[i].name);
                assert(v.entries[j].name == w.entries[j].name);
            }
        }
    }
}

/// Deleting a file leaves no two files with the same name, and none with the
/// name of the deleted one.
pub proof fn lemma_delete_unique(v: VolumeView, name: Seq<char>, now: u32)
    requires
        unique_names(v.entries),
        model::delete_outcome(v, name, now) is Ok,
    ensures
        unique_names(model::delete_outcome(v, name, now)->Ok_0.entries),
        model::lookup(model::delete_outcome(v, name, now)->Ok_0.entries, name) is None,
{
    let w = model::delete_outcome(v, name, now)->Ok_0;
    laws::lemma_lookup(v.entries, name, 0);
    let k = model::lookup(v.entries, name)->0 as int;
    assert forall|i: int, j: int| 0 <= i < j < w.entries.len() implies !macroman::same_name(
        macroman::decoded(#[trigger] w.entries[i].name),
        macroman::decoded(#[trigger] w.entries[j].name),
    ) by {
        let x = if i < k {
            i
        } else {
            i + 1
        };
        let y = if j < k {
            j
        } else {
            j + 1
        };
        assert(v.entries[x].name == w.entries[i].name);
        assert(v.entries[y].name == w.entries[j].name);
    }
    laws::lemma_lookup(w.entries, name, 0);
    if let Some(i) = model::lookup(w.entries, name) {
        let x = if i < k {
            i as int
        } else {
            i as int + 1
        };
        assert(v.entries[x] == w.entries[i as int]);
        lemma_found_by_name(v.entries, x as nat, name);
    }
}

/// Writing a fork, setting a file's type, creator, locked bit or dates, renaming
/// the volume and replacing the boot blocks leave all names and file numbers as
/// they were, and the next number to be given out.
pub proof fn lemma_others_keep_identity(
    v: VolumeView,
    name: Seq<char>,
    fork: Fork,
    content: Seq<u8>,
    codes: (Seq<u8>, Seq<u8>),
    locked: bool,
    dates: (Option<u32>, Option<u32>),
    now: u32,
)
    ensures
        model::write_outcome(v, name, fork, content, now) matches Ok(w) ==> same_files(v, w),
        model::type_creator_outcome(v, name, codes.0, codes.1, now) matches Ok(w) ==> same_files(
            v,
            w,
        ),
        model::locked_outcome(v, name, locked, now) matches Ok(w) ==> same_files(v, w),
        model::times_outcome(v, name, dates.0, dates.1, now) matches Ok(w) ==> same_files(v, w),
        model::rename_volume_outcome(v, name, now) matches Ok(w) ==> same_files(v, w),
        model::boot_outcome(v, content) matches Ok(w) ==> same_files(v, w),
{
    laws::lemma_lookup(v.entries, name, 0);
}

/// Whether two volumes have files of the same names and numbers, in the same
/// order, and the same number to give out next.
pub open spec fn same_files(v: VolumeView, w: VolumeView) -> bool {
    &&& w.mdb.nxt_fnum == v.mdb.nxt_fnum
    &&& w.entries.len() == v.entries.len()
    &&& forall|i: int|
        0 <= i < v.entries.len() ==> (#[trigger] w.entries[i]).name == v.entries[i].name
            && w.entries[i].fnum == v.entries[i].fnum
}

/// Renaming a file leaves its number, and every other one, as it was.
pub proof fn lemma_rename_numbers(v: VolumeView, a: Seq<char>, b: Seq<char>, now: u32)
    requires
        numbers_spent(v),
    ensures
        model::rename_outcome(v, a, b, now) matches Ok(w) ==> numbers_spent(w) && w.mdb.nxt_fnum
            == v.mdb.nxt_fnum,
{
    if let Ok(w) = model::rename_outcome(v, a, b, now) {
        laws::lemma_lookup(v.entries, a, 0);
        assert forall|i: int| 0 <= i < v.entries.len() implies (#[trigger] w.entries[i]).fnum
            == v.entries[i].fnum by {}
        assert forall|i: int, j: int| 0 <= i < j < w.entries.len() implies (
        #[trigger] w.entries[i]).fnum != (#[trigger] w.entries[j]).fnum by {
            assert(v.entries[i].fnum != v.entries[j].fnum);
        }
    }
}

/// A renamed file has the contents it had, under its new name.
pub proof fn lemma_rename_keeps_contents(
    v: VolumeView,
    a: Seq<char>,
    b: Seq<char>,
    now: u32,
    fork: Fork,
)
    requires
        v.wf(),
        unique_names(v.entries),
        model::rename_outcome(v, a, b, now) is Ok,
        model::read_outcome(v, a, fork) is Ok,
    ensures
        model::read_outcome(model::rename_outcome(v, a, b, now)->Ok_0, b, fork)
            == model::read_outcome(v, a, fork),
{
    let w = model::rename_outcome(v, a, b, now)->Ok_0;
    laws::lemma_lookup(v.entries, a, 0);
    let i = model::lookup(v.entries, a)->0;
    lemma_rename_unique(v, a, b, now);
    macroman::lemma_decode_inverts_encode(b);
    lemma_found_by_name(w.entries, i, b);
    let start = model::fork_start(v.entries[i as int], fork);
    if start != 0 {
        let chain = blockmap::chain_from(v.map, start)->Ok_0;
        laws::lemma_chain_bytes_mdb(v.data, w.mdb, v.mdb, chain);
    }
}

/// Whether every file of `v` is in `w` too, in the same place, with the same
/// contents.
pub open spec fn contents_kept(v: VolumeView, w: VolumeView) -> bool {
    &&& w.entries.len() >= v.entries.len()
    &&& forall|j: int, fork: Fork, asked: Seq<char>|
        0 <= j < v.entries.len() ==> #[trigger] model::fork_outcome(
            w,
            w.entries[j],
            asked,
            fork,
        ) == model::fork_outcome(v, v.entries[j], asked, fork)
}

/// A volume with the same map and image and the same forks has the same
/// contents.
proof fn lemma_contents_kept(v: VolumeView, w: VolumeView)
    requires
        w.map == v.map,
        w.data == v.data,
        w.mdb.al_bl_st == v.mdb.al_bl_st,
        w.mdb.al_blk_siz == v.mdb.al_blk_siz,
        w.entries.len() >= v.entries.len(),
        forall|i: int| 0 <= i < v.entries.len() ==> same_forks(#[trigger] v.entries[i], w.entries[i]),
    ensures
        contents_kept(v, w),
{
    assert forall|j: int, fork: Fork, asked: Seq<char>|
        0 <= j < v.entries.len() implies #[trigger] model::fork_outcome(
        w,
        w.entries[j],
        asked,
        fork,
    ) == model::fork_outcome(v, v.entries[j], asked, fork) by {
        let e = v.entries[j];
        let d = w.entries[j];
        assert(same_forks(e, d));
        assert(model::fork_start(d, fork) == model::fork_start(e, fork));
        assert(model::fork_len(d, fork) == model::fork_len(e, fork));
        lemma_reads_same(v, w, e, asked, fork);
        assert(model::fork_outcome(w, d, asked, fork) == model::fork_outcome(w, e, asked, fork));
    }
}

/// Adding or renaming a file, setting a file's type, creator, locked bit or
/// dates, and renaming the volume leave the contents of every file as they
/// were.
pub proof fn lemma_changes_keep_contents(
    v: VolumeView,
    name: Seq<char>,
    other: Seq<char>,
    codes: (Seq<u8>, Seq<u8>),
    locked: bool,
    dates: (Option<u32>, Option<u32>),
    now: u32,
)
    requires
        v.wf(),
    ensures
        model::create_outcome(v, name, codes.0, codes.1, now) matches Ok(w) ==> contents_kept(v, w),
        model::rename_outcome(v, name, other, now) matches Ok(w) ==> contents_kept(v, w),
        model::rename_volume_outcome(v, name, now) matches Ok(w) ==> contents_kept(v, w),
        model::type_creator_outcome(v, name, codes.0, codes.1, now) matches Ok(w) ==> contents_kept(
            v,
            w,
        ),
        model::locked_outcome(v, name, locked, now) matches Ok(w) ==> contents_kept(v, w),
        model::times_outcome(v, name, dates.0, dates.1, now) matches Ok(w) ==> contents_kept(v, w),
{
    laws::lemma_lookup(v.entries, name, 0);
    if let Ok(w) = model::create_outcome(v, name, codes.0, codes.1, now) {
        lemma_contents_kept(v, w);
    }
    if let Ok(w) = model::rename_outcome(v, name, other, now) {
        lemma_contents_kept(v, w);
    }
    if let Ok(w) = model::rename_volume_outcome(v, name, now) {
        lemma_contents_kept(v, w);
    }
    if let Ok(w) = model::type_creator_outcome(v, name, codes.0, codes.1, now) {
        lemma_contents_kept(v, w);
    }
    if let Ok(w) = model::locked_outcome(v, name, locked, now) {
        lemma_contents_kept(v, w);
    }
    if let Ok(w) = model::times_outcome(v, name, dates.0, dates.1, now) {
        lemma_contents_kept(v, w);
    }
}

/// A new file is found by its name, is empty and unlocked, and has the codes,
/// dates and number that it was given.
pub proof fn lemma_created(
    v: VolumeView,
    name: Seq<char>,
    type_code: Seq<u8>,
    creator: Seq<u8>,
    now: u32,
    fork: Fork,
)
    requires
        model::create_outcome(v, name, type_code, creator, now) is Ok,
    ensures
        ({
            let w = model::create_outcome(v, name, type_code, creator, now)->Ok_0;
            &&& model::file_outcome(w, name) matches Ok(f) && {
                &&& f.name == name
                &&& f.file_num == v.mdb.nxt_fnum
                &&& f.type_code == type_code
                &&& f.creator == creator
                &&& !f.locked
                &&& f.created == now
                &&& f.modified == now
                &&& f.data_len == 0
                &&& f.rsrc_len == 0
            }
            &&& model::read_outcome(w, name, fork) == Ok::<Seq<u8>, Fault>(Seq::empty())
        }),
{
    let w = model::create_outcome(v, name, type_code, creator, now)->Ok_0;
    laws::lemma_lookup(v.entries, name, 0);
    laws::lemma_lookup(w.entries, name, 0);
    macroman::lemma_decode_inverts_encode(name);
    let n = v.entries.len();
    assert(model::named(w.entries[n as int], name));
    assert forall|i: int| 0 <= i < n implies !model::named(#[trigger] w.entries[i], name) by {
        assert(w.entries[i] == v.entries[i]);
        assert(!model::named(v.entries[i], name));
    }
}

// ----------------------------------------------------------------- file numbers

/// Whether every file has a number below the next one to be given out, and no
/// two have the same.
pub open spec fn numbers_spent(v: VolumeView) -> bool {
    &&& forall|i: int| 0 <= i < v.entries.len() ==> (#[trigger] v.entries[i]).fnum < v.mdb.nxt_fnum
    &&& forall|i: int, j: int|
        0 <= i < j < v.entries.len() ==> (#[trigger] v.entries[i]).fnum != (
        #[trigger] v.entries[j]).fnum
}

/// A new file gets a number that no file has, and that no later one will get,
/// as long as there are numbers left.
pub proof fn lemma_create_numbers(
    v: VolumeView,
    name: Seq<char>,
    type_code: Seq<u8>,
    creator: Seq<u8>,
    now: u32,
)
    requires
        numbers_spent(v),
        v.mdb.nxt_fnum < u32::MAX,
        model::create_outcome(v, name, type_code, creator, now) is Ok,
    ensures
        ({
            let w = model::create_outcome(v, name, type_code, creator, now)->Ok_0;
            &&& numbers_spent(w)
            &&& w.entries.last().fnum == v.mdb.nxt_fnum
            &&& w.mdb.nxt_fnum == v.mdb.nxt_fnum + 1
        }),
{
    let w = model::create_outcome(v, name, type_code, creator, now)->Ok_0;
    assert forall|i: int| 0 <= i < v.entries.len() implies #[trigger] w.entries[i] == v.entries[i] by {}
    assert forall|i: int, j: int| 0 <= i < j < w.entries.len() implies (
    #[trigger] w.entries[i]).fnum != (#[trigger] w.entries[j]).fnum by {
        assert(v.entries[i].fnum < v.mdb.nxt_fnum);
        if j < v.entries.len() {
            assert(v.entries[i].fnum != v.entries[j].fnum);
        }
    }
}

/// The number of a deleted file is not given out again.
pub proof fn lemma_delete_numbers(v: VolumeView, name: Seq<char>, now: u32)
    requires
        numbers_spent(v),
    ensures
        model::delete_outcome(v, name, now) matches Ok(w) ==> numbers_spent(w) && w.mdb.nxt_fnum
            == v.mdb.nxt_fnum,
{
    laws::lemma_lookup(v.entries, name, 0);
    if let Ok(w) = model::delete_outcome(v, name, now) {
        let k = model::lookup(v.entries, name)->0 as int;
        assert forall|i: int| 0 <= i < w.entries.len() implies (#[trigger] w.entries[i]).fnum
            < w.mdb.nxt_fnum by {
            let x = if i < k {
                i
            } else {
                i + 1
            };
            assert(v.entries[x].fnum < v.mdb.nxt_fnum);
        }
        assert forall|i: int, j: int| 0 <= i < j < w.entries.len() implies (
        #[trigger] w.entries[i]).fnum != (#[trigger] w.entries[j]).fnum by {
            let x = if i < k {
                i
            } else {
                i + 1
            };
            let y = if j < k {
                j
            } else {
                j + 1
            };
            assert(v.entries[x].fnum != v.entries[y].fnum);
        }
    }
}

// ------------------------------------------------------------------------- locks

/// On a locked volume every change is refused.
pub proof fn lemma_locked_volume(
    v: VolumeView,
    name: Seq<char>,
    other: Seq<char>,
    codes: (Seq<u8>, Seq<u8>),
    fork: Fork,
    content: Seq<u8>,
    locked: bool,
    dates: (Option<u32>, Option<u32>),
    now: u32,
)
    requires
        !model::writable(v),
    ensures
        model::create_outcome(v, name, codes.0, codes.1, now) == Err::<VolumeView, Fault>(
            Fault::VolumeLocked,
        ),
        model::write_outcome(v, name, fork, content, now) == Err::<VolumeView, Fault>(
            Fault::VolumeLocked,
        ),
        model::delete_outcome(v, name, now) == Err::<VolumeView, Fault>(Fault::VolumeLocked),
        model::rename_outcome(v, name, other, now) == Err::<VolumeView, Fault>(
            Fault::VolumeLocked,
        ),
        model::rename_volume_outcome(v, name, now) == Err::<VolumeView, Fault>(
            Fault::VolumeLocked,
        ),
        model::boot_outcome(v, content) == Err::<VolumeView, Fault>(Fault::VolumeLocked),
        model::type_creator_outcome(v, name, codes.0, codes.1, now) == Err::<VolumeView, Fault>(
            Fault::VolumeLocked,
        ),
        model::locked_outcome(v, name, locked, now) == Err::<VolumeView, Fault>(
            Fault::VolumeLocked,
        ),
        model::times_outcome(v, name, dates.0, dates.1, now) == Err::<VolumeView, Fault>(
            Fault::VolumeLocked,
        ),
{
}

/// A locked file can be neither written nor deleted until it is unlocked.
pub proof fn lemma_locked_file(
    v: VolumeView,
    name: Seq<char>,
    fork: Fork,
    content: Seq<u8>,
    now: u32,
    later: u32,
)
    requires
        model::locked_outcome(v, name, true, now) is Ok,
    ensures
        ({
            let w = model::locked_outcome(v, name, true, now)->Ok_0;
            &&& model::file_outcome(w, name) is Ok
            &&& model::file_outcome(w, name)->Ok_0.locked
            &&& model::write_outcome(w, name, fork, content, later) == Err::<VolumeView, Fault>(
                Fault::FileLocked(name),
            )
            &&& model::delete_outcome(w, name, later) == Err::<VolumeView, Fault>(
                Fault::FileLocked(name),
            )
            &&& model::locked_outcome(w, name, false, later) is Ok
            &&& !model::file_outcome(
                model::locked_outcome(w, name, false, later)->Ok_0,
                name,
            )->Ok_0.locked
        }),
{
    let w = model::locked_outcome(v, name, true, now)->Ok_0;
    laws::lemma_lookup(v.entries, name, 0);
    laws::lemma_lookup_by_names(v.entries, w.entries, name, 0);
    let u = model::locked_outcome(w, name, false, later)->Ok_0;
    laws::lemma_lookup_by_names(w.entries, u.entries, name, 0);
}

/// Locking or unlocking a file of a consistent volume changes nothing but that
/// in what is reported of any file, and nothing but the modification date in
/// what is reported of the volume. All forks can be read as before.
#[verifier::rlimit(30)]
pub proof fn lemma_lock_alone(v: VolumeView, name: Seq<char>, locked: bool, now: u32)
    requires
        v.wf(),
        report::consistent(v),
        model::locked_outcome(v, name, locked, now) is Ok,
    ensures
        ({
            let w = model::locked_outcome(v, name, locked, now)->Ok_0;
            let i = model::lookup(v.entries, name)->0 as int;
            &&& w.wf()
            &&& report::consistent(w)
            &&& model::files_of(w.entries) == model::files_of(v.entries).update(
                i,
                FileView { locked, ..model::file_of(v.entries[i]) },
            )
            &&& model::info_of(w) == (InfoView { modified: now, ..model::info_of(v) })
            &&& w.data == v.data
            &&& w.map == v.map
            &&& forall|asked: Seq<char>, fork: Fork| #[trigger]
                model::read_outcome(w, asked, fork) == model::read_outcome(v, asked, fork)
        }),
{
    let w = model::locked_outcome(v, name, locked, now)->Ok_0;
    laws::lemma_lookup(v.entries, name, 0);
    let i = model::lookup(v.entries, name)->0;
    let e = v.entries[i as int];
    assert(e.in_use() && e.codes_ok());
    model::lemma_with_entry_wf(
        v,
        i,
        EntryView { flags: model::with_lock(e.flags, locked), ..e },
        now,
    );
    lemma_setters_consistent(v, name, Seq::empty(), Seq::empty(), locked, None, None, now);
    lemma_counters(w);
    lemma_changes_keep_contents(
        v,
        name,
        name,
        (Seq::empty(), Seq::empty()),
        locked,
        (None, None),
        now,
    );
    let f = FileView { locked, ..model::file_of(e) };
    assert(model::file_of(w.entries[i as int]) == f);
    assert(model::files_of(w.entries) =~= model::files_of(v.entries).update(i as int, f));
    assert forall|asked: Seq<char>, fork: Fork| #[trigger]
        model::read_outcome(w, asked, fork) == model::read_outcome(v, asked, fork) by {
        laws::lemma_lookup(v.entries, asked, 0);
        laws::lemma_lookup_by_names(v.entries, w.entries, asked, 0);
        if let Some(j) = model::lookup(v.entries, asked) {
            assert(model::fork_outcome(w, w.entries[j as int], asked, fork) == model::fork_outcome(
                v,
                v.entries[j as int],
                asked,
                fork,
            ));
        }
    }
}

/// Once a file of a consistent volume is unlocked it can be deleted, and written
/// as far as there is room.
#[verifier::rlimit(30)]
pub proof fn lemma_unlocked_file(
    v: VolumeView,
    name: Seq<char>,
    fork: Fork,
    content: Seq<u8>,
    now: u32,
    later: u32,
)
    requires
        v.wf(),
        report::consistent(v),
        model::locked_outcome(v, name, false, now) is Ok,
    ensures
        ({
            let u = model::locked_outcome(v, name, false, now)->Ok_0;
            &&& model::file_outcome(u, name) is Ok
            &&& !model::file_outcome(u, name)->Ok_0.locked
            &&& model::delete_outcome(u, name, later) is Ok
            &&& model::write_outcome(u, name, fork, content, later) matches Err(f)
                ==> f is VolumeFull
        }),
{
    let u = model::locked_outcome(v, name, false, now)->Ok_0;
    lemma_lock_alone(v, name, false, now);
    laws::lemma_lookup(v.entries, name, 0);
    laws::lemma_lookup_by_names(v.entries, u.entries, name, 0);
    let i = model::lookup(v.entries, name)->0;
    lemma_delete_consistent(u, name, later);
    let k = match fork {
        Fork::Data => report::data_fork(i),
        Fork::Resource => report::rsrc_fork(i),
    };
    assert(report::entry_of(u, k) == u.entries[i as int] && report::fork_of(k) == fork);
    report::lemma_sound(u, k);
}

// ------------------------------------------------------------------- boot blocks

/// Boot blocks read back as they were set, also from a saved image, and setting
/// them changes nothing else, the modification date included.
pub proof fn lemma_boot_blocks(v: VolumeView, blocks: Seq<u8>)
    requires
        v.wf(),
        model::writable(v),
        blocks.len() == 1024,
    ensures
        ({
            let w = model::boot_outcome(v, blocks);
            &&& w is Ok
            &&& w->Ok_0.data.take(1024) == blocks
            &&& w->Ok_0.data.skip(1024) == v.data.skip(1024)
            &&& w->Ok_0 == (VolumeView { data: w->Ok_0.data, ..v })
            &&& w->Ok_0.wf()
            &&& laws::reread(w->Ok_0).data.take(1024) == blocks
        }),
{
    let w = model::boot_outcome(v, blocks)->Ok_0;
    let lo = model::dir_start(v.mdb);
    let hi = model::dir_end(v.mdb);
    assert(w.data.subrange(lo, hi) =~= v.data.subrange(lo, hi));
    assert(w.data.take(1024) =~= blocks);
    assert(w.data.skip(1024) =~= v.data.skip(1024));
    laws::lemma_serialized(w);
    assert(laws::reread(w).data.take(1024) =~= blocks);
}

} // verus!
