//! What checking a volume for internal inconsistencies reports.
//!
//! [`lines`] is the report itself, line by line; [`consistent`] says directly
//! what a volume without inconsistencies is. A report is empty if and only if
//! the volume is consistent.

use vstd::prelude::*;

use crate::blockmap;
use crate::dir::EntryView;
use crate::error;
use crate::macroman;
use crate::model;
use crate::model::VolumeView;
use crate::text;
use crate::volume::Fork;

verus! {

/// A check under way: the lines so far, and who was found to own each
/// allocation block.
#[verifier::ext_equal]
pub struct Findings {
    pub lines: Seq<Seq<char>>,
    pub owner: Seq<Option<Seq<char>>>,
}

/// The findings with one more line, if there is reason to.
pub open spec fn noted(c: Findings, reason: bool, line: Seq<char>) -> Findings {
    if reason {
        Findings { lines: c.lines.push(line), ..c }
    } else {
        c
    }
}

/// How an owner is referred to.
pub open spec fn owner_name(name: Seq<char>, label: Seq<char>) -> Seq<char> {
    name + " ("@ + label + " fork)"@
}

/// The findings once the first `k` blocks of a fork's chain were looked at: a
/// block without an owner is the fork's now, any other one is shared.
pub open spec fn claimed(
    name: Seq<char>,
    label: Seq<char>,
    chain: Seq<u16>,
    k: nat,
    c: Findings,
) -> Findings
    decreases k,
{
    if k == 0 {
        c
    } else {
        let p = claimed(name, label, chain, (k - 1) as nat, c);
        let b = chain[k - 1];
        match p.owner[b - 2] {
            Some(other) => noted(
                p,
                true,
                name + ": "@ + label + " fork shares allocation block "@ + text::decimal(b as nat)
                    + " with "@ + other,
            ),
            None => Findings {
                owner: p.owner.update(b - 2, Some(owner_name(name, label))),
                ..p
            },
        }
    }
}

/// The findings once a fork was looked at.
pub open spec fn fork_checked(v: VolumeView, e: EntryView, fork: Fork, c: Findings) -> Findings {
    let name = macroman::decoded(e.name);
    let label = model::fork_label(fork);
    let log = model::fork_len(e, fork) as nat;
    let alloc = model::fork_alloc(e, fork) as nat;
    if model::fork_start(e, fork) == 0 {
        noted(
            c,
            log != 0 || alloc != 0,
            name + ": "@ + label + " fork has no blocks but claims "@ + text::decimal(log)
                + " bytes ("@ + text::decimal(alloc) + " allocated)"@,
        )
    } else {
        let c1 = noted(
            c,
            log > alloc,
            name + ": "@ + label + " fork logical length "@ + text::decimal(log)
                + " exceeds its allocated length "@ + text::decimal(alloc),
        );
        match blockmap::chain_from(v.map, model::fork_start(e, fork)) {
            Err(f) => noted(
                c1,
                true,
                name + ": "@ + label + " fork chain is broken: "@ + error::message(f, ""@),
            ),
            Ok(chain) => {
                let held = chain.len() * (v.mdb.al_blk_siz as nat);
                let c2 = noted(
                    c1,
                    held != alloc,
                    name + ": "@ + label + " fork claims "@ + text::decimal(alloc)
                        + " allocated bytes but its chain of "@ + text::decimal(chain.len())
                        + " blocks holds "@ + text::decimal(held),
                );
                let c3 = noted(
                    c2,
                    log > held,
                    name + ": "@ + label + " fork logical length "@ + text::decimal(log)
                        + " exceeds the "@ + text::decimal(held)
                        + " bytes in its block chain"@,
                );
                claimed(name, label, chain, chain.len(), c3)
            },
        }
    }
}

/// The findings once an entry was looked at.
pub open spec fn entry_checked(v: VolumeView, e: EntryView, c: Findings) -> Findings {
    let c1 = noted(
        c,
        !e.in_use(),
        macroman::decoded(e.name)
            + ": directory entry is not marked in use and would hide every entry after it"@,
    );
    fork_checked(v, e, Fork::Resource, fork_checked(v, e, Fork::Data, c1))
}

/// The findings once the first `k` entries were looked at.
pub open spec fn entries_checked(v: VolumeView, k: nat, c: Findings) -> Findings
    decreases k,
{
    if k == 0 {
        c
    } else {
        entry_checked(v, v.entries[k - 1], entries_checked(v, (k - 1) as nat, c))
    }
}

/// Whether a map entry stands for a block that belongs to some file.
pub open spec fn taken(m: u16) -> bool {
    m != blockmap::FREE && m != blockmap::RESERVED
}

/// How many of the first `n` blocks are in use but have no owner.
pub open spec fn orphans(map: Seq<u16>, owner: Seq<Option<Seq<char>>>, n: nat) -> nat
    decreases n,
{
    if n == 0 {
        0
    } else {
        orphans(map, owner, (n - 1) as nat) + (if taken(map[n - 1]) && owner[n - 1] is None {
            1nat
        } else {
            0nat
        })
    }
}

/// The findings on the counters, before any entry was looked at.
pub open spec fn counters_checked(v: VolumeView) -> Findings {
    let c = Findings {
        lines: Seq::empty(),
        owner: Seq::new(v.map.len(), |i: int| None::<Seq<char>>),
    };
    let free = blockmap::count_free(v.map);
    let c1 = noted(
        c,
        v.mdb.nm_fls != v.entries.len(),
        "drNmFls says "@ + text::decimal(v.mdb.nm_fls as nat) + " files, the directory holds "@
            + text::decimal(v.entries.len()),
    );
    noted(
        c1,
        v.mdb.free_bks != free,
        "drFreeBks says "@ + text::decimal(v.mdb.free_bks as nat)
            + " free blocks, the allocation map has "@ + text::decimal(free),
    )
}

/// The report on a volume.
pub open spec fn lines(v: VolumeView) -> Seq<Seq<char>> {
    let c = entries_checked(v, v.entries.len(), counters_checked(v));
    let n = orphans(v.map, c.owner, v.map.len());
    noted(
        c,
        n > 0,
        text::decimal(n) + " allocation blocks are marked in use but belong to no file"@,
    ).lines
}

// ------------------------------------------------------------------ consistency

/// The forks of all entries, one behind the other: the data fork of an entry,
/// then its resource fork.
pub open spec fn fork_of(k: int) -> Fork {
    if k % 2 == 0 {
        Fork::Data
    } else {
        Fork::Resource
    }
}

/// The number of the data fork of entry `i`.
pub open spec fn data_fork(i: nat) -> int {
    2 * i as int
}

/// The number of the resource fork of entry `i`.
pub open spec fn rsrc_fork(i: nat) -> int {
    2 * i as int + 1
}

/// How many forks there are.
pub open spec fn fork_count(v: VolumeView) -> int {
    2 * v.entries.len() as int
}

/// The entry that fork `k` belongs to.
pub open spec fn entry_of(v: VolumeView, k: int) -> EntryView {
    v.entries[k / 2]
}

/// The blocks of fork `k`, none if its chain is broken.
pub open spec fn blocks_of(v: VolumeView, k: int) -> Seq<u16> {
    match model::fork_chain(v, model::fork_start(entry_of(v, k), fork_of(k))) {
        Ok(chain) => chain,
        Err(_) => Seq::empty(),
    }
}

/// Whether fork `k` has an intact chain, its allocated length is what the chain
/// holds, and its logical length is not more.
pub open spec fn intact(v: VolumeView, k: int) -> bool {
    let e = entry_of(v, k);
    let log = model::fork_len(e, fork_of(k));
    let alloc = model::fork_alloc(e, fork_of(k));
    let chain = model::fork_chain(v, model::fork_start(e, fork_of(k)));
    &&& chain is Ok
    &&& alloc == chain->Ok_0.len() * (v.mdb.al_blk_siz as nat)
    &&& log <= alloc
}

/// Whether fork `k` is intact and its entry in use.
pub open spec fn sound(v: VolumeView, k: int) -> bool {
    entry_of(v, k).in_use() && intact(v, k)
}

/// Whether each of the first `n` forks is sound and no two of them share a
/// block.
#[verifier::opaque]
pub open spec fn forks_sound(v: VolumeView, n: int) -> bool {
    &&& forall|k: int| 0 <= k < n ==> #[trigger] sound(v, k)
    &&& forall|j: int, k: int|
        0 <= j < k < n ==> blockmap::disjoint(
            #[trigger] blocks_of(v, j),
            #[trigger] blocks_of(v, k),
        )
}

/// Whether block `b` belongs to one of the first `n` forks.
pub open spec fn owned(v: VolumeView, n: int, b: u16) -> bool {
    exists|k: int| 0 <= k < n && #[trigger] blocks_of(v, k).contains(b)
}

/// Whether every block in use belongs to a fork.
#[verifier::opaque]
pub open spec fn all_owned(v: VolumeView) -> bool {
    forall|b: u16|
        #[trigger] blockmap::has_block(v.map, b) && taken(blockmap::entry(v.map, b)) ==> owned(
            v,
            fork_count(v),
            b,
        )
}

/// What a volume without inconsistencies is: its counters are right, all its
/// forks are sound, no block belongs to two of them, and every block in use to
/// one.
pub open spec fn consistent(v: VolumeView) -> bool {
    &&& v.mdb.nm_fls == v.entries.len()
    &&& v.mdb.free_bks == blockmap::count_free(v.map)
    &&& forks_sound(v, fork_count(v))
    &&& all_owned(v)
}

/// What claiming the blocks of a chain adds to the findings.
proof fn lemma_claimed(name: Seq<char>, label: Seq<char>, chain: Seq<u16>, k: nat, c: Findings)
    requires
        k <= chain.len(),
        chain.no_duplicates(),
        c.owner.len() < 65535,
        forall|i: int| 0 <= i < chain.len() ==> 2 <= #[trigger] chain[i] < 2 + c.owner.len(),
    ensures
        ({
            let r = claimed(name, label, chain, k, c);
            &&& r.owner.len() == c.owner.len()
            &&& r.lines.len() >= c.lines.len()
            &&& r.lines.len() == c.lines.len() <==> forall|i: int|
                0 <= i < k ==> c.owner[#[trigger] chain[i] - 2] is None
            &&& forall|b: u16|
                2 <= b < 2 + c.owner.len() ==> (#[trigger] r.owner[b - 2] is Some <==> (c.owner[b - 2]
                    is Some || chain.take(k as int).contains(b)))
        }),
    decreases k,
{
    if k > 0 {
        lemma_claimed(name, label, chain, (k - 1) as nat, c);
        let p = claimed(name, label, chain, (k - 1) as nat, c);
        let r = claimed(name, label, chain, k, c);
        let b = chain[k - 1];
        let before = chain.take(k - 1);
        let now = chain.take(k as int);
        assert(!before.contains(b)) by {
            if before.contains(b) {
                let i = choose|i: int| 0 <= i < before.len() && before[i] == b;
                assert(chain[i] == chain[k - 1]);
            }
        }
        assert(p.owner[b - 2] is Some <==> c.owner[b - 2] is Some);
        assert(now[k - 1] == b);
        assert forall|d: u16| 2 <= d < 2 + c.owner.len() implies (#[trigger] r.owner[d - 2] is Some
            <==> (c.owner[d - 2] is Some || now.contains(d))) by {
            assert(p.owner[d - 2] is Some <==> (c.owner[d - 2] is Some || before.contains(d)));
            assert(now.contains(d) <==> before.contains(d) || d == b) by {
                assert(now =~= before.push(b));
                if before.contains(d) {
                    let i = choose|i: int| 0 <= i < before.len() && before[i] == d;
                    assert(now[i] == d);
                }
                if now.contains(d) && d != b {
                    let i = choose|i: int| 0 <= i < now.len() && now[i] == d;
                    assert(before[i] == d);
                }
            }
        }
    } else {
        assert forall|d: u16| 2 <= d < 2 + c.owner.len() implies !chain.take(0).contains(d) by {}
    }
}

/// What looking at fork `k` adds to the findings.
#[verifier::rlimit(30)]
proof fn lemma_fork_checked(v: VolumeView, k: int, c: Findings)
    requires
        v.map.len() < 65535,
        c.owner.len() == v.map.len(),
    ensures
        ({
            let r = fork_checked(v, entry_of(v, k), fork_of(k), c);
            let blocks = blocks_of(v, k);
            &&& r.owner.len() == c.owner.len()
            &&& r.lines.len() >= c.lines.len()
            &&& forall|i: int|
                0 <= i < blocks.len() ==> blockmap::has_block(v.map, #[trigger] blocks[i])
            &&& r.lines.len() == c.lines.len() <==> (intact(v, k) && forall|i: int|
                0 <= i < blocks.len() ==> c.owner[#[trigger] blocks[i] - 2] is None)
            &&& r.lines.len() == c.lines.len() ==> forall|b: u16|
                2 <= b < 2 + c.owner.len() ==> (#[trigger] r.owner[b - 2] is Some <==> (c.owner[b - 2]
                    is Some || blocks.contains(b)))
        }),
{
    let e = entry_of(v, k);
    let fork = fork_of(k);
    let start = model::fork_start(e, fork);
    let size = v.mdb.al_blk_siz as nat;
    let blocks = blocks_of(v, k);
    if start == 0 {
        assert(blocks.len() * size == 0) by (nonlinear_arith)
            requires
                blocks.len() == 0,
        ;
    } else if let Ok(chain) = blockmap::chain_from(v.map, start) {
        blockmap::lemma_chain_found(v.map, start, chain);
        blockmap::lemma_chain_distinct(v.map, start, chain);
        assert(chain.take(chain.len() as int) =~= chain);
        let name = macroman::decoded(e.name);
        let label = model::fork_label(fork);
        let log = model::fork_len(e, fork) as nat;
        let alloc = model::fork_alloc(e, fork) as nat;
        let held = chain.len() * size;
        let c1 = noted(
            c,
            log > alloc,
            name + ": "@ + label + " fork logical length "@ + text::decimal(log)
                + " exceeds its allocated length "@ + text::decimal(alloc),
        );
        let c2 = noted(
            c1,
            held != alloc,
            name + ": "@ + label + " fork claims "@ + text::decimal(alloc)
                + " allocated bytes but its chain of "@ + text::decimal(chain.len())
                + " blocks holds "@ + text::decimal(held),
        );
        let c3 = noted(
            c2,
            log > held,
            name + ": "@ + label + " fork logical length "@ + text::decimal(log) + " exceeds the "@
                + text::decimal(held) + " bytes in its block chain"@,
        );
        assert forall|i: int| 0 <= i < chain.len() implies 2 <= #[trigger] chain[i] < 2
            + c3.owner.len() by {
            assert(blockmap::has_block(v.map, chain[i]));
        }
        lemma_claimed(name, label, chain, chain.len(), c3);
        assert(fork_checked(v, e, fork, c) == claimed(name, label, chain, chain.len(), c3));
    }
}

/// What the findings say once the first `k` forks were looked at, `base` being
/// the number of lines before.
spec fn told(v: VolumeView, k: int, base: nat, c: Findings) -> bool {
    &&& c.owner.len() == v.map.len()
    &&& c.lines.len() >= base
    &&& c.lines.len() == base <==> forks_sound(v, k)
    &&& c.lines.len() == base ==> forall|b: u16|
        2 <= b < 2 + v.map.len() ==> (#[trigger] c.owner[b - 2] is Some <==> owned(v, k, b))
}

/// Looking at one fork more.
#[verifier::rlimit(30)]
proof fn lemma_told(v: VolumeView, k: int, base: nat, c: Findings)
    requires
        v.map.len() < 65535,
        0 <= k,
        told(v, k, base, c),
        entry_of(v, k).in_use(),
    ensures
        told(v, k + 1, base, fork_checked(v, entry_of(v, k), fork_of(k), c)),
{
    reveal(forks_sound);
    let r = fork_checked(v, entry_of(v, k), fork_of(k), c);
    let blocks = blocks_of(v, k);
    lemma_fork_checked(v, k, c);
    if c.lines.len() == base {
        let fresh = forall|i: int|
            0 <= i < blocks.len() ==> c.owner[#[trigger] blocks[i] - 2] is None;
        assert(fresh <==> forall|j: int|
            0 <= j < k ==> blockmap::disjoint(#[trigger] blocks_of(v, j), blocks)) by {
            if fresh {
                assert forall|j: int| 0 <= j < k implies blockmap::disjoint(
                    #[trigger] blocks_of(v, j),
                    blocks,
                ) by {
                    assert forall|x: int, y: int|
                        0 <= x < blocks_of(v, j).len() && 0 <= y < blocks.len() implies
                        #[trigger] blocks_of(v, j)[x] != #[trigger] blocks[y] by {
                        let b = blocks[y];
                        assert(c.owner[b - 2] is None);
                        assert(blockmap::has_block(v.map, b));
                        assert(!owned(v, k, b));
                        assert(!blocks_of(v, j).contains(b));
                    }
                }
            } else {
                let i = choose|i: int|
                    0 <= i < blocks.len() && c.owner[#[trigger] blocks[i] - 2] is Some;
                let b = blocks[i];
                assert(blockmap::has_block(v.map, b));
                assert(owned(v, k, b));
                let j = choose|j: int| 0 <= j < k && #[trigger] blocks_of(v, j).contains(b);
                let x = choose|x: int| 0 <= x < blocks_of(v, j).len() && blocks_of(v, j)[x] == b;
                assert(blocks_of(v, j)[x] == blocks[i]);
                assert(!blockmap::disjoint(blocks_of(v, j), blocks));
            }
        }
        assert(forks_sound(v, k + 1) <==> sound(v, k) && fresh);
        if r.lines.len() == base {
            assert forall|b: u16| 2 <= b < 2 + v.map.len() implies (#[trigger] r.owner[b - 2] is Some
                <==> owned(v, k + 1, b)) by {
                assert(c.owner[b - 2] is Some <==> owned(v, k, b));
                if owned(v, k, b) {
                    let j = choose|j: int| 0 <= j < k && #[trigger] blocks_of(v, j).contains(b);
                    assert(0 <= j < k + 1 && blocks_of(v, j).contains(b));
                }
                if blocks.contains(b) {
                    assert(0 <= k < k + 1 && blocks_of(v, k).contains(b));
                }
            }
        }
    } else {
        assert(!forks_sound(v, k));
        assert(!forks_sound(v, k + 1)) by {
            if forks_sound(v, k + 1) {
                assert(forks_sound(v, k));
            }
        }
    }
}

/// Looking at the first `k` entries.
proof fn lemma_entries_told(v: VolumeView, k: nat, c: Findings)
    requires
        v.map.len() < 65535,
        k <= v.entries.len(),
        told(v, 0, c.lines.len(), c),
    ensures
        told(v, 2 * k as int, c.lines.len(), entries_checked(v, k, c)),
    decreases k,
{
    reveal(forks_sound);
    if k > 0 {
        lemma_entries_told(v, (k - 1) as nat, c);
        let p = entries_checked(v, (k - 1) as nat, c);
        let e = v.entries[k - 1];
        let j = 2 * (k - 1);
        assert(entry_of(v, j) == e && entry_of(v, j + 1) == e);
        assert(fork_of(j) == Fork::Data && fork_of(j + 1) == Fork::Resource);
        if e.in_use() {
            lemma_told(v, j, c.lines.len(), p);
            lemma_told(v, j + 1, c.lines.len(), fork_checked(v, e, Fork::Data, p));
        } else {
            let c1 = noted(
                p,
                !e.in_use(),
                macroman::decoded(e.name)
                    + ": directory entry is not marked in use and would hide every entry after it"@,
            );
            assert(c1.lines.len() > c.lines.len());
            lemma_fork_checked(v, j, c1);
            lemma_fork_checked(v, j + 1, fork_checked(v, e, Fork::Data, c1));
            assert(!sound(v, j));
        }
    }
}

/// There are no orphans where every block in use has an owner.
proof fn lemma_orphans(map: Seq<u16>, owner: Seq<Option<Seq<char>>>, n: nat)
    requires
        n <= map.len(),
    ensures
        orphans(map, owner, n) == 0 <==> forall|i: int|
            0 <= i < n && taken(#[trigger] map[i]) ==> owner[i] is Some,
    decreases n,
{
    if n > 0 {
        lemma_orphans(map, owner, (n - 1) as nat);
    }
}

/// The report on a volume is empty if and only if the volume is consistent.
pub proof fn lemma_report_empty(v: VolumeView)
    requires
        v.map.len() < 65535,
    ensures
        lines(v).len() == 0 <==> consistent(v),
{
    reveal(forks_sound);
    reveal(all_owned);
    let base = counters_checked(v);
    let n = v.entries.len();
    let c = entries_checked(v, n, base);
    assert(told(v, 0, base.lines.len(), base));
    lemma_entries_told(v, n, base);
    lemma_orphans(v.map, c.owner, v.map.len());
    assert(base.lines.len() == 0 <==> v.mdb.nm_fls == n && v.mdb.free_bks == blockmap::count_free(
        v.map,
    ));
    if base.lines.len() == 0 && c.lines.len() == 0 {
        if forall|i: int|
            0 <= i < v.map.len() && taken(#[trigger] v.map[i]) ==> c.owner[i] is Some {
            assert forall|b: u16|
                #[trigger] blockmap::has_block(v.map, b) && taken(
                    blockmap::entry(v.map, b),
                ) implies owned(v, fork_count(v), b) by {
                assert(taken(v.map[b - 2]));
                assert(c.owner[b - 2] is Some);
            }
        } else {
            let i = choose|i: int|
                0 <= i < v.map.len() && taken(#[trigger] v.map[i]) && !(c.owner[i] is Some);
            let b = (i + 2) as u16;
            assert(c.owner[b - 2] is None);
            assert(blockmap::has_block(v.map, b) && taken(blockmap::entry(v.map, b)));
            assert(!owned(v, fork_count(v), b));
        }
    }
}

/// Every fork of a consistent volume is sound.
pub proof fn lemma_sound(v: VolumeView, k: int)
    requires
        consistent(v),
        0 <= k < fork_count(v),
    ensures
        sound(v, k),
{
    reveal(forks_sound);
}

/// No two forks of a consistent volume share a block.
pub proof fn lemma_apart(v: VolumeView, j: int, k: int)
    requires
        consistent(v),
        0 <= j < fork_count(v),
        0 <= k < fork_count(v),
        j != k,
    ensures
        blockmap::disjoint(blocks_of(v, j), blocks_of(v, k)),
{
    reveal(forks_sound);
    if j < k {
        assert(blockmap::disjoint(blocks_of(v, j), blocks_of(v, k)));
    } else {
        assert(blockmap::disjoint(blocks_of(v, k), blocks_of(v, j)));
    }
}

/// A block in use of a consistent volume belongs to a fork.
pub proof fn lemma_owner(v: VolumeView, b: u16) -> (k: int)
    requires
        consistent(v),
        blockmap::has_block(v.map, b),
        taken(blockmap::entry(v.map, b)),
    ensures
        0 <= k < fork_count(v),
        blocks_of(v, k).contains(b),
{
    reveal(all_owned);
    assert(owned(v, fork_count(v), b));
    choose|k: int| 0 <= k < fork_count(v) && #[trigger] blocks_of(v, k).contains(b)
}

// ------------------------------------------------------------- what is reported

/// Whether a check that came to `c` has come to `d` since: no line was taken
/// back, and every block that had an owner has it still.
pub open spec fn goes_on(c: Findings, d: Findings) -> bool {
    &&& c.lines.is_prefix_of(d.lines)
    &&& d.owner.len() == c.owner.len()
    &&& forall|i: int|
        0 <= i < c.owner.len() && #[trigger] c.owner[i] is Some ==> d.owner[i] == c.owner[i]
}

/// What a check came to is kept as it goes on.
proof fn lemma_goes_on(a: Findings, b: Findings, c: Findings)
    requires
        goes_on(a, b),
        goes_on(b, c),
    ensures
        goes_on(a, c),
        forall|l: Seq<char>| #[trigger] b.lines.contains(l) ==> c.lines.contains(l),
{
    let n = a.lines.len() as int;
    let m = b.lines.len() as int;
    assert(c.lines.subrange(0, n) =~= a.lines) by {
        assert forall|i: int| 0 <= i < n implies c.lines.subrange(0, n)[i] == a.lines[i] by {
            assert(b.lines.subrange(0, n)[i] == a.lines[i]);
            assert(c.lines.subrange(0, m)[i] == b.lines[i]);
        }
    }
    assert forall|l: Seq<char>| #[trigger] b.lines.contains(l) implies c.lines.contains(l) by {
        let i = choose|i: int| 0 <= i < m && b.lines[i] == l;
        assert(c.lines.subrange(0, m)[i] == c.lines[i]);
    }
}

/// Noting a line keeps all others.
proof fn lemma_noted(c: Findings, reason: bool, line: Seq<char>)
    ensures
        goes_on(c, noted(c, reason, line)),
        reason ==> noted(c, reason, line).lines.contains(line),
        !reason ==> noted(c, reason, line) == c,
{
    let d = noted(c, reason, line);
    assert(d.lines.subrange(0, c.lines.len() as int) =~= c.lines);
    if reason {
        assert(d.lines[c.lines.len() as int] == line);
    }
}

/// The line about a block that two forks share.
pub open spec fn shared_line(name: Seq<char>, label: Seq<char>, b: u16, other: Seq<char>) -> Seq<
    char,
> {
    name + ": "@ + label + " fork shares allocation block "@ + text::decimal(b as nat) + " with "@
        + other
}

/// What claiming the blocks of a chain comes to: every one of them has an owner,
/// and for each that had one before there is a line.
proof fn lemma_claims(name: Seq<char>, label: Seq<char>, chain: Seq<u16>, k: nat, c: Findings)
    requires
        k <= chain.len(),
        forall|i: int| 0 <= i < chain.len() ==> 2 <= #[trigger] chain[i] < 2 + c.owner.len(),
    ensures
        ({
            let d = claimed(name, label, chain, k, c);
            &&& goes_on(c, d)
            &&& forall|i: int| 0 <= i < k ==> d.owner[#[trigger] chain[i] - 2] is Some
            &&& forall|i: int|
                0 <= i < k ==> (c.owner[#[trigger] chain[i] - 2] matches Some(other)
                    ==> d.lines.contains(shared_line(name, label, chain[i], other)))
            &&& forall|j: int|
                0 <= j < c.owner.len() && #[trigger] d.owner[j] is Some && c.owner[j] is None
                    ==> d.owner[j] == Some(owner_name(name, label)) && exists|i: int|
                    0 <= i < k && #[trigger] chain[i] == j + 2
        }),
    decreases k,
{
    if k == 0 {
        assert(c.lines.subrange(0, c.lines.len() as int) =~= c.lines);
    } else {
        let p = claimed(name, label, chain, (k - 1) as nat, c);
        let d = claimed(name, label, chain, k, c);
        let b = chain[k - 1];
        lemma_claims(name, label, chain, (k - 1) as nat, c);
        match p.owner[b - 2] {
            Some(other) => {
                lemma_noted(p, true, shared_line(name, label, b, other));
            },
            None => {
                assert(d.lines.subrange(0, p.lines.len() as int) =~= p.lines);
                assert(goes_on(p, d));
            },
        }
        lemma_goes_on(c, p, d);
        assert forall|i: int| 0 <= i < k implies d.owner[#[trigger] chain[i] - 2] is Some by {
            if i < k - 1 {
                assert(p.owner[chain[i] - 2] is Some);
            }
        }
        assert forall|i: int| 0 <= i < k implies (c.owner[#[trigger] chain[i] - 2] matches Some(
            other,
        ) ==> d.lines.contains(shared_line(name, label, chain[i], other))) by {
            if i == k - 1 && c.owner[chain[i] - 2] is Some {
                assert(p.owner[b - 2] == c.owner[b - 2]);
            }
        }
        assert forall|j: int|
            0 <= j < c.owner.len() && #[trigger] d.owner[j] is Some && c.owner[j] is None implies
            d.owner[j] == Some(owner_name(name, label)) && exists|i: int|
            0 <= i < k && #[trigger] chain[i] == j + 2 by {
            if p.owner[j] is Some {
                let i = choose|i: int| 0 <= i < k - 1 && #[trigger] chain[i] == j + 2;
                assert(chain[i] == j + 2);
            } else {
                assert(chain[k - 1] == j + 2);
            }
        }
    }
}

/// What is wrong with a fork is noted: one that has no blocks and claims to, one
/// whose chain is broken, one whose lengths do not go with each other or with its
/// chain, and one with a block that another has.
#[verifier::rlimit(60)]
proof fn lemma_fork_noted(v: VolumeView, e: EntryView, fork: Fork, c: Findings)
    requires
        v.map.len() < 65535,
        c.owner.len() == v.map.len(),
    ensures
        ({
            let d = fork_checked(v, e, fork, c);
            let chain = model::fork_chain(v, model::fork_start(e, fork));
            &&& goes_on(c, d)
            &&& forall|l: Seq<char>| #[trigger] fork_problem(v, e, fork, l) ==> d.lines.contains(l)
            &&& chain matches Ok(s) ==> forall|i: int|
                0 <= i < s.len() ==> d.owner[#[trigger] s[i] - 2] is Some
            &&& chain matches Ok(s) ==> forall|i: int|
                0 <= i < s.len() ==> (c.owner[#[trigger] s[i] - 2] matches Some(other)
                    ==> d.lines.contains(
                    shared_line(macroman::decoded(e.name), model::fork_label(fork), s[i], other),
                ))
            &&& forall|j: int|
                0 <= j < c.owner.len() && #[trigger] d.owner[j] is Some && c.owner[j] is None
                    ==> d.owner[j] == Some(
                    owner_name(macroman::decoded(e.name), model::fork_label(fork)),
                ) && (chain matches Ok(s) && exists|i: int|
                    0 <= i < s.len() && #[trigger] s[i] == j + 2)
        }),
{
    let name = macroman::decoded(e.name);
    let label = model::fork_label(fork);
    let log = model::fork_len(e, fork) as nat;
    let alloc = model::fork_alloc(e, fork) as nat;
    let start = model::fork_start(e, fork);
    let d = fork_checked(v, e, fork, c);
    if start == 0 {
        lemma_noted(
            c,
            log != 0 || alloc != 0,
            name + ": "@ + label + " fork has no blocks but claims "@ + text::decimal(log)
                + " bytes ("@ + text::decimal(alloc) + " allocated)"@,
        );
    } else {
        let l1 = name + ": "@ + label + " fork logical length "@ + text::decimal(log)
            + " exceeds its allocated length "@ + text::decimal(alloc);
        let c1 = noted(c, log > alloc, l1);
        lemma_noted(c, log > alloc, l1);
        match blockmap::chain_from(v.map, start) {
            Err(f) => {
                let l2 = name + ": "@ + label + " fork chain is broken: "@ + error::message(f, ""@);
                lemma_noted(c1, true, l2);
                lemma_goes_on(c, c1, d);
            },
            Ok(chain) => {
                let held = chain.len() * (v.mdb.al_blk_siz as nat);
                let l2 = name + ": "@ + label + " fork claims "@ + text::decimal(alloc)
                    + " allocated bytes but its chain of "@ + text::decimal(chain.len())
                    + " blocks holds "@ + text::decimal(held);
                let c2 = noted(c1, held != alloc, l2);
                lemma_noted(c1, held != alloc, l2);
                let l3 = name + ": "@ + label + " fork logical length "@ + text::decimal(log)
                    + " exceeds the "@ + text::decimal(held) + " bytes in its block chain"@;
                let c3 = noted(c2, log > held, l3);
                lemma_noted(c2, log > held, l3);
                blockmap::lemma_chain_found(v.map, start, chain);
                assert forall|i: int| 0 <= i < chain.len() implies 2 <= #[trigger] chain[i] < 2
                    + c3.owner.len() by {
                    assert(blockmap::has_block(v.map, chain[i]));
                }
                lemma_claims(name, label, chain, chain.len(), c3);
                lemma_goes_on(c, c1, c2);
                lemma_goes_on(c, c2, c3);
                lemma_goes_on(c1, c2, c3);
                lemma_goes_on(c, c3, d);
                lemma_goes_on(c1, c3, d);
                lemma_goes_on(c2, c3, d);
                assert(c3.owner == c.owner);
            },
        }
    }
}

/// Whether `l` is what is to be said of a fork that is not as it should be.
pub open spec fn fork_problem(v: VolumeView, e: EntryView, fork: Fork, l: Seq<char>) -> bool {
    let about = macroman::decoded(e.name) + ": "@ + model::fork_label(fork);
    let log = model::fork_len(e, fork) as nat;
    let alloc = model::fork_alloc(e, fork) as nat;
    if model::fork_start(e, fork) == 0 {
        (log > 0 || alloc > 0) && l == about + " fork has no blocks but claims "@ + text::decimal(
            log,
        ) + " bytes ("@ + text::decimal(alloc) + " allocated)"@
    } else {
        ||| log > alloc && l == about + " fork logical length "@ + text::decimal(log)
            + " exceeds its allocated length "@ + text::decimal(alloc)
        ||| match blockmap::chain_from(v.map, model::fork_start(e, fork)) {
            Err(f) => l == about + " fork chain is broken: "@ + error::message(f, ""@),
            Ok(chain) => {
                let held = chain.len() * (v.mdb.al_blk_siz as nat);
                ||| held != alloc && l == about + " fork claims "@ + text::decimal(alloc)
                    + " allocated bytes but its chain of "@ + text::decimal(chain.len())
                    + " blocks holds "@ + text::decimal(held)
                ||| log > held && l == about + " fork logical length "@ + text::decimal(log)
                    + " exceeds the "@ + text::decimal(held) + " bytes in its block chain"@
            },
        }
    }
}

/// What a check has come to before fork `k` is looked at.
spec fn before_fork(v: VolumeView, k: int) -> Findings {
    let c = entries_checked(v, (k / 2) as nat, counters_checked(v));
    let e = entry_of(v, k);
    let c1 = noted(
        c,
        !e.in_use(),
        macroman::decoded(e.name)
            + ": directory entry is not marked in use and would hide every entry after it"@,
    );
    if k % 2 == 0 {
        c1
    } else {
        fork_checked(v, e, Fork::Data, c1)
    }
}

/// A check goes on from fork to fork.
#[verifier::rlimit(60)]
proof fn lemma_before_fork(v: VolumeView, j: int, k: int)
    requires
        v.map.len() < 65535,
        0 <= j <= k < fork_count(v),
    ensures
        before_fork(v, k).owner.len() == v.map.len(),
        goes_on(before_fork(v, j), before_fork(v, k)),
        j < k ==> goes_on(
            fork_checked(v, entry_of(v, j), fork_of(j), before_fork(v, j)),
            before_fork(v, k),
        ),
    decreases k,
{
    let e = entry_of(v, k);
    let unused = macroman::decoded(e.name)
        + ": directory entry is not marked in use and would hide every entry after it"@;
    if k > 0 {
        lemma_before_fork(v, if j < k {
            j
        } else {
            k - 1
        }, k - 1);
        let p = before_fork(v, k - 1);
        let q = fork_checked(v, entry_of(v, k - 1), fork_of(k - 1), p);
        let r = before_fork(v, k);
        lemma_fork_noted(v, entry_of(v, k - 1), fork_of(k - 1), p);
        if k % 2 == 0 {
            assert((k - 1) / 2 == k / 2 - 1 && (k - 1) % 2 == 1);
            assert(q == entries_checked(v, (k / 2) as nat, counters_checked(v)));
            lemma_noted(q, !e.in_use(), unused);
        } else {
            assert((k - 1) / 2 == k / 2 && (k - 1) % 2 == 0);
            assert(r == q);
            lemma_noted(q, false, unused);
        }
        assert(goes_on(q, r));
        if j < k - 1 {
            let t = fork_checked(v, entry_of(v, j), fork_of(j), before_fork(v, j));
            lemma_goes_on(t, p, q);
            lemma_goes_on(t, q, r);
            lemma_goes_on(before_fork(v, j), p, q);
            lemma_goes_on(before_fork(v, j), q, r);
        } else if j == k - 1 {
            lemma_goes_on(p, q, r);
        } else {
            lemma_noted(r, false, unused);
        }
    } else {
        lemma_noted(counters_checked(v), !e.in_use(), unused);
        lemma_noted(before_fork(v, 0), false, unused);
    }
}

/// All that was noted of a fork is in the report.
proof fn lemma_in_report(v: VolumeView, k: int)
    requires
        v.map.len() < 65535,
        0 <= k < fork_count(v),
    ensures
        forall|l: Seq<char>| #[trigger]
            fork_checked(v, entry_of(v, k), fork_of(k), before_fork(v, k)).lines.contains(l)
                ==> lines(v).contains(l),
        forall|l: Seq<char>| #[trigger] before_fork(v, k).lines.contains(l) ==> lines(v).contains(
            l,
        ),
        ({
            let c = entries_checked(v, v.entries.len(), counters_checked(v));
            &&& goes_on(fork_checked(v, entry_of(v, k), fork_of(k), before_fork(v, k)), c)
            &&& c.owner.len() == v.map.len()
        }),
{
    let n = fork_count(v);
    let q = fork_checked(v, entry_of(v, k), fork_of(k), before_fork(v, k));
    lemma_before_fork(v, k, n - 1);
    let p = before_fork(v, n - 1);
    let c = fork_checked(v, entry_of(v, n - 1), fork_of(n - 1), p);
    lemma_fork_noted(v, entry_of(v, n - 1), fork_of(n - 1), p);
    lemma_before_fork(v, k, k);
    lemma_fork_noted(v, entry_of(v, k), fork_of(k), before_fork(v, k));
    assert((n - 1) / 2 == v.entries.len() - 1 && (n - 1) % 2 == 1);
    assert(c == entries_checked(v, v.entries.len(), counters_checked(v)));
    let m = orphans(v.map, c.owner, v.map.len());
    let last = text::decimal(m)
        + " allocation blocks are marked in use but belong to no file"@;
    let d = noted(c, m > 0, last);
    lemma_noted(c, m > 0, last);
    if k < n - 1 {
        lemma_goes_on(q, p, c);
    } else {
        lemma_noted(c, false, last);
    }
    lemma_goes_on(q, c, d);
    lemma_goes_on(before_fork(v, k), q, c);
    lemma_goes_on(before_fork(v, k), c, d);
    lemma_goes_on(c, c, d);
    assert forall|l: Seq<char>| #[trigger] before_fork(v, k).lines.contains(l) implies lines(
        v,
    ).contains(l) by {
        let b = before_fork(v, k);
        let i = choose|i: int| 0 <= i < b.lines.len() && b.lines[i] == l;
        assert(d.lines.subrange(0, b.lines.len() as int)[i] == d.lines[i]);
    }
    assert forall|l: Seq<char>| #[trigger] q.lines.contains(l) implies lines(v).contains(l) by {
        let i = choose|i: int| 0 <= i < q.lines.len() && q.lines[i] == l;
        assert(d.lines.subrange(0, q.lines.len() as int)[i] == d.lines[i]);
    }
}

/// The report says of every fork what is wrong with it, under the name of its
/// file and the kind of fork, with the lengths and numbers of blocks in question.
pub proof fn lemma_problems_reported(v: VolumeView, i: nat, fork: Fork, l: Seq<char>)
    requires
        v.map.len() < 65535,
        i < v.entries.len(),
        fork_problem(v, v.entries[i as int], fork, l),
    ensures
        lines(v).contains(l),
{
    let k = match fork {
        Fork::Data => data_fork(i),
        Fork::Resource => rsrc_fork(i),
    };
    assert(entry_of(v, k) == v.entries[i as int] && fork_of(k) == fork);
    lemma_before_fork(v, k, k);
    lemma_fork_noted(v, v.entries[i as int], fork, before_fork(v, k));
    lemma_in_report(v, k);
}

/// The owner of a block is one of the forks before, by the name of its file and
/// the kind of fork.
proof fn lemma_owner_named(v: VolumeView, k: int, b: u16) -> (j: int)
    requires
        v.map.len() < 65535,
        0 <= k < fork_count(v),
        blockmap::has_block(v.map, b),
        before_fork(v, k).owner[b - 2] is Some,
    ensures
        0 <= j < k,
        blocks_of(v, j).contains(b),
        before_fork(v, k).owner[b - 2] == Some(
            owner_name(macroman::decoded(entry_of(v, j).name), model::fork_label(fork_of(j))),
        ),
    decreases k,
{
    if k == 0 {
        lemma_before_fork(v, 0, 0);
        assert(before_fork(v, 0).owner == counters_checked(v).owner);
        0
    } else {
        lemma_before_fork(v, k - 1, k);
        lemma_before_fork(v, k - 1, k - 1);
        let p = before_fork(v, k - 1);
        let q = fork_checked(v, entry_of(v, k - 1), fork_of(k - 1), p);
        lemma_fork_noted(v, entry_of(v, k - 1), fork_of(k - 1), p);
        let r = before_fork(v, k);
        assert(r.owner == q.owner) by {
            if k % 2 == 0 {
                assert((k - 1) / 2 == k / 2 - 1 && (k - 1) % 2 == 1);
                assert(q == entries_checked(v, (k / 2) as nat, counters_checked(v)));
            } else {
                assert((k - 1) / 2 == k / 2 && (k - 1) % 2 == 0);
            }
        }
        if p.owner[b - 2] is Some {
            lemma_owner_named(v, k - 1, b)
        } else {
            let s = blocks_of(v, k - 1);
            let i = choose|i: int| 0 <= i < s.len() && #[trigger] s[i] == (b - 2) + 2;
            assert(s[i] == b);
            k - 1
        }
    }
}

/// A block that two forks share is reported at the later one, with the name of a
/// fork before it that has the block too.
pub proof fn lemma_sharing_reported(v: VolumeView, j: int, k: int, b: u16) -> (first: int)
    requires
        v.map.len() < 65535,
        0 <= j < k < fork_count(v),
        blocks_of(v, j).contains(b),
        blocks_of(v, k).contains(b),
    ensures
        0 <= first < k,
        blocks_of(v, first).contains(b),
        lines(v).contains(
            shared_line(
                macroman::decoded(entry_of(v, k).name),
                model::fork_label(fork_of(k)),
                b,
                macroman::decoded(entry_of(v, first).name) + " ("@ + model::fork_label(
                    fork_of(first),
                ) + " fork)"@,
            ),
        ),
{
    lemma_before_fork(v, j, j);
    lemma_before_fork(v, j, k);
    let pj = before_fork(v, j);
    let qj = fork_checked(v, entry_of(v, j), fork_of(j), pj);
    lemma_fork_noted(v, entry_of(v, j), fork_of(j), pj);
    let sj = blocks_of(v, j);
    let x = choose|x: int| 0 <= x < sj.len() && sj[x] == b;
    assert(qj.owner[sj[x] - 2] is Some);
    let start = model::fork_start(entry_of(v, j), fork_of(j));
    assert(start != 0);
    blockmap::lemma_chain_found(v.map, start, sj);
    assert(blockmap::has_block(v.map, sj[x]));
    let pk = before_fork(v, k);
    assert(pk.owner[b - 2] == qj.owner[b - 2]);
    let first = lemma_owner_named(v, k, b);
    lemma_fork_noted(v, entry_of(v, k), fork_of(k), pk);
    let sk = blocks_of(v, k);
    let y = choose|y: int| 0 <= y < sk.len() && sk[y] == b;
    assert(pk.owner[sk[y] - 2] is Some);
    lemma_in_report(v, k);
    first
}

/// How many of the first `n` blocks are in use but belong to no fork.
pub open spec fn stray_blocks(v: VolumeView, n: nat) -> nat
    decreases n,
{
    if n == 0 {
        0
    } else {
        stray_blocks(v, (n - 1) as nat) + (if taken(v.map[n - 1]) && !owned(
            v,
            fork_count(v),
            (n + 1) as u16,
        ) {
            1nat
        } else {
            0nat
        })
    }
}

/// Who owns a block once all forks were looked at.
proof fn lemma_all_owners(v: VolumeView, b: u16)
    requires
        v.map.len() < 65535,
        blockmap::has_block(v.map, b),
    ensures
        ({
            let c = entries_checked(v, v.entries.len(), counters_checked(v));
            c.owner[b - 2] is Some <==> owned(v, fork_count(v), b)
        }),
{
    let c = entries_checked(v, v.entries.len(), counters_checked(v));
    let n = fork_count(v);
    if owned(v, n, b) {
        let j = choose|j: int| 0 <= j < n && #[trigger] blocks_of(v, j).contains(b);
        lemma_before_fork(v, j, j);
        lemma_fork_noted(v, entry_of(v, j), fork_of(j), before_fork(v, j));
        lemma_in_report(v, j);
        let s = blocks_of(v, j);
        let x = choose|x: int| 0 <= x < s.len() && s[x] == b;
        let q = fork_checked(v, entry_of(v, j), fork_of(j), before_fork(v, j));
        assert(q.owner[s[x] - 2] is Some);
        assert(q.owner[b - 2] is Some);
    }
    if c.owner[b - 2] is Some {
        if n > 0 {
            lemma_before_fork(v, n - 1, n - 1);
            let p = before_fork(v, n - 1);
            lemma_fork_noted(v, entry_of(v, n - 1), fork_of(n - 1), p);
            assert((n - 1) / 2 == v.entries.len() - 1 && (n - 1) % 2 == 1);
            assert(c == fork_checked(v, entry_of(v, n - 1), fork_of(n - 1), p));
            if p.owner[b - 2] is Some {
                let j = lemma_owner_named(v, n - 1, b);
                assert(blocks_of(v, j).contains(b));
            } else {
                let s = blocks_of(v, n - 1);
                let i = choose|i: int| 0 <= i < s.len() && #[trigger] s[i] == (b - 2) + 2;
                assert(blocks_of(v, n - 1).contains(b)) by {
                    assert(s[i] == b);
                }
            }
        } else {
            assert(c == counters_checked(v));
        }
    }
}

/// The blocks without an owner are those that belong to no fork.
proof fn lemma_stray_blocks(v: VolumeView, n: nat)
    requires
        v.map.len() < 65535,
        n <= v.map.len(),
    ensures
        orphans(
            v.map,
            entries_checked(v, v.entries.len(), counters_checked(v)).owner,
            n,
        ) == stray_blocks(v, n),
    decreases n,
{
    if n > 0 {
        lemma_stray_blocks(v, (n - 1) as nat);
        lemma_all_owners(v, (n + 1) as u16);
    }
}

/// Blocks that are in use but belong to no fork are reported by their number,
/// behind everything else; where there are none, nothing is.
pub proof fn lemma_strays_reported(v: VolumeView)
    requires
        v.map.len() < 65535,
    ensures
        ({
            let n = stray_blocks(v, v.map.len());
            n > 0 ==> lines(v).len() > 0 && lines(v).last() == text::decimal(n)
                + " allocation blocks are marked in use but belong to no file"@
        }),
{
    lemma_stray_blocks(v, v.map.len());
}

/// Counters that are not right are reported before everything else, each with what
/// it says and what is there.
pub proof fn lemma_counters_reported(v: VolumeView)
    requires
        v.map.len() < 65535,
    ensures
        ({
            let files = "drNmFls says "@ + text::decimal(v.mdb.nm_fls as nat)
                + " files, the directory holds "@ + text::decimal(v.entries.len());
            let free = "drFreeBks says "@ + text::decimal(v.mdb.free_bks as nat)
                + " free blocks, the allocation map has "@ + text::decimal(
                blockmap::count_free(v.map),
            );
            let wrong_files = v.mdb.nm_fls != v.entries.len();
            let wrong_free = v.mdb.free_bks != blockmap::count_free(v.map);
            &&& wrong_files ==> lines(v).len() > 0 && lines(v)[0] == files
            &&& wrong_files && wrong_free ==> lines(v).len() > 1 && lines(v)[1] == free
            &&& !wrong_files && wrong_free ==> lines(v).len() > 0 && lines(v)[0] == free
        }),
{
    let c = counters_checked(v);
    if v.entries.len() > 0 {
        lemma_before_fork(v, 0, 0);
        lemma_in_report(v, 0);
        let e = entry_of(v, 0);
        let unused = macroman::decoded(e.name)
            + ": directory entry is not marked in use and would hide every entry after it"@;
        lemma_noted(c, !e.in_use(), unused);
        let b = before_fork(v, 0);
        let q = fork_checked(v, e, fork_of(0), b);
        lemma_fork_noted(v, e, fork_of(0), b);
        let d = entries_checked(v, v.entries.len(), c);
        lemma_goes_on(c, b, q);
        lemma_goes_on(c, q, d);
        assert(goes_on(c, d));
        let n = c.lines.len() as int;
        assert(d.lines.subrange(0, n) == c.lines);
        assert(n > 0 ==> d.lines[0] == d.lines.subrange(0, n)[0]);
        assert(n > 1 ==> d.lines[1] == d.lines.subrange(0, n)[1]);
    }
}

// ------------------------------------------------------------ and nothing more

/// Whether there is reason for a line of the report: a counter that is wrong, an
/// entry that is not in use, a problem of a fork, a block of a fork that one
/// before it has too, or blocks in use that belong to no fork.
pub open spec fn justified(v: VolumeView, l: Seq<char>) -> bool {
    let strays = stray_blocks(v, v.map.len());
    ||| v.mdb.nm_fls != v.entries.len() && l == "drNmFls says "@ + text::decimal(
        v.mdb.nm_fls as nat,
    ) + " files, the directory holds "@ + text::decimal(v.entries.len())
    ||| v.mdb.free_bks != blockmap::count_free(v.map) && l == "drFreeBks says "@ + text::decimal(
        v.mdb.free_bks as nat,
    ) + " free blocks, the allocation map has "@ + text::decimal(blockmap::count_free(v.map))
    ||| exists|k: int| 0 <= k < fork_count(v) && #[trigger] unused_line(v, k, l)
    ||| exists|k: int|
        0 <= k < fork_count(v) && #[trigger] fork_problem(v, entry_of(v, k), fork_of(k), l)
    ||| exists|j: int, k: int, b: u16|
        0 <= j < k < fork_count(v) && #[trigger] sharing_line(v, j, k, b, l)
    ||| strays > 0 && l == text::decimal(strays)
        + " allocation blocks are marked in use but belong to no file"@
}

/// Whether `l` says that the entry of fork `k`, which is not in use, is not.
pub open spec fn unused_line(v: VolumeView, k: int, l: Seq<char>) -> bool {
    let e = entry_of(v, k);
    e.flags < 128 && l == macroman::decoded(e.name)
        + ": directory entry is not marked in use and would hide every entry after it"@
}

/// Whether `l` says that fork `k` has block `b`, which fork `j` has too.
pub open spec fn sharing_line(v: VolumeView, j: int, k: int, b: u16, l: Seq<char>) -> bool {
    &&& blocks_of(v, j).contains(b)
    &&& blocks_of(v, k).contains(b)
    &&& l == shared_line(
        macroman::decoded(entry_of(v, k).name),
        model::fork_label(fork_of(k)),
        b,
        macroman::decoded(entry_of(v, j).name) + " ("@ + model::fork_label(fork_of(j)) + " fork)"@,
    )
}

/// Noting a line adds no other.
proof fn lemma_noted_only(c: Findings, reason: bool, line: Seq<char>, l: Seq<char>)
    requires
        noted(c, reason, line).lines.contains(l),
    ensures
        c.lines.contains(l) || reason && l == line,
{
    let d = noted(c, reason, line).lines;
    let i = choose|i: int| 0 <= i < d.len() && d[i] == l;
    if i < c.lines.len() {
        assert(c.lines[i] == l);
    }
}

/// Claiming the blocks of a chain adds a line for each that had an owner before,
/// and no other.
proof fn lemma_claims_only(
    name: Seq<char>,
    label: Seq<char>,
    chain: Seq<u16>,
    k: nat,
    c: Findings,
    l: Seq<char>,
)
    requires
        k <= chain.len(),
        chain.no_duplicates(),
        forall|i: int| 0 <= i < chain.len() ==> 2 <= #[trigger] chain[i] < 2 + c.owner.len(),
        claimed(name, label, chain, k, c).lines.contains(l),
    ensures
        c.lines.contains(l) || exists|i: int|
            0 <= i < k && c.owner[#[trigger] chain[i] - 2] is Some && l == shared_line(
                name,
                label,
                chain[i],
                c.owner[chain[i] - 2]->0,
            ),
    decreases k,
{
    if k > 0 {
        let p = claimed(name, label, chain, (k - 1) as nat, c);
        let b = chain[k - 1];
        lemma_claims(name, label, chain, (k - 1) as nat, c);
        if let Some(other) = p.owner[b - 2] {
            lemma_noted_only(p, true, shared_line(name, label, b, other), l);
            if !p.lines.contains(l) {
                if c.owner[b - 2] is None {
                    let i = choose|i: int| 0 <= i < k - 1 && #[trigger] chain[i] == (b - 2) + 2;
                    assert(chain[i] == chain[k - 1]);
                }
                assert(c.owner[chain[k - 1] - 2] == Some(other));
            }
        }
        if p.lines.contains(l) {
            lemma_claims_only(name, label, chain, (k - 1) as nat, c, l);
        }
    }
}

/// Looking at a fork adds lines for its problems and for the blocks it shares, and
/// no others.
#[verifier::rlimit(60)]
proof fn lemma_fork_only(v: VolumeView, e: EntryView, fork: Fork, c: Findings, l: Seq<char>)
    requires
        v.map.len() < 65535,
        c.owner.len() == v.map.len(),
        fork_checked(v, e, fork, c).lines.contains(l),
    ensures
        ({
            ||| c.lines.contains(l)
            ||| fork_problem(v, e, fork, l)
            ||| model::fork_chain(v, model::fork_start(e, fork)) matches Ok(s) && exists|i: int|
                0 <= i < s.len() && c.owner[#[trigger] s[i] - 2] is Some && l == shared_line(
                    macroman::decoded(e.name),
                    model::fork_label(fork),
                    s[i],
                    c.owner[s[i] - 2]->0,
                )
        }),
{
    let name = macroman::decoded(e.name);
    let label = model::fork_label(fork);
    let log = model::fork_len(e, fork) as nat;
    let alloc = model::fork_alloc(e, fork) as nat;
    let start = model::fork_start(e, fork);
    if start == 0 {
        lemma_noted_only(
            c,
            log != 0 || alloc != 0,
            name + ": "@ + label + " fork has no blocks but claims "@ + text::decimal(log)
                + " bytes ("@ + text::decimal(alloc) + " allocated)"@,
            l,
        );
    } else {
        let l1 = name + ": "@ + label + " fork logical length "@ + text::decimal(log)
            + " exceeds its allocated length "@ + text::decimal(alloc);
        let c1 = noted(c, log > alloc, l1);
        match blockmap::chain_from(v.map, start) {
            Err(f) => {
                let l2 = name + ": "@ + label + " fork chain is broken: "@ + error::message(f, ""@);
                lemma_noted_only(c1, true, l2, l);
                if c1.lines.contains(l) {
                    lemma_noted_only(c, log > alloc, l1, l);
                }
            },
            Ok(chain) => {
                let held = chain.len() * (v.mdb.al_blk_siz as nat);
                let l2 = name + ": "@ + label + " fork claims "@ + text::decimal(alloc)
                    + " allocated bytes but its chain of "@ + text::decimal(chain.len())
                    + " blocks holds "@ + text::decimal(held);
                let c2 = noted(c1, held != alloc, l2);
                let l3 = name + ": "@ + label + " fork logical length "@ + text::decimal(log)
                    + " exceeds the "@ + text::decimal(held) + " bytes in its block chain"@;
                let c3 = noted(c2, log > held, l3);
                blockmap::lemma_chain_found(v.map, start, chain);
                blockmap::lemma_chain_distinct(v.map, start, chain);
                assert forall|i: int| 0 <= i < chain.len() implies 2 <= #[trigger] chain[i] < 2
                    + c3.owner.len() by {
                    assert(blockmap::has_block(v.map, chain[i]));
                }
                lemma_claims_only(name, label, chain, chain.len(), c3, l);
                if c3.lines.contains(l) {
                    lemma_noted_only(c2, log > held, l3, l);
                }
                if c2.lines.contains(l) {
                    lemma_noted_only(c1, held != alloc, l2, l);
                }
                if c1.lines.contains(l) {
                    lemma_noted_only(c, log > alloc, l1, l);
                }
            },
        }
    }
}

/// What was noted of a fork is justified if what was noted before it is.
proof fn lemma_fork_justified(v: VolumeView, k: int, l: Seq<char>)
    requires
        v.map.len() < 65535,
        0 <= k < fork_count(v),
        fork_checked(v, entry_of(v, k), fork_of(k), before_fork(v, k)).lines.contains(l),
    ensures
        before_fork(v, k).lines.contains(l) || justified(v, l),
{
    let c = before_fork(v, k);
    let e = entry_of(v, k);
    lemma_before_fork(v, k, k);
    lemma_fork_only(v, e, fork_of(k), c, l);
    if !c.lines.contains(l) && !fork_problem(v, e, fork_of(k), l) {
        let s = model::fork_chain(v, model::fork_start(e, fork_of(k)))->Ok_0;
        let i = choose|i: int|
            0 <= i < s.len() && c.owner[#[trigger] s[i] - 2] is Some && l == shared_line(
                macroman::decoded(e.name),
                model::fork_label(fork_of(k)),
                s[i],
                c.owner[s[i] - 2]->0,
            );
        let start = model::fork_start(e, fork_of(k));
        blockmap::lemma_chain_found(v.map, start, s);
        assert(blockmap::has_block(v.map, s[i]));
        let j = lemma_owner_named(v, k, s[i]);
        assert(blocks_of(v, k).contains(s[i]));
        assert(sharing_line(v, j, k, s[i], l));
    }
}

/// What was noted before a fork is justified.
proof fn lemma_before_justified(v: VolumeView, k: int, l: Seq<char>)
    requires
        v.map.len() < 65535,
        0 <= k < fork_count(v),
        before_fork(v, k).lines.contains(l),
    ensures
        justified(v, l),
    decreases k,
{
    let e = entry_of(v, k);
    let unused = macroman::decoded(e.name)
        + ": directory entry is not marked in use and would hide every entry after it"@;
    if k % 2 == 0 {
        let c = entries_checked(v, (k / 2) as nat, counters_checked(v));
        lemma_noted_only(c, !e.in_use(), unused, l);
        if !c.lines.contains(l) {
            assert(unused_line(v, k, l));
        } else if k == 0 {
            lemma_counters_justified(v, l);
        } else {
            assert((k - 1) / 2 == k / 2 - 1 && (k - 1) % 2 == 1);
            assert(c == fork_checked(v, entry_of(v, k - 1), fork_of(k - 1), before_fork(v, k - 1)));
            lemma_fork_justified(v, k - 1, l);
            if before_fork(v, k - 1).lines.contains(l) {
                lemma_before_justified(v, k - 1, l);
            }
        }
    } else {
        assert((k - 1) / 2 == k / 2 && (k - 1) % 2 == 0);
        assert(before_fork(v, k) == fork_checked(
            v,
            entry_of(v, k - 1),
            fork_of(k - 1),
            before_fork(v, k - 1),
        ));
        lemma_fork_justified(v, k - 1, l);
        if before_fork(v, k - 1).lines.contains(l) {
            lemma_before_justified(v, k - 1, l);
        }
    }
}

/// What was noted of the counters is justified.
proof fn lemma_counters_justified(v: VolumeView, l: Seq<char>)
    requires
        counters_checked(v).lines.contains(l),
    ensures
        justified(v, l),
{
    let c = Findings {
        lines: Seq::empty(),
        owner: Seq::new(v.map.len(), |i: int| None::<Seq<char>>),
    };
    let l1 = "drNmFls says "@ + text::decimal(v.mdb.nm_fls as nat)
        + " files, the directory holds "@ + text::decimal(v.entries.len());
    let c1 = noted(c, v.mdb.nm_fls != v.entries.len(), l1);
    let l2 = "drFreeBks says "@ + text::decimal(v.mdb.free_bks as nat)
        + " free blocks, the allocation map has "@ + text::decimal(blockmap::count_free(v.map));
    lemma_noted_only(c1, v.mdb.free_bks != blockmap::count_free(v.map), l2, l);
    if c1.lines.contains(l) {
        lemma_noted_only(c, v.mdb.nm_fls != v.entries.len(), l1, l);
    }
}

/// There is reason for every line of a report.
pub proof fn lemma_lines_justified(v: VolumeView, l: Seq<char>)
    requires
        v.map.len() < 65535,
        lines(v).contains(l),
    ensures
        justified(v, l),
{
    let n = fork_count(v);
    let c = entries_checked(v, v.entries.len(), counters_checked(v));
    let m = orphans(v.map, c.owner, v.map.len());
    lemma_stray_blocks(v, v.map.len());
    lemma_noted_only(
        c,
        m > 0,
        text::decimal(m) + " allocation blocks are marked in use but belong to no file"@,
        l,
    );
    if c.lines.contains(l) {
        if n == 0 {
            lemma_counters_justified(v, l);
        } else {
            assert((n - 1) / 2 == v.entries.len() - 1 && (n - 1) % 2 == 1);
            assert(c == fork_checked(v, entry_of(v, n - 1), fork_of(n - 1), before_fork(v, n - 1)));
            lemma_fork_justified(v, n - 1, l);
            if before_fork(v, n - 1).lines.contains(l) {
                lemma_before_justified(v, n - 1, l);
            }
        }
    }
}

/// An entry that is not in use is reported.
pub proof fn lemma_unused_reported(v: VolumeView, i: nat)
    requires
        v.map.len() < 65535,
        i < v.entries.len(),
        v.entries[i as int].flags < 128,
    ensures
        lines(v).contains(
            macroman::decoded(v.entries[i as int].name)
                + ": directory entry is not marked in use and would hide every entry after it"@,
        ),
{
    let k = data_fork(i);
    assert(entry_of(v, k) == v.entries[i as int] && k / 2 == i);
    lemma_noted(
        entries_checked(v, i, counters_checked(v)),
        true,
        macroman::decoded(v.entries[i as int].name)
            + ": directory entry is not marked in use and would hide every entry after it"@,
    );
    lemma_in_report(v, k);
}

} // verus!
