//! The Allocation Block Map (ABM): 12-bit entries, two packed into every three
//! bytes, stored immediately after the 64-byte MDB.
//!
//! Allocation block numbering starts at 2, so the entry for block `N` lives at
//! index `i = N - 2`. Within the packed bytes, entry `i` starts at byte offset
//! `o = (i / 2) * 3`:
//!
//! * even `i`: `(b[o] << 4) | (b[o + 1] >> 4)`
//! * odd `i`:  `((b[o + 1] & 0x0F) << 8) | b[o + 2]`
//!
//! Entry values: `0x000` free, `0x001` last block of a file, `0x002..=0xFEF`
//! the next block in the file's chain, `0xFFF` reserved (directory / system).

use vstd::prelude::*;
use vstd::string::*;

use crate::error;
use crate::error::{Fault, MfsError, Result};
use crate::text;
use crate::text::push_decimal;

verus! {

/// The block is not part of any file.
pub const FREE: u16 = 0x000;

/// The block is the last one in its file's chain.
pub const LAST: u16 = 0x001;

/// The block is reserved (directory or system use) and never part of a chain.
pub const RESERVED: u16 = 0xFFF;

/// The first valid allocation block number.
pub const FIRST_BLOCK: u16 = 2;

/// An unpacked allocation block map. `entries[0]` describes block 2.
#[derive(Debug, Clone, PartialEq, Eq)]
pub struct BlockMap {
    entries: Vec<u16>,
}

impl View for BlockMap {
    type V = Seq<u16>;

    closed spec fn view(&self) -> Seq<u16> {
        self.entries@
    }
}

// -------------------------------------------------------------- the packed form

/// Number of packed bytes that hold `n` 12-bit entries.
pub open spec fn packed_size(n: nat) -> nat {
    (n * 3 + 1) / 2
}

/// Entry `i` of a packed map.
pub open spec fn entry_at(raw: Seq<u8>, i: int) -> u16 {
    let o = (i / 2) * 3;
    if i % 2 == 0 {
        (raw[o] * 16 + raw[o + 1] / 16) as u16
    } else {
        ((raw[o + 1] % 16) * 256 + raw[o + 2]) as u16
    }
}

/// The first `n` entries of a packed map.
pub open spec fn unpacked(raw: Seq<u8>, n: nat) -> Seq<u16> {
    Seq::new(n, |i: int| entry_at(raw, i))
}

/// `out` with the nibbles that `map` owns overwritten by its packed form.
pub open spec fn packed(map: Seq<u16>, out: Seq<u8>) -> Seq<u8> {
    Seq::new(
        out.len(),
        |k: int|
            {
                let i = (k / 3) * 2;
                if k >= packed_size(map.len()) {
                    out[k]
                } else if k % 3 == 0 {
                    (map[i] % 4096 / 16) as u8
                } else if k % 3 == 1 {
                    let low = if i + 1 < map.len() {
                        (map[i + 1] % 4096 / 256) as int
                    } else {
                        (out[k] % 16) as int
                    };
                    ((map[i] % 16) * 16 + low) as u8
                } else {
                    (map[i + 1] % 256) as u8
                }
            },
    )
}

// ------------------------------------------------------------------ the entries

/// Whether every entry fits in 12 bits and the map in a 16-bit block count.
pub open spec fn well_formed(map: Seq<u16>) -> bool {
    &&& map.len() <= 65535
    &&& forall|i: int| 0 <= i < map.len() ==> #[trigger] map[i] <= 0xFFF
}

/// Whether `block` is a valid allocation block number for a map.
pub open spec fn has_block(map: Seq<u16>, block: u16) -> bool {
    2 <= block < 2 + map.len()
}

/// The map entry for allocation block `block`.
pub open spec fn entry(map: Seq<u16>, block: u16) -> u16 {
    map[block - 2]
}

/// Number of free entries.
pub open spec fn count_free(map: Seq<u16>) -> nat
    decreases map.len(),
{
    if map.len() == 0 {
        0
    } else {
        count_free(map.drop_last()) + (if map.last() == FREE {
            1nat
        } else {
            0nat
        })
    }
}

/// The numbers of the free blocks, in ascending order.
pub open spec fn free_blocks(map: Seq<u16>) -> Seq<u16>
    decreases map.len(),
{
    if map.len() == 0 {
        Seq::empty()
    } else if map.last() == FREE {
        free_blocks(map.drop_last()).push((map.len() + 1) as u16)
    } else {
        free_blocks(map.drop_last())
    }
}

// ------------------------------------------------------------------- the chains

/// Follows the links from `cur` on, in a walk that began at `start` and may
/// still visit `left` blocks.
pub open spec fn walk(map: Seq<u16>, start: u16, cur: u16, left: nat) -> core::result::Result<
    Seq<u16>,
    Fault,
>
    decreases left,
{
    if !has_block(map, cur) {
        Err(
            Fault::CorruptVolume(
                "block chain references block "@ + text::decimal(cur as nat) + ", outside 2.."@
                    + text::decimal(2 + map.len()),
            ),
        )
    } else if entry(map, cur) == FREE {
        Err(Fault::CorruptVolume("block chain enters free block "@ + text::decimal(cur as nat)))
    } else if entry(map, cur) == RESERVED {
        Err(Fault::CorruptVolume("block chain enters reserved block "@ + text::decimal(cur as nat)))
    } else if left == 0 {
        Err(
            Fault::CorruptVolume(
                "block chain starting at "@ + text::decimal(start as nat) + " exceeds "@
                    + text::decimal(map.len()) + " blocks (cycle)"@,
            ),
        )
    } else if entry(map, cur) == LAST {
        Ok(seq![cur])
    } else {
        behind(seq![cur], walk(map, start, entry(map, cur), (left - 1) as nat))
    }
}

/// The blocks of `head` followed by those of a walk, unless the walk failed.
pub open spec fn behind(
    head: Seq<u16>,
    rest: core::result::Result<Seq<u16>, Fault>,
) -> core::result::Result<Seq<u16>, Fault> {
    match rest {
        Ok(s) => Ok(head + s),
        Err(f) => Err(f),
    }
}

/// The chain of blocks that begins at `start`, or what is wrong with it.
pub open spec fn chain_from(map: Seq<u16>, start: u16) -> core::result::Result<Seq<u16>, Fault> {
    walk(map, start, start, map.len())
}

/// Whether `s` is a chain of `map`: each of its blocks is in use and points at
/// the next one, and the last one ends the chain.
pub open spec fn is_chain(map: Seq<u16>, start: u16, s: Seq<u16>) -> bool {
    &&& s.len() > 0
    &&& s[0] == start
    &&& forall|i: int|
        0 <= i < s.len() ==> has_block(map, #[trigger] s[i]) && entry(map, s[i]) != FREE && entry(
            map,
            s[i],
        ) != RESERVED
    &&& forall|i: int, j: int|
        0 <= i && j == i + 1 && j < s.len() ==> entry(map, #[trigger] s[i]) == #[trigger] s[j]
    &&& entry(map, s.last()) == LAST
}

/// What block `i` of a new chain points at.
pub open spec fn link(blocks: Seq<u16>, i: int) -> u16 {
    if i + 1 < blocks.len() {
        (blocks[i + 1] % 4096) as u16
    } else {
        LAST
    }
}

/// `map` with the first `k` of `blocks` linked to the one after them.
pub open spec fn linked_up_to(map: Seq<u16>, blocks: Seq<u16>, k: nat) -> Seq<u16>
    decreases k,
{
    if k == 0 {
        map
    } else {
        linked_up_to(map, blocks, (k - 1) as nat).update(
            blocks[k - 1] - 2,
            link(blocks, k - 1),
        )
    }
}

/// `map` with `blocks` linked into a single chain.
pub open spec fn linked(map: Seq<u16>, blocks: Seq<u16>) -> Seq<u16> {
    linked_up_to(map, blocks, blocks.len())
}

/// `map` with every one of `blocks` free.
pub open spec fn released(map: Seq<u16>, blocks: Seq<u16>) -> Seq<u16> {
    Seq::new(
        map.len(),
        |i: int|
            if i + 2 <= 65535 && blocks.contains((i + 2) as u16) {
                FREE
            } else {
                map[i]
            },
    )
}

/// Whether the first `n` free blocks all have a 16-bit number. Only the last
/// block of the largest possible map has none.
pub open spec fn numbered(map: Seq<u16>, n: nat) -> bool {
    map.len() == 65535 && map[65534] == FREE ==> n == 0 || n != count_free(map)
}

/// Number of packed bytes required to hold `n_blocks` 12-bit entries.
///
/// For an odd count the final entry only occupies two of its triplet's three
/// bytes, so this rounds up on nibbles rather than on whole triplets.
pub fn packed_len(n_blocks: u16) -> (n: usize)
    ensures
        n == packed_size(n_blocks as nat),
{
    (n_blocks as usize * 3 + 1) / 2
}

impl BlockMap {
    /// Whether the map is one that this module can have built.
    pub open spec fn wf(&self) -> bool {
        well_formed(self@)
    }

    /// Whether the map has a last entry without a 16-bit block number, and that
    /// entry is free.
    pub fn ends_free(&self) -> (b: bool)
        ensures
            b == (self@.len() == 65535 && self@[65534] == FREE),
    {
        self.entries.len() == 65535 && self.entries[65534] == FREE
    }

    /// Decode `n_blocks` 12-bit entries out of `raw`.
    ///
    /// `raw` may be longer than needed (the map is padded out to a sector
    /// boundary on disk); trailing bytes are ignored.
    pub fn unpack(raw: &[u8], n_blocks: u16) -> (r: Result<BlockMap>)
        ensures
            error::outcome(r) == unpack_outcome(raw@, n_blocks as nat),
            r matches Ok(m) ==> m.wf(),
    {
        let needed: usize = packed_len(n_blocks);
        if raw.len() < needed {
            let mut m = String::from_str("allocation block map is ");
            push_decimal(&mut m, raw.len() as u64);
            m.append(" bytes, need ");
            push_decimal(&mut m, needed as u64);
            m.append(" for ");
            push_decimal(&mut m, n_blocks as u64);
            m.append(" blocks");
            return Err(MfsError::CorruptVolume(m));
        }
        let mut entries: Vec<u16> = Vec::with_capacity(n_blocks as usize);
        let mut i: usize = 0;
        while i < n_blocks as usize
            invariant
                i <= n_blocks,
                needed == packed_size(n_blocks as nat),
                raw@.len() >= needed,
                entries@ == unpacked(raw@, i as nat),
            decreases n_blocks - i,
        {
            let o: usize = (i / 2) * 3;
            let v: u16 = if i % 2 == 0 {
                raw[o] as u16 * 16 + (raw[o + 1] / 16) as u16
            } else {
                (raw[o + 1] % 16) as u16 * 256 + raw[o + 2] as u16
            };
            entries.push(v);
            i += 1;
        }
        Ok(BlockMap { entries })
    }

    /// Encode the map into `out` — the exact inverse of [`BlockMap::unpack`].
    ///
    /// Only the nibbles this map owns are touched (read-modify-write), so an
    /// odd final entry never clobbers the low nibble of its last byte and
    /// vice versa.
    pub fn pack(&self, out: &mut [u8])
        requires
            self.wf(),
            old(out)@.len() >= packed_size(self@.len()),
        ensures
            final(out)@ == packed(self@, old(out)@),
    {
        let n: usize = self.entries.len();
        let mut i: usize = 0;
        assert(packed(self@.take(0), out@) =~= out@);
        while i < n
            invariant
                i <= n,
                n == self@.len(),
                self.wf(),
                old(out)@.len() >= packed_size(n as nat),
                out@ == packed(self@.take(i as int), old(out)@),
            decreases n - i,
        {
            let v: u16 = self.entries[i] % 4096;
            let o: usize = (i / 2) * 3;
            if i % 2 == 0 {
                out[o] = (v / 16) as u8;
                out[o + 1] = (v % 16) as u8 * 16 + out[o + 1] % 16;
            } else {
                out[o + 1] = out[o + 1] / 16 * 16 + (v / 256) as u8;
                out[o + 2] = (v % 256) as u8;
            }
            i += 1;
            proof {
                lemma_packed_step(self@, old(out)@, i - 1);
            }
        }
        assert(self@.take(n as int) == self@);
    }

    /// Build a map of `n_blocks` entries, all free.
    pub fn new_empty(n_blocks: u16) -> (m: BlockMap)
        ensures
            m@ == Seq::new(n_blocks as nat, |i: int| FREE),
            m.wf(),
    {
        let mut entries: Vec<u16> = Vec::with_capacity(n_blocks as usize);
        let mut i: u16 = 0;
        while i < n_blocks
            invariant
                i <= n_blocks,
                entries@ == Seq::new(i as nat, |i: int| FREE),
            decreases n_blocks - i,
        {
            entries.push(FREE);
            i += 1;
        }
        BlockMap { entries }
    }

    /// Number of allocation blocks described by this map.
    pub fn len(&self) -> (n: u16)
        requires
            self.wf(),
        ensures
            n == self@.len(),
    {
        self.entries.len() as u16
    }

    /// Whether `block` is a valid allocation block number for this map.
    pub fn in_range(&self, block: u16) -> (b: bool)
        requires
            self.wf(),
        ensures
            b == has_block(self@, block),
    {
        block >= FIRST_BLOCK && ((block - FIRST_BLOCK) as usize) < self.entries.len()
    }

    /// The map entry for allocation block `block`.
    pub fn get(&self, block: u16) -> (v: u16)
        requires
            has_block(self@, block),
        ensures
            v == entry(self@, block),
    {
        self.entries[(block - FIRST_BLOCK) as usize]
    }

    /// Set the map entry for allocation block `block` to the low 12 bits of `v`.
    pub fn set(&mut self, block: u16, v: u16)
        requires
            old(self).wf(),
            has_block(old(self)@, block),
        ensures
            final(self)@ == old(self)@.update(block - 2, (v % 4096) as u16),
            final(self).wf(),
    {
        self.entries[(block - FIRST_BLOCK) as usize] = v % 4096;
    }

    /// Number of free allocation blocks.
    pub fn free_count(&self) -> (n: u32)
        requires
            self.wf(),
        ensures
            n == count_free(self@),
            n <= self@.len(),
    {
        let len: usize = self.entries.len();
        let mut n: u32 = 0;
        let mut i: usize = 0;
        while i < len
            invariant
                i <= len,
                len == self@.len(),
                self.wf(),
                n == count_free(self@.take(i as int)),
                n <= i,
            decreases len - i,
        {
            assert(self@.take(i + 1).drop_last() == self@.take(i as int));
            if self.entries[i] == FREE {
                n += 1;
            }
            i += 1;
        }
        assert(self@.take(len as int) == self@);
        n
    }

    /// Follow the chain of blocks starting at `start`, in order, up to and
    /// including the block whose entry is [`LAST`].
    ///
    /// Fails with `CorruptVolume` on an out-of-range block number, a free or
    /// reserved entry inside the chain, or a chain longer than the map (a
    /// cycle).
    pub fn chain(&self, start: u16) -> (r: Result<Vec<u16>>)
        requires
            self.wf(),
        ensures
            error::outcome(r) == chain_from(self@, start),
            r matches Ok(s) ==> is_chain(self@, start, s@) && s@.len() <= self@.len(),
            r is Ok <==> exists|s: Seq<u16>| is_chain(self@, start, s),
    {
        let r = self.follow(start);
        proof {
            if exists|s: Seq<u16>| is_chain(self@, start, s) {
                let s = choose|s: Seq<u16>| is_chain(self@, start, s);
                lemma_chain_unique(self@, start, s);
            }
            if r is Ok {
                lemma_chain_found(self@, start, r->Ok_0@);
            }
        }
        r
    }

    /// The walk behind [`chain`](Self::chain).
    fn follow(&self, start: u16) -> (r: Result<Vec<u16>>)
        requires
            self.wf(),
        ensures
            error::outcome(r) == chain_from(self@, start),
    {
        let limit: usize = self.entries.len();
        let mut out: Vec<u16> = Vec::new();
        let mut cur: u16 = start;
        assert(behind(out@, walk(self@, start, cur, limit as nat)) == chain_from(self@, start)) by {
            if let Ok(s) = chain_from(self@, start) {
                assert(Seq::<u16>::empty() + s =~= s);
            }
        }
        loop
            invariant
                self.wf(),
                limit == self@.len(),
                out@.len() <= limit,
                chain_from(self@, start) == behind(
                    out@,
                    walk(self@, start, cur, (limit - out@.len()) as nat),
                ),
            decreases limit - out@.len(),
        {
            if !self.in_range(cur) {
                let mut m = String::from_str("block chain references block ");
                push_decimal(&mut m, cur as u64);
                m.append(", outside 2..");
                push_decimal(&mut m, FIRST_BLOCK as u64 + limit as u64);
                return Err(MfsError::CorruptVolume(m));
            }
            let v: u16 = self.get(cur);
            if v == FREE {
                let mut m = String::from_str("block chain enters free block ");
                push_decimal(&mut m, cur as u64);
                return Err(MfsError::CorruptVolume(m));
            }
            if v == RESERVED {
                let mut m = String::from_str("block chain enters reserved block ");
                push_decimal(&mut m, cur as u64);
                return Err(MfsError::CorruptVolume(m));
            }
            if out.len() == limit {
                let mut m = String::from_str("block chain starting at ");
                push_decimal(&mut m, start as u64);
                m.append(" exceeds ");
                push_decimal(&mut m, limit as u64);
                m.append(" blocks (cycle)");
                return Err(MfsError::CorruptVolume(m));
            }
            let ghost before = out@;
            out.push(cur);
            assert(before + seq![cur] =~= out@);
            if v == LAST {
                return Ok(out);
            }
            proof {
                let rest = walk(self@, start, v, (limit - out@.len()) as nat);
                if let Ok(s) = rest {
                    assert(before + (seq![cur] + s) =~= out@ + s);
                }
            }
            cur = v;
        }
    }

    /// First-fit allocation of `n` blocks, linked into a single chain.
    ///
    /// On success the returned blocks are in chain order: each one's map entry
    /// points at the next, and the final entry is [`LAST`]. If fewer than `n`
    /// blocks are free the map is left completely untouched and
    /// `VolumeFull` is returned.
    pub fn allocate(&mut self, n: u32) -> (r: Result<Vec<u16>>)
        requires
            old(self).wf(),
            numbered(old(self)@, n as nat),
        ensures
            final(self).wf(),
            match r {
                Ok(blocks) => {
                    &&& n <= count_free(old(self)@)
                    &&& blocks@ == free_blocks(old(self)@).take(n as int)
                    &&& final(self)@ == linked(old(self)@, blocks@)
                },
                Err(e) => {
                    &&& n > count_free(old(self)@)
                    &&& e@ == (Fault::VolumeFull {
                        needed_blocks: n,
                        free_blocks: count_free(old(self)@) as u32,
                    })
                    &&& final(self)@ == old(self)@
                },
            },
    {
        if n == 0 {
            return Ok(Vec::new());
        }
        let free: u32 = self.free_count();
        if free < n {
            return Err(MfsError::VolumeFull { needed_blocks: n, free_blocks: free });
        }
        let blocks = self.pick(n);
        let ghost map = self@;
        proof {
            lemma_free_blocks(map);
        }
        let k: usize = blocks.len();
        let mut i: usize = 0;
        while i < k
            invariant
                i <= k,
                k == blocks@.len(),
                self.wf(),
                self@.len() == map.len(),
                forall|j: int| 0 <= j < k ==> has_block(map, #[trigger] blocks@[j]),
                self@ == linked_up_to(map, blocks@, i as nat),
            decreases k - i,
        {
            let next: u16 = if i + 1 < k {
                blocks[i + 1]
            } else {
                LAST
            };
            self.set(blocks[i], next);
            i += 1;
        }
        Ok(blocks)
    }

    /// The first `n` free blocks.
    fn pick(&self, n: u32) -> (blocks: Vec<u16>)
        requires
            self.wf(),
            0 < n <= count_free(self@),
            numbered(self@, n as nat),
        ensures
            blocks@ == free_blocks(self@).take(n as int),
            forall|j: int| 0 <= j < n ==> has_block(self@, #[trigger] blocks@[j]),
            blocks@.len() == n,
    {
        let mut blocks: Vec<u16> = Vec::new();
        let len: usize = self.entries.len();
        let mut i: usize = 0;
        proof {
            lemma_free_blocks(self@);
            assert(self@.take(len as int) =~= self@);
        }
        while blocks.len() < n as usize
            invariant
                i <= len,
                len == self@.len(),
                self.wf(),
                0 < n <= count_free(self@),
                n <= self@.len(),
                numbered(self@, n as nat),
                blocks@ == free_blocks(self@.take(i as int)),
                forall|j: int| 0 <= j < blocks@.len() ==> has_block(self@, #[trigger] blocks@[j]),
                blocks@.len() <= n,
            decreases len - i,
        {
            proof {
                lemma_free_blocks(self@.take(i as int));
                if i == len {
                    assert(self@.take(i as int) =~= self@);
                }
                assert(self@.take(i + 1).drop_last() =~= self@.take(i as int));
                lemma_count_prefix(self@, i + 1);
                lemma_free_blocks(self@.take(i + 1));
                lemma_free_blocks(self@);
            }
            if self.entries[i] == FREE {
                assert(i == 65534 ==> self@.take(i + 1) =~= self@);
                blocks.push((i + 2) as u16);
            }
            i += 1;
        }
        proof {
            lemma_free_prefix(self@, i as int);
            assert(free_blocks(self@).take(n as int) =~= blocks@);
        }
        blocks
    }

    /// A map with the same entries.
    pub(crate) fn copy(&self) -> (m: BlockMap)
        ensures
            m@ == self@,
    {
        let mut entries: Vec<u16> = Vec::new();
        let mut i: usize = 0;
        while i < self.entries.len()
            invariant
                i <= self.entries@.len(),
                entries@ =~= self.entries@.take(i as int),
            decreases self.entries@.len() - i,
        {
            entries.push(self.entries[i]);
            i += 1;
        }
        assert(entries@ =~= self.entries@);
        BlockMap { entries }
    }

    /// Free every block in the chain starting at `start`.
    ///
    /// Validates the whole chain before mutating, so a corrupt chain leaves the
    /// map untouched.
    pub fn free_chain(&mut self, start: u16) -> (r: Result<()>)
        requires
            old(self).wf(),
        ensures
            final(self).wf(),
            match r {
                Ok(_) => {
                    &&& chain_from(old(self)@, start) is Ok
                    &&& final(self)@ == released(
                        old(self)@,
                        chain_from(old(self)@, start)->Ok_0,
                    )
                },
                Err(e) => {
                    &&& chain_from(old(self)@, start) == Err::<Seq<u16>, Fault>(e@)
                    &&& final(self)@ == old(self)@
                },
            },
    {
        let blocks = match self.chain(start) {
            Ok(b) => b,
            Err(e) => {
                return Err(e);
            },
        };
        let ghost map = self@;
        let n: usize = blocks.len();
        let mut i: usize = 0;
        assert(released(map, blocks@.take(0)) =~= map);
        while i < n
            invariant
                i <= n,
                n == blocks@.len(),
                self.wf(),
                self@.len() == map.len(),
                map.len() <= 65535,
                forall|j: int| 0 <= j < n ==> has_block(map, #[trigger] blocks@[j]),
                self@ == released(map, blocks@.take(i as int)),
            decreases n - i,
        {
            self.set(blocks[i], FREE);
            i += 1;
            proof {
                lemma_released_step(map, blocks@, i - 1);
            }
        }
        assert(blocks@.take(n as int) =~= blocks@);
        Ok(())
    }
}

/// What decoding `n` entries out of `raw` comes to.
pub open spec fn unpack_outcome(raw: Seq<u8>, n: nat) -> core::result::Result<Seq<u16>, Fault> {
    if raw.len() < packed_size(n) {
        Err(
            Fault::CorruptVolume(
                "allocation block map is "@ + text::decimal(raw.len()) + " bytes, need "@
                    + text::decimal(packed_size(n)) + " for "@ + text::decimal(n) + " blocks"@,
            ),
        )
    } else {
        Ok(unpacked(raw, n))
    }
}

/// Packing one entry more.
proof fn lemma_packed_step(map: Seq<u16>, out: Seq<u8>, i: int)
    requires
        well_formed(map),
        0 <= i < map.len(),
        out.len() >= packed_size(map.len()),
    ensures
        ({
            let p = packed(map.take(i), out);
            let o = (i / 2) * 3;
            let v = map[i] % 4096;
            packed(map.take(i + 1), out) == if i % 2 == 0 {
                p.update(o, (v / 16) as u8).update(o + 1, ((v % 16) * 16 + p[o + 1] % 16) as u8)
            } else {
                p.update(o + 1, (p[o + 1] / 16 * 16 + v / 256) as u8).update(
                    o + 2,
                    (v % 256) as u8,
                )
            }
        }),
{
}

/// Freeing one block more.
proof fn lemma_released_step(map: Seq<u16>, blocks: Seq<u16>, i: int)
    requires
        map.len() <= 65535,
        0 <= i < blocks.len(),
        has_block(map, blocks[i]),
    ensures
        released(map, blocks.take(i + 1)) == released(map, blocks.take(i)).update(
            blocks[i] - 2,
            FREE,
        ),
{
    let a = released(map, blocks.take(i + 1));
    let b = released(map, blocks.take(i)).update(blocks[i] - 2, FREE);
    assert forall|k: int| 0 <= k < map.len() implies a[k] == b[k] by {
        let n = (k + 2) as u16;
        let s = blocks.take(i);
        let t = blocks.take(i + 1);
        assert(t[i] == blocks[i]);
        if s.contains(n) {
            let j = choose|j: int| 0 <= j < s.len() && s[j] == n;
            assert(t[j] == n);
        }
        if t.contains(n) {
            let j = choose|j: int| 0 <= j < t.len() && t[j] == n;
            if j < i {
                assert(s[j] == n);
            }
        }
    }
    assert(a =~= b);
}

// ------------------------------------------------------------------------- laws

/// A walk that succeeds has found a chain.
proof fn lemma_walk_is_chain(map: Seq<u16>, start: u16, cur: u16, left: nat)
    ensures
        walk(map, start, cur, left) matches Ok(s) ==> is_chain(map, cur, s) && s.len() <= left,
    decreases left,
{
    if let Ok(s) = walk(map, start, cur, left) {
        if entry(map, cur) != LAST {
            let next = entry(map, cur);
            lemma_walk_is_chain(map, start, next, (left - 1) as nat);
            let t = walk(map, start, next, (left - 1) as nat)->Ok_0;
            assert(s == seq![cur] + t);
            assert(s.last() == t.last());
            assert forall|i: int| 0 <= i < s.len() implies has_block(map, #[trigger] s[i]) && entry(
                map,
                s[i],
            ) != FREE && entry(map, s[i]) != RESERVED by {
                if i > 0 {
                    assert(s[i] == t[i - 1]);
                }
            }
            assert forall|i: int, j: int| 0 <= i && j == i + 1 && j < s.len() implies entry(
                map,
                #[trigger] s[i],
            ) == #[trigger] s[j] by {
                if i > 0 {
                    assert(s[i] == t[i - 1]);
                    assert(s[j] == t[j - 1]);
                }
            }
        }
    }
}

/// A walk with enough steps left finds the chain that is there.
proof fn lemma_walk_finds_chain(map: Seq<u16>, start: u16, cur: u16, left: nat, s: Seq<u16>)
    requires
        is_chain(map, cur, s),
        s.len() <= left,
    ensures
        walk(map, start, cur, left) == Ok::<Seq<u16>, Fault>(s),
    decreases left,
{
    assert(s[0] == cur);
    if s.len() == 1 {
        assert(s =~= seq![cur]);
    } else {
        let t = s.skip(1);
        let next = entry(map, cur);
        assert(s[1] == next);
        assert(t.last() == s.last());
        assert forall|i: int| 0 <= i < t.len() implies has_block(map, #[trigger] t[i]) && entry(
            map,
            t[i],
        ) != FREE && entry(map, t[i]) != RESERVED by {
            assert(t[i] == s[i + 1]);
        }
        assert forall|i: int, j: int| 0 <= i && j == i + 1 && j < t.len() implies entry(
            map,
            #[trigger] t[i],
        ) == #[trigger] t[j] by {
            assert(t[i] == s[i + 1]);
            assert(t[j] == s[j + 1]);
        }
        assert(is_chain(map, next, t));
        assert(has_block(map, s[1]));
        lemma_walk_finds_chain(map, start, next, (left - 1) as nat, t);
        assert(seq![cur] + t =~= s);
    }
}

/// Two equal blocks of a chain are followed by equal blocks.
proof fn lemma_chain_shift(map: Seq<u16>, start: u16, s: Seq<u16>, i: int, j: int, k: nat)
    requires
        is_chain(map, start, s),
        0 <= i < j,
        j + k < s.len(),
        s[i] == s[j],
    ensures
        s[i + k] == s[j + k],
    decreases k,
{
    if k > 0 {
        lemma_chain_shift(map, start, s, i, j, (k - 1) as nat);
        assert(entry(map, s[i + k - 1]) == s[i + k]);
        assert(entry(map, s[j + k - 1]) == s[j + k]);
    }
}

/// A chain visits no block twice, and so has no more blocks than the map.
pub proof fn lemma_chain_distinct(map: Seq<u16>, start: u16, s: Seq<u16>)
    requires
        is_chain(map, start, s),
    ensures
        s.no_duplicates(),
        s.len() <= map.len(),
{
    assert forall|i: int, j: int| 0 <= i < j < s.len() implies s[i] != s[j] by {
        if s[i] == s[j] {
            let k = (s.len() - 1 - j) as nat;
            lemma_chain_shift(map, start, s, i, j, k);
            assert(s[i + k] == s.last());
            assert(entry(map, s[i + k]) == s[i + k + 1]);
            assert(has_block(map, s[i + k + 1]));
        }
    }
    let ints = s.map_values(|b: u16| b as int);
    assert(ints.no_duplicates()) by {
        assert forall|i: int, j: int|
            0 <= i < ints.len() && 0 <= j < ints.len() && i != j implies ints[i] != ints[j] by {
            assert(s[i] != s[j]);
        }
    }
    ints.unique_seq_to_set();
    let range = vstd::set_lib::set_int_range(2, 2 + map.len() as int);
    vstd::set_lib::lemma_int_range(2, 2 + map.len() as int);
    assert(ints.to_set().subset_of(range)) by {
        assert forall|b: int| ints.to_set().contains(b) implies range.contains(b) by {
            let i = choose|i: int| 0 <= i < ints.len() && ints[i] == b;
            assert(has_block(map, s[i]));
        }
    }
    vstd::set_lib::lemma_len_subset(ints.to_set(), range);
}

/// Where following the links succeeds, what it finds is a chain.
pub proof fn lemma_chain_found(map: Seq<u16>, start: u16, s: Seq<u16>)
    requires
        chain_from(map, start) == Ok::<Seq<u16>, Fault>(s),
    ensures
        is_chain(map, start, s),
        s.len() <= map.len(),
{
    lemma_walk_is_chain(map, start, start, map.len());
}

/// Where there is a chain, following the links succeeds and finds it.
pub proof fn lemma_chain_unique(map: Seq<u16>, start: u16, s: Seq<u16>)
    requires
        is_chain(map, start, s),
    ensures
        chain_from(map, start) == Ok::<Seq<u16>, Fault>(s),
{
    lemma_chain_distinct(map, start, s);
    lemma_walk_finds_chain(map, start, start, map.len(), s);
}

/// The free blocks are as many as are counted; they are in the map, free, and
/// in ascending order.
pub proof fn lemma_free_blocks(map: Seq<u16>)
    requires
        map.len() <= 65535,
    ensures
        free_blocks(map).len() == count_free(map),
        count_free(map) <= map.len(),
        forall|i: int|
            0 <= i < free_blocks(map).len() && !(map.len() == 65535 && map[65534] == FREE && i
                == count_free(map) - 1) ==> {
                &&& has_block(map, #[trigger] free_blocks(map)[i])
                &&& entry(map, free_blocks(map)[i]) == FREE
            },
    decreases map.len(),
{
    if map.len() > 0 {
        let m = map.drop_last();
        lemma_free_blocks(m);
        assert forall|i: int|
            0 <= i < free_blocks(map).len() && !(map.len() == 65535 && map[65534] == FREE && i
                == count_free(map) - 1) implies has_block(map, #[trigger] free_blocks(map)[i])
            && entry(map, free_blocks(map)[i]) == FREE by {
            if i < free_blocks(m).len() {
                assert(free_blocks(map)[i] == free_blocks(m)[i]);
            }
        }
    }
}

/// The free blocks are in strictly ascending order.
proof fn lemma_free_blocks_ascend(map: Seq<u16>)
    requires
        map.len() <= 65534,
    ensures
        forall|i: int, j: int|
            0 <= i < j < free_blocks(map).len() ==> free_blocks(map)[i] < free_blocks(map)[j],
        free_blocks(map).no_duplicates(),
    decreases map.len(),
{
    if map.len() > 0 {
        let m = map.drop_last();
        lemma_free_blocks_ascend(m);
        lemma_free_blocks(m);
        let f = free_blocks(map);
        let g = free_blocks(m);
        assert forall|i: int, j: int| 0 <= i < j < f.len() implies f[i] < f[j] by {
            assert(f[i] == g[i]);
            assert(has_block(m, g[i]));
            if j < g.len() {
                assert(f[j] == g[j]);
            }
        }
    }
}

/// A prefix of the map has no more free entries than the map.
proof fn lemma_count_prefix(map: Seq<u16>, k: int)
    requires
        0 <= k <= map.len(),
    ensures
        count_free(map.take(k)) <= count_free(map),
    decreases map.len() - k,
{
    if k == map.len() {
        assert(map.take(k) =~= map);
    } else {
        lemma_count_prefix(map, k + 1);
        assert(map.take(k + 1).drop_last() =~= map.take(k));
    }
}

/// The free blocks of a prefix come first among the free blocks.
proof fn lemma_free_prefix(map: Seq<u16>, k: int)
    requires
        0 <= k <= map.len() <= 65535,
    ensures
        free_blocks(map.take(k)).len() <= free_blocks(map).len(),
        free_blocks(map).take(free_blocks(map.take(k)).len() as int) == free_blocks(map.take(k)),
    decreases map.len() - k,
{
    if k == map.len() {
        assert(map.take(k) =~= map);
        assert(free_blocks(map).take(free_blocks(map).len() as int) =~= free_blocks(map));
    } else {
        lemma_free_prefix(map, k + 1);
        assert(map.take(k + 1).drop_last() =~= map.take(k));
        let a = free_blocks(map.take(k));
        let b = free_blocks(map.take(k + 1));
        assert(b.take(a.len() as int) =~= a);
        assert(free_blocks(map).take(a.len() as int) =~= b.take(a.len() as int));
    }
}

/// The first `n` free blocks, where they are numbered: distinct blocks of the
/// map, all free, in ascending order.
pub proof fn lemma_picked(map: Seq<u16>, n: nat)
    requires
        map.len() <= 65535,
        n <= count_free(map),
        numbered(map, n),
    ensures
        ({
            let s = free_blocks(map).take(n as int);
            &&& s.len() == n
            &&& s.no_duplicates()
            &&& forall|i: int, j: int| 0 <= i < j < n ==> s[i] < s[j]
            &&& forall|i: int|
                0 <= i < n ==> has_block(map, #[trigger] s[i]) && entry(map, s[i]) == FREE
        }),
{
    let s = free_blocks(map).take(n as int);
    lemma_free_blocks(map);
    if map.len() <= 65534 {
        lemma_free_blocks_ascend(map);
    } else {
        let m = map.drop_last();
        lemma_free_blocks(m);
        lemma_free_blocks_ascend(m);
        assert(s =~= free_blocks(m).take(n as int));
    }
}

/// Linking blocks gives each of them its link and leaves all others as they
/// were.
proof fn lemma_linked_up_to(map: Seq<u16>, blocks: Seq<u16>, k: nat)
    requires
        k <= blocks.len(),
        blocks.no_duplicates(),
        forall|i: int| 0 <= i < blocks.len() ==> has_block(map, #[trigger] blocks[i]),
    ensures
        linked_up_to(map, blocks, k).len() == map.len(),
        forall|i: int|
            0 <= i < k ==> entry(linked_up_to(map, blocks, k), #[trigger] blocks[i]) == link(
                blocks,
                i,
            ),
        forall|b: u16|
            #[trigger] has_block(map, b) && !blocks.take(k as int).contains(b) ==> entry(
                linked_up_to(map, blocks, k),
                b,
            ) == entry(map, b),
        forall|i: int|
            0 <= i < map.len() && i + 2 > 65535 ==> #[trigger] linked_up_to(map, blocks, k)[i]
                == map[i],
    decreases k,
{
    if k > 0 {
        let j = (k - 1) as nat;
        lemma_linked_up_to(map, blocks, j);
        let t = blocks.take(k as int);
        assert(t[j as int] == blocks[j as int]);
        assert forall|b: u16| #[trigger] has_block(map, b) && !t.contains(b) implies entry(
            linked_up_to(map, blocks, k),
            b,
        ) == entry(map, b) by {
            let u = blocks.take(j as int);
            if u.contains(b) {
                let i = choose|i: int| 0 <= i < u.len() && u[i] == b;
                assert(t[i] == b);
            }
        }
    }
}

/// Linking blocks gives each of them its link and leaves all others as they
/// were.
pub proof fn lemma_linked(map: Seq<u16>, blocks: Seq<u16>)
    requires
        blocks.no_duplicates(),
        forall|i: int| 0 <= i < blocks.len() ==> has_block(map, #[trigger] blocks[i]),
    ensures
        linked(map, blocks).len() == map.len(),
        forall|i: int|
            0 <= i < blocks.len() ==> entry(linked(map, blocks), #[trigger] blocks[i]) == link(
                blocks,
                i,
            ),
        forall|b: u16|
            #[trigger] has_block(map, b) && !blocks.contains(b) ==> entry(linked(map, blocks), b)
                == entry(map, b),
        forall|i: int|
            0 <= i < map.len() && i + 2 > 65535 ==> #[trigger] linked(map, blocks)[i] == map[i],
{
    lemma_linked_up_to(map, blocks, blocks.len());
    assert(blocks.take(blocks.len() as int) =~= blocks);
}

/// Whether a chain of these ascending blocks can be written down in 12-bit
/// entries: none of the blocks that are pointed at has the number of a
/// reserved entry or a higher one.
pub open spec fn linkable(blocks: Seq<u16>) -> bool {
    blocks.len() <= 1 || blocks.last() < RESERVED
}

/// Allocating blocks makes them a chain, in the order in which they are
/// handed out.
pub proof fn lemma_allocated_is_chain(map: Seq<u16>, n: nat)
    requires
        map.len() <= 65535,
        0 < n <= count_free(map),
        numbered(map, n),
        linkable(free_blocks(map).take(n as int)),
    ensures
        ({
            let s = free_blocks(map).take(n as int);
            is_chain(linked(map, s), s[0], s)
        }),
{
    let s = free_blocks(map).take(n as int);
    lemma_picked(map, n);
    lemma_linked(map, s);
    let m = linked(map, s);
    assert forall|i: int| 0 <= i < s.len() implies has_block(m, #[trigger] s[i]) && entry(m, s[i])
        != FREE && entry(m, s[i]) != RESERVED && entry(m, s[i]) == (if i + 1 < s.len() {
        s[i + 1]
    } else {
        LAST
    }) by {
        assert(has_block(map, s[i]));
        if i + 1 < s.len() {
            assert(s[i + 1] <= s.last());
            assert(has_block(map, s[i + 1]));
        }
    }
}

/// Overwriting one entry changes the number of free entries by that entry.
pub proof fn lemma_count_update(map: Seq<u16>, i: int, v: u16)
    requires
        0 <= i < map.len(),
    ensures
        count_free(map.update(i, v)) == count_free(map) - (if map[i] == FREE {
            1int
        } else {
            0int
        }) + (if v == FREE {
            1int
        } else {
            0int
        }),
    decreases map.len(),
{
    if i == map.len() - 1 {
        assert(map.update(i, v).drop_last() =~= map.drop_last());
    } else {
        assert(map.update(i, v).drop_last() =~= map.drop_last().update(i, v));
        lemma_count_update(map.drop_last(), i, v);
    }
}

/// The number of free entries while blocks are being linked.
proof fn lemma_count_linked_up_to(map: Seq<u16>, blocks: Seq<u16>, k: nat)
    requires
        k <= blocks.len(),
        blocks.no_duplicates(),
        forall|i: int|
            0 <= i < blocks.len() ==> has_block(map, #[trigger] blocks[i]) && entry(map, blocks[i])
                == FREE && link(blocks, i) != FREE,
    ensures
        count_free(linked_up_to(map, blocks, k)) == count_free(map) - k,
    decreases k,
{
    if k > 0 {
        let j = (k - 1) as nat;
        lemma_count_linked_up_to(map, blocks, j);
        lemma_linked_up_to(map, blocks, j);
        let b = blocks[j as int];
        let u = blocks.take(j as int);
        if u.contains(b) {
            let i = choose|i: int| 0 <= i < u.len() && u[i] == b;
            assert(blocks[i] == b);
        }
        assert(has_block(map, b));
        assert(entry(linked_up_to(map, blocks, j), b) == FREE);
        assert(link(blocks, j as int) != FREE);
        lemma_count_update(linked_up_to(map, blocks, j), b - 2, link(blocks, j as int));
    }
}

/// Allocating `n` blocks takes `n` free blocks away.
pub proof fn lemma_allocated_count(map: Seq<u16>, n: nat)
    requires
        map.len() <= 65535,
        n <= count_free(map),
        numbered(map, n),
        linkable(free_blocks(map).take(n as int)),
    ensures
        count_free(linked(map, free_blocks(map).take(n as int))) == count_free(map) - n,
{
    let s = free_blocks(map).take(n as int);
    lemma_picked(map, n);
    assert forall|i: int| 0 <= i < s.len() implies has_block(map, #[trigger] s[i]) && entry(
        map,
        s[i],
    ) == FREE && link(s, i) != FREE by {
        if i + 1 < s.len() {
            assert(s[i + 1] <= s.last());
            assert(has_block(map, s[i + 1]));
        }
    }
    lemma_count_linked_up_to(map, s, s.len());
}

/// Releasing blocks that were in use adds them to the free blocks.
pub proof fn lemma_released_count(map: Seq<u16>, blocks: Seq<u16>)
    requires
        map.len() <= 65535,
        blocks.no_duplicates(),
        forall|i: int|
            0 <= i < blocks.len() ==> has_block(map, #[trigger] blocks[i]) && entry(map, blocks[i])
                != FREE,
    ensures
        count_free(released(map, blocks)) == count_free(map) + blocks.len(),
    decreases blocks.len(),
{
    if blocks.len() == 0 {
        assert(released(map, blocks) =~= map);
    } else {
        let k = blocks.len() - 1;
        let t = blocks.take(k);
        let b = blocks[k];
        lemma_released_count(map, t);
        lemma_released_step(map, blocks, k);
        assert(blocks.take(k + 1) =~= blocks);
        if t.contains(b) {
            let i = choose|i: int| 0 <= i < t.len() && t[i] == b;
            assert(blocks[i] == b);
        }
        assert(released(map, t)[b - 2] == map[b - 2]);
        lemma_count_update(released(map, t), b - 2, FREE);
    }
}

/// Freeing a chain adds its blocks to the free blocks.
pub proof fn lemma_freed_count(map: Seq<u16>, start: u16)
    requires
        map.len() <= 65535,
        chain_from(map, start) is Ok,
    ensures
        count_free(released(map, chain_from(map, start)->Ok_0)) == count_free(map) + chain_from(
            map,
            start,
        )->Ok_0.len(),
{
    let s = chain_from(map, start)->Ok_0;
    lemma_chain_found(map, start, s);
    lemma_chain_distinct(map, start, s);
    lemma_released_count(map, s);
}

/// Freeing what was just allocated restores the map exactly.
pub proof fn lemma_free_undoes_allocate(map: Seq<u16>, n: nat)
    requires
        map.len() <= 65535,
        0 < n <= count_free(map),
        numbered(map, n),
        linkable(free_blocks(map).take(n as int)),
    ensures
        ({
            let s = free_blocks(map).take(n as int);
            let m = linked(map, s);
            &&& chain_from(m, s[0]) == Ok::<Seq<u16>, Fault>(s)
            &&& released(m, s) == map
        }),
{
    let s = free_blocks(map).take(n as int);
    let m = linked(map, s);
    lemma_allocated_is_chain(map, n);
    lemma_chain_unique(m, s[0], s);
    lemma_picked(map, n);
    lemma_linked(map, s);
    assert forall|i: int| 0 <= i < map.len() implies released(m, s)[i] == map[i] by {
        if i + 2 <= 65535 {
            let b = (i + 2) as u16;
            assert(has_block(map, b));
            if s.contains(b) {
                let j = choose|j: int| 0 <= j < s.len() && s[j] == b;
                assert(entry(map, s[j]) == FREE);
            } else {
                assert(entry(m, b) == entry(map, b));
            }
        }
    }
    assert(released(m, s) =~= map);
}

/// Whether two lists of blocks have no block in common.
pub open spec fn disjoint(a: Seq<u16>, b: Seq<u16>) -> bool {
    forall|i: int, j: int|
        0 <= i < a.len() && 0 <= j < b.len() ==> #[trigger] a[i] != #[trigger] b[j]
}

/// Releasing blocks frees each of them and leaves all others as they were.
pub proof fn lemma_released(map: Seq<u16>, blocks: Seq<u16>, b: u16)
    requires
        has_block(map, b),
    ensures
        has_block(released(map, blocks), b),
        entry(released(map, blocks), b) == (if blocks.contains(b) {
            FREE
        } else {
            entry(map, b)
        }),
{
}

/// Allocating blocks leaves every chain as it was.
pub proof fn lemma_allocate_keeps_chain(map: Seq<u16>, n: nat, start: u16, s: Seq<u16>)
    requires
        map.len() <= 65535,
        n <= count_free(map),
        numbered(map, n),
        is_chain(map, start, s),
    ensures
        is_chain(linked(map, free_blocks(map).take(n as int)), start, s),
        disjoint(s, free_blocks(map).take(n as int)),
{
    let t = free_blocks(map).take(n as int);
    let m = linked(map, t);
    lemma_picked(map, n);
    lemma_linked(map, t);
    assert forall|i: int| 0 <= i < s.len() implies !t.contains(#[trigger] s[i]) && entry(m, s[i])
        == entry(map, s[i]) by {
        if t.contains(s[i]) {
            let j = choose|j: int| 0 <= j < t.len() && t[j] == s[i];
            assert(entry(map, t[j]) == FREE);
        }
        assert(has_block(map, s[i]));
    }
    assert(disjoint(s, t)) by {
        assert forall|i: int, j: int| 0 <= i < s.len() && 0 <= j < t.len() implies #[trigger] s[i]
            != #[trigger] t[j] by {
            assert(!t.contains(s[i]));
        }
    }
    assert(entry(m, s[s.len() - 1]) == entry(map, s[s.len() - 1]));
}

/// Releasing blocks leaves every chain without one of them as it was.
pub proof fn lemma_release_keeps_chain(map: Seq<u16>, blocks: Seq<u16>, start: u16, s: Seq<u16>)
    requires
        map.len() <= 65535,
        is_chain(map, start, s),
        disjoint(s, blocks),
    ensures
        is_chain(released(map, blocks), start, s),
{
    let m = released(map, blocks);
    assert forall|i: int| 0 <= i < s.len() implies entry(m, #[trigger] s[i]) == entry(map, s[i]) by {
        assert(has_block(map, s[i]));
        if blocks.contains(s[i]) {
            let j = choose|j: int| 0 <= j < blocks.len() && blocks[j] == s[i];
            assert(s[i] != blocks[j]);
        }
    }
    assert(entry(m, s[s.len() - 1]) == entry(map, s[s.len() - 1]));
}

/// A walk that fails does so because the volume is corrupt.
proof fn lemma_walk_fault(map: Seq<u16>, start: u16, cur: u16, left: nat)
    ensures
        walk(map, start, cur, left) matches Err(f) ==> f is CorruptVolume,
    decreases left,
{
    if has_block(map, cur) && left > 0 {
        lemma_walk_fault(map, start, entry(map, cur), (left - 1) as nat);
    }
}

/// Releasing blocks mends no broken chain.
pub proof fn lemma_release_mends_nothing(map: Seq<u16>, blocks: Seq<u16>, start: u16)
    requires
        map.len() <= 65535,
        chain_from(map, start) is Err,
    ensures
        chain_from(map, start)->Err_0 is CorruptVolume,
        chain_from(released(map, blocks), start) is Err,
        chain_from(released(map, blocks), start)->Err_0 is CorruptVolume,
{
    let m = released(map, blocks);
    lemma_walk_fault(map, start, start, map.len());
    lemma_walk_fault(m, start, start, m.len());
    if let Ok(s) = chain_from(m, start) {
        lemma_chain_found(m, start, s);
        assert forall|i: int| 0 <= i < s.len() implies entry(m, #[trigger] s[i]) == entry(
            map,
            s[i],
        ) by {
            assert(has_block(m, s[i]) && entry(m, s[i]) != FREE);
            lemma_released(map, blocks, s[i]);
        }
        assert(entry(m, s[s.len() - 1]) == entry(map, s[s.len() - 1]));
        assert(is_chain(map, start, s));
        lemma_chain_unique(map, start, s);
    }
}

/// Decoding the packed form of a map gives the map back.
pub proof fn lemma_unpack_inverts_pack(map: Seq<u16>, out: Seq<u8>)
    requires
        well_formed(map),
        out.len() >= packed_size(map.len()),
    ensures
        unpacked(packed(map, out), map.len()) == map,
{
    let p = packed(map, out);
    assert forall|i: int| 0 <= i < map.len() implies entry_at(p, i) == map[i] by {
        let o = (i / 2) * 3;
        assert(o + 1 < packed_size(map.len()));
        assert(i % 2 == 1 ==> o + 2 < packed_size(map.len()));
    }
    assert(unpacked(p, map.len()) =~= map);
}

/// Two entries of 12 bits, taken out of three bytes, and the bytes in them.
proof fn lemma_nibbles(a: u8, b: u8, c: u8)
    ensures
        ({
            let x = (a * 16 + b / 16) as u16;
            let y = ((b % 16) * 256 + c) as u16;
            &&& x % 4096 / 16 == a
            &&& x % 16 == b / 16
            &&& y % 4096 / 256 == b % 16
            &&& y % 256 == c
        }),
{
}

/// A byte of a decoded map that is packed back where it came from.
proof fn lemma_byte_repacked(raw: Seq<u8>, n: nat, k: int)
    requires
        raw.len() >= packed_size(n),
        0 <= k < packed_size(n),
    ensures
        packed(unpacked(raw, n), raw)[k] == raw[k],
{
    let m = unpacked(raw, n);
    let i = (k / 3) * 2;
    let o = (k / 3) * 3;
    assert((i / 2) * 3 == o && i % 2 == 0);
    assert(m[i] == entry_at(raw, i));
    if i + 1 < n {
        assert(((i + 1) / 2) * 3 == o && (i + 1) % 2 == 1);
        assert(m[i + 1] == entry_at(raw, i + 1));
        lemma_nibbles(raw[o], raw[o + 1], raw[o + 2]);
    } else {
        lemma_nibbles(raw[o], raw[o + 1], 0);
    }
}

/// Packing a decoded map back where it came from changes nothing.
pub proof fn lemma_pack_inverts_unpack(raw: Seq<u8>, n: nat)
    requires
        raw.len() >= packed_size(n),
    ensures
        packed(unpacked(raw, n), raw) == raw,
{
    let p = packed(unpacked(raw, n), raw);
    assert forall|k: int| 0 <= k < raw.len() implies p[k] == raw[k] by {
        if k < packed_size(n) {
            lemma_byte_repacked(raw, n, k);
        }
    }
    assert(p =~= raw);
}

/// The free blocks are those whose map entry is zero, each counted once.
pub proof fn lemma_free_counted(map: Seq<u16>)
    ensures
        count_free(map) == map.filter(|e: u16| e == 0).len(),
    decreases map.len(),
{
    reveal(Seq::filter);
    if map.len() > 0 {
        lemma_free_counted(map.drop_last());
    }
}

/// Every free block is among the free blocks.
proof fn lemma_free_listed(map: Seq<u16>, b: u16)
    requires
        map.len() <= 65534,
        has_block(map, b),
        map[b - 2] == 0,
    ensures
        free_blocks(map).contains(b),
    decreases map.len(),
{
    let m = map.drop_last();
    let f = free_blocks(map);
    if b - 2 == map.len() - 1 {
        assert(f[f.len() - 1] == b);
    } else {
        lemma_free_listed(m, b);
        let g = free_blocks(m);
        let i = choose|i: int| 0 <= i < g.len() && g[i] == b;
        assert(f[i] == b);
    }
}

/// The lowest free blocks are taken: one that is free and not taken comes behind
/// all that are.
pub proof fn lemma_lowest_taken(map: Seq<u16>, n: nat, b: u16)
    requires
        map.len() <= 65534,
        n <= count_free(map),
        has_block(map, b),
        map[b - 2] == 0,
    ensures
        ({
            let s = free_blocks(map).take(n as int);
            s.contains(b) || forall|i: int| 0 <= i < n ==> #[trigger] s[i] < b
        }),
{
    lemma_free_blocks(map);
    lemma_free_blocks_ascend(map);
    lemma_free_listed(map, b);
    let f = free_blocks(map);
    let s = f.take(n as int);
    let k = choose|k: int| 0 <= k < f.len() && f[k] == b;
    if k < n {
        assert(s[k] == b);
    }
}

/// A new chain is linked in the order its blocks were taken in, and the last one
/// ends it; no other entry of the map changes. A chain that was given back leaves
/// its blocks free.
pub proof fn lemma_links(map: Seq<u16>, n: nat, i: int)
    requires
        map.len() <= 65535,
        n <= count_free(map),
        numbered(map, n),
        0 <= i < n,
    ensures
        ({
            let s = free_blocks(map).take(n as int);
            let m = linked(map, s);
            &&& m.len() == map.len()
            &&& i + 1 < n && s[i + 1] < 4096 ==> m[s[i] - 2] == s[i + 1]
            &&& i + 1 == n ==> m[s[i] - 2] == 1
            &&& forall|b: u16| has_block(map, b) && !s.contains(b) ==> #[trigger] m[b - 2] == map[b
                - 2]
        }),
{
    lemma_picked(map, n);
    let s = free_blocks(map).take(n as int);
    lemma_linked(map, s);
    let m = linked(map, s);
    assert(has_block(map, s[i]) && entry(m, s[i]) == m[s[i] - 2]);
    assert forall|b: u16| has_block(map, b) && !s.contains(b) implies #[trigger] m[b - 2] == map[b
        - 2] by {
        assert(entry(m, b) == entry(map, b));
    }
}

} // verus!
