use macfs::blockmap::{packed_len, BlockMap, FIRST_BLOCK, FREE, LAST, RESERVED};
use macfs::MfsError;

/// Tiny xorshift32 so the tests pull in no extra dependencies.
struct Rng(u32);
impl Rng {
    fn next(&mut self) -> u32 {
        let mut x = self.0;
        x ^= x << 13;
        x ^= x >> 17;
        x ^= x << 5;
        self.0 = x;
        x
    }
}

fn random_entries(seed: u32, n: u16) -> Vec<u16> {
    let mut rng = Rng(seed);
    (0..n).map(|_| (rng.next() & 0x0FFF) as u16).collect()
}

fn map_of(entries: &[u16]) -> BlockMap {
    let mut m = BlockMap::new_empty(entries.len() as u16);
    for (i, &v) in entries.iter().enumerate() {
        m.set(i as u16 + FIRST_BLOCK, v);
    }
    m
}

#[test]
fn hand_computed_vector() {
    let raw = [0xABu8, 0xCD, 0xEF];
    let m = BlockMap::unpack(&raw, 2).unwrap();
    assert_eq!(m.get(2), 0xABC);
    assert_eq!(m.get(3), 0xDEF);

    let mut out = [0u8; 3];
    m.pack(&mut out);
    assert_eq!(out, raw);

    // A single entry only claims the first byte and the high nibble of the second.
    let m1 = BlockMap::unpack(&raw, 1).unwrap();
    assert_eq!(m1.get(2), 0xABC);
    assert_eq!(packed_len(1), 2);
}

#[test]
fn packed_len_rounds_on_nibbles() {
    assert_eq!(packed_len(0), 0);
    assert_eq!(packed_len(1), 2);
    assert_eq!(packed_len(2), 3);
    assert_eq!(packed_len(3), 5);
    assert_eq!(packed_len(4), 6);
    assert_eq!(packed_len(391), 587);
}

#[test]
fn entries_to_bytes_and_back_round_trips() {
    for n in [0u16, 1, 2, 3, 4, 5, 17, 100, 391, 0xFED] {
        let entries = random_entries(0x1234_5678 ^ n as u32, n);
        let m = map_of(&entries);
        let mut buf = vec![0u8; packed_len(n)];
        m.pack(&mut buf);
        let back = BlockMap::unpack(&buf, n).unwrap();
        assert_eq!(back, m, "entries round-trip failed for n = {n}");
        for (i, &v) in entries.iter().enumerate() {
            assert_eq!(back.get(i as u16 + FIRST_BLOCK), v);
        }
    }
}

#[test]
fn bytes_to_entries_and_back_round_trips() {
    for n in [1u16, 2, 3, 4, 5, 17, 100, 391] {
        let mut rng = Rng(0x9E37_79B9 ^ n as u32);
        let need = packed_len(n);
        let mut raw: Vec<u8> = (0..need).map(|_| rng.next() as u8).collect();
        // For an odd entry count the low nibble of the final byte belongs to
        // nobody, so it is not expected to survive a repack.
        if n % 2 == 1 {
            let last = need - 1;
            raw[last] &= 0xF0;
        }
        let m = BlockMap::unpack(&raw, n).unwrap();
        let mut out = vec![0u8; need];
        m.pack(&mut out);
        assert_eq!(out, raw, "byte round-trip failed for n = {n}");
    }
}

#[test]
fn pack_does_not_clobber_unowned_nibbles() {
    // Odd count: the last byte's low nibble must be left as the caller had it.
    let m = map_of(&[0x111, 0x222, 0x333]);
    let mut out = vec![0xFFu8; packed_len(3)];
    m.pack(&mut out);
    assert_eq!(out[3], 0x33);
    assert_eq!(out[4], 0x3F, "low nibble of the final byte was clobbered");
}

#[test]
fn unpack_ignores_trailing_padding() {
    let mut raw = vec![0u8; 512];
    raw[0..3].copy_from_slice(&[0xAB, 0xCD, 0xEF]);
    let m = BlockMap::unpack(&raw, 2).unwrap();
    assert_eq!(m.len(), 2);
    assert_eq!(m.get(3), 0xDEF);
}

#[test]
fn unpack_rejects_short_input() {
    let raw = [0u8; 4];
    assert!(matches!(
        BlockMap::unpack(&raw, 4), // needs 6
        Err(MfsError::CorruptVolume(_))
    ));
    // Exactly enough is fine, including the odd-count short final triplet.
    assert!(BlockMap::unpack(&raw[..2], 1).is_ok());
    assert!(BlockMap::unpack(&raw[..3], 2).is_ok());
}

#[test]
fn chain_follows_hand_built_chain() {
    // blocks 2 -> 5 -> 3 -> end; block 4 free; block 6 reserved
    let m = map_of(&[5, LAST, FREE, 3, RESERVED]); // entries for blocks 2,3,4,5,6
    assert_eq!(m.chain(2).unwrap(), vec![2, 5, 3]);
    // A one-block file.
    assert_eq!(m.chain(3).unwrap(), vec![3]);
}

#[test]
fn chain_rejects_bad_starts_and_bad_entries() {
    let m = map_of(&[5, LAST, FREE, 3, RESERVED]); // blocks 2..=6
    // Out of range on both ends.
    assert!(matches!(m.chain(0), Err(MfsError::CorruptVolume(_))));
    assert!(matches!(m.chain(1), Err(MfsError::CorruptVolume(_))));
    assert!(matches!(m.chain(7), Err(MfsError::CorruptVolume(_))));
    // Free block.
    assert!(matches!(m.chain(4), Err(MfsError::CorruptVolume(_))));
    // Reserved block.
    assert!(matches!(m.chain(6), Err(MfsError::CorruptVolume(_))));
}

#[test]
fn chain_detects_cycles() {
    // 2 -> 3 -> 2 -> ... forever
    let m = map_of(&[3, 2]);
    assert!(matches!(m.chain(2), Err(MfsError::CorruptVolume(_))));
    // Self-loop.
    let m = map_of(&[2, 1]);
    assert!(matches!(m.chain(2), Err(MfsError::CorruptVolume(_))));
    // A chain that walks off the end of the map.
    let m = map_of(&[9, 1]);
    assert!(matches!(m.chain(2), Err(MfsError::CorruptVolume(_))));
}

#[test]
fn allocate_links_a_chain_and_free_restores_the_count() {
    let mut m = BlockMap::new_empty(10);
    assert_eq!(m.free_count(), 10);

    let a = m.allocate(3).unwrap();
    assert_eq!(a, vec![2, 3, 4]);
    assert_eq!(m.get(2), 3);
    assert_eq!(m.get(3), 4);
    assert_eq!(m.get(4), LAST);
    assert_eq!(m.free_count(), 7);
    assert_eq!(m.chain(2).unwrap(), a);

    let b = m.allocate(2).unwrap();
    assert_eq!(b, vec![5, 6]);
    assert_eq!(m.free_count(), 5);

    // First-fit fills the hole left by a freed chain.
    m.free_chain(2).unwrap();
    assert_eq!(m.free_count(), 8);
    let c = m.allocate(4).unwrap();
    assert_eq!(c, vec![2, 3, 4, 7]);
    assert_eq!(m.chain(2).unwrap(), c);
    assert_eq!(m.free_count(), 4);

    // Everything freed again restores the original map exactly.
    m.free_chain(2).unwrap();
    m.free_chain(5).unwrap();
    assert_eq!(m.free_count(), 10);
    assert_eq!(m, BlockMap::new_empty(10));
}

#[test]
fn allocate_zero_is_a_no_op() {
    let mut m = BlockMap::new_empty(4);
    assert_eq!(m.allocate(0).unwrap(), Vec::<u16>::new());
    assert_eq!(m, BlockMap::new_empty(4));
}

#[test]
fn allocate_can_take_the_whole_map() {
    let mut m = BlockMap::new_empty(4);
    assert_eq!(m.allocate(4).unwrap(), vec![2, 3, 4, 5]);
    assert_eq!(m.free_count(), 0);
    assert_eq!(m.chain(2).unwrap(), vec![2, 3, 4, 5]);
}

#[test]
fn allocate_insufficient_reports_volume_full_and_changes_nothing() {
    let mut m = BlockMap::new_empty(5);
    m.allocate(3).unwrap(); // 2 free left
    let before = m.clone();
    match m.allocate(3) {
        Err(MfsError::VolumeFull { needed_blocks, free_blocks }) => {
            assert_eq!(needed_blocks, 3);
            assert_eq!(free_blocks, 2);
        }
        other => panic!("expected VolumeFull, got {other:?}"),
    }
    assert_eq!(m, before, "a failed allocation must not modify the map");
}

#[test]
fn free_chain_rejects_a_corrupt_chain_without_mutating() {
    let mut m = map_of(&[3, 2]); // cycle
    let before = m.clone();
    assert!(m.free_chain(2).is_err());
    assert_eq!(m, before);
}
