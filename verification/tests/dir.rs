use macfs::dir::{
    entry_len_for, fits, parse_directory, plan, write_directory, RawEntry, FIXED_LEN, FLAG_IN_USE,
    FLAG_LOCKED, SECTOR,
};
use macfs::MfsError;

fn entry(fnum: u32, name: &str) -> RawEntry {
    RawEntry {
        flags: FLAG_IN_USE,
        version: 0,
        type_code: *b"TEXT",
        creator: *b"MACA",
        fndr_flags: 0x0100,
        pos: 0,
        fldr_num: 0,
        fnum,
        df_st_blk: 2,
        df_log_len: 1234,
        df_alloc_len: 2048,
        rf_st_blk: 0,
        rf_log_len: 0,
        rf_alloc_len: 0,
        cr_dat: 0xA1B2_C3D4,
        md_dat: 0xA1B2_C3E8,
        name: name.as_bytes().to_vec(),
    }
}

/// An entry with every field distinct, to catch swapped offsets.
fn rich_entry(name: &str) -> RawEntry {
    RawEntry {
        flags: FLAG_IN_USE | FLAG_LOCKED,
        version: 0x5A,
        type_code: *b"APPL",
        creator: *b"MPS ",
        fndr_flags: 0x1234,
        pos: 0x1122_3344,
        fldr_num: 0x5566,
        fnum: 0x7788_99AA,
        df_st_blk: 0x00BC,
        df_log_len: 0x0102_0304,
        df_alloc_len: 0x0506_0708,
        rf_st_blk: 0x00DE,
        rf_log_len: 0x090A_0B0C,
        rf_alloc_len: 0x0D0E_0F10,
        cr_dat: 0x1112_1314,
        md_dat: 0x1516_1718,
        name: name.as_bytes().to_vec(),
    }
}

#[test]
fn entry_len_is_even_padded() {
    assert_eq!(entry_len_for(0), 52);
    assert_eq!(entry_len_for(1), 52);
    assert_eq!(entry_len_for(2), 54);
    assert_eq!(entry_len_for(3), 54);
    assert_eq!(entry_len_for(4), 56);
    assert_eq!(entry_len_for(5), 56);
    // An entry always has room for its fixed part plus the name.
    for n in 0..=255usize {
        assert!(entry_len_for(n) >= FIXED_LEN + n);
        assert_eq!(entry_len_for(n) % 2, 0);
    }
}

#[test]
fn flag_accessors() {
    let mut e = entry(1, "x");
    assert!(e.in_use());
    assert!(!e.locked());
    e.flags |= FLAG_LOCKED;
    assert!(e.locked());
    e.flags = 0;
    assert!(!e.in_use());
}

#[test]
fn round_trips_mixed_name_lengths() {
    let entries: Vec<RawEntry> = [
        "A",           // odd
        "AB",          // even
        "System",      // even
        "Finder",      // even
        "MacPaint!",   // odd
        "a very long file name of thirty-nine ch", // odd, 39
        "a very long file name of forty chars ok!", // even, 40
    ]
    .iter()
    .enumerate()
    .map(|(i, n)| numbered(rich_entry(n), i as u32 + 1))
    .collect();

    let mut region = vec![0u8; SECTOR * 4];
    write_directory(&entries, &mut region).unwrap();
    let back = parse_directory(&region).unwrap();
    assert_eq!(back, entries);
}

/// The entry with another file number.
fn numbered(mut e: RawEntry, n: u32) -> RawEntry {
    e.fnum = n;
    e
}

#[test]
fn empty_directory_round_trips() {
    let mut region = vec![0xFFu8; SECTOR * 2];
    write_directory(&[], &mut region).unwrap();
    assert!(region.iter().all(|&b| b == 0));
    assert_eq!(parse_directory(&region).unwrap(), Vec::<RawEntry>::new());
}

#[test]
fn entries_exactly_filling_a_sector() {
    // 512 = 52 * 8 + 96; use names sized so the total hits 512 exactly:
    // seven 52-byte entries (name len 0 or 1) = 364, plus one 148-byte
    // entry (name len 96 -> 51 + 96 + 1 = 148).
    let mut entries: Vec<RawEntry> = (0..7).map(|i| entry(i, "x")).collect();
    entries.push(entry(7, &"n".repeat(96)));
    let total: usize = entries.iter().map(|e| e.entry_len()).sum();
    assert_eq!(total, SECTOR);

    assert!(fits(&entries, 1));
    let mut region = vec![0u8; SECTOR];
    write_directory(&entries, &mut region).unwrap();
    // Every byte is used: no terminator needed, the sector simply ends.
    assert_eq!(parse_directory(&region).unwrap(), entries);
}

#[test]
fn oversized_entry_starts_a_new_sector() {
    // Nine 52-byte entries fill 468 bytes; 44 remain, too few for a 52-byte
    // entry, so the tenth must move to sector 1.
    let mut entries: Vec<RawEntry> = (0..9).map(|i| entry(i, "x")).collect();
    entries.push(entry(9, "spills"));
    let mut region = vec![0u8; SECTOR * 2];
    write_directory(&entries, &mut region).unwrap();

    assert_eq!(region[9 * 52], 0, "sector 0 remainder must be zero padding");
    assert_ne!(region[SECTOR], 0, "the tenth entry belongs in sector 1");
    assert_eq!(region[SECTOR + 50] as usize, "spills".len());
    assert_eq!(parse_directory(&region).unwrap(), entries);
}

#[test]
fn directory_full_at_exact_capacity() {
    // Each entry is 52 bytes; nine fit per 512-byte sector (468 bytes used).
    let make = |n: u32| -> Vec<RawEntry> { (0..n).map(|i| entry(i, "x")).collect() };

    let nine = make(9);
    assert!(fits(&nine, 1));
    let mut region = vec![0u8; SECTOR];
    assert!(write_directory(&nine, &mut region).is_ok());
    assert_eq!(parse_directory(&region).unwrap().len(), 9);

    let ten = make(10);
    assert!(!fits(&ten, 1));
    let mut region = vec![0u8; SECTOR];
    assert!(matches!(
        write_directory(&ten, &mut region),
        Err(MfsError::DirectoryFull)
    ));

    // Two sectors hold exactly eighteen.
    assert!(fits(&make(18), 2));
    assert!(!fits(&make(19), 2));
    // Zero sectors hold nothing but the empty list.
    assert!(fits(&[], 0));
    assert!(!fits(&make(1), 0));
}

#[test]
fn failed_write_leaves_the_region_untouched() {
    let mut region = vec![0xAAu8; SECTOR];
    let entries: Vec<RawEntry> = (0..10).map(|i| entry(i, "x")).collect();
    assert!(write_directory(&entries, &mut region).is_err());
    assert!(region.iter().all(|&b| b == 0xAA));
}

#[test]
fn terminator_stops_parsing_before_garbage() {
    let mut region = vec![0u8; SECTOR * 2];
    // One real entry at the start of sector 0.
    write_directory(&[rich_entry("Real")], &mut region).unwrap();
    let one_len = entry_len_for(4);
    // Zero terminator (already there), then garbage that would look like an
    // entry if the parser kept scanning.
    for (i, b) in region[one_len + 1..SECTOR].iter_mut().enumerate() {
        *b = if i % 3 == 0 { 0xFF } else { i as u8 };
    }
    // Sector 1 has a valid entry, which must still be found.
    let mut sector1 = vec![0u8; SECTOR];
    write_directory(&[rich_entry("Second")], &mut sector1).unwrap();
    region[SECTOR..].copy_from_slice(&sector1);

    let back = parse_directory(&region).unwrap();
    assert_eq!(back, vec![rich_entry("Real"), rich_entry("Second")]);
}

#[test]
fn rejects_region_that_is_not_whole_sectors() {
    let mut region = vec![0u8; SECTOR + 1];
    assert!(matches!(
        parse_directory(&region),
        Err(MfsError::CorruptVolume(_))
    ));
    assert!(matches!(
        write_directory(&[], &mut region),
        Err(MfsError::CorruptVolume(_))
    ));
}

#[test]
fn rejects_entry_overrunning_its_sector() {
    let mut region = vec![0u8; SECTOR];
    // Eight 52-byte entries end at 416; there is room for the parser to read
    // a ninth header there, so hand-plant one whose name runs past the end.
    let entries: Vec<RawEntry> = (0..8).map(|i| entry(i, "x")).collect();
    write_directory(&entries, &mut region).unwrap();
    let pos = 8 * 52; // 416; 416 + 51 <= 512, so the parser will look
    region[pos] = FLAG_IN_USE;
    region[pos + 50] = 200; // entry_len 252 -> 416 + 252 overruns the sector
    assert!(matches!(
        parse_directory(&region),
        Err(MfsError::CorruptVolume(_))
    ));
}

#[test]
fn parser_ignores_a_trailing_stub_too_small_for_an_entry() {
    // 468 bytes used leaves 44 < 51: even a set flags byte there is padding
    // the parser must not try to decode.
    let entries: Vec<RawEntry> = (0..9).map(|i| entry(i, "x")).collect();
    let mut region = vec![0u8; SECTOR];
    write_directory(&entries, &mut region).unwrap();
    region[9 * 52] = 0xFF;
    region[SECTOR - 1] = 0xFF;
    assert_eq!(parse_directory(&region).unwrap(), entries);
}

/// Two regions, one behind the other, hold the entries of both in order.
#[test]
fn joined_regions_hold_the_entries_of_both() {
    let mut first = vec![0u8; 2 * SECTOR];
    let mut second = vec![0u8; SECTOR];
    write_directory(&[entry(1, "a"), entry(2, "bb")], &mut first).unwrap();
    write_directory(&[rich_entry("ccc")], &mut second).unwrap();
    let both = [first, second].concat();
    assert_eq!(
        parse_directory(&both).unwrap(),
        [entry(1, "a"), entry(2, "bb"), rich_entry("ccc")]
    );
}

/// No entry is put later than it has to be, and none across two sectors.
#[test]
fn entries_are_packed_as_tightly_as_their_order_allows() {
    let long = "n".repeat(255);
    let entries = [entry(1, "a"), entry(2, &long), entry(3, &long), entry(4, "b")];
    // 52 and 306 bytes leave 154 in the first sector.
    assert_eq!(plan(&entries, 2), Some(vec![0, 52, 512, 818]));
    assert_eq!(plan(&entries, 1), None);
}
