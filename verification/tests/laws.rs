//! What holds of several operations together, on concrete volumes.

use macfs::blockmap::BlockMap;
use macfs::dc42::Dc42Image;
use macfs::macroman::{decode, encode};
use macfs::mkfs::{format_at, geometry, Geometry};
use macfs::{Fork, ImageFormat, MacTimestamp, MfsError, MfsVolume};

fn blank(format: ImageFormat) -> MfsVolume {
    MfsVolume::format(MfsVolume::FLOPPY_400K, "Scratch", format).expect("format")
}

fn image(vol: &mut MfsVolume) -> Vec<u8> {
    let mut out = Vec::new();
    vol.save_to(&mut out).expect("save");
    out
}

fn filler(len: usize, seed: u8) -> Vec<u8> {
    (0..len).map(|i| (i as u8).wrapping_mul(31).wrapping_add(seed)).collect()
}

// ------------------------------------------------------------ opening and saving

/// Whatever the crate does not interpret comes back as it was: boot blocks, the
/// bytes behind the names, the padding behind the map, unused blocks.
#[test]
fn opening_and_saving_reproduces_every_byte() {
    let mut vol = blank(ImageFormat::Raw);
    vol.create_file("Kept", *b"TEXT", *b"MACA").unwrap();
    vol.write_fork("Kept", Fork::Data, &filler(3000, 1)).unwrap();
    let mut data = image(&mut vol);
    for i in 0..1024 {
        data[i] = (i % 251) as u8;
    }
    // Behind the volume name, behind the map (587 bytes of it, and the nibble
    // it does not own), behind the last directory entry, and in the tail.
    data[1024 + 50] = 0xEE;
    data[1088 + 586] |= 0x0D;
    data[1088 + 587] = 0xAB;
    data[2048 + 400] = 0xCD;
    data[409_599] = 0x99;
    let mut back = MfsVolume::open(data.clone()).unwrap();
    assert_eq!(image(&mut back), data);
    assert_eq!(image(&mut back), data, "a second save");
    assert_eq!(back.read_fork("kept", Fork::Data).unwrap(), filler(3000, 1));
}

/// The header of a container survives too, with whatever stands behind its
/// name.
#[test]
fn opening_and_saving_reproduces_the_container() {
    let mut bytes = image(&mut blank(ImageFormat::DiskCopy42));
    bytes[0] = 5;
    bytes[1..9].copy_from_slice(b"Namelost");
    bytes[63] = 0x77;
    bytes[80] = 9;
    bytes[81] = 0x44;
    let end = bytes.len();
    bytes[84 + 409_600] = 0xA5;
    assert_eq!(end, 84 + 409_600 + 9_600);
    let mut back = MfsVolume::open(bytes.clone()).unwrap();
    assert_eq!(image(&mut back), bytes);
    let parsed = Dc42Image::parse(&bytes).unwrap();
    assert_eq!(parsed.name, b"Namel");
    assert_eq!(&parsed.padding[..3], b"ost");
    assert_eq!(parsed.to_bytes(), bytes);

    // A change inside leaves the header's own parts alone.
    back.rename_volume("Changed").unwrap();
    let changed = image(&mut back);
    assert_eq!(changed[..64], bytes[..64]);
    assert_eq!(changed[80..82], bytes[80..82]);
    assert_eq!(changed[84 + 409_600..], bytes[84 + 409_600..]);
}

/// Saving writes over the beginning of what is there, and leaves the rest.
#[test]
fn saving_keeps_the_tail() {
    let mut vol = blank(ImageFormat::Raw);
    let bytes = image(&mut vol);
    let mut out = vec![0xFFu8; bytes.len() + 10];
    vol.save_to(&mut out).unwrap();
    assert_eq!(out[..bytes.len()], bytes[..]);
    assert_eq!(out[bytes.len()..], [0xFF; 10]);
    let mut out = vec![0xFFu8; 10];
    vol.save_to(&mut out).unwrap();
    assert_eq!(out, bytes);
}

/// A bare image that looks like a container is taken for one.
#[test]
fn a_bare_image_can_look_like_a_container() {
    let mut vol = blank(ImageFormat::Raw);
    let mut boot = [0u8; 1024];
    boot[64..68].copy_from_slice(&(409_600u32 - 84).to_be_bytes());
    boot[82..84].copy_from_slice(&0x0100u16.to_be_bytes());
    vol.set_boot_blocks(&boot).unwrap();
    let bytes = image(&mut vol);
    assert!(matches!(MfsVolume::open(bytes.clone()), Err(MfsError::Dc42(_))));
    let back = MfsVolume::open_with_format(bytes, ImageFormat::Raw).unwrap();
    assert_eq!(back.info().name, "Scratch");
}

// ----------------------------------------------------------- writing and reading

#[test]
fn what_was_written_is_read_back_and_nothing_else_changes() {
    let mut vol = blank(ImageFormat::DiskCopy42);
    for name in ["a", "b", "c"] {
        vol.create_file(name, *b"TEXT", *b"MACA").unwrap();
        vol.write_fork(name, Fork::Data, &filler(2500, name.as_bytes()[0])).unwrap();
        vol.write_fork(name, Fork::Resource, &filler(700, name.as_bytes()[0] + 1)).unwrap();
    }
    vol.write_fork("B", Fork::Data, &filler(9000, 7)).unwrap();
    let back = MfsVolume::open(image(&mut vol)).unwrap();
    assert_eq!(back.read_fork("b", Fork::Data).unwrap(), filler(9000, 7));
    assert_eq!(back.read_fork("b", Fork::Resource).unwrap(), filler(700, b'c'));
    assert_eq!(back.read_fork("a", Fork::Data).unwrap(), filler(2500, b'a'));
    assert_eq!(back.read_fork("c", Fork::Resource).unwrap(), filler(700, b'd'));
    assert!(back.check().is_empty());
}

/// Deleting what was written gives the map back as it was.
#[test]
fn deleting_undoes_writing() {
    let mut vol = blank(ImageFormat::Raw);
    let map = image(&mut vol)[1088..2048].to_vec();
    vol.create_file("Brief", *b"TEXT", *b"MACA").unwrap();
    vol.write_fork("Brief", Fork::Resource, &filler(5000, 3)).unwrap();
    assert_ne!(image(&mut vol)[1088..2048], map[..]);
    assert_eq!(vol.info().free_blocks, 386);
    vol.delete_file("brief").unwrap();
    assert_eq!(image(&mut vol)[1088..2048], map[..]);
    assert_eq!(vol.info().free_blocks, 391);
    assert_eq!(vol.info().file_count, 0);
}

/// A file whose resource fork is broken cannot be deleted, and nothing of it is
/// given back, its data fork included.
#[test]
fn deleting_a_broken_file_changes_nothing() {
    let mut vol = blank(ImageFormat::Raw);
    vol.create_file("Half", *b"TEXT", *b"MACA").unwrap();
    vol.write_fork("Half", Fork::Data, &filler(2000, 1)).unwrap();
    vol.write_fork("Half", Fork::Resource, &filler(2000, 2)).unwrap();
    let mut data = image(&mut vol);
    // The first block of the resource fork.
    data[2048 + 32..2048 + 34].copy_from_slice(&300u16.to_be_bytes());
    let mut vol = MfsVolume::open(data.clone()).unwrap();
    assert_eq!(
        vol.delete_file("Half").unwrap_err().to_string(),
        "corrupt MFS volume: block chain enters free block 300"
    );
    assert_eq!(vol.info().file_count, 1);
    assert_eq!(vol.read_fork("Half", Fork::Data).unwrap(), filler(2000, 1));
    assert_eq!(image(&mut vol), data);
}

/// Two forks that share a block cannot both be given back.
#[test]
fn deleting_a_file_with_shared_blocks_changes_nothing() {
    let mut vol = blank(ImageFormat::Raw);
    vol.create_file("Twin", *b"TEXT", *b"MACA").unwrap();
    vol.write_fork("Twin", Fork::Data, &filler(2000, 1)).unwrap();
    let mut data = image(&mut vol);
    data[2048 + 32..2048 + 34].copy_from_slice(&2u16.to_be_bytes());
    let mut vol = MfsVolume::open(data.clone()).unwrap();
    assert_eq!(
        vol.delete_file("Twin").unwrap_err().to_string(),
        "corrupt MFS volume: block chain enters free block 2"
    );
    assert_eq!(image(&mut vol), data);
}

/// A fork that has a length and no blocks is corrupt, not empty.
#[test]
fn a_fork_without_blocks_is_not_read_as_empty() {
    let mut vol = blank(ImageFormat::Raw);
    vol.create_file("Hollow", *b"TEXT", *b"MACA").unwrap();
    let mut data = image(&mut vol);
    data[2048 + 34..2048 + 38].copy_from_slice(&700u32.to_be_bytes());
    let vol = MfsVolume::open(data).unwrap();
    assert_eq!(vol.read_fork("Hollow", Fork::Data).unwrap(), Vec::<u8>::new());
    assert_eq!(
        vol.read_fork("hollow", Fork::Resource).unwrap_err().to_string(),
        "corrupt MFS volume: hollow: resource fork holds 700 bytes but its block chain only covers 0"
    );
}

/// A volume opened as what it was found to be is the same, and a new container
/// is refused as a bare image.
#[test]
fn a_container_is_not_a_bare_image() {
    let mut vol = blank(ImageFormat::DiskCopy42);
    let bytes = image(&mut vol);
    let found = MfsVolume::open(bytes.clone()).unwrap();
    let told = MfsVolume::open_with_format(bytes.clone(), found.info().format).unwrap();
    assert_eq!(told.info(), found.info());
    assert_eq!(told.files(), found.files());
    assert_eq!(told.boot_blocks(), found.boot_blocks());
    assert!(matches!(
        MfsVolume::open_with_format(bytes, ImageFormat::Raw),
        Err(MfsError::BadSignature { found: 0 })
    ));
}

/// Whatever is done to a new volume, refused calls among it, a check finds
/// nothing and the numbers of the files are those of their creation.
#[test]
fn a_long_history_leaves_a_volume_consistent() {
    let mut vol = blank(ImageFormat::DiskCopy42);
    vol.create_file("a", *b"TEXT", *b"MACA").unwrap();
    vol.create_file("b", *b"TEXT", *b"MACA").unwrap();
    assert!(vol.create_file("A", *b"TEXT", *b"MACA").is_err());
    vol.write_fork("a", Fork::Data, &filler(9000, 1)).unwrap();
    vol.write_fork("b", Fork::Resource, &filler(3000, 2)).unwrap();
    assert!(vol.write_fork("b", Fork::Data, &filler(400_000, 3)).is_err());
    vol.set_locked("b", true).unwrap();
    assert!(vol.delete_file("b").is_err());
    vol.set_locked("b", false).unwrap();
    vol.delete_file("b").unwrap();
    vol.rename_file("a", "z").unwrap();
    vol.rename_volume("Used").unwrap();
    let mut vol = MfsVolume::open(image(&mut vol)).unwrap();
    vol.create_file("c", *b"TEXT", *b"MACA").unwrap();
    vol.set_type_creator("c", *b"APPL", *b"MPNT").unwrap();
    let numbers: Vec<u32> = vol.files().iter().map(|f| f.file_num).collect();
    assert_eq!(numbers, [1, 3]);
    assert_eq!(vol.info().file_count as usize, vol.files().len());
    assert!(vol.check().is_empty());
}

/// Locking and unlocking a file changes just that.
#[test]
fn a_lock_changes_nothing_else() {
    let mut vol = blank(ImageFormat::Raw);
    vol.create_file("Key", *b"TEXT", *b"MACA").unwrap();
    vol.write_fork("Key", Fork::Data, &filler(1500, 4)).unwrap();
    let before = vol.files();
    vol.set_locked("key", true).unwrap();
    assert!(vol.file("Key").unwrap().locked);
    assert!(matches!(vol.delete_file("Key"), Err(MfsError::FileLocked(_))));
    assert!(matches!(vol.write_fork("Key", Fork::Resource, b"x"), Err(MfsError::FileLocked(_))));
    assert_eq!(vol.read_fork("Key", Fork::Data).unwrap(), filler(1500, 4));
    assert_eq!(vol.info().free_blocks, 389);
    vol.set_locked("Key", false).unwrap();
    assert_eq!(vol.files(), before);
    vol.write_fork("Key", Fork::Resource, b"x").unwrap();
    vol.delete_file("Key").unwrap();
}

/// Lengths and chains that disagree are reported, not papered over.
#[test]
fn a_short_chain_is_reported() {
    let mut vol = blank(ImageFormat::Raw);
    vol.create_file("Long", *b"TEXT", *b"MACA").unwrap();
    vol.write_fork("Long", Fork::Data, &filler(1500, 1)).unwrap();
    let mut data = image(&mut vol);
    data[2048 + 24..2048 + 28].copy_from_slice(&2049u32.to_be_bytes());
    let vol = MfsVolume::open(data).unwrap();
    assert_eq!(
        vol.read_fork("Long", Fork::Data).unwrap_err().to_string(),
        "corrupt MFS volume: Long: data fork holds 2049 bytes but its block chain only covers 2048"
    );
    assert_eq!(
        vol.check(),
        [
            "Long: data fork logical length 2049 exceeds its allocated length 2048",
            "Long: data fork logical length 2049 exceeds the 2048 bytes in its block chain",
        ]
    );
}

/// Every line a check can print, but for an entry that is not in use, which no
/// directory read from an image can hold.
#[test]
fn a_check_reports_every_kind_of_inconsistency() {
    let mut vol = blank(ImageFormat::Raw);
    for name in ["One", "Two", "Three"] {
        vol.create_file(name, *b"TEXT", *b"MACA").unwrap();
        vol.write_fork(name, Fork::Data, &filler(1500, 1)).unwrap();
    }
    assert!(vol.check().is_empty());
    let mut data = image(&mut vol);
    data[1024 + 12..1024 + 14].copy_from_slice(&9u16.to_be_bytes());
    data[1024 + 34..1024 + 36].copy_from_slice(&9u16.to_be_bytes());
    // The entries are 54 bytes long but for the last, which is 56. "Two" starts
    // where "One" does; "Three" starts nowhere; "One" claims too much.
    data[2048 + 54 + 22..2048 + 54 + 24].copy_from_slice(&2u16.to_be_bytes());
    data[2048 + 108 + 22..2048 + 108 + 24].copy_from_slice(&0u16.to_be_bytes());
    data[2048 + 28..2048 + 32].copy_from_slice(&4096u32.to_be_bytes());
    let vol = MfsVolume::open(data).unwrap();
    assert_eq!(
        vol.check(),
        [
            "drNmFls says 9 files, the directory holds 3",
            "drFreeBks says 9 free blocks, the allocation map has 385",
            "One: data fork claims 4096 allocated bytes but its chain of 2 blocks holds 2048",
            "Two: data fork shares allocation block 2 with One (data fork)",
            "Two: data fork shares allocation block 3 with One (data fork)",
            "Three: data fork has no blocks but claims 1500 bytes (2048 allocated)",
            "4 allocation blocks are marked in use but belong to no file",
        ]
    );
}

// --------------------------------------------------------------- times and names

#[test]
fn given_times_are_kept() {
    let mut vol = format_at(409_600, "Timed", ImageFormat::Raw, MacTimestamp(5)).unwrap();
    assert_eq!(vol.info().created, MacTimestamp(5));
    assert_eq!(vol.info().modified, MacTimestamp(5));
    vol.create_file_at("F", *b"TEXT", *b"MACA", MacTimestamp(6)).unwrap();
    vol.write_fork_at("F", Fork::Data, b"x", MacTimestamp(7)).unwrap();
    let f = vol.file("F").unwrap();
    assert_eq!((f.created, f.modified), (MacTimestamp(6), MacTimestamp(7)));
    assert_eq!(vol.info().modified, MacTimestamp(7));
    vol.set_type_creator_at("F", *b"APPL", *b"MPS ", MacTimestamp(8)).unwrap();
    vol.set_locked_at("F", true, MacTimestamp(9)).unwrap();
    vol.set_times_at("F", None, Some(MacTimestamp(1)), MacTimestamp(10)).unwrap();
    assert_eq!(vol.info().modified, MacTimestamp(10));
    let f = vol.file("F").unwrap();
    assert_eq!((f.created, f.modified), (MacTimestamp(6), MacTimestamp(1)));
    assert!(f.locked);
    vol.set_locked_at("F", false, MacTimestamp(11)).unwrap();
    vol.rename_file_at("F", "G", MacTimestamp(12)).unwrap();
    vol.rename_volume_at("Anew", MacTimestamp(13)).unwrap();
    assert_eq!(vol.info().modified, MacTimestamp(13));
    vol.delete_file_at("g", MacTimestamp(14)).unwrap();
    assert_eq!(vol.info().modified, MacTimestamp(14));
    assert_eq!(vol.info().created, MacTimestamp(5));
    assert_eq!(vol.info().name, "Anew");
}

#[test]
fn a_failed_operation_does_not_touch_the_time() {
    let mut vol = format_at(409_600, "Timed", ImageFormat::Raw, MacTimestamp(5)).unwrap();
    let before = image(&mut vol);
    assert!(vol.create_file("a:b", *b"TEXT", *b"MACA").is_err());
    assert!(vol.delete_file("none").is_err());
    assert!(vol.rename_file("none", "some").is_err());
    assert!(vol.rename_volume("").is_err());
    assert!(vol.set_locked("none", true).is_err());
    assert_eq!(vol.info().modified, MacTimestamp(5));
    assert_eq!(image(&mut vol), before);
}

/// Names fold by upper case, which may be more than one character.
#[test]
fn names_are_compared_in_upper_case() {
    let mut vol = blank(ImageFormat::Raw);
    vol.create_file("Stra\u{df}e", *b"TEXT", *b"MACA").unwrap();
    assert_eq!(vol.file("STRASSE").unwrap().name, "Stra\u{df}e");
    assert!(matches!(
        vol.create_file("strasse", *b"TEXT", *b"MACA"),
        Err(MfsError::FileExists(_))
    ));
}

#[test]
fn names_round_trip_through_macroman() {
    let bytes: Vec<u8> = (1u8..=255).filter(|&b| b != b':').collect();
    let text = decode(&bytes);
    assert_eq!(encode(&text).unwrap(), bytes);
    let mut vol = blank(ImageFormat::Raw);
    for chunk in bytes.chunks(60) {
        let name = decode(chunk);
        vol.create_file(&name, *b"TEXT", *b"MACA").unwrap();
    }
    let back = MfsVolume::open(image(&mut vol)).unwrap();
    for (f, chunk) in back.files().iter().zip(bytes.chunks(60)) {
        assert_eq!(f.name, decode(chunk));
    }
}

// ------------------------------------------------------------------- large disks

#[test]
fn layouts_of_large_disks() {
    assert_eq!(
        geometry(1 << 30).unwrap(),
        Geometry {
            dir_st: 3,
            dir_len: 32_763,
            al_bl_st: 32_766,
            n_blocks: 252,
            al_blk_siz: 4_194_304
        }
    );
    // From about 2 GB on, the numbers no longer fit in their fields and are cut.
    assert_eq!(
        geometry(4_294_966_784).unwrap(),
        Geometry {
            dir_st: 3,
            dir_len: 65_530,
            al_bl_st: 65_533,
            n_blocks: 252,
            al_blk_siz: 16_777_216
        }
    );
}

/// A volume with `blocks` allocation blocks of 512 bytes, and one empty file.
fn many_blocks(blocks: u16) -> MfsVolume {
    let dir_st = (1088 + (blocks as usize * 3).div_ceil(2)).div_ceil(512);
    let start = dir_st + 1;
    let mut data = vec![0u8; (start + blocks as usize) * 512];
    data[1024..1026].copy_from_slice(&0xD2D7u16.to_be_bytes());
    data[1038..1040].copy_from_slice(&(dir_st as u16).to_be_bytes());
    data[1040..1042].copy_from_slice(&1u16.to_be_bytes());
    data[1042..1044].copy_from_slice(&blocks.to_be_bytes());
    data[1044..1048].copy_from_slice(&512u32.to_be_bytes());
    data[1052..1054].copy_from_slice(&(start as u16).to_be_bytes());
    let mut vol = MfsVolume::open(data).expect("open");
    vol.create_file("File", *b"TEXT", *b"MACA").unwrap();
    vol
}

/// Block numbers from 0xFFF on do not fit in a map entry, so a chain that
/// reaches one cannot be followed; up to there, all is well.
#[test]
fn chains_reach_as_far_as_a_map_entry() {
    let mut vol = many_blocks(4100);
    let all = filler(4093 * 512, 5);
    vol.write_fork("File", Fork::Data, &all).unwrap();
    assert_eq!(vol.read_fork("File", Fork::Data).unwrap(), all);
    assert!(vol.check().is_empty());
    vol.write_fork("File", Fork::Data, &filler(4094 * 512, 5)).unwrap();
    assert_eq!(
        vol.read_fork("File", Fork::Data).unwrap_err().to_string(),
        "corrupt MFS volume: block chain enters reserved block 4094"
    );
}

/// The last block of the largest map has no number, so nothing can be written
/// to it.
#[test]
fn the_last_block_of_the_largest_map_has_no_number() {
    let mut vol = many_blocks(65_535);
    let whole = 65_535 * 512;
    assert!(vol.can_represent("File", Fork::Data, whole - 512));
    assert!(!vol.can_represent("File", Fork::Data, whole));
    let free = vol.info().free_blocks;
    assert!(vol.try_write_fork("File", Fork::Data, &vec![0u8; whole]).is_none());
    assert_eq!(vol.info().free_blocks, free);
    assert_eq!(vol.file("File").unwrap().data_len, 0);
    assert!(vol.try_write_fork("File", Fork::Data, b"small").unwrap().is_ok());
    assert_eq!(vol.read_fork("File", Fork::Data).unwrap(), b"small");
    // What is not there at all, or too much in any case, is refused as ever.
    assert!(vol.can_represent("Nothing", Fork::Data, whole));
    assert!(vol.can_represent("File", Fork::Data, whole + 512));
}

#[test]
fn the_end_of_the_largest_map() {
    let mut map = BlockMap::new_empty(65_535);
    assert!(map.ends_free());
    assert_eq!(map.allocate(65_534).unwrap().len(), 65_534);
    assert!(map.ends_free());
    assert!(!BlockMap::new_empty(65_534).ends_free());
}
