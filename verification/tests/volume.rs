use macfs::dc42::Dc42Image;
use macfs::{Fork, ImageFormat, MacTimestamp, MfsError, MfsVolume};

fn save_bytes(vol: &mut MfsVolume) -> Vec<u8> {
    let mut out = Vec::new();
    vol.save_to(&mut out).expect("save");
    out
}

/// The volume as it reads back with some bytes of its bare image replaced.
fn patched(vol: &mut MfsVolume, at: usize, bytes: &[u8]) -> MfsVolume {
    let mut image = save_bytes(vol);
    image[at..at + bytes.len()].copy_from_slice(bytes);
    MfsVolume::open_with_format(image, ImageFormat::Raw).expect("reopen")
}

/// Deterministic filler so a misplaced block is impossible to miss.
fn pattern(len: usize, seed: u32) -> Vec<u8> {
    let mut x = seed | 1;
    (0..len)
        .map(|_| {
            x ^= x << 13;
            x ^= x >> 17;
            x ^= x << 5;
            x as u8
        })
        .collect()
}

#[test]
fn create_write_save_reopen_round_trip() {
    for (size, format) in [
        (MfsVolume::FLOPPY_400K, ImageFormat::Raw),
        (MfsVolume::FLOPPY_400K, ImageFormat::DiskCopy42),
        (MfsVolume::FLOPPY_800K, ImageFormat::Raw),
    ] {
        let mut vol = MfsVolume::format(size, "Scratch", format).unwrap();
        let blk = vol.info().alloc_block_size as usize;
        let cases: Vec<(String, Vec<u8>, Vec<u8>)> = [0usize, 1, blk - 1, blk, blk + 1, 100_000]
            .iter()
            .enumerate()
            .map(|(i, &n)| {
                (
                    format!("File {i}"),
                    pattern(n, i as u32 + 0x1234),
                    pattern(n / 2, i as u32 + 0x9876),
                )
            })
            .collect();

        for (name, data, rsrc) in &cases {
            vol.create_file(name, *b"TEXT", *b"MACA").unwrap();
            vol.write_fork(name, Fork::Data, data).unwrap();
            vol.write_fork(name, Fork::Resource, rsrc).unwrap();
        }
        assert!(vol.check().is_empty(), "{:?}", vol.check());

        let image = save_bytes(&mut vol);
        let back = MfsVolume::open(image).unwrap();
        assert_eq!(back.info().format, format);
        assert_eq!(back.info().name, "Scratch");
        assert_eq!(back.info().file_count as usize, cases.len());
        assert!(back.check().is_empty(), "{:?}", back.check());

        for (i, (name, data, rsrc)) in cases.iter().enumerate() {
            assert_eq!(&back.read_fork(name, Fork::Data).unwrap(), data, "{name}");
            assert_eq!(&back.read_fork(name, Fork::Resource).unwrap(), rsrc, "{name}");
            let e = back.file(name).unwrap();
            assert_eq!(e.data_len as usize, data.len());
            assert_eq!(e.rsrc_len as usize, rsrc.len());
            assert_eq!(e.data_alloc as usize, data.len().div_ceil(blk) * blk);
            assert_eq!(e.file_num, i as u32 + 1, "file numbers count up from 1");
            assert_eq!(&e.type_code, b"TEXT");
        }
    }
}

#[test]
fn delete_restores_free_blocks() {
    let mut vol = MfsVolume::format(MfsVolume::FLOPPY_400K, "Scratch", ImageFormat::Raw).unwrap();
    let before = vol.info().free_blocks;
    vol.create_file("Doomed", *b"TEXT", *b"MACA").unwrap();
    vol.write_fork("Doomed", Fork::Data, &pattern(30_000, 7)).unwrap();
    vol.write_fork("Doomed", Fork::Resource, &pattern(5_000, 9)).unwrap();
    assert_eq!(vol.info().free_blocks, before - 30 - 5);
    assert_eq!(vol.info().file_count, 1);

    vol.delete_file("DOOMED").unwrap();
    assert_eq!(vol.info().free_blocks, before);
    assert_eq!(vol.info().file_count, 0);
    assert!(matches!(vol.file("Doomed"), Err(MfsError::FileNotFound(_))));
    assert!(vol.check().is_empty(), "{:?}", vol.check());

    // The file number is not recycled.
    vol.create_file("Fresh", *b"TEXT", *b"MACA").unwrap();
    assert_eq!(vol.file("Fresh").unwrap().file_num, 2);
}

#[test]
fn overwriting_a_fork_frees_the_old_chain() {
    let mut vol = MfsVolume::format(MfsVolume::FLOPPY_400K, "Scratch", ImageFormat::Raw).unwrap();
    let free = vol.info().free_blocks;
    vol.create_file("Notes", *b"TEXT", *b"MACA").unwrap();
    vol.write_fork("Notes", Fork::Data, &pattern(50_000, 3)).unwrap();
    assert_eq!(vol.info().free_blocks, free - 49);
    vol.write_fork("Notes", Fork::Data, b"tiny").unwrap();
    assert_eq!(vol.info().free_blocks, free - 1);
    assert_eq!(vol.read_fork("Notes", Fork::Data).unwrap(), b"tiny");
    // An empty write releases the fork entirely.
    vol.write_fork("Notes", Fork::Data, &[]).unwrap();
    assert_eq!(vol.info().free_blocks, free);
    assert!(vol.read_fork("Notes", Fork::Data).unwrap().is_empty());
    assert_eq!(vol.file("Notes").unwrap().data_alloc, 0);
    assert!(vol.check().is_empty(), "{:?}", vol.check());
}

#[test]
fn volume_full_leaves_the_volume_untouched() {
    let mut vol = MfsVolume::format(MfsVolume::FLOPPY_400K, "Scratch", ImageFormat::Raw).unwrap();
    vol.create_file("Big", *b"TEXT", *b"MACA").unwrap();
    let keep = pattern(200_000, 5);
    vol.write_fork("Big", Fork::Data, &keep).unwrap();
    let before_free = vol.info().free_blocks;
    let before_image = save_bytes(&mut vol);

    // One byte more than the whole volume holds.
    match vol.write_fork("Big", Fork::Data, &vec![0u8; 391 * 1024 + 1]) {
        Err(MfsError::VolumeFull { needed_blocks, free_blocks }) => {
            assert_eq!(needed_blocks, 392);
            // The blocks the fork already owns count towards the write.
            assert_eq!(free_blocks, 391);
        }
        other => panic!("expected VolumeFull, got {other:?}"),
    }
    assert_eq!(vol.info().free_blocks, before_free);
    assert_eq!(vol.read_fork("Big", Fork::Data).unwrap(), keep);
    assert_eq!(save_bytes(&mut vol), before_image, "failed write changed the image");
}

#[test]
fn directory_full_is_reported_before_anything_changes() {
    let mut vol = MfsVolume::format(MfsVolume::FLOPPY_400K, "Scratch", ImageFormat::Raw).unwrap();
    // 12 sectors hold nine 52-byte entries each.
    for i in 0..108 {
        vol.create_file(&format!("f{i}"), *b"TEXT", *b"MACA").unwrap();
    }
    assert_eq!(vol.info().file_count, 108);
    let before = save_bytes(&mut vol);
    assert!(matches!(vol.create_file("one too many", *b"TEXT", *b"MACA"), Err(MfsError::DirectoryFull)));
    assert_eq!(vol.info().file_count, 108);
    assert_eq!(save_bytes(&mut vol), before);
    // A rename that would grow an entry past the end fails the same way.
    assert!(matches!(
        vol.rename_file("f0", &"n".repeat(63)),
        Err(MfsError::DirectoryFull)
    ));
    assert_eq!(vol.file("f0").unwrap().name, "f0");
}

#[test]
fn duplicate_and_invalid_names_are_rejected() {
    let mut vol = MfsVolume::format(MfsVolume::FLOPPY_400K, "Scratch", ImageFormat::Raw).unwrap();
    vol.create_file("README", *b"TEXT", *b"MACA").unwrap();
    assert!(matches!(
        vol.create_file("readme", *b"TEXT", *b"MACA"),
        Err(MfsError::FileExists(_))
    ));
    assert_eq!(vol.info().file_count, 1);

    for bad in ["", "has:colon", &"x".repeat(64), "\u{4F60}"] {
        assert!(
            matches!(vol.create_file(bad, *b"TEXT", *b"MACA"), Err(MfsError::InvalidName(_))),
            "{bad:?} should be rejected"
        );
    }
    // 63 bytes is fine, and so are MacRoman accents.
    vol.create_file(&"x".repeat(63), *b"TEXT", *b"MACA").unwrap();
    vol.create_file("Caf\u{e9}", *b"TEXT", *b"MACA").unwrap();
    assert_eq!(vol.file("CAF\u{c9}").unwrap().name, "Caf\u{e9}");

    assert!(matches!(vol.read_fork("nope", Fork::Data), Err(MfsError::FileNotFound(_))));
}

#[test]
fn renaming_and_setters() {
    let mut vol = MfsVolume::format(MfsVolume::FLOPPY_400K, "Scratch", ImageFormat::Raw).unwrap();
    vol.create_file("Old Name", *b"TEXT", *b"MACA").unwrap();
    vol.create_file("Other", *b"TEXT", *b"MACA").unwrap();
    vol.write_fork("Old Name", Fork::Data, b"payload").unwrap();

    assert!(matches!(vol.rename_file("Old Name", "OTHER"), Err(MfsError::FileExists(_))));
    // Renaming to a different case of the same name is allowed.
    vol.rename_file("Old Name", "OLD NAME").unwrap();
    vol.rename_file("old name", "New Name").unwrap();
    assert_eq!(vol.file("new name").unwrap().name, "New Name");
    assert_eq!(vol.read_fork("New Name", Fork::Data).unwrap(), b"payload");

    vol.set_type_creator("New Name", *b"APPL", *b"MPS ").unwrap();
    vol.set_times("New Name", Some(MacTimestamp(1)), Some(MacTimestamp(2))).unwrap();
    let e = vol.file("New Name").unwrap();
    assert_eq!((&e.type_code, &e.creator), (b"APPL", b"MPS "));
    assert_eq!((e.created, e.modified), (MacTimestamp(1), MacTimestamp(2)));
    assert!(!e.locked);

    vol.rename_volume("Renamed").unwrap();
    assert_eq!(vol.info().name, "Renamed");
    assert!(matches!(vol.rename_volume(&"v".repeat(28)), Err(MfsError::InvalidName(_))));
    assert_eq!(vol.info().name, "Renamed");

    // Everything survives a save/reopen.
    let back = MfsVolume::open(save_bytes(&mut vol)).unwrap();
    assert_eq!(back.info().name, "Renamed");
    assert_eq!(back.file("New Name").unwrap(), e);
}

#[test]
fn locks_are_honoured() {
    let mut vol = MfsVolume::format(MfsVolume::FLOPPY_400K, "Scratch", ImageFormat::Raw).unwrap();
    vol.create_file("Precious", *b"TEXT", *b"MACA").unwrap();
    vol.write_fork("Precious", Fork::Data, b"keep me").unwrap();
    vol.set_locked("Precious", true).unwrap();
    assert!(vol.file("Precious").unwrap().locked);

    assert!(matches!(vol.delete_file("Precious"), Err(MfsError::FileLocked(_))));
    assert!(matches!(
        vol.write_fork("Precious", Fork::Data, b"nope"),
        Err(MfsError::FileLocked(_))
    ));
    assert_eq!(vol.read_fork("Precious", Fork::Data).unwrap(), b"keep me");

    vol.set_locked("Precious", false).unwrap();
    vol.delete_file("Precious").unwrap();

    // A software-locked volume refuses every mutation.
    let mut vol = patched(&mut vol, 1024 + 10, &0x0080u16.to_be_bytes());
    assert!(matches!(vol.create_file("x", *b"TEXT", *b"MACA"), Err(MfsError::VolumeLocked)));
    assert!(matches!(vol.rename_volume("x"), Err(MfsError::VolumeLocked)));
    let mut vol = patched(&mut vol, 1024 + 10, &0x8000u16.to_be_bytes());
    assert!(matches!(vol.create_file("x", *b"TEXT", *b"MACA"), Err(MfsError::VolumeLocked)));
    // ...but reading still works.
    assert_eq!(vol.files().len(), 0);
}

#[test]
fn format_autodetection() {
    let mut raw = MfsVolume::format(MfsVolume::FLOPPY_400K, "R", ImageFormat::Raw).unwrap();
    let raw_bytes = save_bytes(&mut raw);
    assert_eq!(raw_bytes.len(), MfsVolume::FLOPPY_400K as usize);
    assert_eq!(
        MfsVolume::open(raw_bytes.clone()).unwrap().info().format,
        ImageFormat::Raw
    );

    let mut dc = MfsVolume::format(MfsVolume::FLOPPY_400K, "D", ImageFormat::DiskCopy42).unwrap();
    let dc_bytes = save_bytes(&mut dc);
    // 84-byte header, disk data, and 12 tag bytes per sector.
    assert_eq!(dc_bytes.len(), 84 + 409_600 + 9_600);
    let reopened = MfsVolume::open(dc_bytes.clone()).unwrap();
    assert_eq!(reopened.info().format, ImageFormat::DiskCopy42);
    assert_eq!(reopened.info().name, "D");
    // Re-saving is byte-identical for a fresh volume too.
    let mut reopened = reopened;
    assert_eq!(save_bytes(&mut reopened), dc_bytes);

    // Forcing the wrong interpretation is an error, not a wrong answer.
    assert!(MfsVolume::open_with_format(dc_bytes, ImageFormat::Raw).is_err());
    assert!(MfsVolume::open_with_format(raw_bytes, ImageFormat::DiskCopy42).is_err());
}

#[test]
fn unrecognized_images_are_rejected() {
    assert!(matches!(
        MfsVolume::open(vec![0u8; 409_600]),
        Err(MfsError::UnknownImageFormat)
    ));
    assert!(matches!(
        MfsVolume::open(Vec::new()),
        Err(MfsError::UnknownImageFormat)
    ));
}

#[test]
fn hfs_images_are_reported_unsupported() {
    // A raw HFS volume: MFS's MDB offset holds HFS's signature.
    let mut hfs = vec![0u8; 409_600];
    hfs[1024] = 0x42;
    hfs[1025] = 0x44;
    assert!(matches!(
        MfsVolume::open(hfs.clone()),
        Err(MfsError::UnsupportedHfs)
    ));
    // Forcing the raw format reaches the same verdict via the MDB parse.
    assert!(matches!(
        MfsVolume::open_with_format(hfs, ImageFormat::Raw),
        Err(MfsError::UnsupportedHfs)
    ));

    // A DiskCopy 4.2 container wrapping an HFS volume.
    let mut data = vec![0u8; 409_600];
    data[1024] = 0x42;
    data[1025] = 0x44;
    let dc_bytes = Dc42Image::new_blank(b"HFS Disk", data)
        .unwrap()
        .to_bytes();
    assert!(matches!(
        MfsVolume::open(dc_bytes),
        Err(MfsError::UnsupportedHfs)
    ));
}

#[test]
fn truncated_image_is_corrupt_not_a_panic() {
    let mut vol = MfsVolume::format(MfsVolume::FLOPPY_400K, "R", ImageFormat::Raw).unwrap();
    let bytes = save_bytes(&mut vol);
    // 1056: too short for the MDB. 2048/4096: the directory is cut off.
    // 8192/100_000/408_064: the allocation area is cut off.
    for len in [1024 + 32, 2048, 4096, 8192, 100_000, 408_064] {
        let err = MfsVolume::open_with_format(bytes[..len].to_vec(), ImageFormat::Raw);
        assert!(err.is_err(), "a {len}-byte image should not open");
    }
}

#[test]
fn check_reports_a_broken_chain() {
    let mut vol = MfsVolume::format(MfsVolume::FLOPPY_400K, "R", ImageFormat::Raw).unwrap();
    vol.create_file("Broken", *b"TEXT", *b"MACA").unwrap();
    vol.write_fork("Broken", Fork::Data, &pattern(4000, 11)).unwrap();
    assert!(vol.check().is_empty());

    // Point the entry at a block that is not allocated at all.
    let vol = patched(&mut vol, 4 * 512 + 22, &300u16.to_be_bytes());
    let problems = vol.check();
    assert_eq!(problems.len(), 2, "{problems:?}");
    assert!(problems[0].contains("chain is broken"), "{problems:?}");
    assert!(problems[1].contains("belong to no file"), "{problems:?}");
    assert!(matches!(vol.read_fork("Broken", Fork::Data), Err(MfsError::CorruptVolume(_))));

    // Stale counters are reported too.
    let mut vol = MfsVolume::format(MfsVolume::FLOPPY_400K, "R", ImageFormat::Raw).unwrap();
    let mut vol = patched(&mut vol, 1024 + 12, &3u16.to_be_bytes());
    let vol = patched(&mut vol, 1024 + 34, &7u16.to_be_bytes());
    assert_eq!(vol.check().len(), 2);
}

#[test]
fn boot_blocks_round_trip() {
    let mut vol =
        MfsVolume::format(MfsVolume::FLOPPY_400K, "Bootable", ImageFormat::Raw).unwrap();
    // A freshly formatted volume is a plain data disk.
    assert_eq!(vol.boot_blocks().len(), 1024);
    assert!(vol.boot_blocks().iter().all(|&b| b == 0));

    let mut code = [0u8; 1024];
    code[..2].copy_from_slice(&0x4C4Bu16.to_be_bytes()); // 'LK'
    code[2..1024].copy_from_slice(&pattern(1022, 0x5EED));
    vol.set_boot_blocks(&code).unwrap();
    assert_eq!(vol.boot_blocks(), code);

    // The filesystem is untouched by the swap.
    vol.create_file("Payload", *b"TEXT", *b"MACA").unwrap();
    vol.write_fork("Payload", Fork::Data, b"still fine").unwrap();

    let back = MfsVolume::open(save_bytes(&mut vol)).unwrap();
    assert_eq!(back.boot_blocks(), code);
    assert_eq!(&back.boot_blocks()[..2], b"LK");
    assert_eq!(back.read_fork("Payload", Fork::Data).unwrap(), b"still fine");
    assert!(back.check().is_empty(), "{:?}", back.check());

    // Installing boot code is not a filesystem modification.
    let mut fresh =
        MfsVolume::format(MfsVolume::FLOPPY_400K, "Bootable", ImageFormat::Raw).unwrap();
    let ls_mod = fresh.info().modified;
    fresh.set_boot_blocks(&code).unwrap();
    assert_eq!(fresh.info().modified, ls_mod, "drLsMod must not move");

    // A locked volume refuses the write.
    let mut fresh = patched(&mut fresh, 1024 + 10, &0x8000u16.to_be_bytes());
    assert!(matches!(fresh.set_boot_blocks(&[0u8; 1024]), Err(MfsError::VolumeLocked)));
    assert_eq!(fresh.boot_blocks(), code);
}
