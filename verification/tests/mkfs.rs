use macfs::mkfs::{
    geometry, map_bytes, Geometry, MAX_BLOCKS, MIN_SIZE, RESERVED_TAIL_SECTORS, SECTOR,
};
use macfs::{ImageFormat, MfsError, MfsVolume};

#[test]
fn apple_400k_geometry() {
    let g = geometry(MfsVolume::FLOPPY_400K).unwrap();
    assert_eq!(
        g,
        Geometry { dir_st: 4, dir_len: 12, al_bl_st: 16, n_blocks: 391, al_blk_siz: 1024 }
    );
}

#[test]
fn apple_800k_geometry() {
    let g = geometry(MfsVolume::FLOPPY_800K).unwrap();
    assert_eq!(
        g,
        Geometry { dir_st: 4, dir_len: 26, al_bl_st: 30, n_blocks: 392, al_blk_siz: 2048 }
    );
}

#[test]
fn geometry_is_self_consistent_across_sizes() {
    for sectors in [200u32, 201, 400, 800, 801, 1600, 2880, 4000, 20_000] {
        let size = sectors * SECTOR;
        if size < MIN_SIZE {
            continue;
        }
        let g = geometry(size).unwrap();
        // The MDB area holds the MDB plus the whole map.
        let mdb_sectors = g.dir_st as u32 - 2;
        assert!(
            64 + map_bytes(g.n_blocks as u32) <= mdb_sectors * SECTOR,
            "map does not fit for {size} bytes"
        );
        // Regions abut, and everything is inside the disk.
        assert_eq!(g.al_bl_st as u32, g.dir_st as u32 + g.dir_len as u32);
        let end = g.al_bl_st as u32 + g.n_blocks as u32 * (g.al_blk_siz / SECTOR);
        assert!(end <= sectors, "allocation area overruns the disk for {size} bytes");
        // At most the reserved tail is wasted.
        assert_eq!(sectors - end, RESERVED_TAIL_SECTORS, "slack not absorbed for {size}");
        assert!(g.n_blocks as u32 <= MAX_BLOCKS);
    }
}

#[test]
fn rejects_bad_sizes() {
    assert!(matches!(geometry(409_601), Err(MfsError::InvalidGeometry(_))));
    assert!(matches!(geometry(0), Err(MfsError::InvalidGeometry(_))));
    assert!(matches!(geometry(50 * 1024), Err(MfsError::InvalidGeometry(_))));
}

#[test]
fn dc42_rejects_non_floppy_sizes() {
    let err = macfs::mkfs::format(200 * 1024, "Odd", ImageFormat::DiskCopy42).unwrap_err();
    assert!(matches!(err, MfsError::InvalidGeometry(_)), "{}", err.to_string());
    // ...but raw is happy with it.
    assert!(macfs::mkfs::format(200 * 1024, "Odd", ImageFormat::Raw).is_ok());
}

#[test]
fn formatted_volume_is_empty_and_consistent() {
    let vol = macfs::mkfs::format(MfsVolume::FLOPPY_400K, "Untitled", ImageFormat::Raw).unwrap();
    let info = vol.info();
    assert_eq!(info.name, "Untitled");
    assert_eq!(info.file_count, 0);
    assert_eq!(info.total_blocks, 391);
    assert_eq!(info.free_blocks, 391);
    assert_eq!(info.alloc_block_size, 1024);
    assert_eq!(vol.files().len(), 0);
    assert!(vol.check().is_empty(), "{:?}", vol.check());
}

#[test]
fn rejects_bad_volume_names() {
    for bad in ["", "Has:Colon", "twenty-eight characters long"] {
        assert!(
            matches!(
                macfs::mkfs::format(MfsVolume::FLOPPY_400K, bad, ImageFormat::Raw),
                Err(MfsError::InvalidName(_))
            ),
            "{bad:?} should be rejected"
        );
    }
    // Exactly 27 bytes is the limit.
    assert!(macfs::mkfs::format(MfsVolume::FLOPPY_400K, "twenty-seven characters ok!", ImageFormat::Raw).is_ok());
}

/// The second file on a disk of any size has the number two, the first one gone.
#[test]
fn new_volumes_of_any_size_number_their_files_from_one() {
    for size in [102_400u32, 409_600, 1_474_560, 20_971_520] {
        let mut vol = MfsVolume::format(size, "Disk", ImageFormat::Raw).unwrap();
        vol.create_file("first", *b"TEXT", *b"MACA").unwrap();
        vol.delete_file("first").unwrap();
        vol.create_file("second", *b"TEXT", *b"MACA").unwrap();
        assert_eq!(vol.file("second").unwrap().file_num, 2);
    }
}
