use macfs::mdb::{Mdb, HFS_SIGNATURE, MFS_SIGNATURE};
use macfs::MfsError;

/// A hand-built, plausible 400K MFS MDB.
fn sample_bytes() -> [u8; 64] {
    let mut b = [0u8; 64];
    b[0..2].copy_from_slice(&0xD2D7u16.to_be_bytes()); // drSigWord
    b[2..6].copy_from_slice(&0xA1B2_C3D4u32.to_be_bytes()); // drCrDate
    b[6..10].copy_from_slice(&0xA1B2_C3E8u32.to_be_bytes()); // drLsMod
    b[10..12].copy_from_slice(&0x0080u16.to_be_bytes()); // drAtrb (SW locked)
    b[12..14].copy_from_slice(&7u16.to_be_bytes()); // drNmFls
    b[14..16].copy_from_slice(&4u16.to_be_bytes()); // drDirSt
    b[16..18].copy_from_slice(&12u16.to_be_bytes()); // drDirLen
    b[18..20].copy_from_slice(&391u16.to_be_bytes()); // drNmAlBlks
    b[20..24].copy_from_slice(&1024u32.to_be_bytes()); // drAlBlkSiz
    b[24..28].copy_from_slice(&8192u32.to_be_bytes()); // drClpSiz
    b[28..30].copy_from_slice(&16u16.to_be_bytes()); // drAlBlSt
    b[30..34].copy_from_slice(&23u32.to_be_bytes()); // drNxtFNum
    b[34..36].copy_from_slice(&300u16.to_be_bytes()); // drFreeBks
    // drVN: "Untitled" plus deliberate trailing garbage that must survive.
    b[36] = 8;
    b[37..45].copy_from_slice(b"Untitled");
    b[45] = 0xEE;
    b[63] = 0x11;
    b
}

#[test]
fn parses_every_field() {
    let m = Mdb::parse(&sample_bytes()).unwrap();
    assert_eq!(m.sig_word, MFS_SIGNATURE);
    assert_eq!(m.cr_date, 0xA1B2_C3D4);
    assert_eq!(m.ls_mod, 0xA1B2_C3E8);
    assert_eq!(m.atrb, 0x0080);
    assert_eq!(m.nm_fls, 7);
    assert_eq!(m.dir_st, 4);
    assert_eq!(m.dir_len, 12);
    assert_eq!(m.nm_al_blks, 391);
    assert_eq!(m.al_blk_siz, 1024);
    assert_eq!(m.clp_siz, 8192);
    assert_eq!(m.al_bl_st, 16);
    assert_eq!(m.nxt_fnum, 23);
    assert_eq!(m.free_bks, 300);
    assert_eq!(m.name_raw[0], 8);
    assert_eq!(&m.name_raw[1..9], b"Untitled");
    assert_eq!(m.name_raw[9], 0xEE);
    assert_eq!(m.name_raw[27], 0x11);
}

#[test]
fn write_to_round_trips_byte_identically() {
    let bytes = sample_bytes();
    let m = Mdb::parse(&bytes).unwrap();
    let mut out = [0xAAu8; 64];
    m.write_to(&mut out);
    assert_eq!(out, bytes);
    // ...and re-parsing yields an identical struct.
    assert_eq!(Mdb::parse(&out).unwrap(), m);
}

#[test]
fn parse_accepts_region_longer_than_64_bytes() {
    let mut buf = vec![0u8; 512];
    buf[..64].copy_from_slice(&sample_bytes());
    buf[64] = 0xFF; // allocation block map bytes; must be ignored
    assert!(Mdb::parse(&buf).is_ok());
}

#[test]
fn rejects_short_region() {
    let bytes = sample_bytes();
    assert!(matches!(
        Mdb::parse(&bytes[..63]),
        Err(MfsError::CorruptVolume(_))
    ));
}

#[test]
fn rejects_bad_signature() {
    let mut b = sample_bytes();
    b[0..2].copy_from_slice(&0xBEEFu16.to_be_bytes());
    match Mdb::parse(&b) {
        Err(MfsError::BadSignature { found }) => assert_eq!(found, 0xBEEF),
        other => panic!("expected BadSignature, got {other:?}"),
    }
}

#[test]
fn hfs_signature_is_unsupported() {
    let mut b = sample_bytes();
    b[0..2].copy_from_slice(&HFS_SIGNATURE.to_be_bytes());
    assert!(matches!(Mdb::parse(&b), Err(MfsError::UnsupportedHfs)));
}

#[test]
fn rejects_bad_alloc_block_size() {
    for bad in [0u32, 1, 511, 513, 1000] {
        let mut b = sample_bytes();
        b[20..24].copy_from_slice(&bad.to_be_bytes());
        assert!(
            matches!(Mdb::parse(&b), Err(MfsError::CorruptVolume(_))),
            "drAlBlkSiz {bad} should be rejected"
        );
    }
    // 512 and 2048 are legal.
    for good in [512u32, 1024, 2048] {
        let mut b = sample_bytes();
        b[20..24].copy_from_slice(&good.to_be_bytes());
        assert!(Mdb::parse(&b).is_ok(), "drAlBlkSiz {good} should be accepted");
    }
}

#[test]
fn rejects_bad_directory_geometry() {
    // drDirSt below 3 (would overlap the boot blocks / MDB).
    let mut b = sample_bytes();
    b[14..16].copy_from_slice(&2u16.to_be_bytes());
    assert!(matches!(Mdb::parse(&b), Err(MfsError::CorruptVolume(_))));

    // Zero-length directory.
    let mut b = sample_bytes();
    b[16..18].copy_from_slice(&0u16.to_be_bytes());
    assert!(matches!(Mdb::parse(&b), Err(MfsError::CorruptVolume(_))));

    // Allocation area starting inside the directory.
    let mut b = sample_bytes();
    b[28..30].copy_from_slice(&15u16.to_be_bytes()); // 4 + 12 == 16
    assert!(matches!(Mdb::parse(&b), Err(MfsError::CorruptVolume(_))));

    // Exactly abutting is fine.
    let mut b = sample_bytes();
    b[28..30].copy_from_slice(&16u16.to_be_bytes());
    assert!(Mdb::parse(&b).is_ok());
}

#[test]
fn rejects_overlong_volume_name() {
    let mut b = sample_bytes();
    b[36] = 28;
    assert!(matches!(Mdb::parse(&b), Err(MfsError::CorruptVolume(_))));
    b[36] = 27;
    assert!(Mdb::parse(&b).is_ok());
}
