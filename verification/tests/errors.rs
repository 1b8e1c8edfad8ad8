//! Every error, on an input that gives it, with the text it is reported with.

use std::io::{Error, ErrorKind};

use macfs::dc42::Dc42Image;
use macfs::{Fork, ImageFormat, MfsError, MfsVolume};

fn blank() -> MfsVolume {
    MfsVolume::format(MfsVolume::FLOPPY_400K, "Scratch", ImageFormat::Raw).expect("format")
}

fn image(vol: &mut MfsVolume) -> Vec<u8> {
    let mut out = Vec::new();
    vol.save_to(&mut out).expect("save");
    out
}

/// What opening a bare image says once some of its bytes were replaced.
fn complaint(at: usize, bytes: &[u8]) -> String {
    let mut data = image(&mut blank());
    data[at..at + bytes.len()].copy_from_slice(bytes);
    MfsVolume::open_with_format(data, ImageFormat::Raw).unwrap_err().to_string()
}

#[test]
fn io_errors_keep_their_text_and_their_cause() {
    let e = MfsError::from(Error::new(ErrorKind::Other, "the drive caught fire"));
    assert_eq!(e.to_string(), "I/O error: the drive caught fire");
    assert_eq!(e.source().expect("cause").to_string(), "the drive caught fire");
    assert!(MfsError::VolumeLocked.source().is_none());
}

#[test]
fn layout_errors_are_told_apart() {
    let e = MfsError::from(binrw::Error::Io(Error::new(ErrorKind::Other, "short read")));
    assert!(matches!(e, MfsError::Io(_)));
    assert_eq!(e.to_string(), "I/O error: short read");

    let e = MfsError::from(binrw::Error::AssertFail { pos: 7, message: "odd".to_string() });
    match e {
        MfsError::CorruptVolume(text) => assert!(text.contains("odd"), "{text}"),
        other => panic!("expected CorruptVolume, got {other:?}"),
    }
}

#[test]
fn bad_signatures_are_shown_in_hexadecimal() {
    assert_eq!(
        complaint(1024, &[0xBE, 0xEF]),
        "not an MFS volume: signature 0xbeef (expected 0xd2d7)"
    );
}

#[test]
fn hfs_and_unknown_images_have_texts_of_their_own() {
    assert_eq!(
        complaint(1024, &[0x42, 0x44]),
        "HFS volume detected (signature 0x4244): HFS is not supported"
    );
    assert_eq!(
        MfsVolume::open(vec![0u8; 1000]).unwrap_err().to_string(),
        "unrecognized image: neither raw MFS nor DiskCopy 4.2"
    );
}

#[test]
fn container_errors_say_what_is_wrong() {
    let good = Dc42Image::new_blank(b"D", vec![0u8; 409_600]).unwrap().to_bytes();
    let open = |bytes: Vec<u8>| {
        MfsVolume::open_with_format(bytes, ImageFormat::DiskCopy42).unwrap_err().to_string()
    };

    assert_eq!(
        open(vec![0u8; 83]),
        "DiskCopy 4.2 container: image is 83 bytes, shorter than the 84-byte header"
    );
    let mut bad = good.clone();
    bad[83] = 0x01;
    assert_eq!(
        open(bad),
        "DiskCopy 4.2 container: bad magic 0x0101 at offset 82 (expected 0x0100)"
    );
    let mut bad = good.clone();
    bad[0] = 64;
    assert_eq!(
        open(bad),
        "DiskCopy 4.2 container: image name length 64 exceeds the 63-byte maximum"
    );
    let mut bad = good.clone();
    bad.pop();
    assert_eq!(
        open(bad),
        "DiskCopy 4.2 container: size mismatch: header declares 409600 data + 9600 tag bytes \
         (total 419284) but the image is 419283 bytes"
    );
    let mut bad = good.clone();
    bad[84 + 1] = 0x01;
    assert!(open(bad).starts_with(
        "DiskCopy 4.2 container: data checksum mismatch: header says 0x00000000, computed 0x"
    ));
    assert_eq!(
        Dc42Image::new_blank(b"D", vec![0u8; 512]).unwrap_err().to_string(),
        "DiskCopy 4.2 container: cannot wrap 512 bytes: DiskCopy 4.2 only defines floppy \
         geometries (409600 bytes for 400K or 819200 bytes for 800K)"
    );
}

#[test]
fn corrupt_volumes_say_what_is_wrong() {
    assert_eq!(
        complaint(1024 + 20, &1000u32.to_be_bytes()),
        "corrupt MFS volume: drAlBlkSiz is 1000, expected a nonzero multiple of 512"
    );
    assert_eq!(
        complaint(1024 + 14, &2u16.to_be_bytes()),
        "corrupt MFS volume: drDirSt is 2, expected at least 3 (boot blocks + MDB)"
    );
    assert_eq!(
        complaint(1024 + 16, &0u16.to_be_bytes()),
        "corrupt MFS volume: drDirLen is 0, expected at least 1 sector"
    );
    assert_eq!(
        complaint(1024 + 18, &400u16.to_be_bytes()),
        "corrupt MFS volume: 400 allocation blocks of 1024 bytes from sector 16 run to byte \
         417792, past the 409600-byte image"
    );
    let short = image(&mut blank())[..1056].to_vec();
    assert_eq!(
        MfsVolume::open_with_format(short, ImageFormat::Raw).unwrap_err().to_string(),
        "corrupt MFS volume: image is 1056 bytes, too short to hold an MDB at offset 1024"
    );
    let short = image(&mut blank())[..4096].to_vec();
    assert_eq!(
        MfsVolume::open_with_format(short, ImageFormat::Raw).unwrap_err().to_string(),
        "corrupt MFS volume: file directory runs to byte 8192, past the 4096-byte image"
    );
    let short = image(&mut blank())[..100_000].to_vec();
    assert_eq!(
        MfsVolume::open_with_format(short, ImageFormat::Raw).unwrap_err().to_string(),
        "corrupt MFS volume: 391 allocation blocks of 1024 bytes from sector 16 run to byte \
         408576, past the 100000-byte image"
    );
}

#[test]
fn file_errors_name_the_file() {
    let mut vol = blank();
    assert_eq!(vol.file("Ghost").unwrap_err().to_string(), "file not found: Ghost");
    vol.create_file("Here", *b"TEXT", *b"MACA").unwrap();
    assert_eq!(
        vol.create_file("HERE", *b"TEXT", *b"MACA").unwrap_err().to_string(),
        "file already exists: HERE"
    );
    vol.set_locked("Here", true).unwrap();
    assert_eq!(
        vol.delete_file("here").unwrap_err().to_string(),
        "file is locked: here"
    );
    assert_eq!(
        vol.write_fork("Here", Fork::Data, b"x").unwrap_err().to_string(),
        "file is locked: Here"
    );
}

/// The texts quote a name the way `{:?}` does, escapes and all.
#[test]
fn invalid_names_are_quoted() {
    let mut vol = blank();
    let mut text = |name: &str| {
        vol.create_file(name, *b"TEXT", *b"MACA").unwrap_err().to_string()
    };
    assert_eq!(text(""), "invalid name: name is empty");
    assert_eq!(
        text("tab\tand:colon"),
        "invalid name: \"tab\\tand:colon\" contains a forbidden byte 0x3a"
    );
    assert_eq!(
        text("nul\0"),
        "invalid name: \"nul\\0\" contains a forbidden byte 0x00"
    );
    assert_eq!(
        text("\u{4F60} \"hi\""),
        "invalid name: \"\u{4F60} \\\"hi\\\"\" contains '\u{4F60}', which MacRoman cannot represent"
    );
    assert_eq!(
        text(&"x".repeat(64)),
        format!("invalid name: \"{}\" is 64 bytes, the maximum is 63", "x".repeat(64))
    );
    assert_eq!(
        vol.rename_volume(&"v".repeat(28)).unwrap_err().to_string(),
        format!("invalid name: \"{}\" is 28 bytes, the maximum is 27", "v".repeat(28))
    );
}

#[test]
fn full_and_locked_volumes_say_so() {
    let mut vol = blank();
    vol.create_file("Big", *b"TEXT", *b"MACA").unwrap();
    assert_eq!(
        vol.write_fork("Big", Fork::Data, &vec![0u8; 391 * 1024 + 1]).unwrap_err().to_string(),
        "volume full: need 392 allocation blocks, 391 free"
    );
    assert_eq!(MfsError::DirectoryFull.to_string(), "file directory is full");

    let mut data = image(&mut vol);
    data[1024 + 11] |= 0x80;
    let mut vol = MfsVolume::open_with_format(data, ImageFormat::Raw).unwrap();
    assert_eq!(vol.delete_file("Big").unwrap_err().to_string(), "volume is locked");
}

#[test]
fn bad_sizes_say_what_is_wrong() {
    let text = |size: u32, format: ImageFormat| {
        MfsVolume::format(size, "Odd", format).unwrap_err().to_string()
    };
    assert_eq!(
        text(409_601, ImageFormat::Raw),
        "invalid geometry: 409601 bytes is not a multiple of the 512-byte sector size"
    );
    assert_eq!(
        text(51_200, ImageFormat::Raw),
        "invalid geometry: 51200 bytes is below the 102400-byte minimum volume size"
    );
    assert_eq!(
        text(204_800, ImageFormat::DiskCopy42),
        "invalid geometry: DiskCopy 4.2 only defines the standard floppy geometries: 204800 \
         bytes is neither 409600 nor 819200"
    );
}
