use macfs::dc42::{
    checksum, tag_checksum, Dc42Image, HEADER_LEN, MAX_NAME_LEN, OFF_DATA_SIZE, OFF_MAGIC,
    OFF_TAG_CKSUM, OFF_TAG_SIZE, SIZE_400K, SIZE_800K,
};
use macfs::util::{rd_u32, wr_u32};

/// Fills a buffer with a cheap, non-repeating pattern so that a single
/// flipped byte is guaranteed to change the checksum.
fn pattern(len: usize) -> Vec<u8> {
    let mut v = Vec::with_capacity(len);
    let mut x: u32 = 0x1234_5678;
    for _ in 0..len {
        x ^= x << 13;
        x ^= x >> 17;
        x ^= x << 5;
        v.push(x as u8);
    }
    v
}

#[test]
fn checksum_pinned_vectors() {
    // word 1: sum = 0x0001, ror 1 -> 0x8000_0000
    // word 2: sum = 0x8000_0001, ror 1 -> 0xC000_0000
    assert_eq!(checksum(&[0x00, 0x01, 0x00, 0x01]), 0xC000_0000);
    assert_eq!(checksum(&[]), 0);
    assert_eq!(checksum(&[0x00, 0x01]), 0x8000_0000);
    // A lone trailing byte contributes nothing.
    assert_eq!(checksum(&[0xFF]), 0);
}

#[test]
fn tag_checksum_is_zero_without_a_second_sector() {
    assert_eq!(tag_checksum(&[]), 0);
    assert_eq!(tag_checksum(&[0xAB; 12]), 0);
}

#[test]
fn round_trip_400k() {
    let data = pattern(SIZE_400K);
    let img = Dc42Image::new_blank(b"Test Disk", data.clone()).unwrap();
    assert_eq!(img.disk_format, 0);
    assert_eq!(img.format_byte, 0x02);
    assert_eq!(img.tags.len(), (SIZE_400K / 512) * 12);

    let bytes = img.to_bytes();
    assert_eq!(bytes.len(), HEADER_LEN + SIZE_400K + 9_600);
    assert!(Dc42Image::detect(&bytes));

    let back = Dc42Image::parse(&bytes).unwrap();
    assert_eq!(back.name, b"Test Disk");
    assert_eq!(back.data, data);
    assert_eq!(back.tags, img.tags);
    assert_eq!(back.disk_format, 0);
    assert_eq!(back.format_byte, 0x02);
    // Serializing the reparsed image reproduces the original bytes.
    assert_eq!(back.to_bytes(), bytes);
}

#[test]
fn round_trip_800k() {
    let img = Dc42Image::new_blank(b"Big", pattern(SIZE_800K)).unwrap();
    assert_eq!((img.disk_format, img.format_byte), (1, 0x22));
    let bytes = img.to_bytes();
    assert!(Dc42Image::detect(&bytes));
    let back = Dc42Image::parse(&bytes).unwrap();
    assert_eq!(back.data.len(), SIZE_800K);
    assert_eq!(back.tags.len(), (SIZE_800K / 512) * 12);
}

#[test]
fn new_blank_truncates_long_names() {
    let long = vec![b'x'; 100];
    let img = Dc42Image::new_blank(&long, vec![0u8; SIZE_400K]).unwrap();
    assert_eq!(img.name.len(), MAX_NAME_LEN);
    let bytes = img.to_bytes();
    assert_eq!(bytes[0], MAX_NAME_LEN as u8);
    assert_eq!(Dc42Image::parse(&bytes).unwrap().name.len(), MAX_NAME_LEN);
}

#[test]
fn new_blank_rejects_non_floppy_sizes() {
    let err = Dc42Image::new_blank(b"odd", vec![0u8; 512]).unwrap_err();
    let msg = err.to_string();
    assert!(msg.contains("floppy geometries"), "{msg}");
}

#[test]
fn detect_rejects_bad_input() {
    let good = Dc42Image::new_blank(b"D", vec![0u8; SIZE_400K])
        .unwrap()
        .to_bytes();

    // Too short.
    assert!(!Dc42Image::detect(&[]));
    assert!(!Dc42Image::detect(&good[..HEADER_LEN - 1]));

    // Bad magic.
    let mut bad_magic = good.clone();
    bad_magic[OFF_MAGIC + 1] = 0x01;
    assert!(!Dc42Image::detect(&bad_magic));

    // Right magic, wrong size arithmetic.
    let mut truncated = good.clone();
    truncated.truncate(good.len() - 1);
    assert!(!Dc42Image::detect(&truncated));

    // Right magic, oversized name length byte.
    let mut long_name = good.clone();
    long_name[0] = 64;
    assert!(!Dc42Image::detect(&long_name));

    // A declared data size that would overflow 32-bit addition.
    let mut overflow = good.clone();
    wr_u32(&mut overflow, OFF_DATA_SIZE, u32::MAX);
    wr_u32(&mut overflow, OFF_TAG_SIZE, u32::MAX);
    assert!(!Dc42Image::detect(&overflow));
}

#[test]
fn parse_rejects_corrupted_data() {
    let mut bytes = Dc42Image::new_blank(b"D", pattern(SIZE_400K))
        .unwrap()
        .to_bytes();
    // The container is still structurally valid...
    bytes[HEADER_LEN + 1000] ^= 0x01;
    assert!(Dc42Image::detect(&bytes));
    // ...but the data checksum no longer matches.
    let msg = Dc42Image::parse(&bytes).unwrap_err().to_string();
    assert!(msg.contains("data checksum mismatch"), "{msg}");
}

#[test]
fn parse_rejects_corrupted_tags() {
    let mut img = Dc42Image::new_blank(b"D", vec![0u8; SIZE_400K]).unwrap();
    img.tags = pattern(9_600);
    let mut bytes = img.to_bytes();
    // Corrupt a tag byte past the skipped first sector.
    bytes[HEADER_LEN + SIZE_400K + 20] ^= 0xFF;
    let msg = Dc42Image::parse(&bytes).unwrap_err().to_string();
    assert!(msg.contains("tag checksum mismatch"), "{msg}");
}

#[test]
fn tag_checksum_skips_first_twelve_bytes() {
    let mut a = Dc42Image::new_blank(b"D", vec![0u8; SIZE_400K]).unwrap();
    a.tags = pattern(9_600);
    let mut b = Dc42Image::new_blank(b"D", vec![0u8; SIZE_400K]).unwrap();
    b.tags = a.tags.clone();
    b.tags[..12].copy_from_slice(&[0xA5; 12]);
    assert_ne!(a.tags[..12], b.tags[..12]);

    let bytes_a = a.to_bytes();
    let bytes_b = b.to_bytes();
    let cksum_a = rd_u32(&bytes_a, OFF_TAG_CKSUM);
    let cksum_b = rd_u32(&bytes_b, OFF_TAG_CKSUM);
    assert_eq!(cksum_a, cksum_b, "first sector's tags must not be checksummed");
    assert_ne!(cksum_a, 0, "the rest of the tags must be checksummed");

    // Both still parse, and the differing tag bytes survive verbatim.
    assert_eq!(Dc42Image::parse(&bytes_a).unwrap().tags, a.tags);
    assert_eq!(Dc42Image::parse(&bytes_b).unwrap().tags, b.tags);
}

#[test]
fn tagless_image_round_trips() {
    let mut img = Dc42Image::new_blank(b"No Tags", pattern(SIZE_400K)).unwrap();
    img.tags.clear();
    let bytes = img.to_bytes();
    assert_eq!(bytes.len(), HEADER_LEN + SIZE_400K);
    assert_eq!(rd_u32(&bytes, OFF_TAG_SIZE), 0);
    assert_eq!(rd_u32(&bytes, OFF_TAG_CKSUM), 0);
    assert!(Dc42Image::detect(&bytes));
    let back = Dc42Image::parse(&bytes).unwrap();
    assert!(back.tags.is_empty());
    assert_eq!(back.data, img.data);
}

/// Any single byte that changes behind the header is noticed, but for the first
/// sector's tags.
#[test]
fn single_changed_bytes_are_noticed() {
    let mut img = Dc42Image::new_blank(b"D", pattern(SIZE_400K)).unwrap();
    img.tags = pattern(9_600);
    let good = img.to_bytes();
    let tags = HEADER_LEN + SIZE_400K;
    for at in [HEADER_LEN, HEADER_LEN + 1, tags - 1, tags, tags + 11, tags + 12, good.len() - 1] {
        let mut bad = good.clone();
        bad[at] ^= 0x80;
        assert!(Dc42Image::detect(&bad));
        assert_eq!(Dc42Image::parse(&bad).is_ok(), (tags..tags + 12).contains(&at), "byte {at}");
    }
}
