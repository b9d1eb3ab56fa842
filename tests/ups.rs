use patch_rs::{Error, Patch, UpsPatch};

#[test]
fn patch_same_len() {
    let src = b"It's better to be happy than to be right.";
    let dst = b"It's better to be right than to be happy.";

    let patch = UpsPatch::create(src, dst);
    assert_eq!(&patch.apply(src).unwrap(), dst);
}

#[test]
fn patch_shorter_src() {
    let src = b"/bin/true";
    let dst = b"/usr/bin/sh";

    let patch = UpsPatch::create(src, dst);
    assert_eq!(&patch.apply(src).unwrap(), dst);
}

#[test]
fn patch_shorter_dst() {
    let src = b"The source is longer.";
    let dst = b"The dest is shorter.";

    let patch = UpsPatch::create(src, dst);
    assert_eq!(&patch.apply(src).unwrap(), dst);
}

#[test]
fn ups_create_identical_has_no_records() {
    let data = b"same bytes";
    let patch = UpsPatch::create(data, data);
    let bytes = patch.export(None).unwrap();
    // magic, two one-byte sizes, no records, three checksums
    assert_eq!(bytes.len(), 4 + 1 + 1 + 12);
    assert_eq!(&bytes[..4], b"UPS1");
    assert_eq!(bytes[4], 0x80 + 10);
    assert_eq!(bytes[5], 0x80 + 10);
    assert_eq!(patch.apply(data).unwrap(), data.to_vec());
}

#[test]
fn ups_export_exact_bytes() {
    let patch = UpsPatch::create(&[1, 2, 3], &[1, 5, 3, 9]);
    let bytes = patch.export(None).unwrap();
    let mut body = vec![b'U', b'P', b'S', b'1', 0x83, 0x84];
    // first run starts at offset 1: XOR 2 ^ 5, then the terminator
    body.extend_from_slice(&[0x81, 2 ^ 5, 0]);
    // second run starts right after it, at offset 3: XOR 0 ^ 9
    body.extend_from_slice(&[0x80, 9, 0]);
    body.extend_from_slice(&crc32fast::hash(&[1, 2, 3]).to_le_bytes());
    body.extend_from_slice(&crc32fast::hash(&[1, 5, 3, 9]).to_le_bytes());
    let file_crc = crc32fast::hash(&body);
    body.extend_from_slice(&file_crc.to_le_bytes());
    assert_eq!(bytes, body);
}

#[test]
fn ups_round_trip_through_file() {
    let src = b"It's better to be happy than to be right.";
    let dst = b"It's better to be right than to be happy.";
    let patch = UpsPatch::create(src, dst);
    let bytes = patch.export(None).unwrap();
    let loaded = UpsPatch::load(&bytes).unwrap();
    assert_eq!(loaded.export(None).unwrap(), bytes);
    assert_eq!(loaded.apply(src).unwrap(), patch.apply(src).unwrap());
    assert_eq!(&loaded.apply(src).unwrap(), dst);
}

#[test]
fn ups_export_checks_expected_crc() {
    let patch = UpsPatch::create(b"abc", b"abd");
    let bytes = patch.export(None).unwrap();
    let n = bytes.len();
    let file_crc = u32::from_le_bytes([bytes[n - 4], bytes[n - 3], bytes[n - 2], bytes[n - 1]]);
    assert_eq!(patch.export(Some(file_crc)).unwrap(), bytes);
    assert_eq!(
        patch.export(Some(file_crc ^ 1)),
        Err(Error::ChecksumMismatch(file_crc, file_crc ^ 1))
    );
}

#[test]
fn ups_load_rejects_bad_magic() {
    let patch = UpsPatch::create(b"abc", b"abd");
    let mut bytes = patch.export(None).unwrap();
    bytes[0] = b'X';
    assert_eq!(UpsPatch::load(&bytes).err(), Some(Error::MagicMismatch));
}

#[test]
fn ups_load_rejects_corrupted_file_checksum() {
    let patch = UpsPatch::create(b"abc", b"abd");
    let mut bytes = patch.export(None).unwrap();
    let n = bytes.len();
    bytes[n - 1] ^= 0xff;
    assert!(matches!(UpsPatch::load(&bytes), Err(Error::ChecksumMismatch(_, _))));
}

#[test]
fn ups_load_rejects_truncated_input() {
    assert_eq!(UpsPatch::load(b"UP").err(), Some(Error::TruncatedInput));
    assert_eq!(UpsPatch::load(b"UPS1\x81\x81").err(), Some(Error::TruncatedInput));
}

#[test]
fn ups_apply_checks_source() {
    let patch = UpsPatch::create(b"abc", b"abd");
    assert_eq!(patch.apply(b"ab"), Err(Error::SizeMismatch(2, 3)));
    assert_eq!(
        patch.apply(b"abx"),
        Err(Error::ChecksumMismatch(crc32fast::hash(b"abx"), crc32fast::hash(b"abc")))
    );
    assert_eq!(patch.validate(b"abc"), Some(Ok(())));
    assert_eq!(patch.validate(b"ab"), Some(Err(Error::SizeMismatch(2, 3))));
}

#[test]
fn ups_create_from_empty_source() {
    let patch = UpsPatch::create(b"", b"\x00\x07\x00");
    assert_eq!(patch.apply(b"").unwrap(), vec![0, 7, 0]);
}
