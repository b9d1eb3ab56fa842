use patch_rs::{BpsPatch, Error, Patch};

fn bps_file(src: &[u8], out: &[u8], metadata: &[u8], records: &[u8]) -> Vec<u8> {
    let mut body = vec![b'B', b'P', b'S', b'1'];
    assert!(src.len() < 128 && out.len() < 128 && metadata.len() < 128);
    body.push(0x80 | src.len() as u8);
    body.push(0x80 | out.len() as u8);
    body.push(0x80 | metadata.len() as u8);
    body.extend_from_slice(metadata);
    body.extend_from_slice(records);
    body.extend_from_slice(&crc32fast::hash(src).to_le_bytes());
    body.extend_from_slice(&crc32fast::hash(out).to_le_bytes());
    let file_crc = crc32fast::hash(&body);
    body.extend_from_slice(&file_crc.to_le_bytes());
    body
}

#[test]
fn bps_target_copy_expands_run() {
    // TargetRead of one byte, then TargetCopy of five bytes from the cursor at
    // the output's last byte: the byte repeats.
    let out = [0x5a; 6];
    let records = [0x81, 0x5a, 0x93, 0x80];
    let file = bps_file(b"", &out, b"", &records);
    let patch = BpsPatch::load(&file).unwrap();
    assert_eq!(patch.apply(b"").unwrap(), out.to_vec());
}

#[test]
fn bps_all_actions() {
    let src = b"abcdef";
    // SourceRead 2 ("ab"), TargetRead "XY", SourceCopy +3 len 2 ("de"),
    // TargetCopy +1 len 3 from output offset 1 ("bXY"), SourceCopy -4 len 1 ("b")
    let out = b"abXYdebXYb";
    let records = [
        0x84, // (2 - 1) * 4 + 0
        0x85, b'X', b'Y', // (2 - 1) * 4 + 1
        0x86, 0x86, // (2 - 1) * 4 + 2, offset +3
        0x8b, 0x82, // (3 - 1) * 4 + 3, offset +1
        0x82, 0x89, // (1 - 1) * 4 + 2, offset -4
    ];
    let file = bps_file(src, out, b"", &records);
    let patch = BpsPatch::load(&file).unwrap();
    assert_eq!(&patch.apply(src).unwrap(), out);
    assert_eq!(patch.validate(src), Some(Ok(())));
}

#[test]
fn bps_round_trip_with_metadata() {
    let src = b"abcdef";
    let out = b"abZ";
    let records = [0x84, 0x81, b'Z'];
    let file = bps_file(src, out, b"meta", &records);
    let patch = BpsPatch::load(&file).unwrap();
    assert_eq!(patch.export(None).unwrap(), file);
    let n = file.len();
    let file_crc = u32::from_le_bytes([file[n - 4], file[n - 3], file[n - 2], file[n - 1]]);
    assert_eq!(patch.export(Some(file_crc)).unwrap(), file);
    let again = BpsPatch::load(&patch.export(None).unwrap()).unwrap();
    assert_eq!(again.apply(src).unwrap(), patch.apply(src).unwrap());
}

#[test]
fn bps_source_read_past_source_is_invalid() {
    let src = b"ab";
    let out = b"abc";
    // SourceRead of three bytes from a two-byte source
    let records = [0x88];
    let file = bps_file(src, out, b"", &records);
    let patch = BpsPatch::load(&file).unwrap();
    assert_eq!(patch.apply(src), Err(Error::InvalidPatch));
}

#[test]
fn bps_cursor_underflow_is_invalid() {
    let src = b"ab";
    let out = b"a";
    // SourceCopy of one byte at offset -1 from cursor 0
    let records = [0x82, 0x83];
    let file = bps_file(src, out, b"", &records);
    let patch = BpsPatch::load(&file).unwrap();
    assert_eq!(patch.apply(src), Err(Error::InvalidPatch));
}

#[test]
fn bps_output_checked() {
    let src = b"ab";
    // the file claims a three-byte output, the records give two
    let records = [0x84];
    let file = bps_file(src, b"abc", b"", &records);
    let patch = BpsPatch::load(&file).unwrap();
    assert_eq!(patch.apply(src), Err(Error::SizeMismatch(2, 3)));
    assert_eq!(patch.apply(b"xy"), Err(Error::ChecksumMismatch(crc32fast::hash(b"xy"), crc32fast::hash(b"ab"))));
}

#[test]
fn bps_load_rejects_bad_magic_and_truncation() {
    let mut file = bps_file(b"", b"", b"", &[]);
    assert!(BpsPatch::load(&file).is_ok());
    file[3] = b'2';
    assert_eq!(BpsPatch::load(&file).err(), Some(Error::MagicMismatch));
    assert_eq!(BpsPatch::load(b"BPS").err(), Some(Error::TruncatedInput));
    assert_eq!(BpsPatch::load(b"BPS1\x80\x80\x85ab").err(), Some(Error::TruncatedInput));
}

#[test]
fn bps_load_rejects_wrong_file_checksum() {
    let mut file = bps_file(b"", b"", b"", &[]);
    let n = file.len();
    file[n - 2] ^= 0x10;
    assert!(matches!(BpsPatch::load(&file), Err(Error::ChecksumMismatch(_, _))));
}

#[test]
fn bps_target_copy_before_output_start_is_invalid() {
    // TargetRead of one byte, then TargetCopy at offset -1 from the output
    // cursor, which still stands at zero
    let out = [0x5a; 3];
    let records = [0x81, 0x5a, 0x87, 0x83];
    let file = bps_file(b"", &out, b"", &records);
    let patch = BpsPatch::load(&file).unwrap();
    assert_eq!(patch.apply(b""), Err(Error::InvalidPatch));
}
