use patch_rs::ips::Patch as IpsPatch;
use patch_rs::{Error, Patch};

#[test]
fn ips_single_literal_record() {
    let file = b"PATCH\x00\x00\x00\x00\x02\xaa\xbbEOF";
    let patch = IpsPatch::load(file).unwrap();
    assert_eq!(patch.apply(&[0, 0, 0, 0]).unwrap(), vec![0xaa, 0xbb, 0, 0]);
    assert_eq!(patch.save(), file.to_vec());
}

#[test]
fn ips_run_and_extension() {
    // a run of three 0x11 at offset 2, then two bytes at offset 6 past the source
    let file = b"PATCH\x00\x00\x02\x00\x00\x00\x03\x11\x00\x00\x06\x00\x02\x01\x02EOF";
    let patch = IpsPatch::load(file).unwrap();
    assert_eq!(patch.apply(b"abcd").unwrap(), vec![b'a', b'b', 0x11, 0x11, 0x11, 0, 1, 2]);
    assert_eq!(patch.save(), file.to_vec());
}

#[test]
fn ips_explicit_size_truncates() {
    let file = b"PATCH\x00\x00\x00\x00\x01\x7fEOF\x00\x00\x02";
    let patch = IpsPatch::load(file).unwrap();
    assert_eq!(patch.apply(b"abcd").unwrap(), vec![0x7f, b'b']);
    assert_eq!(patch.save(), file.to_vec());
}

#[test]
fn ips_record_past_explicit_size_is_invalid() {
    let file = b"PATCH\x00\x00\x05\x00\x01\x7fEOF\x00\x00\x02";
    let patch = IpsPatch::load(file).unwrap();
    assert_eq!(patch.apply(b"abcd"), Err(Error::InvalidPatch));
}

#[test]
fn ips_without_eof_marker() {
    let file = b"PATCH\x00\x00\x01\x00\x01\x41";
    let patch = IpsPatch::load(file).unwrap();
    assert_eq!(patch.apply(b"xyz").unwrap(), b"xAz".to_vec());
}

#[test]
fn ips_load_errors() {
    assert_eq!(IpsPatch::load(b"PATCX\x00").err(), Some(Error::MagicMismatch));
    assert_eq!(IpsPatch::load(b"PAT").err(), Some(Error::TruncatedInput));
    assert_eq!(IpsPatch::load(b"PATCH\x00\x00").err(), Some(Error::TruncatedInput));
    assert_eq!(IpsPatch::load(b"PATCH\x00\x00\x00\x00\x05ab").err(), Some(Error::TruncatedInput));
}

#[test]
fn ips_trait_surface() {
    let file = b"PATCH\x00\x00\x00\x00\x01\x7fEOF";
    let patch = IpsPatch::load(file).unwrap();
    assert_eq!(Patch::validate(&patch, b"anything"), None);
    let crc = crc32fast::hash(file);
    assert_eq!(Patch::export(&patch, Some(crc)).unwrap(), file.to_vec());
    assert_eq!(Patch::export(&patch, Some(crc ^ 1)), Err(Error::ChecksumMismatch(crc, crc ^ 1)));
    assert_eq!(Patch::apply(&patch, b"ab").unwrap(), vec![0x7f, b'b']);
}

#[test]
fn ips_u24_helpers() {
    let mut buf = Vec::new();
    IpsPatch::write_u24(&mut buf, 0x123456);
    assert_eq!(buf, vec![0x12, 0x34, 0x56]);
    assert_eq!(IpsPatch::read_u24(&buf, 0), Ok((0x123456, 3)));
    assert_eq!(IpsPatch::read_u24(&buf, 1), Err(Error::TruncatedInput));
}
