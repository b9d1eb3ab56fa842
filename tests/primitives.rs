use patch_rs::varint::read_var;
use patch_rs::{Error, ReadVarExt, Validation, WriteVarExt};

#[test]
fn varint_exact_encodings() {
    let cases: [(usize, &[u8]); 5] = [
        (0, &[0x80]),
        (127, &[0xff]),
        (128, &[0x00, 0x80]),
        (16511, &[0x7f, 0xff]),
        (16512, &[0x00, 0x00, 0x80]),
    ];
    for (value, bytes) in cases {
        let mut buf = Vec::new();
        buf.write_var_int(value);
        assert_eq!(buf, bytes.to_vec());
        assert_eq!(read_var(&buf, 0), Ok((value, bytes.len())));
    }
}

#[test]
fn varint_round_trip() {
    for value in [0usize, 1, 300, 70000, 1 << 40, usize::MAX - 1, usize::MAX] {
        let mut buf = vec![0xaa];
        buf.write_var_int(value);
        buf.push(0x55);
        let end = buf.len() - 1;
        assert_eq!(buf[..].read_var_int(1), Ok((value, end)));
    }
}

#[test]
fn varint_errors() {
    assert_eq!(read_var(&[0x00, 0x7f], 0), Err(Error::TruncatedInput));
    assert_eq!(read_var(&[0x80], 2), Err(Error::TruncatedInput));
    let too_big = [0x7fu8; 12];
    let mut bytes = too_big.to_vec();
    bytes.push(0xff);
    assert_eq!(read_var(&bytes, 0), Err(Error::InvalidPatch));
}

#[test]
fn validation_checks_size_then_crc() {
    let v = Validation { size: 9, crc: 0xcbf4_3926 };
    assert_eq!(v.validate(b"123456789"), Ok(()));
    assert_eq!(v.validate(b"12345678"), Err(Error::SizeMismatch(8, 9)));
    assert_eq!(v.validate(b"123456780"), Err(Error::ChecksumMismatch(crc32fast::hash(b"123456780"), 0xcbf4_3926)));
    let wrong_crc = Validation { size: 9, crc: 0 };
    assert_eq!(wrong_crc.validate(b"1234"), Err(Error::SizeMismatch(4, 9)));
    assert_eq!(wrong_crc.check(9, 5), Err(Error::ChecksumMismatch(5, 0)));
    assert_eq!(wrong_crc.check(9, 0), Ok(()));
}
