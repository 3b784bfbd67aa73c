use bgm_codec::{Error, IoError, NameError};

#[test]
fn messages() {
    assert_eq!(Error::InvalidMagic.message(), "Missing 'BGM' signature at start of file");
    assert_eq!(
        Error::InvalidName(NameError::NonAscii).message(),
        "Invalid name string, must be 4 ASCII bytes"
    );
    assert_eq!(
        Error::SizeMismatch { true_size: 4294967295, internal_size: 0 }.message(),
        "The file says it is 0B, but it is actually 4294967295B"
    );
    assert_eq!(
        Error::SizeMismatch { true_size: 10, internal_size: 1009 }.message(),
        "The file says it is 1009B, but it is actually 10B"
    );
    assert_eq!(
        Error::InvalidNumSegments(205).message(),
        "Exactly 4 segment slots are supported, but this file has 205"
    );
    assert_eq!(Error::NonZeroPadding.message(), "Expected padding but found non-zero byte(s)");
    assert_eq!(Error::Io(IoError::UnexpectedEof).message(), "Unexpected end-of-file");
    assert_eq!(Error::Io(IoError::Other("disk on fire".to_string())).message(), "disk on fire");
}

#[test]
fn sources() {
    assert_eq!(Error::from(IoError::UnexpectedEof).source(), Some(&IoError::UnexpectedEof));
    assert_eq!(Error::NonZeroPadding.source(), None);
    assert_eq!(Error::InvalidName(NameError::InvalidSize).source(), None);
}
