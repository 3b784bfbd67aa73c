use bgm_codec::{Cursor, Error, IoError};

fn eof<T>() -> Result<T, Error> {
    Err(Error::Io(IoError::UnexpectedEof))
}

#[test]
fn reads_numbers() {
    let mut f = Cursor::new(&[0x12, 0xFE, 0x12, 0x34, 0x89, 0xAB, 0xCD, 0xEF, 0x01]);
    assert_eq!(f.read_u8(), Ok(0x12));
    assert_eq!(f.read_i8(), Ok(-2));
    assert_eq!(f.read_u16_be(), Ok(0x1234));
    assert_eq!(f.read_u32_be(), Ok(0x89AB_CDEF));
    assert_eq!(f.pos(), 8);
    assert_eq!(f.read_u16_be(), eof());
    assert_eq!(f.read_u32_be(), eof());
    assert_eq!(f.read_i8(), Ok(1));
    assert_eq!(f.read_i8(), eof());
    assert_eq!(f.read_u8(), eof());
    assert_eq!(f.pos(), 9);
}

#[test]
fn seeks() {
    let mut f = Cursor::new(&[1, 2, 3]);
    assert_eq!(f.seek_end(), 3);
    assert_eq!(f.read_u8(), eof());
    f.seek_start(1);
    assert_eq!(f.read_u8(), Ok(2));
    f.seek_start(u64::MAX);
    assert_eq!(f.read_u8(), eof());
    assert_eq!(f.pos(), u64::MAX);
}

#[test]
fn fills_buffers() {
    let mut f = Cursor::new(&[1, 2, 3, 4]);
    let mut buffer = [0; 3];
    assert_eq!(f.read_exact(&mut buffer), Ok(()));
    assert_eq!(buffer, [1, 2, 3]);
    assert_eq!(f.read_exact(&mut buffer), eof());
    assert_eq!(buffer, [1, 2, 3]);
    assert_eq!(f.pos(), 3);
    f.seek_start(9);
    assert_eq!(f.read_exact(&mut []), Ok(()));
    assert_eq!(f.pos(), 9);
}

#[test]
fn reads_padding() {
    let mut f = Cursor::new(&[0, 0, 0, 7]);
    assert_eq!(f.read_padding(0), Ok(()));
    assert_eq!(f.read_padding(3), Ok(()));
    assert_eq!(f.pos(), 3);
    // The byte that is not zero comes before the end of the data.
    assert_eq!(f.read_padding(2), Err(Error::NonZeroPadding));
    assert_eq!(f.pos(), 4);
    assert_eq!(f.read_padding(1), eof());
    assert_eq!(f.pos(), 4);
    assert_eq!(f.read_padding(0), Ok(()));
    f.seek_start(6);
    assert_eq!(f.read_padding(1), eof());
    assert_eq!(f.pos(), 6);

    // Reading stops after the first byte that is not zero, or at the end of the data.
    let mut f = Cursor::new(&[0, 5, 0, 6, 0, 0]);
    assert_eq!(f.read_padding(4), Err(Error::NonZeroPadding));
    assert_eq!(f.pos(), 2);
    f.seek_start(4);
    assert_eq!(f.read_padding(9), eof());
    assert_eq!(f.pos(), 6);
}
