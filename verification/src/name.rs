//! The names of songs.

use vstd::prelude::*;

use crate::error::NameError;

verus! {

/// What `bytes` are as the name of a song.
pub open spec fn name_of(bytes: Seq<u8>) -> Result<Seq<char>, NameError> {
    if bytes.len() < 1 || bytes.len() > 4 {
        Err(NameError::InvalidSize)
    } else if exists|i: int| 0 <= i < bytes.len() && #[trigger] bytes[i] >= 0x80 {
        Err(NameError::NonAscii)
    } else if exists|i: int| 0 <= i < bytes.len() && #[trigger] bytes[i] == 0 {
        Err(NameError::InvalidNull)
    } else {
        Ok(Seq::new(bytes.len(), |i: int| bytes[i] as char))
    }
}

/// Trusted: `tinystr::TinyStr4::from_bytes` takes from one to four bytes that are neither zero nor
/// above the ASCII range, and is the string of them. Of the reasons not to take bytes, their number
/// comes first and a byte above the range comes before a zero byte.
#[verifier::external_body]
pub(crate) fn tiny_str(bytes: &[u8]) -> (r: Result<String, NameError>)
    ensures
        match (r, name_of(bytes@)) {
            (Ok(name), Ok(expected)) => name@ == expected,
            (Err(e), Err(expected)) => e == expected,
            _ => false,
        },
{
    match tinystr::TinyStr4::from_bytes(bytes) {
        Ok(name) => Ok(name.as_str().to_owned()),
        Err(tinystr::Error::InvalidSize) => Err(NameError::InvalidSize),
        Err(tinystr::Error::InvalidNull) => Err(NameError::InvalidNull),
        Err(tinystr::Error::NonAscii) => Err(NameError::NonAscii),
    }
}

} // verus!
