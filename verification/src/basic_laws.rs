//! What holds of numbers, padding, text and sizes.

use vstd::prelude::*;
use vstd::string::*;

use crate::cursor;
use crate::de;
use crate::error;
use crate::error::{Error, IoError};
use crate::text;

verus! {

// Numbers

/// The first byte of a number is its most significant one, and a long number is two short ones.
pub proof fn law_numbers_are_big_endian(s: Seq<u8>, pos: int)
    requires
        0 <= pos,
        pos + 4 <= s.len(),
    ensures
        cursor::u16_at(s, pos) / 0x100 == s[pos],
        cursor::u16_at(s, pos) % 0x100 == s[pos + 1],
        cursor::u32_at(s, pos) / 0x1_0000 == cursor::u16_at(s, pos),
        cursor::u32_at(s, pos) % 0x1_0000 == cursor::u16_at(s, pos + 2),
{
}

/// A signed byte differs from the byte by nothing or by all 256 values of one, and is negative
/// exactly where the top bit is set.
pub proof fn law_signed_bytes_wrap(b: u8)
    ensures
        (cursor::signed(b) - b) % 0x100 == 0,
        cursor::signed(b) < 0 <==> b & 0x80 != 0,
{
    assert(b & 0x80 != 0 <==> b >= 0x80) by (bit_vector);
}

// Padding

/// What reading one byte of padding comes to.
pub proof fn law_one_byte_of_padding(s: Seq<u8>, pos: int)
    requires
        0 <= pos,
    ensures
        cursor::padding_at(s, pos, 0) == Ok::<(), Error>(()),
        pos >= s.len() ==> cursor::padding_at(s, pos, 1) == Err::<(), Error>(
            Error::Io(IoError::UnexpectedEof),
        ),
        pos < s.len() && s[pos] == 0 ==> cursor::padding_at(s, pos, 1) == Ok::<(), Error>(()),
        pos < s.len() && s[pos] != 0 ==> cursor::padding_at(s, pos, 1) == Err::<(), Error>(
            Error::NonZeroPadding,
        ),
{
}

/// Padding is read in turn: the first `n` bytes, and where these are all right, the next `m`.
pub proof fn law_padding_is_read_in_turn(s: Seq<u8>, pos: int, n: nat, m: nat)
    requires
        0 <= pos,
    ensures
        cursor::padding_at(s, pos, (n + m) as int) == if cursor::padding_at(s, pos, n as int) is Ok {
            cursor::padding_at(s, pos + n, m as int)
        } else {
            cursor::padding_at(s, pos, n as int)
        },
{
    if cursor::padding_at(s, pos, (n + m) as int) == Err::<(), Error>(Error::NonZeroPadding) {
        let i = choose|i: int| pos <= i < pos + (n + m) && i < s.len() && #[trigger] s[i] != 0;
        assert(s[i] != 0);
    }
}

// Text

/// A number below the base is a single digit, and any other the digits of its quotient by the base
/// and then that of the remainder.
pub proof fn law_digits_of_numbers(n: nat, d: nat, radix: nat)
    requires
        2 <= radix <= 16,
        d < radix,
    ensures
        text::digits(d, radix) == seq!["0123456789ABCDEF"@[d as int]],
        n > 0 ==> text::digits(n * radix + d, radix) == text::digits(n, radix).push(
            "0123456789ABCDEF"@[d as int],
        ),
{
    reveal_strlit("0123456789ABCDEF");
    if n > 0 {
        assert(n * radix + d >= radix) by (nonlinear_arith)
            requires
                n > 0,
        ;
        vstd::arithmetic::div_mod::lemma_fundamental_div_mod_converse(
            (n * radix + d) as int,
            radix as int,
            n as int,
            d as int,
        );
    }
}

/// The messages that hold numbers hold those of the error, in decimal, and that of a reader is its
/// own.
pub proof fn law_messages_hold_their_numbers(
    true_size: u32,
    internal_size: u32,
    n: u8,
    words: String,
)
    ensures
        error::message_of(Error::SizeMismatch { true_size, internal_size })
            == "The file says it is "@ + text::digits(internal_size as nat, 10)
            + "B, but it is actually "@ + text::digits(true_size as nat, 10) + "B"@,
        error::message_of(Error::InvalidNumSegments(n))
            == "Exactly 4 segment slots are supported, but this file has "@ + text::digits(
            n as nat,
            10,
        ),
        error::message_of(Error::Io(IoError::Other(words))) == words@,
{
}

// Sizes

/// Rounding up gives a multiple that is not below the number, and less than one multiple above it.
pub proof fn law_rounding_up(value: nat, alignment: nat)
    requires
        alignment > 0,
    ensures
        de::aligned(value, alignment) % alignment == 0,
        value <= de::aligned(value, alignment) < value + alignment,
{
    if value % alignment != 0 {
        let q = value / alignment;
        vstd::arithmetic::div_mod::lemma_fundamental_div_mod(value as int, alignment as int);
        assert((q + 1) * alignment == alignment * q + alignment) by (nonlinear_arith);
        vstd::arithmetic::div_mod::lemma_mod_multiples_basic((q + 1) as int, alignment as int);
    }
}

/// The data after the tracks of a file counts as unused exactly where it goes on past a multiple of
/// sixteen bytes, and begins where the tracks end.
pub proof fn law_unused_data_is_more_than_padding(reach: nat, len: nat)
    requires
        reach <= len <= u32::MAX,
    ensures
        match de::unused_from(reach, len) {
            Some(pos) => pos == reach && exists|q: int| reach <= #[trigger] (q * 16) < len,
            None => forall|q: int| reach <= #[trigger] (q * 16) ==> len <= q * 16,
        },
{
    law_rounding_up(reach, 16);
    let end = de::aligned(reach, 16);
    assert(de::low_bits(reach) == reach && de::low_bits(len) == len);
    assert(end == (end / 16) as int * 16);
}

/// Only the low 32 bits of a size count.
pub proof fn law_sizes_wrap(n: nat)
    ensures
        (n - de::low_bits(n)) % 0x1_0000_0000 == 0,
{
}

} // verus!
