use vstd::prelude::*;

use crate::error::AdbError;

verus! {

/// Whether `b` is an ASCII hexadecimal digit (`0-9`, `A-F`, `a-f`).
pub open spec fn is_hex_digit(b: u8) -> bool {
    (0x30 <= b && b <= 0x39) || (0x41 <= b && b <= 0x46) || (0x61 <= b && b <= 0x66)
}

/// The numeric value of an ASCII hexadecimal digit.
pub open spec fn hex_digit_value(b: u8) -> nat
    recommends
        is_hex_digit(b),
{
    if 0x30 <= b && b <= 0x39 {
        (b - 0x30) as nat
    } else if 0x41 <= b && b <= 0x46 {
        (b - 0x41 + 10) as nat
    } else {
        (b - 0x61 + 10) as nat
    }
}

/// Whether the four bytes at `pos` form a well-formed hex length prefix.
pub open spec fn hex4_valid_at(s: Seq<u8>, pos: int) -> bool
    recommends
        0 <= pos && pos + 4 <= s.len(),
{
    is_hex_digit(s[pos]) && is_hex_digit(s[pos + 1]) && is_hex_digit(s[pos + 2])
        && is_hex_digit(s[pos + 3])
}

/// The value of the four-hex-digit length prefix at `pos`.
pub open spec fn hex4_value_at(s: Seq<u8>, pos: int) -> nat
    recommends
        0 <= pos && pos + 4 <= s.len(),
        hex4_valid_at(s, pos),
{
    hex_digit_value(s[pos]) * 0x1000 + hex_digit_value(s[pos + 1]) * 0x100 + hex_digit_value(
        s[pos + 2],
    ) * 0x10 + hex_digit_value(s[pos + 3])
}

/// Whether a whole four-byte sequence is a well-formed hex length prefix.
pub open spec fn hex4_valid(s: Seq<u8>) -> bool
    recommends
        s.len() == 4,
{
    hex4_valid_at(s, 0)
}

/// The value of a whole four-byte hex length prefix.
pub open spec fn hex4_value(s: Seq<u8>) -> nat
    recommends
        s.len() == 4,
        hex4_valid(s),
{
    hex4_value_at(s, 0)
}

/// The lowercase ASCII hex digit with value `v`.
pub open spec fn hex_digit_byte(v: nat) -> u8
    recommends
        v < 16,
{
    if v < 10 {
        (0x30 + v) as u8
    } else {
        (0x61 + (v - 10)) as u8
    }
}

/// The canonical lowercase four-digit hex encoding of `n`.
pub open spec fn hex4_of(n: nat) -> Seq<u8>
    recommends
        n <= 0xffff,
{
    seq![
        hex_digit_byte(n / 0x1000 % 16),
        hex_digit_byte(n / 0x100 % 16),
        hex_digit_byte(n / 0x10 % 16),
        hex_digit_byte(n % 16),
    ]
}

/// A canonical hex prefix is well formed and decodes to the number it
/// encodes.
pub proof fn lemma_hex4_round_trip(n: nat)
    requires
        n <= 0xffff,
    ensures
        hex4_of(n).len() == 4,
        hex4_valid(hex4_of(n)),
        hex4_value(hex4_of(n)) == n,
{
    let s = hex4_of(n);
    assert(hex_digit_value(hex_digit_byte(n / 0x1000 % 16)) == n / 0x1000 % 16);
    assert(hex_digit_value(hex_digit_byte(n / 0x100 % 16)) == n / 0x100 % 16);
    assert(hex_digit_value(hex_digit_byte(n / 0x10 % 16)) == n / 0x10 % 16);
    assert(hex_digit_value(hex_digit_byte(n % 16)) == n % 16);
    lemma_hex_decomposition(n);
}

/// Decomposing a sixteen-bit number into its four hex digits loses nothing.
proof fn lemma_hex_decomposition(n: nat)
    requires
        n <= 0xffff,
    ensures
        n == (n / 0x1000 % 16) * 0x1000 + (n / 0x100 % 16) * 0x100 + (n / 0x10 % 16) * 0x10 + n
            % 16,
{
    let m = n as u16;
    assert(m as nat == ((m / 0x1000 % 16) * 0x1000 + (m / 0x100 % 16) * 0x100 + (m / 0x10 % 16)
        * 0x10 + m % 16) as nat) by (bit_vector);
}

/// The numeric value of one ASCII hex digit, or `None` if `b` is not one.
pub fn hex_digit(b: u8) -> (r: Option<u8>)
    ensures
        r is Some <==> is_hex_digit(b),
        r matches Some(v) ==> v == hex_digit_value(b) && v < 16,
{
    if 0x30 <= b && b <= 0x39 {
        Some(b - 0x30)
    } else if 0x41 <= b && b <= 0x46 {
        Some(b - 0x41 + 10)
    } else if 0x61 <= b && b <= 0x66 {
        Some(b - 0x61 + 10)
    } else {
        None
    }
}

/// Parse the four-hex-digit length prefix at `s[pos..pos + 4]`.
///
/// A prefix containing any non-hex byte is rejected with `ProtocolError`;
/// nothing outside the four bytes is read.
pub fn parse_hex4_at(s: &[u8], pos: usize) -> (r: Result<u16, AdbError>)
    requires
        pos + 4 <= s@.len(),
    ensures
        r is Ok <==> hex4_valid_at(s@, pos as int),
        r matches Ok(v) ==> v as nat == hex4_value_at(s@, pos as int),
        r is Err ==> r == Err::<u16, AdbError>(AdbError::ProtocolError),
{
    let d0 = match hex_digit(s[pos]) {
        Some(v) => v,
        None => { return Err(AdbError::ProtocolError) },
    };
    let d1 = match hex_digit(s[pos + 1]) {
        Some(v) => v,
        None => { return Err(AdbError::ProtocolError) },
    };
    let d2 = match hex_digit(s[pos + 2]) {
        Some(v) => v,
        None => { return Err(AdbError::ProtocolError) },
    };
    let d3 = match hex_digit(s[pos + 3]) {
        Some(v) => v,
        None => { return Err(AdbError::ProtocolError) },
    };
    Ok((d0 as u16) * 0x1000 + (d1 as u16) * 0x100 + (d2 as u16) * 0x10 + (d3 as u16))
}

/// The canonical lowercase four-digit hex encoding of `n`, as bytes.
pub fn encode_hex4(n: u16) -> (r: Vec<u8>)
    ensures
        r@ == hex4_of(n as nat),
        r@.len() == 4,
        hex4_valid(r@),
        hex4_value(r@) == n as nat,
{
    let b0 = hex_digit_to_byte((n / 0x1000 % 16) as u8);
    let b1 = hex_digit_to_byte((n / 0x100 % 16) as u8);
    let b2 = hex_digit_to_byte((n / 0x10 % 16) as u8);
    let b3 = hex_digit_to_byte((n % 16) as u8);
    let r: Vec<u8> = vec![b0, b1, b2, b3];
    proof {
        lemma_hex4_round_trip(n as nat);
        assert(r@ =~= hex4_of(n as nat));
    }
    r
}

/// The lowercase ASCII hex digit with value `v`.
fn hex_digit_to_byte(v: u8) -> (r: u8)
    requires
        v < 16,
    ensures
        r == hex_digit_byte(v as nat),
{
    if v < 10 {
        0x30 + v
    } else {
        0x61 + (v - 10)
    }
}

} // verus!
