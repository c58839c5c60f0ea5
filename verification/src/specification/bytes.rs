//! Byte classes used by the validators.

use vstd::prelude::*;

verus! {

/// The byte sets the validators accept.
#[derive(Debug, Clone, Copy, PartialEq, Eq, Structural)]
pub enum ByteClass {
    /// ASCII letters, digits and `-`.
    HostName,
    /// Lower-case letters, digits, `_` and `-`.
    UserName,
    /// ASCII letters, digits, `+`, `/` and `=`.
    Base64,
    /// ASCII letters, digits, `-`, `_` and `.`.
    FileName,
    /// Hexadecimal digits.
    Hex,
    /// Printable ASCII, space to tilde.
    Printable,
    /// Anything but a control character.
    NoControl,
    /// ASCII letters, digits, `-` and `_`.
    Segment,
    /// ASCII letters, digits, `/`, `_`, `+` and `-`.
    TimeZone,
    /// Upper-case letters.
    Upper,
}

pub open spec fn is_digit_byte(b: u8) -> bool {
    48 <= b <= 57
}

pub open spec fn is_lower_byte(b: u8) -> bool {
    97 <= b <= 122
}

pub open spec fn is_upper_byte(b: u8) -> bool {
    65 <= b <= 90
}

pub open spec fn is_alnum_byte(b: u8) -> bool {
    is_digit_byte(b) || is_lower_byte(b) || is_upper_byte(b)
}

pub open spec fn in_class(class: ByteClass, b: u8) -> bool {
    match class {
        ByteClass::HostName => is_alnum_byte(b) || b == 45,
        ByteClass::UserName => is_lower_byte(b) || is_digit_byte(b) || b == 95 || b == 45,
        ByteClass::Base64 => is_alnum_byte(b) || b == 43 || b == 47 || b == 61,
        ByteClass::FileName => is_alnum_byte(b) || b == 45 || b == 95 || b == 46,
        ByteClass::Hex => is_digit_byte(b) || (97 <= b <= 102) || (65 <= b <= 70),
        ByteClass::Printable => 0x20 <= b <= 0x7e,
        ByteClass::NoControl => !(b < 0x20 || b == 0x7f),
        ByteClass::Segment => is_alnum_byte(b) || b == 45 || b == 95,
        ByteClass::TimeZone => is_alnum_byte(b) || b == 47 || b == 95 || b == 43 || b == 45,
        ByteClass::Upper => is_upper_byte(b),
    }
}

pub open spec fn all_in(class: ByteClass, bytes: Seq<u8>) -> bool {
    forall|i: int| 0 <= i < bytes.len() ==> in_class(class, #[trigger] bytes[i])
}

pub fn byte_in(class: ByteClass, b: u8) -> (r: bool)
    ensures
        r == in_class(class, b),
{
    let digit = 48 <= b && b <= 57;
    let lower = 97 <= b && b <= 122;
    let upper = 65 <= b && b <= 90;
    let alnum = digit || lower || upper;
    match class {
        ByteClass::HostName => alnum || b == 45,
        ByteClass::UserName => lower || digit || b == 95 || b == 45,
        ByteClass::Base64 => alnum || b == 43 || b == 47 || b == 61,
        ByteClass::FileName => alnum || b == 45 || b == 95 || b == 46,
        ByteClass::Hex => digit || (97 <= b && b <= 102) || (65 <= b && b <= 70),
        ByteClass::Printable => 0x20 <= b && b <= 0x7e,
        ByteClass::NoControl => !(b < 0x20 || b == 0x7f),
        ByteClass::Segment => alnum || b == 45 || b == 95,
        ByteClass::TimeZone => alnum || b == 47 || b == 95 || b == 43 || b == 45,
        ByteClass::Upper => upper,
    }
}

/// Whether every byte from `start` on is in the class.
pub fn all_bytes_in(class: ByteClass, bytes: &[u8], start: usize) -> (r: bool)
    requires
        start <= bytes.len(),
    ensures
        r == all_in(class, bytes@.skip(start as int)),
{
    let mut i: usize = start;
    while i < bytes.len()
        invariant
            start <= i <= bytes.len(),
            forall|k: int| start <= k < i ==> in_class(class, #[trigger] bytes@[k]),
        decreases bytes.len() - i,
    {
        if !byte_in(class, bytes[i]) {
            assert(bytes@.skip(start as int)[i - start] == bytes@[i as int]);
            return false;
        }
        i = i + 1;
    }
    assert forall|k: int| 0 <= k < bytes@.skip(start as int).len() implies in_class(
        class,
        #[trigger] bytes@.skip(start as int)[k],
    ) by {
        assert(bytes@.skip(start as int)[k] == bytes@[start + k]);
    }
    true
}

} // verus!
