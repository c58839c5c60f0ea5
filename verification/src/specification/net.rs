//! Small network value types with validation.

use vstd::prelude::*;
use vstd::utf8::encode_utf8;
use crate::specification::error::Error;
use crate::specification::sha256::{digest, hex, hex_char, sha256, to_hex};
use crate::num::{all_digits, decimal, digits_value, parse_u64, spec_parse_u64};
use crate::text::{chars_of, hex_digit, hex_digit_value, hex_value, is_ascii_alnum, is_ascii_digit,
    is_hex_digit, owned, push_char, push_str, split_char, split_on_char, split_once,
    split_once_char, string_from, trim, trim_chars, utf8_bytes};

verus! {

// ---------------------------------------------------------------- MAC

/// A 48-bit MAC address.
#[derive(Debug, Clone, Copy, PartialEq, Eq)]
pub struct MacAddr(pub [u8; 6]);

pub open spec fn is_mac_separator(c: char) -> bool {
    c == ':' || c == '-'
}

/// `str::split` on `:` and `-`.
pub open spec fn mac_parts(s: Seq<char>) -> Seq<Seq<char>>
    decreases s.len(),
{
    if s.len() == 0 {
        seq![seq![]]
    } else {
        let r = mac_parts(s.drop_last());
        if is_mac_separator(s.last()) {
            r.push(seq![])
        } else {
            r.update(r.len() - 1, r.last().push(s.last()))
        }
    }
}

/// `u8::from_str_radix(part, 16)` on a part of two bytes.
pub open spec fn hex_octet(part: Seq<char>) -> Option<u8> {
    if part.len() != 2 {
        None
    } else if is_hex_digit(part[0]) && is_hex_digit(part[1]) {
        Some((hex_value(part[0]) * 16 + hex_value(part[1])) as u8)
    } else {
        None
    }
}

/// Why `MacAddr::parse` refuses the parts of `text`, checking the parts in
/// order from `k`.
pub open spec fn octet_error(text: Seq<char>, parts: Seq<Seq<char>>, k: int) -> Option<Seq<char>>
    decreases parts.len() - k,
{
    if k < 0 || k >= parts.len() {
        None
    } else if encode_utf8(parts[k]).len() != 2 {
        Some("`"@ + text + "` has an octet that is not two hex digits"@)
    } else if hex_octet(parts[k]) is None {
        Some("`"@ + text + "` contains a non-hexadecimal octet"@)
    } else {
        octet_error(text, parts, k + 1)
    }
}

/// What `MacAddr::parse` gives.
pub open spec fn parse_mac(text: Seq<char>) -> Result<Seq<u8>, Seq<char>> {
    let parts = mac_parts(text);
    if parts.len() != 6 {
        Err("`"@ + text + "` is not a MAC address (expected six octets)"@)
    } else {
        match octet_error(text, parts, 0) {
            Some(m) => Err(m),
            None => Ok(Seq::new(6, |i: int| hex_octet(parts[i])->0)),
        }
    }
}

/// The bytes `MacAddr::derive` takes from a digest: the first six, with the
/// multicast bit cleared and the locally administered bit set.
pub open spec fn derived_mac(seed: Seq<u8>) -> Seq<u8> {
    let d = digest(seed);
    seq![(d[0] & 0xfe) | 0x02, d[1], d[2], d[3], d[4], d[5]]
}

pub open spec fn upper_hex_char(d: u8) -> char {
    if d < 10 {
        ((d + 48) as u8) as char
    } else {
        ((d + 55) as u8) as char
    }
}

/// Six upper-case two-digit octets separated by `:`.
pub open spec fn mac_text(b: Seq<u8>) -> Seq<char> {
    Seq::new(
        17,
        |i: int| if i % 3 == 2 {
            ':'
        } else if i % 3 == 0 {
            upper_hex_char(b[i / 3] / 16)
        } else {
            upper_hex_char(b[i / 3] % 16)
        },
    )
}

fn split_mac_parts(s: &[char]) -> (r: Vec<Vec<char>>)
    ensures
        r@.map_values(|p: Vec<char>| p@) == mac_parts(s@),
{
    let mut r: Vec<Vec<char>> = Vec::new();
    r.push(Vec::new());
    assert(r@.map_values(|p: Vec<char>| p@) =~= mac_parts(s@.take(0)));
    let mut i: usize = 0;
    while i < s.len()
        invariant
            i <= s.len(),
            r@.len() >= 1,
            r@.map_values(|p: Vec<char>| p@) == mac_parts(s@.take(i as int)),
        decreases s.len() - i,
    {
        let ghost before = r@.map_values(|p: Vec<char>| p@);
        assert(s@.take(i + 1).drop_last() =~= s@.take(i as int));
        assert(s@.take(i + 1).last() == s@[i as int]);
        if s[i] == ':' || s[i] == '-' {
            r.push(Vec::new());
            assert(r@.map_values(|p: Vec<char>| p@) =~= before.push(seq![]));
        } else {
            let last = r.len() - 1;
            let mut part = r.pop().unwrap();
            part.push(s[i]);
            r.push(part);
            assert(r@.map_values(|p: Vec<char>| p@) =~= before.update(
                before.len() - 1,
                before.last().push(s@[i as int]),
            ));
        }
        i = i + 1;
    }
    assert(s@.take(s.len() as int) =~= s@);
    r
}

fn hex_octet_exec(part: &Vec<char>) -> (r: Option<u8>)
    ensures
        r == hex_octet(part@),
{
    if part.len() != 2 {
        None
    } else if hex_digit(part[0]) && hex_digit(part[1]) {
        Some((hex_digit_value(part[0]) * 16 + hex_digit_value(part[1])) as u8)
    } else {
        None
    }
}

fn quoted(text: &str, rest: &str) -> (e: Error)
    ensures
        e.message@ == "`"@ + text@ + rest@,
        e.position is None,
        e.file is None,
{
    let mut m = owned("`");
    push_str(&mut m, text);
    push_str(&mut m, rest);
    Error::new(m)
}

impl MacAddr {
    pub open spec fn octets(self) -> Seq<u8> {
        self.0@
    }

    pub fn parse(text: &str) -> (r: Result<MacAddr, Error>)
        ensures
            match parse_mac(text@) {
                Ok(bytes) => r matches Ok(mac) && mac.octets() == bytes,
                Err(m) => r matches Err(e) && e.message@ == m,
            },
    {
        let chars = chars_of(text);
        let parts = split_mac_parts(chars.as_slice());
        let ghost pv = parts@.map_values(|p: Vec<char>| p@);
        if parts.len() != 6 {
            return Err(quoted(text, "` is not a MAC address (expected six octets)"));
        }
        let mut bytes: Vec<u8> = Vec::new();
        let mut k: usize = 0;
        while k < 6
            invariant
                k <= 6,
                parts@.len() == 6,
                pv == parts@.map_values(|p: Vec<char>| p@),
                pv == mac_parts(text@),
                octet_error(text@, pv, 0) == octet_error(text@, pv, k as int),
                bytes@.len() == k,
                forall|i: int| 0 <= i < k ==> hex_octet(pv[i]) == Some(#[trigger] bytes@[i]),
            decreases 6 - k,
        {
            assert(pv[k as int] == parts@[k as int]@);
            let part = string_from(parts[k].as_slice());
            if utf8_bytes(part.as_str()).len() != 2 {
                return Err(quoted(text, "` has an octet that is not two hex digits"));
            }
            assert(encode_utf8(pv[k as int]).len() == 2);
            match hex_octet_exec(&parts[k]) {
                Some(b) => {
                    assert(octet_error(text@, pv, k as int) == octet_error(text@, pv, k + 1));
                    bytes.push(b);
                },
                None => {
                    assert(octet_error(text@, pv, k as int) == Some(
                        "`"@ + text@ + "` contains a non-hexadecimal octet"@,
                    ));
                    return Err(quoted(text, "` contains a non-hexadecimal octet"));
                },
            }
            k = k + 1;
        }
        let mac = MacAddr([bytes[0], bytes[1], bytes[2], bytes[3], bytes[4], bytes[5]]);
        assert(mac.octets() =~= Seq::new(6, |i: int| hex_octet(pv[i])->0));
        Ok(mac)
    }

    /// Derive a stable, locally administered unicast MAC from arbitrary bytes.
    ///
    /// Bit 0 of the first octet (multicast) is cleared and bit 1 (locally
    /// administered) is set, per IEEE 802.
    pub fn derive(seed: &[u8]) -> (mac: MacAddr)
        ensures
            mac.octets() == derived_mac(seed@),
    {
        let d = sha256(seed);
        let mac = MacAddr([(d[0] & 0xfe) | 0x02, d[1], d[2], d[3], d[4], d[5]]);
        assert(mac.octets() =~= derived_mac(seed@));
        mac
    }

    pub fn is_locally_administered(&self) -> (r: bool)
        ensures
            r == (self.0@[0] & 0x02 != 0),
    {
        self.0[0] & 0x02 != 0
    }

    pub fn is_multicast(&self) -> (r: bool)
        ensures
            r == (self.0@[0] & 0x01 != 0),
    {
        self.0[0] & 0x01 != 0
    }

    /// Six upper-case octets separated by `:`.
    pub fn to_string(&self) -> (s: String)
        ensures
            s@ == mac_text(self.octets()),
    {
        let mut out: Vec<char> = Vec::new();
        let mut i: usize = 0;
        while i < 6
            invariant
                i <= 6,
                out@.len() == 3 * i,
                forall|k: int| 0 <= k < 3 * i ==> #[trigger] out@[k] == (if k % 3 == 2 {
                    ':'
                } else if k % 3 == 0 {
                    upper_hex_char(self.0@[k / 3] / 16)
                } else {
                    upper_hex_char(self.0@[k / 3] % 16)
                }),
            decreases 6 - i,
        {
            let b = self.0[i];
            out.push(upper_hex_digit(b / 16));
            out.push(upper_hex_digit(b % 16));
            out.push(':');
            i = i + 1;
        }
        out.pop();
        assert(out@ =~= mac_text(self.octets()));
        string_from(out.as_slice())
    }
}

fn upper_hex_digit(d: u8) -> (c: char)
    requires
        d < 16,
    ensures
        c == upper_hex_char(d),
{
    if d < 10 {
        (d + 48) as char
    } else {
        (d + 55) as char
    }
}

/// A MAC address derived from any seed is locally administered and unicast.
pub proof fn lemma_derived_mac_is_local_unicast(seed: Seq<u8>)
    ensures
        derived_mac(seed)[0] & 0x02 != 0,
        derived_mac(seed)[0] & 0x01 == 0,
{
    let x = digest(seed)[0];
    assert(((x & 0xfe) | 0x02) & 0x02 != 0) by (bit_vector);
    assert(((x & 0xfe) | 0x02) & 0x01 == 0) by (bit_vector);
}

// ---------------------------------------------------------------- UUID

/// The sixteen bytes of a derived UUID: the digest's first sixteen, with
/// the version nibble set to 8 and the RFC 9562 variant bits.
pub open spec fn uuid_bytes(seed: Seq<u8>) -> Seq<u8> {
    let d = digest(seed);
    Seq::new(
        16,
        |i: int| if i == 6 {
            (d[6] & 0x0f) | 0x80
        } else if i == 8 {
            (d[8] & 0x3f) | 0x80
        } else {
            d[i]
        },
    )
}

/// The 8-4-4-4-12 rendering of 32 hex digits.
pub open spec fn uuid_text(h: Seq<char>) -> Seq<char> {
    h.subrange(0, 8) + seq!['-'] + h.subrange(8, 12) + seq!['-'] + h.subrange(12, 16) + seq!['-']
        + h.subrange(16, 20) + seq!['-'] + h.subrange(20, 32)
}

/// Derive a stable RFC 9562 version 8 UUID from arbitrary bytes.
///
/// NetworkManager only requires connection UUIDs to be unique and well
/// formed; deriving them from the specification keeps generated profiles
/// byte-for-byte reproducible.
pub fn derive_uuid(seed: &[u8]) -> (s: String)
    ensures
        s@ == uuid_text(hex(uuid_bytes(seed@))),
        s@.len() == 36,
        forall|i: int| 0 <= i < 36 ==> (#[trigger] s@[i] == '-') == (i == 8 || i == 13 || i == 18 || i == 23),
        forall|i: int| 0 <= i < 36 && i != 8 && i != 13 && i != 18 && i != 23 ==> is_hex_digit(#[trigger] s@[i]),
        s@[14] == '8',
        s@[19] == '8' || s@[19] == '9' || s@[19] == 'a' || s@[19] == 'b',
{
    proof {
        lemma_derived_uuid_well_formed(seed@);
    }
    let d = sha256(seed);
    let mut bytes: Vec<u8> = Vec::new();
    let mut i: usize = 0;
    while i < 16
        invariant
            i <= 16,
            d@ == digest(seed@),
            d@.len() == 32,
            bytes@ == uuid_bytes(seed@).take(i as int),
        decreases 16 - i,
    {
        let b = if i == 6 {
            (d[6] & 0x0f) | 0x80
        } else if i == 8 {
            (d[8] & 0x3f) | 0x80
        } else {
            d[i]
        };
        bytes.push(b);
        i = i + 1;
        assert(bytes@ =~= uuid_bytes(seed@).take(i as int));
    }
    assert(bytes@ =~= uuid_bytes(seed@));
    let h = to_hex(bytes.as_slice());
    let hc = chars_of(h.as_str());
    let mut out: Vec<char> = Vec::new();
    let mut k: usize = 0;
    while k < 32
        invariant
            k <= 32,
            hc@ == hex(uuid_bytes(seed@)),
            hc@.len() == 32,
            out@ == uuid_text(hc@).take((k + (if k > 8 { 1int } else { 0 }) + (if k > 12 { 1int } else { 0 })
                + (if k > 16 { 1int } else { 0 }) + (if k > 20 { 1int } else { 0 })) as int),
        decreases 32 - k,
    {
        if k == 8 || k == 12 || k == 16 || k == 20 {
            out.push('-');
        }
        out.push(hc[k]);
        k = k + 1;
        assert(out@ =~= uuid_text(hc@).take((k + (if k > 8 { 1int } else { 0 }) + (if k > 12 { 1int } else { 0 })
            + (if k > 16 { 1int } else { 0 }) + (if k > 20 { 1int } else { 0 })) as int));
    }
    assert(uuid_text(hc@).take(36) =~= uuid_text(hc@));
    string_from(out.as_slice())
}

/// A derived UUID is 36 characters in the 8-4-4-4-12 layout of lower-case
/// hex digits, with version 8 and the RFC 9562 variant.
pub proof fn lemma_derived_uuid_well_formed(seed: Seq<u8>)
    ensures
        uuid_text(hex(uuid_bytes(seed))).len() == 36,
        forall|i: int|
            0 <= i < 36 ==> (#[trigger] uuid_text(hex(uuid_bytes(seed)))[i] == '-') == (i == 8 || i
                == 13 || i == 18 || i == 23),
        forall|i: int|
            0 <= i < 36 && i != 8 && i != 13 && i != 18 && i != 23 ==> is_hex_digit(
                #[trigger] uuid_text(hex(uuid_bytes(seed)))[i],
            ),
        uuid_text(hex(uuid_bytes(seed)))[14] == '8',
        ({
            let c = uuid_text(hex(uuid_bytes(seed)))[19];
            c == '8' || c == '9' || c == 'a' || c == 'b'
        }),
{
    let b = uuid_bytes(seed);
    let h = hex(b);
    let t = uuid_text(h);
    assert(h.len() == 32);
    assert forall|k: int| 0 <= k < 32 implies is_hex_digit(#[trigger] h[k]) && h[k] != '-' by {
        let d: u8 = if k % 2 == 0 {
            b[k / 2] / 16
        } else {
            b[k / 2] % 16
        };
        assert(h[k] == hex_char(d));
        assert(d < 16);
    }
    assert forall|i: int| 0 <= i < 36 implies (#[trigger] t[i] == '-') == (i == 8 || i == 13 || i
        == 18 || i == 23) by {
        if i < 8 {
            assert(t[i] == h[i]);
        } else if 8 < i < 13 {
            assert(t[i] == h[i - 1]);
        } else if 13 < i < 18 {
            assert(t[i] == h[i - 2]);
        } else if 18 < i < 23 {
            assert(t[i] == h[i - 3]);
        } else if 23 < i {
            assert(t[i] == h[i - 4]);
        }
    }
    assert forall|i: int| 0 <= i < 36 && i != 8 && i != 13 && i != 18 && i != 23 implies is_hex_digit(
        #[trigger] t[i],
    ) by {
        if i < 8 {
            assert(t[i] == h[i]);
        } else if 8 < i < 13 {
            assert(t[i] == h[i - 1]);
        } else if 13 < i < 18 {
            assert(t[i] == h[i - 2]);
        } else if 18 < i < 23 {
            assert(t[i] == h[i - 3]);
        } else {
            assert(t[i] == h[i - 4]);
        }
    }
    let d = digest(seed);
    let x6: u8 = d[6];
    assert(((x6 & 0x0f) | 0x80) / 16 == 8) by (bit_vector);
    assert(t[14] == h[12]);
    assert(h[12] == hex_char(b[6] / 16));
    let x8: u8 = d[8];
    assert(8 <= ((x8 & 0x3f) | 0x80) / 16 && ((x8 & 0x3f) | 0x80) / 16 <= 11) by (bit_vector);
    assert(t[19] == h[16]);
    assert(h[16] == hex_char(b[8] / 16));
}

// ---------------------------------------------------------- interfaces

pub open spec fn interface_byte(b: u8) -> bool {
    (48 <= b <= 57) || (65 <= b <= 90) || (97 <= b <= 122) || b == 95 || b == 45 || b == 46
}

/// Why `validate_interface` refuses `name`, if it does.
pub open spec fn interface_error(name: Seq<char>) -> Option<Seq<char>> {
    let bytes = encode_utf8(name);
    if bytes.len() == 0 || bytes.len() > 15 {
        Some("`"@ + name + "` is not a valid interface name (1-15 characters)"@)
    } else if exists|i: int| 0 <= i < bytes.len() && !interface_byte(#[trigger] bytes[i]) {
        Some("`"@ + name + "` contains characters not allowed in an interface name"@)
    } else if name == "."@ || name == ".."@ {
        Some("`"@ + name + "` is not a valid interface name (`.` and `..` name directories)"@)
    } else {
        None
    }
}

/// Validate a Linux network interface name.
pub fn validate_interface(name: &str) -> (r: Result<(), Error>)
    ensures
        match interface_error(name@) {
            None => r is Ok,
            Some(m) => r matches Err(e) && e.message@ == m,
        },
{
    let bytes = utf8_bytes(name);
    if bytes.len() == 0 || bytes.len() > 15 {
        return Err(quoted(name, "` is not a valid interface name (1-15 characters)"));
    }
    let mut i: usize = 0;
    while i < bytes.len()
        invariant
            i <= bytes@.len(),
            1 <= bytes@.len() <= 15,
            bytes@ == encode_utf8(name@),
            forall|k: int| 0 <= k < i ==> interface_byte(#[trigger] bytes@[k]),
        decreases bytes.len() - i,
    {
        let b = bytes[i];
        if !((48 <= b && b <= 57) || (65 <= b && b <= 90) || (97 <= b && b <= 122) || b == 95 || b
            == 45 || b == 46) {
            assert(!interface_byte(bytes@[i as int]));
            return Err(quoted(name, "` contains characters not allowed in an interface name"));
        }
        i = i + 1;
    }
    if crate::text::str_eq(name, ".") || crate::text::str_eq(name, "..") {
        return Err(quoted(name, "` is not a valid interface name (`.` and `..` name directories)"));
    }
    Ok(())
}


// ---------------------------------------------------------------- IPv4

/// An IPv4 address.
#[derive(Debug, Clone, Copy, PartialEq, Eq)]
pub struct Ipv4Addr(pub [u8; 4]);

/// One octet of a dotted quad: one to three decimal digits without a
/// leading zero, at most 255.
pub open spec fn decimal_octet(p: Seq<char>) -> Option<u8> {
    if 1 <= p.len() <= 3 && all_digits(p) && (p.len() == 1 || p[0] != '0') && digits_value(p)
        <= 255 {
        Some(digits_value(p) as u8)
    } else {
        None
    }
}

/// `Ipv4Addr::from_str`: four decimal octets separated by dots.
pub open spec fn dotted_quad(s: Seq<char>) -> Option<Seq<u8>> {
    let parts = split_char(s, '.');
    if parts.len() == 4 && (forall|i: int| 0 <= i < 4 ==> #[trigger] decimal_octet(parts[i]) is Some) {
        Some(Seq::new(4, |i: int| decimal_octet(parts[i])->0))
    } else {
        None
    }
}

/// The address as a 32-bit number, first octet most significant.
pub open spec fn address_bits(o: Seq<u8>) -> u32 {
    (o[0] as nat * 0x1000000 + o[1] as nat * 0x10000 + o[2] as nat * 0x100 + o[3] as nat) as u32
}

/// `a.b.c.d` in decimal.
pub open spec fn dotted_text(o: Seq<u8>) -> Seq<char> {
    decimal(o[0] as nat) + seq!['.'] + decimal(o[1] as nat) + seq!['.'] + decimal(o[2] as nat)
        + seq!['.'] + decimal(o[3] as nat)
}

fn decimal_octet_exec(p: &Vec<char>) -> (r: Option<u8>)
    ensures
        r == decimal_octet(p@),
{
    if p.len() < 1 || p.len() > 3 {
        return None;
    }
    if p.len() > 1 && p[0] == '0' {
        return None;
    }
    if !crate::text::ascii_digit(p[0]) {
        assert(!all_digits(p@) || !is_ascii_digit(p@[0]));
        return None;
    }
    match parse_u64(p.as_slice()) {
        Some(v) => {
            proof {
                assert(p@.len() > 0 && p@[0] != '+');
            }
            if v <= 255 {
                Some(v as u8)
            } else {
                None
            }
        },
        None => {
            proof {
                if p@.len() > 0 && p@[0] == '+' {
                    if all_digits(p@) {
                        assert(is_ascii_digit(p@[0]));
                    }
                }
            }
            None
        },
    }
}

fn octets_from_text(text: &[char]) -> (r: Option<Ipv4Addr>)
    ensures
        match dotted_quad(text@) {
            Some(o) => r matches Some(a) && a.0@ == o,
            None => r is None,
        },
{
    let parts = split_on_char(text, '.');
    let ghost pv = parts@.map_values(|p: Vec<char>| p@);
    if parts.len() != 4 {
        return None;
    }
    let mut octets: Vec<u8> = Vec::new();
    let mut i: usize = 0;
    while i < 4
        invariant
            i <= 4,
            parts@.len() == 4,
            pv == parts@.map_values(|p: Vec<char>| p@),
            pv == split_char(text@, '.'),
            octets@.len() == i,
            forall|k: int| 0 <= k < i ==> decimal_octet(pv[k]) == Some(#[trigger] octets@[k]),
        decreases 4 - i,
    {
        assert(pv[i as int] == parts@[i as int]@);
        match decimal_octet_exec(&parts[i]) {
            Some(v) => octets.push(v),
            None => {
                return None;
            },
        }
        i = i + 1;
    }
    let a = Ipv4Addr([octets[0], octets[1], octets[2], octets[3]]);
    assert(a.0@ =~= Seq::new(4, |k: int| decimal_octet(pv[k])->0));
    Some(a)
}

impl Ipv4Addr {
    pub fn new(a: u8, b: u8, c: u8, d: u8) -> (r: Ipv4Addr)
        ensures
            r.0@ == seq![a, b, c, d],
    {
        let r = Ipv4Addr([a, b, c, d]);
        assert(r.0@ =~= seq![a, b, c, d]);
        r
    }

    pub fn bits(&self) -> (n: u32)
        ensures
            n == address_bits(self.0@),
    {
        (self.0[0] as u32) * 0x1000000 + (self.0[1] as u32) * 0x10000 + (self.0[2] as u32) * 0x100
            + (self.0[3] as u32)
    }

    pub fn to_string(&self) -> (s: String)
        ensures
            s@ == dotted_text(self.0@),
    {
        let mut out = crate::num::u64_to_string(self.0[0] as u64);
        push_char(&mut out, '.');
        let b = crate::num::u64_to_string(self.0[1] as u64);
        push_str(&mut out, b.as_str());
        push_char(&mut out, '.');
        let c = crate::num::u64_to_string(self.0[2] as u64);
        push_str(&mut out, c.as_str());
        push_char(&mut out, '.');
        let d = crate::num::u64_to_string(self.0[3] as u64);
        push_str(&mut out, d.as_str());
        assert(out@ =~= dotted_text(self.0@));
        out
    }
}

/// Parse an IPv4 address with a spec-friendly error message.
pub fn parse_ipv4(text: &str) -> (r: Result<Ipv4Addr, Error>)
    ensures
        match dotted_quad(trim(text@)) {
            Some(o) => r matches Ok(a) && a.0@ == o,
            None => r matches Err(e) && e.message@ == "`"@ + text@ + "` is not a valid IPv4 address"@,
        },
{
    let chars = chars_of(text);
    let trimmed = trim_chars(chars.as_slice());
    match octets_from_text(trimmed.as_slice()) {
        Some(a) => Ok(a),
        None => Err(quoted(text, "` is not a valid IPv4 address")),
    }
}

/// An IPv4 address with a prefix length, e.g. `192.168.1.50/24`.
#[derive(Debug, Clone, Copy, PartialEq, Eq)]
pub struct Ipv4Cidr {
    pub address: Ipv4Addr,
    pub prefix: u8,
}

/// `text.parse::<u8>()`.
pub open spec fn spec_parse_u8(s: Seq<char>) -> Option<u8> {
    match spec_parse_u64(s) {
        Some(v) => if v <= 255 {
            Some(v as u8)
        } else {
            None
        },
        None => None,
    }
}

/// What `Ipv4Cidr::parse` gives.
pub open spec fn parse_cidr(text: Seq<char>) -> Result<(Seq<u8>, u8), Seq<char>> {
    match split_once(text, '/') {
        None => Err("`"@ + text + "` is missing a prefix length (expected e.g. 192.168.1.50/24)"@),
        Some((addr, prefix)) => match dotted_quad(trim(addr)) {
            None => Err("`"@ + addr + "` is not a valid IPv4 address"@),
            Some(o) => match spec_parse_u8(trim(prefix)) {
                None => Err("`"@ + prefix + "` is not a valid prefix length"@),
                Some(p) => if p > 32 {
                    Err("prefix length "@ + decimal(p as nat) + " exceeds 32"@)
                } else {
                    Ok((o, p))
                },
            },
        },
    }
}

/// The network mask of a prefix length.
pub open spec fn mask_bits(prefix: u8) -> u32 {
    if prefix == 0 {
        0
    } else {
        (0xffff_ffffu32 << ((32 - prefix) as u32)) as u32
    }
}

impl Ipv4Cidr {
    pub fn parse(text: &str) -> (r: Result<Ipv4Cidr, Error>)
        ensures
            match parse_cidr(text@) {
                Ok((o, p)) => r matches Ok(c) && c.address.0@ == o && c.prefix == p,
                Err(m) => r matches Err(e) && e.message@ == m,
            },
    {
        let chars = chars_of(text);
        let (addr, prefix) = match split_once_char(chars.as_slice(), '/') {
            Some(pair) => pair,
            None => {
                return Err(
                    quoted(text, "` is missing a prefix length (expected e.g. 192.168.1.50/24)"),
                );
            },
        };
        let addr_text = string_from(addr.as_slice());
        let trimmed = trim_chars(addr.as_slice());
        let address = match octets_from_text(trimmed.as_slice()) {
            Some(a) => a,
            None => {
                return Err(quoted(addr_text.as_str(), "` is not a valid IPv4 address"));
            },
        };
        let prefix_text = string_from(prefix.as_slice());
        let p = trim_chars(prefix.as_slice());
        let value = match parse_u64(p.as_slice()) {
            Some(v) => {
                if v <= 255 {
                    v as u8
                } else {
                    return Err(quoted(prefix_text.as_str(), "` is not a valid prefix length"));
                }
            },
            None => {
                return Err(quoted(prefix_text.as_str(), "` is not a valid prefix length"));
            },
        };
        if value > 32 {
            let mut m = owned("prefix length ");
            let n = crate::num::u64_to_string(value as u64);
            push_str(&mut m, n.as_str());
            push_str(&mut m, " exceeds 32");
            return Err(Error::new(m));
        }
        Ok(Ipv4Cidr { address, prefix: value })
    }

    fn netmask_bits(&self) -> (m: u32)
        requires
            self.prefix <= 32,
        ensures
            m == mask_bits(self.prefix),
    {
        if self.prefix == 0 {
            0
        } else {
            0xffff_ffffu32 << (32 - self.prefix) as u32
        }
    }

    /// Network address implied by this CIDR.
    pub fn network(&self) -> (a: Ipv4Addr)
        requires
            self.prefix <= 32,
        ensures
            address_bits(a.0@) == address_bits(self.address.0@) & mask_bits(self.prefix),
    {
        let n = self.address.bits() & self.netmask_bits();
        let a = Ipv4Addr([(n / 0x1000000) as u8, ((n / 0x10000) % 256) as u8, ((n / 0x100) % 256) as u8, (n % 256) as u8]);
        assert(address_bits(a.0@) == n);
        a
    }

    /// True when `other` lies inside this CIDR's network.
    pub fn contains(&self, other: Ipv4Addr) -> (r: bool)
        requires
            self.prefix <= 32,
        ensures
            r == ((address_bits(other.0@) & mask_bits(self.prefix)) == (address_bits(
                self.address.0@,
            ) & mask_bits(self.prefix))),
    {
        let mask = self.netmask_bits();
        (other.bits() & mask) == (self.address.bits() & mask)
    }

    /// `address/prefix`.
    pub fn to_string(&self) -> (s: String)
        ensures
            s@ == dotted_text(self.address.0@) + seq!['/'] + decimal(self.prefix as nat),
    {
        let mut out = self.address.to_string();
        push_char(&mut out, '/');
        let p = crate::num::u64_to_string(self.prefix as u64);
        push_str(&mut out, p.as_str());
        out
    }
}

} // verus!
