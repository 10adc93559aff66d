//! Hexadecimal readers and writers: address literals (`0x` plus up to 64
//! digits, left-padded) and hex-encoded byte strings (the compact wire form
//! for `vector<u8>` values).
use vstd::prelude::*;
use crate::types::{AccountAddress, ADDRESS_LENGTH, addr_wf};

verus! {

broadcast use vstd::std_specs::vec::group_vec_axioms, vstd::seq::group_seq_axioms;

pub open spec fn is_hex_digit(b: u8) -> bool {
    (48 <= b <= 57) || (97 <= b <= 102) || (65 <= b <= 70)
}

/// Numeric value of a hex digit byte (meaningful only under [`is_hex_digit`]).
pub open spec fn hex_digit_val(b: u8) -> u8 {
    if 48 <= b <= 57 {
        (b - 48) as u8
    } else if 97 <= b <= 102 {
        (b - 87) as u8
    } else {
        (b - 55) as u8
    }
}

/// Lower-case hex digit byte for a nibble (meaningful only for `n < 16`).
pub open spec fn hex_char_lower(n: u8) -> u8 {
    if n < 10 {
        (n + 48) as u8
    } else {
        (n + 87) as u8
    }
}

/// The `j`-th nibble (big-endian within each byte) of a byte string.
pub open spec fn nibble_of(b: Seq<u8>, j: int) -> u8 {
    if j % 2 == 0 {
        b[j / 2] / 16
    } else {
        b[j / 2] % 16
    }
}

pub proof fn lemma_hex_digit_roundtrip(n: u8)
    requires
        n < 16,
    ensures
        is_hex_digit(hex_char_lower(n)),
        hex_digit_val(hex_char_lower(n)) == n,
{
}

// ---------------------------------------------------------------------------
// Address literals
// ---------------------------------------------------------------------------

/// An address literal: `0x` followed by one to 64 hex digits.
pub open spec fn addr_lit_wf(s: Seq<u8>) -> bool {
    &&& 3 <= s.len() <= 2 + 2 * ADDRESS_LENGTH
    &&& s[0] == 48
    &&& s[1] == 120
    &&& forall|i: int| 2 <= i < s.len() ==> is_hex_digit(#[trigger] s[i])
}

/// The address denoted by a well-formed literal: digits are right-aligned and
/// the value is left-padded with zero nibbles.
pub open spec fn addr_of_lit(s: Seq<u8>) -> Seq<u8> {
    let k = s.len() - 2;
    let nibs = Seq::new(
        (2 * ADDRESS_LENGTH) as nat,
        |j: int|
            if j < 2 * ADDRESS_LENGTH - k {
                0u8
            } else {
                hex_digit_val(s[2 + (j - (2 * ADDRESS_LENGTH - k))])
            },
    );
    Seq::new(ADDRESS_LENGTH as nat, |i: int| (nibs[2 * i] * 16 + nibs[2 * i + 1]) as u8)
}

/// Canonical printed form of an address: `0x` plus 64 lower-case digits.
pub open spec fn addr_to_lit(a: Seq<u8>) -> Seq<u8> {
    seq![48u8, 120u8] + Seq::new((2 * ADDRESS_LENGTH) as nat, |j: int| hex_char_lower(nibble_of(a, j)))
}

/// Printing an address and reading the literal back yields the same address.
pub proof fn lemma_addr_lit_roundtrip(a: Seq<u8>)
    requires
        addr_wf(a),
    ensures
        addr_lit_wf(addr_to_lit(a)),
        addr_of_lit(addr_to_lit(a)) == a,
{
    let s = addr_to_lit(a);
    assert forall|j: int| 0 <= j < 2 * ADDRESS_LENGTH implies nibble_of(a, j) < 16 by {
        if j % 2 == 0 {
            assert(a[j / 2] / 16 < 16);
        } else {
            assert(a[j / 2] % 16 < 16);
        }
    }
    assert forall|i: int| 2 <= i < s.len() implies is_hex_digit(#[trigger] s[i]) by {
        lemma_hex_digit_roundtrip(nibble_of(a, i - 2));
    }
    let r = addr_of_lit(s);
    assert forall|i: int| 0 <= i < ADDRESS_LENGTH implies r[i] == a[i] by {
        lemma_hex_digit_roundtrip(nibble_of(a, 2 * i));
        lemma_hex_digit_roundtrip(nibble_of(a, 2 * i + 1));
        assert((2 * i) % 2 == 0 && (2 * i + 1) % 2 == 1 && (2 * i) / 2 == i && (2 * i + 1) / 2
            == i);
        assert(r[i] == (a[i] / 16) * 16 + a[i] % 16);
        assert((a[i] / 16) * 16 + a[i] % 16 == a[i]);
    }
    assert(r =~= a);
}

/// Tests one byte for being a hex digit.
pub fn hex_digit_check(b: u8) -> (r: bool)
    ensures
        r == is_hex_digit(b),
{
    (48 <= b && b <= 57) || (97 <= b && b <= 102) || (65 <= b && b <= 70)
}

/// Numeric value of one hex digit byte.
pub fn hex_val(b: u8) -> (r: Option<u8>)
    ensures
        r is Some <==> is_hex_digit(b),
        r matches Some(v) ==> v == hex_digit_val(b) && v < 16,
{
    if 48 <= b && b <= 57 {
        Some(b - 48)
    } else if 97 <= b && b <= 102 {
        Some(b - 87)
    } else if 65 <= b && b <= 70 {
        Some(b - 55)
    } else {
        None
    }
}

/// Lower-case hex digit byte for one nibble.
pub fn hex_char(n: u8) -> (r: u8)
    requires
        n < 16,
    ensures
        r == hex_char_lower(n),
{
    if n < 10 {
        n + 48
    } else {
        n + 87
    }
}

/// Reads an address literal, `0x` plus at most 64 hex digits, left-padding
/// the value to the full address width.
pub fn parse_address_literal(s: &[u8]) -> (r: Option<AccountAddress>)
    ensures
        r is Some <==> addr_lit_wf(s@),
        r matches Some(a) ==> a@ == addr_of_lit(s@) && a.wf(),
{
    if s.len() < 3 || s.len() > 2 + 2 * ADDRESS_LENGTH {
        return None;
    }
    if s[0] != 48 || s[1] != 120 {
        return None;
    }
    let k = s.len() - 2;
    let pad = 2 * ADDRESS_LENGTH - k;
    let mut nibs: Vec<u8> = Vec::new();
    let mut j: usize = 0;
    while j < pad
        invariant
            j <= pad,
            pad == 2 * ADDRESS_LENGTH - (s@.len() - 2),
            3 <= s@.len() <= 2 + 2 * ADDRESS_LENGTH,
            nibs@.len() == j,
            forall|m: int| 0 <= m < j ==> nibs@[m] == 0u8,
        decreases pad - j,
    {
        nibs.push(0);
        j += 1;
    }
    let mut idx: usize = 0;
    while idx < k
        invariant
            idx <= k,
            k == s@.len() - 2,
            pad == 2 * ADDRESS_LENGTH - k,
            3 <= s@.len() <= 2 + 2 * ADDRESS_LENGTH,
            s@[0] == 48 && s@[1] == 120,
            nibs@.len() == pad + idx,
            forall|m: int| 0 <= m < pad ==> nibs@[m] == 0u8,
            forall|m: int|
                2 <= m < 2 + idx ==> is_hex_digit(#[trigger] s@[m]) && nibs@[pad + m - 2]
                    == hex_digit_val(s@[m]),
            forall|m: int| 0 <= m < nibs@.len() ==> nibs@[m] < 16,
        decreases k - idx,
    {
        match hex_val(s[2 + idx]) {
            Some(v) => {
                nibs.push(v);
            },
            None => {
                return None;
            },
        }
        idx += 1;
    }
    let mut bytes: Vec<u8> = Vec::new();
    let mut i: usize = 0;
    while i < ADDRESS_LENGTH
        invariant
            i <= ADDRESS_LENGTH,
            k == s@.len() - 2,
            pad == 2 * ADDRESS_LENGTH - k,
            3 <= s@.len() <= 2 + 2 * ADDRESS_LENGTH,
            s@[0] == 48 && s@[1] == 120,
            nibs@.len() == 2 * ADDRESS_LENGTH,
            forall|m: int| 0 <= m < pad ==> nibs@[m] == 0u8,
            forall|m: int|
                2 <= m < s@.len() ==> is_hex_digit(#[trigger] s@[m]) && nibs@[pad + m - 2]
                    == hex_digit_val(s@[m]),
            forall|m: int| 0 <= m < nibs@.len() ==> nibs@[m] < 16,
            bytes@.len() == i,
            forall|m: int|
                0 <= m < i ==> bytes@[m] == (nibs@[2 * m] * 16 + nibs@[2 * m + 1]) as u8,
        decreases ADDRESS_LENGTH - i,
    {
        let hi = nibs[2 * i];
        let lo = nibs[2 * i + 1];
        bytes.push(hi * 16 + lo);
        i += 1;
    }
    proof {
        assert(addr_lit_wf(s@));
        assert(bytes@ =~= addr_of_lit(s@));
    }
    Some(AccountAddress { bytes })
}

/// Prints an address as its canonical full-width literal.
pub fn address_to_literal(a: &AccountAddress) -> (r: Vec<u8>)
    requires
        a.wf(),
    ensures
        r@ == addr_to_lit(a@),
{
    let mut out: Vec<u8> = Vec::new();
    out.push(48);
    out.push(120);
    let mut j: usize = 0;
    while j < 2 * ADDRESS_LENGTH
        invariant
            j <= 2 * ADDRESS_LENGTH,
            a@.len() == ADDRESS_LENGTH,
            out@.len() == 2 + j,
            out@[0] == 48u8 && out@[1] == 120u8,
            forall|m: int| 0 <= m < j ==> out@[2 + m] == hex_char_lower(nibble_of(a@, m)),
        decreases 2 * ADDRESS_LENGTH - j,
    {
        let b = a.bytes[j / 2];
        let nib = if j % 2 == 0 {
            b / 16
        } else {
            b % 16
        };
        out.push(hex_char(nib));
        j += 1;
    }
    proof {
        assert(out@ =~= addr_to_lit(a@));
    }
    out
}

// ---------------------------------------------------------------------------
// Hex-encoded byte strings
// ---------------------------------------------------------------------------

/// Strips one optional `0x` prefix.
pub open spec fn strip_hex_prefix(s: Seq<u8>) -> Seq<u8> {
    if s.len() >= 2 && s[0] == 48 && s[1] == 120 {
        s.skip(2)
    } else {
        s
    }
}

/// A hex byte string: an even number of hex digits after an optional `0x`.
pub open spec fn hex_str_wf(s: Seq<u8>) -> bool {
    let d = strip_hex_prefix(s);
    &&& d.len() % 2 == 0
    &&& forall|i: int| 0 <= i < d.len() ==> is_hex_digit(#[trigger] d[i])
}

/// The bytes denoted by an even run of hex digits.
pub open spec fn bytes_of_hex_digits(d: Seq<u8>) -> Seq<u8> {
    Seq::new((d.len() / 2) as nat, |i: int| (hex_digit_val(d[2 * i]) * 16 + hex_digit_val(d[2 * i + 1])) as u8)
}

/// The canonical printed form of a byte string: `0x` plus lower-case digits.
pub open spec fn hex_of_bytes(b: Seq<u8>) -> Seq<u8> {
    seq![48u8, 120u8] + Seq::new(2 * b.len(), |j: int| hex_char_lower(nibble_of(b, j)))
}

/// Printing bytes as hex and reading the string back yields the same bytes.
pub proof fn lemma_hex_bytes_roundtrip(b: Seq<u8>)
    ensures
        hex_str_wf(hex_of_bytes(b)),
        bytes_of_hex_digits(strip_hex_prefix(hex_of_bytes(b))) == b,
{
    let s = hex_of_bytes(b);
    let d = strip_hex_prefix(s);
    assert(d =~= Seq::new(2 * b.len(), |j: int| hex_char_lower(nibble_of(b, j))));
    assert forall|j: int| 0 <= j < d.len() implies is_hex_digit(#[trigger] d[j])
        && hex_digit_val(d[j]) == nibble_of(b, j) by {
        if j % 2 == 0 {
            assert(b[j / 2] / 16 < 16);
        } else {
            assert(b[j / 2] % 16 < 16);
        }
        lemma_hex_digit_roundtrip(nibble_of(b, j));
    }
    let r = bytes_of_hex_digits(d);
    assert forall|i: int| 0 <= i < b.len() implies r[i] == b[i] by {
        assert((2 * i) % 2 == 0 && (2 * i + 1) % 2 == 1 && (2 * i) / 2 == i && (2 * i + 1) / 2
            == i);
        assert(r[i] == (b[i] / 16) * 16 + b[i] % 16);
        assert((b[i] / 16) * 16 + b[i] % 16 == b[i]);
    }
    assert(r =~= b);
}

/// Decodes a hex byte string (optional `0x`, even digit count).
pub fn parse_hex_string(s: &[u8]) -> (r: Option<Vec<u8>>)
    ensures
        r is Some <==> hex_str_wf(s@),
        r matches Some(b) ==> b@ == bytes_of_hex_digits(strip_hex_prefix(s@)),
{
    let start: usize = if s.len() >= 2 && s[0] == 48 && s[1] == 120 {
        2
    } else {
        0
    };
    let d_len = s.len() - start;
    if d_len % 2 != 0 {
        proof {
            assert(strip_hex_prefix(s@).len() % 2 != 0);
        }
        return None;
    }
    let mut out: Vec<u8> = Vec::new();
    let mut i: usize = 0;
    let ghost d = strip_hex_prefix(s@);
    proof {
        assert(d =~= s@.skip(start as int));
    }
    while i < d_len / 2
        invariant
            i <= d_len / 2,
            start + d_len == s@.len(),
            d_len % 2 == 0,
            d == s@.skip(start as int),
            d == strip_hex_prefix(s@),
            d.len() == d_len,
            out@.len() == i,
            forall|m: int| 0 <= m < 2 * i ==> is_hex_digit(#[trigger] d[m]),
            forall|m: int|
                0 <= m < i ==> out@[m] == (hex_digit_val(d[2 * m]) * 16 + hex_digit_val(
                    d[2 * m + 1],
                )) as u8,
        decreases d_len - i,
    {
        proof {
            assert(2 * i + 1 < d_len);
            assert(start + 2 * i + 1 < s@.len());
        }
        let j2: usize = i + i;
        let hi = match hex_val(s[start + j2]) {
            Some(v) => v,
            None => {
                proof {
                    assert(d[2 * i as int] == s@[start + 2 * i]);
                    assert(!hex_str_wf(s@));
                }
                return None;
            },
        };
        let lo = match hex_val(s[start + j2 + 1]) {
            Some(v) => v,
            None => {
                proof {
                    assert(d[2 * i as int + 1] == s@[start + 2 * i + 1]);
                    assert(!hex_str_wf(s@));
                }
                return None;
            },
        };
        out.push(hi * 16 + lo);
        i += 1;
    }
    proof {
        assert(hex_str_wf(s@));
        assert(out@ =~= bytes_of_hex_digits(d));
    }
    Some(out)
}

/// Encodes bytes as a `0x`-prefixed lower-case hex string.
pub fn bytes_to_hex_string(b: &[u8]) -> (r: Vec<u8>)
    ensures
        r@ == hex_of_bytes(b@),
{
    let mut out: Vec<u8> = Vec::new();
    out.push(48);
    out.push(120);
    let mut i: usize = 0;
    while i < b.len()
        invariant
            i <= b@.len(),
            out@.len() == 2 + 2 * i,
            out@[0] == 48u8 && out@[1] == 120u8,
            forall|m: int| 0 <= m < 2 * i ==> out@[2 + m] == hex_char_lower(nibble_of(b@, m)),
        decreases b@.len() - i,
    {
        let byte = b[i];
        out.push(hex_char(byte / 16));
        out.push(hex_char(byte % 16));
        proof {
            assert((2 * i as int) % 2 == 0 && (2 * i as int) / 2 == i as int);
            assert((2 * i as int + 1) % 2 == 1 && (2 * i as int + 1) / 2 == i as int);
        }
        i += 1;
    }
    proof {
        assert(out@ =~= hex_of_bytes(b@));
    }
    out
}

} // verus!
