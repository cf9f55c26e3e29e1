//! Hexadecimal text, through the `hex` crate, and strings made of
//! characters.

use vstd::prelude::*;

verus! {

/// Value of an ASCII hexadecimal digit of either case.
pub open spec fn hex_digit(c: char) -> Option<u8> {
    if '0' <= c <= '9' {
        Some((c as u32 - '0' as u32) as u8)
    } else if 'a' <= c <= 'f' {
        Some((c as u32 - 'a' as u32 + 10) as u8)
    } else if 'A' <= c <= 'F' {
        Some((c as u32 - 'A' as u32 + 10) as u8)
    } else {
        None
    }
}

/// The bytes spelled by the hexadecimal text `s` (two digits per byte, high
/// nibble first), or `None` when `s` has an odd length or a character that
/// is not a hexadecimal digit.
pub open spec fn hex_decode_spec(s: Seq<char>) -> Option<Seq<u8>> {
    if s.len() % 2 == 0 && forall|i: int| 0 <= i < s.len() ==> hex_digit(#[trigger] s[i]) is Some {
        Some(
            Seq::new(
                s.len() / 2,
                |i: int| (hex_digit(s[2 * i])->0 * 16 + hex_digit(s[2 * i + 1])->0) as u8,
            ),
        )
    } else {
        None
    }
}

/// Lower-case hexadecimal digit of the value `v` (below 16).
pub open spec fn lower_hex_digit(v: u8) -> char {
    if v < 10 {
        (('0' as u32) + v) as char
    } else {
        (('a' as u32) + v - 10) as char
    }
}

/// Lower-case hexadecimal text of `b`, two digits per byte, high nibble
/// first.
pub open spec fn hex_encode_spec(b: Seq<u8>) -> Seq<char> {
    Seq::new(
        2 * b.len(),
        |i: int|
            if i % 2 == 0 {
                lower_hex_digit(b[i / 2] / 16)
            } else {
                lower_hex_digit(b[i / 2] % 16)
            },
    )
}

/// A lower-case hexadecimal digit reads back as its value.
proof fn lemma_lower_hex_digit(v: u8)
    requires
        v < 16,
    ensures
        hex_digit(lower_hex_digit(v)) == Some(v),
        '0' <= lower_hex_digit(v) <= '9' || 'a' <= lower_hex_digit(v) <= 'f',
{
    let c = lower_hex_digit(v);
    if v < 10 {
        assert(c as u32 == '0' as u32 + v);
    } else {
        assert(c as u32 == 'a' as u32 + v - 10);
    }
}

/// Decoding the hexadecimal text of `b` gives `b` back, and that text is
/// made of digits and the letters `a` to `f`.
pub proof fn lemma_hex_round_trip(b: Seq<u8>)
    ensures
        hex_decode_spec(hex_encode_spec(b)) == Some(b),
        forall|i: int|
            0 <= i < hex_encode_spec(b).len() ==> ('0' <= #[trigger] hex_encode_spec(b)[i] <= '9'
                || 'a' <= hex_encode_spec(b)[i] <= 'f'),
{
    let h = hex_encode_spec(b);
    assert forall|i: int| 0 <= i < h.len() implies hex_digit(#[trigger] h[i]) is Some && ('0'
        <= h[i] <= '9' || 'a' <= h[i] <= 'f') by {
        if i % 2 == 0 {
            lemma_lower_hex_digit(b[i / 2] / 16);
        } else {
            lemma_lower_hex_digit(b[i / 2] % 16);
        }
    }
    let d = Seq::new(
        h.len() / 2,
        |i: int| (hex_digit(h[2 * i])->0 * 16 + hex_digit(h[2 * i + 1])->0) as u8,
    );
    assert forall|i: int| 0 <= i < b.len() implies d[i] == b[i] by {
        assert((2 * i) % 2 == 0 && (2 * i) / 2 == i);
        assert((2 * i + 1) % 2 == 1 && (2 * i + 1) / 2 == i);
        lemma_lower_hex_digit(b[i] / 16);
        lemma_lower_hex_digit(b[i] % 16);
        assert(hex_digit(h[2 * i])->0 == b[i] / 16);
        assert(hex_digit(h[2 * i + 1])->0 == b[i] % 16);
    }
    assert(d =~= b);
}

/// `hex::decode`: the bytes of [`hex_decode_spec`], `None` on its error.
#[verifier::external_body]
pub(crate) fn hex_decode(s: &str) -> (r: Option<Vec<u8>>)
    ensures
        match r {
            Some(v) => hex_decode_spec(s@) == Some(v@),
            None => hex_decode_spec(s@) is None,
        },
{
    ::hex::decode(s).ok()
}

/// `hex::decode_to_slice` into 32 bytes: succeeds when `s` is 64
/// hexadecimal digits, with the bytes of [`hex_decode_spec`].
#[verifier::external_body]
pub(crate) fn hex_decode_32(s: &str) -> (r: Option<[u8; 32]>)
    ensures
        match r {
            Some(a) => s@.len() == 64 && hex_decode_spec(s@) == Some(a@),
            None => s@.len() != 64 || hex_decode_spec(s@) is None,
        },
{
    let mut out = [0u8; 32];
    match ::hex::decode_to_slice(s, &mut out) {
        Ok(()) => Some(out),
        Err(_) => None,
    }
}

/// `hex::encode`: the lower-case text of [`hex_encode_spec`].
#[verifier::external_body]
pub(crate) fn hex_encode(b: &[u8]) -> (r: String)
    ensures
        r@ == hex_encode_spec(b@),
{
    ::hex::encode(b)
}

/// `String::push`: appends `c`.
#[verifier::external_body]
fn push_char(s: &mut String, c: char)
    ensures
        final(s)@ == old(s)@.push(c),
{
    s.push(c);
}

/// The string of the characters `cs`.
pub fn string_of(cs: &[char]) -> (r: String)
    ensures
        r@ == cs@,
{
    let mut out = String::new();
    let mut i: usize = 0;
    while i < cs.len()
        invariant
            i <= cs@.len(),
            out@ == cs@.take(i as int),
        decreases cs@.len() - i,
    {
        push_char(&mut out, cs[i]);
        assert(cs@.take(i + 1) =~= cs@.take(i as int).push(cs@[i as int]));
        i = i + 1;
    }
    assert(cs@.take(cs@.len() as int) =~= cs@);
    out
}

} // verus!
