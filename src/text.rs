//! Text in UTF-8 and UTF-16LE.
use vstd::prelude::*;
use vstd::utf8::{valid_utf8, decode_utf8, encode_utf8};
use crate::error::MdictError;

verus! {

/// Little-endian 16-bit code units of `b`, two bytes each.
pub open spec fn le_units(b: Seq<u8>) -> Seq<u16> {
    Seq::new(b.len() / 2, |i: int| (b[2 * i] as int + b[2 * i + 1] as int * 256) as u16)
}

/// Scalar values of a sequence of characters.
pub open spec fn scalars_of(s: Seq<char>) -> Seq<u32> {
    Seq::new(s.len(), |i: int| s[i] as u32)
}

pub open spec fn is_high_surrogate(u: u16) -> bool {
    0xD800 <= u <= 0xDBFF
}

pub open spec fn is_low_surrogate(u: u16) -> bool {
    0xDC00 <= u <= 0xDFFF
}

/// UTF-16 decoding: the scalar values that `u` encodes, or `None` where a
/// surrogate is unpaired.
pub open spec fn utf16_scalars(u: Seq<u16>) -> Option<Seq<u32>>
    decreases u.len(),
{
    if u.len() == 0 {
        Some(Seq::empty())
    } else if !is_high_surrogate(u[0]) && !is_low_surrogate(u[0]) {
        match utf16_scalars(u.drop_first()) {
            Some(rest) => Some(seq![u[0] as u32] + rest),
            None => None,
        }
    } else if is_high_surrogate(u[0]) && u.len() >= 2 && is_low_surrogate(u[1]) {
        match utf16_scalars(u.subrange(2, u.len() as int)) {
            Some(rest) => Some(
                seq![(0x10000 + (u[0] - 0xD800) * 0x400 + (u[1] - 0xDC00)) as u32] + rest,
            ),
            None => None,
        }
    } else {
        None
    }
}

/// `chars` is the text that `bytes` encode, in UTF-16LE when `utf16` holds
/// and in UTF-8 otherwise.
pub open spec fn text_decodes(bytes: Seq<u8>, utf16: bool, chars: Seq<char>) -> bool {
    if utf16 {
        bytes.len() % 2 == 0 && utf16_scalars(le_units(bytes)) == Some(scalars_of(chars))
    } else {
        valid_utf8(bytes) && chars == decode_utf8(bytes)
    }
}

/// `bytes` are valid text in the chosen encoding.
pub open spec fn text_valid(bytes: Seq<u8>, utf16: bool) -> bool {
    if utf16 {
        bytes.len() % 2 == 0 && utf16_scalars(le_units(bytes)) is Some
    } else {
        valid_utf8(bytes)
    }
}

/// The text that `bytes` encode, where they are valid text.
pub open spec fn decoded_text(bytes: Seq<u8>, utf16: bool) -> Seq<char> {
    if utf16 {
        choose|c: Seq<char>| text_decodes(bytes, true, c)
    } else {
        decode_utf8(bytes)
    }
}

/// Valid text decodes to one text only.
pub proof fn lemma_decoded_text(bytes: Seq<u8>, utf16: bool, chars: Seq<char>)
    requires
        text_decodes(bytes, utf16, chars),
    ensures
        decoded_text(bytes, utf16) == chars,
{
    if utf16 {
        let c = choose|c: Seq<char>| text_decodes(bytes, true, c);
        assert(scalars_of(c) == scalars_of(chars));
        assert forall|i: int| 0 <= i < c.len() implies c[i] == chars[i] by {
            assert(scalars_of(c)[i] == scalars_of(chars)[i]);
            vstd::utf8::char_u32_cast(c[i], c[i] as u32);
            vstd::utf8::char_u32_cast(chars[i], chars[i] as u32);
        }
        assert(c =~= chars);
    }
}

/// Relies on `String::from_utf16`: it decodes valid UTF-16 and fails on an
/// unpaired surrogate.
#[verifier::external_body]
fn utf16_string(units: &[u16]) -> (r: Option<String>)
    ensures
        r is Some <==> utf16_scalars(units@) is Some,
        r is Some ==> utf16_scalars(units@) == Some(scalars_of(r->0@)),
{
    String::from_utf16(units).ok()
}

/// Relies on `String::from_utf8`: it accepts exactly valid UTF-8 and keeps
/// the bytes.
#[verifier::external_body]
pub(crate) fn utf8_string(bytes: Vec<u8>) -> (r: Option<String>)
    ensures
        r is Some <==> valid_utf8(bytes@),
        r is Some ==> r->0@ == decode_utf8(bytes@),
{
    String::from_utf8(bytes).ok()
}

/// Pairs of bytes read as little-endian 16-bit units; a trailing odd byte is
/// left out.
pub fn to_le_units(b: &Vec<u8>) -> (r: Vec<u16>)
    ensures
        r@ == le_units(b@),
{
    let len: usize = b.len();
    let n: usize = len / 2;
    let mut r: Vec<u16> = Vec::with_capacity(n);
    let mut i: usize = 0;
    while i < n
        invariant
            len == b@.len(),
            n == len / 2,
            2 * n <= len,
            i <= n,
            r@ =~= le_units(b@).subrange(0, i as int),
        decreases n - i,
    {
        assert(2 * i + 1 < b@.len());
        let lo: u16 = b[2 * i] as u16;
        let hi: u16 = b[2 * i + 1] as u16;
        let u: u16 = lo + hi * 256;
        r.push(u);
        i += 1;
    }
    assert(r@ =~= le_units(b@));
    r
}

/// Decodes `bytes` as UTF-16LE when `utf16` holds, else as UTF-8.
pub fn decode_text(bytes: Vec<u8>, utf16: bool) -> (r: Result<String, MdictError>)
    ensures
        match r {
            Ok(s) => text_decodes(bytes@, utf16, s@),
            Err(e) => e == MdictError::DecodeError && !text_valid(bytes@, utf16),
        },
{
    if utf16 {
        if bytes.len() % 2 != 0 {
            return Err(MdictError::DecodeError);
        }
        let units = to_le_units(&bytes);
        match utf16_string(units.as_slice()) {
            Some(s) => Ok(s),
            None => Err(MdictError::DecodeError),
        }
    } else {
        match utf8_string(bytes) {
            Some(s) => Ok(s),
            None => Err(MdictError::DecodeError),
        }
    }
}

/// The UTF-8 bytes of `s`.
pub fn utf8_bytes(s: &String) -> (r: Vec<u8>)
    ensures
        r@ == encode_utf8(s@),
{
    vstd::slice::slice_to_vec(s.as_str().as_bytes())
}

} // verus!
