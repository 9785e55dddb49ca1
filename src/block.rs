//! Compressed, optionally encrypted blocks: an 8-byte header and a body.
use vstd::prelude::*;
use crate::error::MdictError;
use flate2::read::ZlibDecoder;
use ripemd128::{Digest, Ripemd128};
use rust_lzo::{LZOContext, LZOError};
use std::io::Read;

verus! {

/// The RIPEMD-128 digest of `data`.
pub uninterp spec fn ripemd128_of(data: Seq<u8>) -> Seq<u8>;

/// What zlib decompression of `data` yields, or `None` where the stream is
/// invalid.
pub uninterp spec fn zlib_inflated(data: Seq<u8>) -> Option<Seq<u8>>;

/// What LZO1X decompression of `data` into a buffer of `capacity` bytes
/// yields, or `None` where it fails.
pub uninterp spec fn lzo_inflated(data: Seq<u8>, capacity: nat) -> Option<Seq<u8>>;

/// Relies on `ripemd128::Ripemd128::digest`: the 16-byte RIPEMD-128 digest.
#[verifier::external_body]
fn ripemd128_digest(key: &[u8; 8]) -> (r: Vec<u8>)
    ensures
        r@ == ripemd128_of(key@),
        r@.len() == 16,
{
    Ripemd128::digest(key).to_vec()
}

/// Relies on `flate2::read::ZlibDecoder`: reads the whole zlib stream.
#[verifier::external_body]
fn zlib_decompress(data: &[u8]) -> (r: Option<Vec<u8>>)
    ensures
        match r {
            Some(v) => zlib_inflated(data@) == Some(v@),
            None => zlib_inflated(data@) is None,
        },
{
    let mut out = Vec::new();
    match ZlibDecoder::new(data).read_to_end(&mut out) {
        Ok(_) => Some(out),
        Err(_) => None,
    }
}

/// Relies on `rust_lzo::LZOContext::decompress_to_slice`: safe LZO1X
/// decompression into a buffer of `capacity` bytes.
#[verifier::external_body]
fn lzo_decompress(data: &[u8], capacity: usize) -> (r: Option<Vec<u8>>)
    requires
        capacity <= isize::MAX,
    ensures
        match r {
            Some(v) => lzo_inflated(data@, capacity as nat) == Some(v@),
            None => lzo_inflated(data@, capacity as nat) is None,
        },
{
    let mut out = vec![0u8; capacity];
    let (res, e) = LZOContext::decompress_to_slice(data, &mut out);
    match e {
        LZOError::OK => Some(res.to_vec()),
        _ => None,
    }
}

/// The two nibbles of `b` exchanged.
pub open spec fn swap_nibbles(b: u8) -> u8 {
    ((b % 16) * 16 + b / 16) as u8
}

/// Byte `i` of the keyword-index decryption of `data` under digest `k`: the
/// nibble-swapped byte, XORed with the previous ciphertext byte (0x36 at the
/// start), the low byte of `i` and the digest byte at `i mod 16`.
pub open spec fn decrypted_byte(data: Seq<u8>, k: Seq<u8>, i: int) -> u8 {
    let prev: u8 = if i == 0 { 0x36 } else { data[i - 1] };
    swap_nibbles(data[i]) ^ prev ^ ((i % 256) as u8) ^ k[i % 16]
}

/// The keyword-index decryption of `data` under digest `k`.
pub open spec fn decrypted(data: Seq<u8>, k: Seq<u8>) -> Seq<u8> {
    Seq::new(data.len(), |i: int| decrypted_byte(data, k, i))
}

/// Decrypts a keyword-index body in place, with the RIPEMD-128 digest of
/// `key` as the key stream.
pub fn decrypt(buf: &mut Vec<u8>, key: [u8; 8])
    ensures
        final(buf)@ == decrypted(old(buf)@, ripemd128_of(key@)),
{
    let k = ripemd128_digest(&key);
    let ghost data = buf@;
    let mut prev: u8 = 0x36;
    let mut i: usize = 0;
    while i < buf.len()
        invariant
            k@ == ripemd128_of(key@),
            k@.len() == 16,
            buf@.len() == data.len(),
            i <= data.len(),
            prev == (if i == 0 { 0x36 } else { data[i - 1] }),
            forall|j: int| 0 <= j < i ==> buf@[j] == decrypted_byte(data, k@, j),
            forall|j: int| i <= j < data.len() ==> buf@[j] == data[j],
        decreases data.len() - i,
    {
        let b = buf[i];
        let s: u8 = (b >> 4) | (b << 4);
        assert(s == ((b % 16) * 16 + b / 16) as u8) by (bit_vector)
            requires
                s == (b >> 4) | (b << 4),
        ;
        let out: u8 = s ^ prev ^ ((i & 0xFF) as u8) ^ k[i % 16];
        assert((i & 0xFF) as u8 == (i % 256) as u8) by (bit_vector);
        prev = b;
        buf.set(i, out);
        i += 1;
    }
}

/// The decryption key of a block: its checksum bytes followed by
/// `95 36 00 00`.
pub open spec fn block_key(raw: Seq<u8>) -> Seq<u8> {
    raw.subrange(4, 8) + seq![0x95u8, 0x36u8, 0u8, 0u8]
}

/// What decoding the block `raw` gives: byte 0 names the compression (0
/// none, 1 LZO, 2 zlib); with bit 1 of `encryption` set, a compressed body
/// is decrypted first. An LZO block whose room exceeds `isize::MAX` bytes
/// cannot be given that room.
pub open spec fn block_result(raw: Seq<u8>, hint: nat, encryption: u8) -> Result<Seq<u8>, MdictError> {
    if raw.len() < 8 {
        Err(MdictError::CorruptBlock)
    } else {
        let body = raw.subrange(8, raw.len() as int);
        if raw[0] == 0 {
            Ok(body)
        } else if raw[0] != 1 && raw[0] != 2 {
            Err(MdictError::UnknownCompression)
        } else if raw[0] == 1 && hint > isize::MAX {
            Err(MdictError::CorruptBlock)
        } else {
            let data = if encryption & 2 != 0 {
                decrypted(body, ripemd128_of(block_key(raw)))
            } else {
                body
            };
            let out = if raw[0] == 2 { zlib_inflated(data) } else { lzo_inflated(data, hint) };
            match out {
                Some(o) => Ok(o),
                None => Err(MdictError::CorruptBlock),
            }
        }
    }
}

/// Decodes one block: an 8-byte header (compression kind, three reserved
/// bytes, checksum) and its body. `hint` is the decompressed size that LZO
/// is given room for.
pub fn decode_block(raw: &Vec<u8>, hint: usize, encryption: u8) -> (r: Result<Vec<u8>, MdictError>)
    ensures
        match r {
            Ok(v) => block_result(raw@, hint as nat, encryption) == Ok::<Seq<u8>, MdictError>(v@),
            Err(e) => block_result(raw@, hint as nat, encryption) == Err::<Seq<u8>, MdictError>(e),
        },
{
    let len = raw.len();
    if len < 8 {
        return Err(MdictError::CorruptBlock);
    }
    let kind = raw[0];
    let mut body = vstd::slice::slice_to_vec(
        vstd::slice::slice_subrange(raw.as_slice(), 8, len),
    );
    if kind == 0 {
        return Ok(body);
    }
    if kind != 1 && kind != 2 {
        return Err(MdictError::UnknownCompression);
    }
    if kind == 1 && hint > isize::MAX as usize {
        return Err(MdictError::CorruptBlock);
    }
    if encryption & 2 != 0 {
        let key: [u8; 8] = [raw[4], raw[5], raw[6], raw[7], 0x95, 0x36, 0x00, 0x00];
        assert(key@ =~= block_key(raw@));
        decrypt(&mut body, key);
    }
    let out = if kind == 2 {
        zlib_decompress(body.as_slice())
    } else {
        lzo_decompress(body.as_slice(), hint)
    };
    match out {
        Some(o) => Ok(o),
        None => Err(MdictError::CorruptBlock),
    }
}

} // verus!
