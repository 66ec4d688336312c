//! What is actually shared: the secret, optionally compressed, optionally
//! preceded by its hash; and the way back, with the hash compared in constant
//! time.

use crate::error::ShamirError;
use crate::outside::{
    error_text, sha256, sha256_digest, zstd_compressed, zstd_decode, zstd_decompressed,
    zstd_encode,
};
use vstd::prelude::*;
use vstd::slice::slice_to_vec;

verus! {

/// The length of the hash that precedes the secret: SHA-256 gives 32 bytes.
pub const HASH_SIZE: usize = 32;

/// The compression level handed to zstd: zero, its default.
pub const COMPRESSION_LEVEL: i32 = 0;

/// The hash of `data` as the payload carries it: SHA-256's output, which is
/// 32 bytes long. A contract cannot say of every byte string what the hash
/// function was only observed to do on the strings it was called on, so this
/// fixes the length where none is known.
pub open spec fn digest(data: Seq<u8>) -> Seq<u8> {
    let hash = sha256(data);
    if hash.len() == HASH_SIZE {
        hash
    } else {
        Seq::new(HASH_SIZE as nat, |i: int| 0u8)
    }
}

/// The body of the payload: the secret, compressed if asked for.
pub open spec fn payload_body_of(secret: Seq<u8>, compression: bool) -> Seq<u8> {
    if compression {
        zstd_compressed(secret, COMPRESSION_LEVEL as int)
    } else {
        secret
    }
}

/// The payload made of a secret and an already encoded body: with integrity
/// checking the hash of the secret, not of the body, comes first.
pub open spec fn framed(secret: Seq<u8>, integrity: bool, body: Seq<u8>) -> Seq<u8> {
    if integrity {
        digest(secret) + body
    } else {
        body
    }
}

/// The data that is split for a secret: its hash, if integrity checking is on,
/// followed by the secret, compressed if compression is on.
pub open spec fn prepared(secret: Seq<u8>, integrity: bool, compression: bool) -> Seq<u8> {
    framed(secret, integrity, payload_body_of(secret, compression))
}

/// The hash that a recovered payload carries, if it carries one.
pub open spec fn carried_hash(raw: Seq<u8>, integrity: bool) -> Option<Seq<u8>> {
    if integrity {
        Some(raw.subrange(0, HASH_SIZE as int))
    } else {
        None
    }
}

/// What follows the hash in a recovered payload.
pub open spec fn carried_body(raw: Seq<u8>, integrity: bool) -> Seq<u8> {
    if integrity {
        raw.subrange(HASH_SIZE as int, raw.len() as int)
    } else {
        raw
    }
}

/// A secret held against the hash it came with: the secret where there is no
/// hash or the hash is that of the secret, a failed integrity check otherwise.
pub open spec fn verified(hash: Option<Seq<u8>>, secret: Seq<u8>) -> Result<Seq<u8>, ShamirError> {
    match hash {
        Some(h) => if digest(secret) == h {
            Ok(secret)
        } else {
            Err(ShamirError::IntegrityCheckFailed)
        },
        None => Ok(secret),
    }
}

/// A result with the bytes of its success taken as a sequence.
pub open spec fn outcome(r: Result<Vec<u8>, ShamirError>) -> Result<Seq<u8>, ShamirError> {
    match r {
        Ok(v) => Ok(v@),
        Err(e) => Err(e),
    }
}

/// What unpacking a recovered payload gives where the decoder, if it is asked,
/// accepts its input: too short a payload fails the integrity check; else the
/// body, decompressed if compression is on, is held against the hash.
pub open spec fn unpacked(raw: Seq<u8>, integrity: bool, compression: bool) -> Result<
    Seq<u8>,
    ShamirError,
> {
    if integrity && raw.len() < HASH_SIZE {
        Err(ShamirError::IntegrityCheckFailed)
    } else if compression {
        verified(carried_hash(raw, integrity), zstd_decompressed(carried_body(raw, integrity)))
    } else {
        verified(carried_hash(raw, integrity), carried_body(raw, integrity))
    }
}

/// Whether the decoder is asked at all: compression is on and the payload is
/// long enough to hold its hash.
pub open spec fn decoder_decides(raw: Seq<u8>, integrity: bool, compression: bool) -> bool {
    compression && !(integrity && raw.len() < HASH_SIZE)
}

/// Which results unpacking a recovered payload may give: `unpacked`, or, where
/// the decoder is asked, a decompression error.
pub open spec fn unpack_allows(
    raw: Seq<u8>,
    integrity: bool,
    compression: bool,
    r: Result<Seq<u8>, ShamirError>,
) -> bool {
    r == unpacked(raw, integrity, compression) || (decoder_decides(raw, integrity, compression)
        && r matches Err(ShamirError::DecompressionError(_)))
}

/// Puts the hash of the secret, if integrity checking is on, in front of the
/// body, which is the secret itself or what the compressor made of it.
pub fn frame_payload(secret: &[u8], integrity: bool, body: Vec<u8>) -> (payload: Vec<u8>)
    ensures
        payload@ == framed(secret@, integrity, body@),
{
    if integrity {
        let mut payload = sha256_digest(secret);
        payload.extend_from_slice(body.as_slice());
        assert(payload@ =~= digest(secret@) + body@);
        payload
    } else {
        body
    }
}

/// Prepares a secret for splitting. Without compression this always succeeds;
/// with it, the compressor may fail.
pub fn prepare(secret: &[u8], integrity: bool, compression: bool) -> (r: Result<
    Vec<u8>,
    ShamirError,
>)
    ensures
        !compression ==> r is Ok,
        r matches Ok(v) ==> v@ == prepared(secret@, integrity, compression),
        r matches Err(e) ==> e is CompressionError,
{
    let body = if compression {
        match zstd_encode(secret, COMPRESSION_LEVEL) {
            Ok(v) => v,
            Err(e) => {
                return Err(ShamirError::CompressionError(error_text(&e)));
            },
        }
    } else {
        slice_to_vec(secret)
    };
    Ok(frame_payload(secret, integrity, body))
}

/// The collected differences stay zero exactly while every pair of bytes agrees.
proof fn lemma_or_accumulates(acc: u8, a: u8, b: u8)
    by (bit_vector)
    ensures
        (acc | (a ^ b)) == 0 <==> acc == 0 && a == b,
{
}

/// Compares two hashes without stopping at the first difference: the
/// differences of all bytes are collected into one byte.
pub fn hashes_equal(calculated: &[u8], expected: &[u8]) -> (equal: bool)
    requires
        calculated.len() == expected.len(),
    ensures
        equal <==> calculated@ == expected@,
{
    let mut hash_match: u8 = 0;
    let mut i: usize = 0;
    assert(calculated@.subrange(0, 0) =~= expected@.subrange(0, 0));
    while i < calculated.len()
        invariant
            i <= calculated.len(),
            calculated.len() == expected.len(),
            hash_match == 0 <==> calculated@.subrange(0, i as int) == expected@.subrange(
                0,
                i as int,
            ),
        decreases calculated.len() - i,
    {
        proof {
            lemma_or_accumulates(hash_match, calculated[i as int], expected[i as int]);
            let c0 = calculated@.subrange(0, i as int);
            let e0 = expected@.subrange(0, i as int);
            let c1 = calculated@.subrange(0, i + 1);
            let e1 = expected@.subrange(0, i + 1);
            assert(c1 =~= c0.push(calculated[i as int]));
            assert(e1 =~= e0.push(expected[i as int]));
            if c1 == e1 {
                assert(c1.drop_last() =~= c0);
                assert(e1.drop_last() =~= e0);
                assert(c1.last() == e1.last());
            }
        }
        hash_match |= calculated[i] ^ expected[i];
        i += 1;
    }
    proof {
        assert(calculated@.subrange(0, i as int) =~= calculated@);
        assert(expected@.subrange(0, i as int) =~= expected@);
    }
    hash_match == 0
}

/// Holds a secret against the hash it came with, comparing in constant time.
pub fn verify_secret(expected_hash: &[u8], secret: Vec<u8>) -> (r: Result<Vec<u8>, ShamirError>)
    requires
        expected_hash.len() == HASH_SIZE,
    ensures
        outcome(r) == verified(Some(expected_hash@), secret@),
{
    let calculated = sha256_digest(secret.as_slice());
    if hashes_equal(calculated.as_slice(), expected_hash) {
        Ok(secret)
    } else {
        Err(ShamirError::IntegrityCheckFailed)
    }
}

/// Takes a recovered payload apart: strips and checks the hash if integrity
/// checking is on, and decompresses if compression is on.
pub fn unpack(raw: &[u8], integrity: bool, compression: bool) -> (r: Result<Vec<u8>, ShamirError>)
    ensures
        unpack_allows(raw@, integrity, compression, outcome(r)),
{
    if integrity && raw.len() < HASH_SIZE {
        return Err(ShamirError::IntegrityCheckFailed);
    }
    let (hash, body) = if integrity {
        raw.split_at(HASH_SIZE)
    } else {
        raw.split_at(0)
    };
    assert(body@ == carried_body(raw@, integrity)) by {
        assert(raw@.subrange(0, raw@.len() as int) =~= raw@);
    }
    let secret = if compression {
        match zstd_decode(body) {
            Ok(v) => v,
            Err(e) => {
                return Err(ShamirError::DecompressionError(error_text(&e)));
            },
        }
    } else {
        slice_to_vec(body)
    };
    if integrity {
        verify_secret(hash, secret)
    } else {
        Ok(secret)
    }
}

} // verus!
