//! Everything this library takes on trust: the hash, the compressor, the random
//! generator and the memory wiper of other crates, each behind one small
//! function whose contract says what is believed of it.

use rand_chacha::ChaCha20Rng;
use rand::rngs::OsRng;
use rand_core::{RngCore, SeedableRng};
use sha2::{Digest, Sha256};
use vstd::prelude::*;
use zeroize::Zeroize;

verus! {

/// The ChaCha generator with 20 rounds; its state is not looked into.
#[verifier::external_type_specification]
#[verifier::external_body]
pub struct ExChaCha20Rng(rand_chacha::ChaCha20Rng);

/// The SHA-256 hash of a byte string.
pub uninterp spec fn sha256(data: Seq<u8>) -> Seq<u8>;

/// What zstd's encoder makes of a byte string at a compression level.
pub uninterp spec fn zstd_compressed(data: Seq<u8>, level: int) -> Seq<u8>;

/// What zstd's decoder makes of a byte string that it accepts.
pub uninterp spec fn zstd_decompressed(data: Seq<u8>) -> Seq<u8>;

/// `sha2::Sha256::digest`: the result is the SHA-256 hash of `data`, which is
/// always 32 bytes long.
#[verifier::external_body]
pub(crate) fn sha256_digest(data: &[u8]) -> (hash: Vec<u8>)
    ensures
        hash@ == sha256(data@),
        hash@.len() == 32,
{
    Sha256::digest(data).to_vec()
}

/// `zstd::encode_all`: where the encoder succeeds, its output depends on the
/// input and the level alone. Nothing is claimed of when it succeeds.
#[verifier::external_body]
pub(crate) fn zstd_encode(data: &[u8], level: i32) -> (r: Result<Vec<u8>, std::io::Error>)
    ensures
        r matches Ok(v) ==> v@ == zstd_compressed(data@, level as int),
{
    zstd::encode_all(data, level)
}

/// `zstd::decode_all`: where the decoder accepts the input, its output depends
/// on the input alone. Nothing is claimed of which inputs it accepts.
#[verifier::external_body]
pub(crate) fn zstd_decode(data: &[u8]) -> (r: Result<Vec<u8>, std::io::Error>)
    ensures
        r matches Ok(v) ==> v@ == zstd_decompressed(data@),
{
    zstd::decode_all(data)
}

/// `std::io::Error::to_string`: the error's text. Nothing is claimed of it.
#[verifier::external_body]
pub(crate) fn error_text(error: &std::io::Error) -> (text: String) {
    error.to_string()
}

/// `std::io::Error::from` on `ErrorKind::UnexpectedEof`: the error that a
/// reader gives when its input ends too early. Nothing is claimed of it.
#[verifier::external_body]
pub(crate) fn unexpected_eof() -> (error: std::io::Error) {
    std::io::Error::from(std::io::ErrorKind::UnexpectedEof)
}

/// `ChaCha20Rng::try_from_rng` on `OsRng`: a generator seeded by the operating
/// system, or the error that the system's entropy source gave. Nothing is
/// claimed of the generator, nor of when the seeding succeeds.
#[verifier::external_body]
pub(crate) fn seeded_rng() -> (r: Result<ChaCha20Rng, std::io::Error>) {
    ChaCha20Rng::try_from_rng(&mut OsRng).map_err(
        |e| std::io::Error::new(std::io::ErrorKind::Other, e),
    )
}

/// `RngCore::fill_bytes` on the ChaCha generator: every byte of `buf` is
/// overwritten with generator output. Only the length is claimed to stay.
#[verifier::external_body]
pub(crate) fn fill_random(rng: &mut ChaCha20Rng, buf: &mut Vec<u8>)
    ensures
        final(buf)@.len() == old(buf)@.len(),
{
    rng.fill_bytes(buf.as_mut_slice());
}

/// `Zeroize::zeroize` on a `Vec<u8>`: the bytes and the spare capacity are
/// overwritten with zeros and the vector is cleared.
#[verifier::external_body]
pub(crate) fn wipe(buf: &mut Vec<u8>)
    ensures
        final(buf)@ == Seq::<u8>::empty(),
{
    buf.zeroize();
}

/// `Zeroize::zeroize` on a `String`: the bytes and the spare capacity are
/// overwritten with zeros and the string is cleared.
#[verifier::external_body]
pub(crate) fn wipe_text(text: &mut String)
    ensures
        final(text)@ == Seq::<char>::empty(),
{
    text.zeroize();
}

} // verus!
