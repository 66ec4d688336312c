//! The streaming codec on byte strings: the source is split chunk by chunk,
//! each chunk with a hash and polynomials of its own, and every destination
//! receives a two-byte header and then one length-prefixed record per chunk.

use crate::error::ShamirError;
use crate::outside::{unexpected_eof, wipe};
use crate::text::{append_decimal, decimal};
use crate::payload::{outcome, prepare, prepared, unpack, unpack_allows, unpacked, decoder_decides};
use crate::shamir::{
    chunk_refusal, chunk_shares, is_chunk_split, rows, splits_chunk_into, SchemeModel, ShamirShare,
};
use crate::share::{recovered, view_data, view_indices, ShareView};
use crate::sharing::{evaluate_at, fits};
use vstd::bytes::{spec_u32_from_le_bytes, spec_u32_to_le_bytes, u32_from_le_bytes, u32_to_le_bytes};
use vstd::prelude::*;
use vstd::slice::slice_subrange;
use vstd::string::StringExecFns;

verus! {

/// The flags byte of a stream: bit 0 is integrity checking, bit 1 compression.
pub open spec fn flags_byte(integrity: bool, compression: bool) -> u8 {
    if integrity {
        if compression {
            3
        } else {
            1
        }
    } else {
        if compression {
            2
        } else {
            0
        }
    }
}

/// Whether a flags byte says that integrity checking is on.
pub open spec fn flag_integrity(flags: u8) -> bool {
    flags & 1 != 0
}

/// Whether a flags byte says that compression is on.
pub open spec fn flag_compression(flags: u8) -> bool {
    flags & 2 != 0
}

/// The header of a destination's stream: the flags, then the share's index.
pub open spec fn header(flags: u8, index: u8) -> Seq<u8> {
    seq![flags, index]
}

/// One record: the length of the share data in four bytes, low byte first,
/// then the share data.
pub open spec fn record(data: Seq<u8>) -> Seq<u8> {
    spec_u32_to_le_bytes(data.len() as u32) + data
}

/// The chunks that a source is read in: `chunk_size` bytes each, the last one
/// whatever is left; none for an empty source.
pub open spec fn chunked(source: Seq<u8>, chunk_size: nat) -> Seq<Seq<u8>>
    decreases source.len(),
{
    if source.len() == 0 || chunk_size == 0 {
        Seq::empty()
    } else if source.len() <= chunk_size {
        seq![source]
    } else {
        seq![source.subrange(0, chunk_size as int)] + chunked(
            source.subrange(chunk_size as int, source.len() as int),
            chunk_size,
        )
    }
}

/// Whether a chunk's payload of this length can be split and framed: its
/// coefficients can be counted, and its length fits the four-byte prefix.
pub open spec fn chunk_fits(len: nat, t: u8) -> bool {
    fits(len, t) && len <= u32::MAX
}

/// The records that the destination with index `x` receives for the first `m`
/// chunks, each chunk split under its own coefficients.
pub open spec fn stream_records(
    chunks: Seq<Seq<u8>>,
    coefficients: Seq<Seq<u8>>,
    scheme: SchemeModel,
    x: u8,
    m: nat,
) -> Seq<u8>
    decreases m,
{
    if m == 0 {
        Seq::empty()
    } else {
        stream_records(chunks, coefficients, scheme, x, (m - 1) as nat) + record(
            evaluate_at(
                scheme.prepared(chunks[m - 1]),
                coefficients[m - 1],
                scheme.threshold as nat,
                x,
            ),
        )
    }
}

/// Whether the destinations went from `before` to `after` by receiving their
/// headers and the records of the first `m` chunks under the given coefficients.
pub open spec fn is_stream_written(
    scheme: SchemeModel,
    chunks: Seq<Seq<u8>>,
    coefficients: Seq<Seq<u8>>,
    m: nat,
    before: Seq<Seq<u8>>,
    after: Seq<Seq<u8>>,
) -> bool {
    &&& m <= chunks.len()
    &&& coefficients.len() == m
    &&& forall|j: int|
        0 <= j < m ==> (#[trigger] coefficients[j]).len() == scheme.prepared(chunks[j]).len() * (
        scheme.threshold - 1) && chunk_fits(scheme.prepared(chunks[j]).len(), scheme.threshold)
    &&& after.len() == before.len()
    &&& forall|i: int|
        0 <= i < before.len() ==> #[trigger] after[i] == before[i] + header(
            flags_byte(scheme.config.integrity_check, scheme.config.compression),
            (i + 1) as u8,
        ) + stream_records(chunks, coefficients, scheme, (i + 1) as u8, m)
}

/// Whether the destinations received their headers and the records of the
/// first `m` chunks under some coefficients.
pub open spec fn stream_written(
    scheme: SchemeModel,
    chunks: Seq<Seq<u8>>,
    m: nat,
    before: Seq<Seq<u8>>,
    after: Seq<Seq<u8>>,
) -> bool {
    exists|coefficients: Seq<Seq<u8>>| #[trigger]
        is_stream_written(scheme, chunks, coefficients, m, before, after)
}

/// Which results splitting a stream may give, with what the destinations then
/// hold. All the chunks are written and the result is `Ok`; or the chunks
/// before the first one that could not be split are written and the result is
/// an error: one of compression, which only the compressor decides, or one of
/// size, where the chunk's payload does not fit.
pub open spec fn split_stream_allows(
    scheme: SchemeModel,
    source: Seq<u8>,
    before: Seq<Seq<u8>>,
    after: Seq<Seq<u8>>,
    r: Result<(), ShamirError>,
) -> bool {
    let chunks = chunked(source, scheme.config.chunk_size as nat);
    exists|m: nat| #[trigger]
        stream_written(scheme, chunks, m, before, after) && match r {
            Ok(_) => m == chunks.len(),
            Err(e) => m < chunks.len() && if scheme.config.compression && chunk_fits(
                scheme.prepared(chunks[m as int]).len(),
                scheme.threshold,
            ) {
                e is CompressionError
            } else if scheme.config.compression {
                e is CompressionError || e is InvalidConfig
            } else {
                e is InvalidConfig && !chunk_fits(
                    scheme.prepared(chunks[m as int]).len(),
                    scheme.threshold,
                )
            },
        }
}

/// The flag bits of the four flags bytes.
proof fn lemma_flag_bits()
    by (bit_vector)
    ensures
        0u8 | 0u8 == 0u8,
        1u8 | 0u8 == 1u8,
        0u8 | 2u8 == 2u8,
        1u8 | 2u8 == 3u8,
        0u8 & 1u8 == 0u8,
        1u8 & 1u8 == 1u8,
        2u8 & 1u8 == 0u8,
        3u8 & 1u8 == 1u8,
        0u8 & 2u8 == 0u8,
        1u8 & 2u8 == 0u8,
        2u8 & 2u8 == 2u8,
        3u8 & 2u8 == 2u8,
{
}

/// The flags byte read back gives the flags it was made from.
pub proof fn lemma_flags_round_trip(integrity: bool, compression: bool)
    ensures
        flag_integrity(flags_byte(integrity, compression)) == integrity,
        flag_compression(flags_byte(integrity, compression)) == compression,
{
    lemma_flag_bits();
}

/// The flags byte for the two flags.
pub fn encode_flags(integrity: bool, compression: bool) -> (flags: u8)
    ensures
        flags == flags_byte(integrity, compression),
{
    let integrity_flag: u8 = if integrity {
        1
    } else {
        0
    };
    let compression_flag: u8 = if compression {
        2
    } else {
        0
    };
    proof {
        lemma_flag_bits();
    }
    integrity_flag | compression_flag
}

/// The two flags of a flags byte: integrity checking, then compression.
pub fn decode_flags(flags: u8) -> (r: (bool, bool))
    ensures
        r.0 == flag_integrity(flags),
        r.1 == flag_compression(flags),
{
    ((flags & 1) != 0, (flags & 2) != 0)
}

/// Appends a stream's header to a destination: the flags, then the share's index.
pub fn write_header(destination: &mut Vec<u8>, flags: u8, index: u8)
    ensures
        final(destination)@ == old(destination)@ + header(flags, index),
{
    destination.push(flags);
    destination.push(index);
    assert(destination@ =~= old(destination)@ + header(flags, index));
}

/// The length that the record at `position` announces in its four-byte prefix.
pub fn record_length_at(source: &[u8], position: usize) -> (length: usize)
    requires
        position + 4 <= source.len(),
    ensures
        length == record_length(source@, position as int),
{
    u32_from_le_bytes(slice_subrange(source, position, position + 4)) as usize
}

/// Appends one record to a destination: the length prefix, then the data.
pub fn write_record(destination: &mut Vec<u8>, data: &[u8])
    requires
        data.len() <= u32::MAX,
    ensures
        final(destination)@ == old(destination)@ + record(data@),
{
    let length = data.len() as u32;
    let prefix = u32_to_le_bytes(length);
    destination.extend_from_slice(prefix.as_slice());
    destination.extend_from_slice(data);
    assert(destination@ =~= old(destination)@ + record(data@));
}

/// The text of the error for a wrong number of destinations.
pub open spec fn destination_count_message(expected: u8, got: nat) -> Seq<char> {
    "Expected "@ + decimal(expected as nat) + " destinations, got "@ + decimal(got)
}

/// The records of the first `m` chunks depend on the coefficients of those chunks alone.
pub proof fn lemma_stream_records_agree(
    chunks: Seq<Seq<u8>>,
    coefficients: Seq<Seq<u8>>,
    others: Seq<Seq<u8>>,
    scheme: SchemeModel,
    x: u8,
    m: nat,
)
    requires
        forall|j: int| 0 <= j < m ==> coefficients[j] == others[j],
    ensures
        stream_records(chunks, coefficients, scheme, x, m) == stream_records(
            chunks,
            others,
            scheme,
            x,
            m,
        ),
    decreases m,
{
    if m > 0 {
        lemma_stream_records_agree(chunks, coefficients, others, scheme, x, (m - 1) as nat);
    }
}

/// Reading one chunk off the front of what is left of the source: the chunks
/// read so far, then that chunk, then the chunks of the rest are the chunks
/// of the whole.
pub proof fn lemma_chunked_step(source: Seq<u8>, chunk_size: nat, pos: int, end: int)
    requires
        chunk_size > 0,
        0 <= pos < source.len(),
        end == if source.len() - pos > chunk_size {
            pos + chunk_size
        } else {
            source.len() as int
        },
    ensures
        chunked(source.subrange(pos, source.len() as int), chunk_size) == seq![
            source.subrange(pos, end),
        ] + chunked(source.subrange(end, source.len() as int), chunk_size),
{
    let len = source.len() as int;
    let rest = source.subrange(pos, len);
    if rest.len() <= chunk_size {
        assert(source.subrange(pos, end) =~= rest);
        assert(chunked(source.subrange(end, len), chunk_size) =~= Seq::<Seq<u8>>::empty());
        assert(chunked(rest, chunk_size) =~= seq![rest] + Seq::<Seq<u8>>::empty());
    } else {
        assert(rest.subrange(0, chunk_size as int) =~= source.subrange(pos, end));
        assert(rest.subrange(chunk_size as int, rest.len() as int) =~= source.subrange(end, len));
    }
}

impl ShamirShare {
    /// Splits a source into one stream per share. There must be exactly
    /// `total_shares` destinations, else nothing is written. Every
    /// destination receives its header, then one record for each chunk of
    /// `chunk_size` bytes of the source; if a chunk cannot be split, the
    /// records of the chunks before it stay written.
    pub fn split_stream(&mut self, source: &[u8], destinations: &mut Vec<Vec<u8>>) -> (r: Result<
        (),
        ShamirError,
    >)
        requires
            old(self).wf(),
        ensures
            final(self)@ == old(self)@,
            old(destinations)@.len() != old(self)@.total_shares ==> (
            r matches Err(ShamirError::InvalidConfig(message)) && message@
                == destination_count_message(
                old(self)@.total_shares,
                old(destinations)@.len(),
            )) && rows(final(destinations)@) == rows(old(destinations)@),
            old(destinations)@.len() == old(self)@.total_shares ==> split_stream_allows(
                old(self)@,
                source@,
                rows(old(destinations)@),
                rows(final(destinations)@),
                r,
            ),
    {
        let n = self.total_shares();
        if destinations.len() != n as usize {
            let mut message = String::from_str("Expected ");
            append_decimal(&mut message, n as u128);
            message.append(" destinations, got ");
            append_decimal(&mut message, destinations.len() as u128);
            return Err(ShamirError::InvalidConfig(message));
        }
        let ghost scheme = self@;
        let ghost before = rows(destinations@);
        let flags = encode_flags(self.config().integrity_check, self.config().compression);
        let mut i: usize = 0;
        while i < destinations.len()
            invariant
                i <= destinations.len(),
                destinations.len() == n,
                before.len() == n,
                forall|k: int|
                    0 <= k < i ==> (#[trigger] destinations@[k])@ == before[k] + header(
                        flags,
                        (k + 1) as u8,
                    ),
                forall|k: int| i <= k < n ==> (#[trigger] destinations@[k])@ == before[k],
            decreases destinations.len() - i,
        {
            let index = (i + 1) as u8;
            let destination = &mut destinations[i];
            write_header(destination, flags, index);
            i += 1;
        }
        let chunk_size = self.config().chunk_size;
        let ghost chunks = chunked(source@, chunk_size as nat);
        let ghost mut done: Seq<Seq<u8>> = Seq::empty();
        let ghost mut coefficients: Seq<Seq<u8>> = Seq::empty();
        let mut pos: usize = 0;
        proof {
            assert(source@.subrange(0, source@.len() as int) =~= source@);
            assert(done + chunks =~= chunks);
            assert forall|k: int| 0 <= k < before.len() implies #[trigger] rows(destinations@)[k]
                == before[k] + header(flags, (k + 1) as u8) + stream_records(
                chunks,
                coefficients,
                scheme,
                (k + 1) as u8,
                0,
            ) by {
                assert(destinations@[k]@ == before[k] + header(flags, (k + 1) as u8));
                assert(destinations@[k]@ =~= destinations@[k]@ + Seq::<u8>::empty());
            }
        }
        while pos < source.len()
            invariant
                self.wf(),
                self@ == scheme,
                scheme == old(self)@,
                n == scheme.total_shares,
                flags == flags_byte(scheme.config.integrity_check, scheme.config.compression),
                chunk_size == scheme.config.chunk_size,
                chunk_size > 0,
                pos <= source.len(),
                destinations.len() == n,
                before.len() == n,
                before == rows(old(destinations)@),
                old(destinations)@.len() == n,
                chunks == chunked(source@, chunk_size as nat),
                done + chunked(
                    source@.subrange(pos as int, source@.len() as int),
                    chunk_size as nat,
                ) == chunks,
                is_stream_written(
                    scheme,
                    chunks,
                    coefficients,
                    done.len(),
                    before,
                    rows(destinations@),
                ),
            decreases source.len() - pos,
        {
            let end: usize = if source.len() - pos > chunk_size {
                pos + chunk_size
            } else {
                source.len()
            };
            let chunk = slice_subrange(source, pos, end);
            let ghost m = done.len();
            let ghost rest = chunked(
                source@.subrange(end as int, source@.len() as int),
                chunk_size as nat,
            );
            proof {
                lemma_chunked_step(source@, chunk_size as nat, pos as int, end as int);
                assert(chunks =~= done.push(chunk@) + rest);
                assert(chunks[m as int] == chunk@);
                assert(m < chunks.len());
            }
            let mut shares = match self.split_stream_chunk(chunk) {
                Ok(shares) => shares,
                Err(e) => {
                    proof {
                        assert(stream_written(scheme, chunks, m, before, rows(destinations@)));
                    }
                    return Err(e);
                },
            };
            let ghost payload = scheme.prepared(chunk@);
            let ghost c = choose|c: Seq<u8>| #[trigger]
                is_chunk_split(rows(shares@), payload, c, scheme.threshold, scheme.total_shares);
            let ghost previous = rows(destinations@);
            proof {
                assert(rows(shares@).len() == shares@.len());
                assert(chunk_shares(payload, c, scheme.threshold, scheme.total_shares).len() == n);
            }
            let mut i: usize = 0;
            while i < destinations.len()
                invariant
                    i <= destinations.len(),
                    destinations.len() == n,
                    shares@.len() == n,
                    previous.len() == n,
                    n == scheme.total_shares,
                    payload.len() <= u32::MAX,
                    is_chunk_split(
                        rows(shares@),
                        payload,
                        c,
                        scheme.threshold,
                        scheme.total_shares,
                    ),
                    forall|k: int|
                        0 <= k < i ==> (#[trigger] destinations@[k])@ == previous[k] + record(
                            evaluate_at(payload, c, scheme.threshold as nat, (k + 1) as u8),
                        ),
                    forall|k: int| i <= k < n ==> (#[trigger] destinations@[k])@ == previous[k],
                decreases destinations.len() - i,
            {
                proof {
                    assert(shares@[i as int]@ == rows(shares@)[i as int]);
                    assert(chunk_shares(payload, c, scheme.threshold, scheme.total_shares)[i as int]
                        == evaluate_at(payload, c, scheme.threshold as nat, (i + 1) as u8));
                    assert(rows(shares@)[i as int] == evaluate_at(
                        payload,
                        c,
                        scheme.threshold as nat,
                        (i + 1) as u8,
                    ));
                }
                let destination = &mut destinations[i];
                write_record(destination, shares[i].as_slice());
                i += 1;
            }
            let mut i: usize = 0;
            while i < shares.len()
                invariant
                    i <= shares.len(),
                decreases shares.len() - i,
            {
                wipe(&mut shares[i]);
                i += 1;
            }
            proof {
                let extended = coefficients.push(c);
                assert forall|k: int| 0 <= k < before.len() implies #[trigger] rows(
                    destinations@,
                )[k] == before[k] + header(flags, (k + 1) as u8) + stream_records(
                    chunks,
                    extended,
                    scheme,
                    (k + 1) as u8,
                    m + 1,
                ) by {
                    let x = (k + 1) as u8;
                    lemma_stream_records_agree(chunks, extended, coefficients, scheme, x, m);
                    assert(previous[k] == before[k] + header(flags, x) + stream_records(
                        chunks,
                        coefficients,
                        scheme,
                        x,
                        m,
                    ));
                    assert(destinations@[k]@ == previous[k] + record(
                        evaluate_at(payload, c, scheme.threshold as nat, x),
                    ));
                    assert(extended[m as int] == c);
                    assert(rows(destinations@)[k] =~= before[k] + header(flags, x)
                        + stream_records(chunks, extended, scheme, x, m + 1));
                }
                assert forall|j: int| 0 <= j < m + 1 implies (#[trigger] extended[j]).len()
                    == scheme.prepared(chunks[j]).len() * (scheme.threshold - 1) && chunk_fits(
                    scheme.prepared(chunks[j]).len(),
                    scheme.threshold,
                ) by {
                    if j < m {
                        assert(extended[j] == coefficients[j]);
                    } else {
                        assert(extended[j] == c);
                        assert(chunks[j] == chunk@);
                        assert(c.len() == payload.len() * (scheme.threshold - 1));
                        assert(chunk_fits(payload.len(), scheme.threshold));
                    }
                }
                coefficients = extended;
                done = done.push(chunk@);
                assert(done.len() == m + 1);
                assert(coefficients.len() == m + 1);
                assert(rows(destinations@).len() == before.len());
                assert(is_stream_written(
                    scheme,
                    chunks,
                    coefficients,
                    done.len(),
                    before,
                    rows(destinations@),
                ));
            }
            pos = end;
        }
        proof {
            assert(chunked(
                source@.subrange(pos as int, source@.len() as int),
                chunk_size as nat,
            ) =~= Seq::<Seq<u8>>::empty());
            assert(done =~= chunks);
            assert(stream_written(scheme, chunks, done.len(), before, rows(destinations@)));
        }
        Ok(())
    }

    /// Splits one chunk of a stream: prepares it as a whole secret is
    /// prepared and splits the payload. The result is the share data for the
    /// indices `1..=total_shares`, each short enough for a length prefix.
    pub fn split_stream_chunk(&mut self, chunk: &[u8]) -> (r: Result<Vec<Vec<u8>>, ShamirError>)
        requires
            old(self).wf(),
        ensures
            final(self)@ == old(self)@,
            !old(self)@.config.compression ==> (chunk_fits(
                old(self)@.prepared(chunk@).len(),
                old(self)@.threshold,
            ) <==> r is Ok),
            r matches Ok(shares) ==> chunk_fits(
                old(self)@.prepared(chunk@).len(),
                old(self)@.threshold,
            ) && splits_chunk_into(
                rows(shares@),
                old(self)@.prepared(chunk@),
                old(self)@.threshold,
                old(self)@.total_shares,
            ),
            r matches Err(e) ==> if old(self)@.config.compression && chunk_fits(
                old(self)@.prepared(chunk@).len(),
                old(self)@.threshold,
            ) {
                e is CompressionError
            } else if old(self)@.config.compression {
                e is CompressionError || e is InvalidConfig
            } else {
                e is InvalidConfig
            },
    {
        let config = self.config();
        let mut payload = match prepare(chunk, config.integrity_check, config.compression) {
            Ok(payload) => payload,
            Err(e) => {
                return Err(e);
            },
        };
        if payload.len() > u32::MAX as usize {
            wipe(&mut payload);
            return Err(
                ShamirError::InvalidConfig(
                    String::from_str("Chunk too large for its length prefix"),
                ),
            );
        }
        let result = self.split_chunk(payload.as_slice());
        wipe(&mut payload);
        result
    }
}

/// The length that the record at position `p` of a stream announces.
pub open spec fn record_length(source: Seq<u8>, p: int) -> nat {
    spec_u32_from_le_bytes(source.subrange(p, p + 4)) as nat
}

/// The share data of the record at position `p` of a stream.
pub open spec fn record_data(source: Seq<u8>, p: int) -> Seq<u8> {
    source.subrange(p + 4, p + 4 + record_length(source, p))
}

/// Whether some stream has fewer than four bytes left at its position: the
/// end of the streams.
pub open spec fn any_exhausted(sources: Seq<Seq<u8>>, positions: Seq<int>) -> bool {
    exists|i: int| 0 <= i < sources.len() && (#[trigger] sources[i]).len() - positions[i] < 4
}

/// Whether some stream ends before the record that it announces does.
pub open spec fn any_truncated(sources: Seq<Seq<u8>>, positions: Seq<int>) -> bool {
    exists|i: int|
        0 <= i < sources.len() && positions[i] + 4 + record_length(
            #[trigger] sources[i],
            positions[i],
        ) > sources[i].len()
}

/// The share data of the records at the positions.
pub open spec fn records_at(sources: Seq<Seq<u8>>, positions: Seq<int>) -> Seq<Seq<u8>> {
    Seq::new(sources.len(), |i: int| record_data(sources[i], positions[i]))
}

/// The positions behind the records at the positions.
pub open spec fn after_records(sources: Seq<Seq<u8>>, positions: Seq<int>) -> Seq<int> {
    Seq::new(sources.len(), |i: int| positions[i] + 4 + record_length(sources[i], positions[i]))
}

/// Which results decoding the streams from the given positions on may give,
/// and what the destination, which holds `written` so far, then holds.
/// Where some stream is exhausted, decoding ends well. Where some stream is
/// truncated, it ends with an I/O error. Else the records at the positions are
/// one chunk's shares: if they are refused, or their payload does not unpack,
/// decoding ends with that error; else the chunk is written and decoding goes
/// on behind the records.
pub open spec fn decode_allows(
    sources: Seq<Seq<u8>>,
    positions: Seq<int>,
    xs: Seq<u8>,
    integrity: bool,
    compression: bool,
    written: Seq<u8>,
    r: Result<(), ShamirError>,
    out: Seq<u8>,
) -> bool
    decreases sources[0].len() - positions[0],
{
    if sources.len() == 0 || any_exhausted(sources, positions) {
        r is Ok && out == written
    } else if any_truncated(sources, positions) {
        r matches Err(ShamirError::IoError(_)) && out == written
    } else {
        let data = records_at(sources, positions);
        match chunk_refusal(xs, data) {
            Some(e) => r == Err::<(), ShamirError>(e) && out == written,
            None => {
                let raw = recovered(xs, data);
                (decoder_decides(raw, integrity, compression) && (
                r matches Err(ShamirError::DecompressionError(_))) && out == written)
                    || match unpacked(raw, integrity, compression) {
                    Err(e) => r == Err::<(), ShamirError>(e) && out == written,
                    Ok(plain) => decode_allows(
                        sources,
                        after_records(sources, positions),
                        xs,
                        integrity,
                        compression,
                        written + plain,
                        r,
                        out,
                    ),
                }
            },
        }
    }
}

/// The index bytes of the streams' headers.
pub open spec fn header_indices(sources: Seq<Seq<u8>>) -> Seq<u8> {
    Seq::new(sources.len(), |i: int| sources[i][1])
}

/// Every stream at the position behind its header.
pub open spec fn behind_headers(sources: Seq<Seq<u8>>) -> Seq<int> {
    Seq::new(sources.len(), |i: int| 2int)
}

/// Which results reconstructing from streams may give, with what the
/// destination then holds. The checks come in this order: there is a stream;
/// every stream holds a header; all flags bytes are the first one. Only then
/// is anything decoded.
pub open spec fn reconstruct_stream_allows(
    sources: Seq<Seq<u8>>,
    before: Seq<u8>,
    after: Seq<u8>,
    r: Result<(), ShamirError>,
) -> bool {
    if sources.len() == 0 {
        r == Err::<(), ShamirError>(ShamirError::InsufficientShares { needed: 1, got: 0 })
            && after == before
    } else if exists|i: int| 0 <= i < sources.len() && (#[trigger] sources[i]).len() < 2 {
        r matches Err(ShamirError::IoError(_)) && after == before
    } else if exists|i: int| 0 <= i < sources.len() && (#[trigger] sources[i])[0] != sources[0][0] {
        (r matches Err(ShamirError::InvalidConfig(message)) && message@
            == "Inconsistent flags across sources"@) && after == before
    } else {
        decode_allows(
            sources,
            behind_headers(sources),
            header_indices(sources),
            flag_integrity(sources[0][0]),
            flag_compression(sources[0][0]),
            before,
            r,
            after,
        )
    }
}

/// Whether the streams pass the checks that come before any decoding.
pub open spec fn headers_accepted(sources: Seq<Seq<u8>>) -> bool {
    &&& sources.len() > 0
    &&& forall|i: int| 0 <= i < sources.len() ==> (#[trigger] sources[i]).len() >= 2
    &&& forall|i: int| 0 <= i < sources.len() ==> (#[trigger] sources[i])[0] == sources[0][0]
}

/// Positions as mathematical integers.
pub open spec fn positions_of(positions: Seq<usize>) -> Seq<int> {
    Seq::new(positions.len(), |i: int| positions[i] as int)
}

impl ShamirShare {
    /// Reconstructs one chunk of a stream from the share data of its records:
    /// interpolates, then unpacks as the flags say. `buffer` is working space.
    pub fn reconstruct_stream_chunk(
        views: &[ShareView],
        integrity: bool,
        compression: bool,
        buffer: &mut Vec<u8>,
    ) -> (r: Result<Vec<u8>, ShamirError>)
        ensures
            match chunk_refusal(view_indices(views@), view_data(views@)) {
                Some(e) => outcome(r) == Err::<Seq<u8>, ShamirError>(e),
                None => unpack_allows(
                    recovered(view_indices(views@), view_data(views@)),
                    integrity,
                    compression,
                    outcome(r),
                ),
            },
    {
        match Self::reconstruct_chunk_from_views(views, buffer) {
            Ok(()) => {},
            Err(e) => {
                return Err(e);
            },
        }
        unpack(buffer.as_slice(), integrity, compression)
    }

    /// Reconstructs the source from the streams of some of its shares and
    /// appends it to `destination`. The shares' indices are taken from the
    /// streams' headers. The streams are read record by record in lockstep,
    /// each chunk is written as soon as it is recovered, and the first error
    /// ends the decoding with the chunks before it written.
    pub fn reconstruct_stream(sources: &[Vec<u8>], destination: &mut Vec<u8>) -> (r: Result<
        (),
        ShamirError,
    >)
        ensures
            reconstruct_stream_allows(rows(sources@), old(destination)@, final(destination)@, r),
    {
        let ghost streams = rows(sources@);
        let n = sources.len();
        assert(streams.len() == n);
        if n == 0 {
            return Err(ShamirError::InsufficientShares { needed: 1, got: 0 });
        }
        let mut i: usize = 0;
        while i < n
            invariant
                i <= n,
                n == sources.len(),
                streams == rows(sources@),
                forall|k: int| 0 <= k < i ==> (#[trigger] streams[k]).len() >= 2,
            decreases n - i,
        {
            assert(streams[i as int] == sources@[i as int]@);
            if sources[i].len() < 2 {
                return Err(ShamirError::IoError(unexpected_eof()));
            }
            i += 1;
        }
        assert(streams[0] == sources@[0]@);
        let first_flags = sources[0][0];
        let (integrity, compression) = decode_flags(first_flags);
        let mut i: usize = 1;
        while i < n
            invariant
                1 <= i <= n,
                n == sources.len(),
                streams == rows(sources@),
                first_flags == streams[0][0],
                forall|k: int| 0 <= k < n ==> (#[trigger] streams[k]).len() >= 2,
                forall|k: int| 0 <= k < i ==> (#[trigger] streams[k])[0] == first_flags,
            decreases n - i,
        {
            assert(streams[i as int] == sources@[i as int]@);
            if sources[i][0] != first_flags {
                return Err(
                    ShamirError::InvalidConfig(
                        String::from_str("Inconsistent flags across sources"),
                    ),
                );
            }
            i += 1;
        }
        let ghost xs = header_indices(streams);
        let ghost start = behind_headers(streams);
        let ghost before = destination@;
        let mut positions: Vec<usize> = Vec::with_capacity(n);
        let mut i: usize = 0;
        while i < n
            invariant
                i <= n,
                positions@.len() == i,
                forall|k: int| 0 <= k < i ==> positions@[k] == 2,
            decreases n - i,
        {
            positions.push(2);
            i += 1;
        }
        assert(positions_of(positions@) =~= start);
        assert(headers_accepted(streams));
        let mut buffer: Vec<u8> = Vec::new();
        loop
            invariant
                n == sources.len(),
                n > 0,
                streams == rows(sources@),
                streams.len() == n,
                headers_accepted(streams),
                before == old(destination)@,
                start == behind_headers(streams),
                integrity == flag_integrity(streams[0][0]),
                compression == flag_compression(streams[0][0]),
                xs == header_indices(streams),
                positions@.len() == n,
                forall|k: int| 0 <= k < n ==> 2 <= (#[trigger] positions@[k]) <= streams[k].len(),
                forall|r2: Result<(), ShamirError>, out2: Seq<u8>| #[trigger]
                    decode_allows(
                        streams,
                        positions_of(positions@),
                        xs,
                        integrity,
                        compression,
                        destination@,
                        r2,
                        out2,
                    ) ==> decode_allows(
                        streams,
                        start,
                        xs,
                        integrity,
                        compression,
                        before,
                        r2,
                        out2,
                    ),
            ensures
                decode_allows(
                    streams,
                    start,
                    xs,
                    integrity,
                    compression,
                    before,
                    Ok::<(), ShamirError>(()),
                    destination@,
                ),
            decreases streams[0].len() - positions@[0],
        {
            let ghost here = positions_of(positions@);
            let ghost written = destination@;
            // The length prefixes.
            let mut lengths: Vec<usize> = Vec::with_capacity(n);
            let mut eof_reached = false;
            let mut i: usize = 0;
            while i < n
                invariant_except_break
                    i <= n,
                    !eof_reached,
                    lengths@.len() == i,
                    forall|k: int| 0 <= k < i ==> streams[k].len() - here[k] >= 4,
                    forall|k: int|
                        0 <= k < i ==> (#[trigger] lengths@[k]) == record_length(
                            streams[k],
                            here[k],
                        ),
                invariant
                    n == sources.len(),
                    streams == rows(sources@),
                    streams.len() == n,
                    positions@.len() == n,
                    here == positions_of(positions@),
                    forall|k: int|
                        0 <= k < n ==> 2 <= (#[trigger] positions@[k]) <= streams[k].len(),
                ensures
                    eof_reached ==> any_exhausted(streams, here),
                    !eof_reached ==> lengths@.len() == n && !any_exhausted(streams, here) && forall|
                        k: int,
                    |
                        0 <= k < n ==> (#[trigger] lengths@[k]) == record_length(
                            streams[k],
                            here[k],
                        ),
                decreases n - i,
            {
                let source = &sources[i];
                let p = positions[i];
                assert(streams[i as int] == source@);
                assert(here[i as int] == p);
                if source.len() - p < 4 {
                    eof_reached = true;
                    assert(any_exhausted(streams, here));
                    break ;
                }
                let length = record_length_at(source.as_slice(), p);
                lengths.push(length);
                i += 1;
            }
            if eof_reached {
                proof {
                    assert(decode_allows(
                        streams,
                        here,
                        xs,
                        integrity,
                        compression,
                        written,
                        Ok::<(), ShamirError>(()),
                        destination@,
                    ));
                }
                break ;
            }
            // The share data.
            let mut views: Vec<ShareView> = Vec::with_capacity(n);
            let mut i: usize = 0;
            while i < n
                invariant
                    i <= n,
                    n == sources.len(),
                    streams == rows(sources@),
                    streams.len() == n,
                    positions@.len() == n,
                    lengths@.len() == n,
                    n > 0,
                    headers_accepted(streams),
                    before == old(destination)@,
                    start == behind_headers(streams),
                    integrity == flag_integrity(streams[0][0]),
                    compression == flag_compression(streams[0][0]),
                    here == positions_of(positions@),
                    xs == header_indices(streams),
                    written == destination@,
                    !any_exhausted(streams, here),
                    forall|k: int|
                        0 <= k < n ==> 2 <= (#[trigger] positions@[k]) <= streams[k].len(),
                    forall|k: int|
                        0 <= k < n ==> (#[trigger] lengths@[k]) == record_length(
                            streams[k],
                            here[k],
                        ),
                    forall|k: int|
                        0 <= k < i ==> here[k] + 4 + record_length(streams[k], here[k])
                            <= streams[k].len(),
                    forall|k: int|
                        0 <= k < i ==> here[k] + 4 + (#[trigger] lengths@[k]) <= usize::MAX,
                    views@.len() == i,
                    forall|k: int|
                        0 <= k < i ==> (#[trigger] views@[k]).index == xs[k] && views@[k].data@
                            == record_data(streams[k], here[k]),
                    forall|r2: Result<(), ShamirError>, out2: Seq<u8>| #[trigger]
                        decode_allows(
                            streams,
                            here,
                            xs,
                            integrity,
                            compression,
                            written,
                            r2,
                            out2,
                        ) ==> decode_allows(
                            streams,
                            start,
                            xs,
                            integrity,
                            compression,
                            before,
                            r2,
                            out2,
                        ),
                decreases n - i,
            {
                let source = &sources[i];
                let p = positions[i];
                let length = lengths[i];
                assert(streams[i as int] == source@);
                assert(here[i as int] == p);
                assert(streams[i as int].len() - here[i as int] >= 4);
                if source.len() - p - 4 < length {
                    let error = ShamirError::IoError(unexpected_eof());
                    proof {
                        assert(any_truncated(streams, here));
                        assert(decode_allows(
                            streams,
                            here,
                            xs,
                            integrity,
                            compression,
                            written,
                            Err::<(), ShamirError>(error),
                            destination@,
                        ));
                    }
                    return Err(error);
                }
                let data = slice_subrange(source.as_slice(), p + 4, p + 4 + length);
                views.push(ShareView { index: source[1], data });
                i += 1;
            }
            proof {
                assert(!any_truncated(streams, here));
                assert(view_indices(views@) =~= xs);
                assert(view_data(views@) =~= records_at(streams, here));
            }
            let plain = match Self::reconstruct_stream_chunk(
                views.as_slice(),
                integrity,
                compression,
                &mut buffer,
            ) {
                Ok(plain) => plain,
                Err(e) => {
                    proof {
                        assert(decode_allows(
                            streams,
                            here,
                            xs,
                            integrity,
                            compression,
                            written,
                            Err::<(), ShamirError>(e),
                            destination@,
                        ));
                    }
                    return Err(e);
                },
            };
            destination.extend_from_slice(plain.as_slice());
            let mut i: usize = 0;
            while i < n
                invariant
                    i <= n,
                    positions@.len() == n,
                    lengths@.len() == n,
                    streams.len() == n,
                    here.len() == n,
                    forall|k: int|
                        0 <= k < n ==> here[k] + 4 + (#[trigger] lengths@[k]) <= usize::MAX,
                    forall|k: int|
                        0 <= k < n ==> (#[trigger] lengths@[k]) == record_length(
                            streams[k],
                            here[k],
                        ),
                    forall|k: int|
                        0 <= k < n ==> here[k] + 4 + record_length(#[trigger] streams[k], here[k])
                            <= streams[k].len(),
                    forall|k: int| 0 <= k < n ==> 2 <= #[trigger] here[k],
                    forall|k: int| i <= k < n ==> (#[trigger] positions@[k]) == here[k],
                    forall|k: int|
                        0 <= k < i ==> (#[trigger] positions@[k]) == here[k] + 4 + record_length(
                            streams[k],
                            here[k],
                        ),
                decreases n - i,
            {
                let length = lengths[i];
                let next = positions[i] + 4 + length;
                positions[i] = next;
                i += 1;
            }
            proof {
                assert(positions_of(positions@) =~= after_records(streams, here));
                assert(destination@ =~= written + plain@);
                assert(streams[0].len() - here[0] >= 4);
                assert forall|r2: Result<(), ShamirError>, out2: Seq<u8>| #[trigger]
                    decode_allows(
                        streams,
                        positions_of(positions@),
                        xs,
                        integrity,
                        compression,
                        destination@,
                        r2,
                        out2,
                    ) implies decode_allows(
                    streams,
                    start,
                    xs,
                    integrity,
                    compression,
                    before,
                    r2,
                    out2,
                ) by {
                    assert(decode_allows(
                        streams,
                        here,
                        xs,
                        integrity,
                        compression,
                        written,
                        r2,
                        out2,
                    ));
                }
            }
        }
        wipe(&mut buffer);
        Ok(())
    }
}

} // verus!
