//! The streaming round trip: what `split_stream` writes, `reconstruct_stream`
//! reads back, from any `threshold` or more of the streams.

use crate::error::ShamirError;
use crate::laws::{distinct_picks, lemma_points_recover, lemma_prepared_parts};
use crate::payload::{decoder_decides, prepared, unpacked};
use crate::shamir::{chunk_refusal, SchemeModel};
use crate::share::usable_indices;
use crate::sharing::evaluate_at;
use crate::stream::{
    after_records, any_exhausted, any_truncated, behind_headers, chunk_fits, chunked,
    decode_allows, flags_byte, header, header_indices, is_stream_written, lemma_flags_round_trip,
    reconstruct_stream_allows, record, record_data, record_length, records_at, split_stream_allows,
    stream_records, stream_written,
};
use vstd::bytes::{lemma_auto_spec_u32_to_from_le_bytes, spec_u32_to_le_bytes};
use vstd::prelude::*;

verus! {

/// The chunks from chunk `j` on, put together again.
pub open spec fn concat_from(chunks: Seq<Seq<u8>>, j: nat) -> Seq<u8>
    decreases chunks.len() - j,
{
    if j >= chunks.len() {
        Seq::empty()
    } else {
        chunks[j as int] + concat_from(chunks, j + 1)
    }
}

/// `n` empty destinations.
pub open spec fn empties(n: nat) -> Seq<Seq<u8>> {
    Seq::new(n, |i: int| Seq::<u8>::empty())
}

/// The streams at the positions `picks`, in that order.
pub open spec fn select_streams(streams: Seq<Seq<u8>>, picks: Seq<int>) -> Seq<Seq<u8>> {
    Seq::new(picks.len(), |k: int| streams[picks[k]])
}

/// The share indices of the picked streams.
pub open spec fn picked_indices(picks: Seq<int>) -> Seq<u8> {
    Seq::new(picks.len(), |k: int| (picks[k] + 1) as u8)
}

/// The records of the chunks from `j` up to `m` for the destination with index `x`.
pub open spec fn records_from(
    chunks: Seq<Seq<u8>>,
    coefficients: Seq<Seq<u8>>,
    scheme: SchemeModel,
    x: u8,
    j: nat,
    m: nat,
) -> Seq<u8>
    decreases m - j,
{
    if j >= m {
        Seq::empty()
    } else {
        record(
            evaluate_at(
                scheme.prepared(chunks[j as int]),
                coefficients[j as int],
                scheme.threshold as nat,
                x,
            ),
        ) + records_from(chunks, coefficients, scheme, x, j + 1, m)
    }
}

/// The position in each picked stream behind the records of the first `j` chunks.
pub open spec fn stream_positions(
    chunks: Seq<Seq<u8>>,
    coefficients: Seq<Seq<u8>>,
    scheme: SchemeModel,
    picks: Seq<int>,
    j: nat,
) -> Seq<int> {
    Seq::new(
        picks.len(),
        |k: int|
            2 + stream_records(chunks, coefficients, scheme, (picks[k] + 1) as u8, j).len() as int,
    )
}

/// Putting the chunks together from the second on skips the first.
proof fn lemma_concat_shift(head: Seq<u8>, rest: Seq<Seq<u8>>, j: nat)
    ensures
        concat_from(seq![head] + rest, j + 1) == concat_from(rest, j),
    decreases rest.len() - j,
{
    let all = seq![head] + rest;
    if j < rest.len() {
        lemma_concat_shift(head, rest, j + 1);
        assert(all[(j + 1) as int] == rest[j as int]);
    }
}

/// The chunks of a source, put together again, are the source.
pub proof fn lemma_chunks_make_source(source: Seq<u8>, chunk_size: nat)
    requires
        chunk_size > 0,
    ensures
        concat_from(chunked(source, chunk_size), 0) == source,
    decreases source.len(),
{
    let chunks = chunked(source, chunk_size);
    if source.len() == 0 {
        assert(concat_from(chunks, 0) =~= source);
    } else if source.len() <= chunk_size {
        assert(chunks[0] == source);
        assert(concat_from(chunks, 1) =~= Seq::<u8>::empty());
        assert(concat_from(chunks, 0) =~= source);
    } else {
        let head = source.subrange(0, chunk_size as int);
        let tail = source.subrange(chunk_size as int, source.len() as int);
        lemma_chunks_make_source(tail, chunk_size);
        lemma_concat_shift(head, chunked(tail, chunk_size), 0);
        assert(chunks[0] == head);
        assert(concat_from(chunks, 0) =~= source);
    }
}

/// The records of the first `m` chunks are those of the first `j`, then those
/// of the chunks from `j` up to `m`.
pub proof fn lemma_records_split(
    chunks: Seq<Seq<u8>>,
    coefficients: Seq<Seq<u8>>,
    scheme: SchemeModel,
    x: u8,
    j: nat,
    m: nat,
)
    requires
        j <= m,
    ensures
        stream_records(chunks, coefficients, scheme, x, m) == stream_records(
            chunks,
            coefficients,
            scheme,
            x,
            j,
        ) + records_from(chunks, coefficients, scheme, x, j, m),
    decreases m - j,
{
    let first = stream_records(chunks, coefficients, scheme, x, j);
    if j == m {
        assert(first + records_from(chunks, coefficients, scheme, x, j, m) =~= first);
    } else {
        lemma_records_split(chunks, coefficients, scheme, x, j + 1, m);
        let one = record(
            evaluate_at(
                scheme.prepared(chunks[j as int]),
                coefficients[j as int],
                scheme.threshold as nat,
                x,
            ),
        );
        let rest = records_from(chunks, coefficients, scheme, x, j + 1, m);
        assert(stream_records(chunks, coefficients, scheme, x, j + 1) == first + one);
        assert((first + one) + rest =~= first + (one + rest));
    }
}

/// Unpacking what was prepared for a chunk without compression gives the chunk.
pub proof fn lemma_unpacked_prepared(secret: Seq<u8>, integrity: bool)
    ensures
        unpacked(prepared(secret, integrity, false), integrity, false) == Ok::<
            Seq<u8>,
            ShamirError,
        >(secret),
        !decoder_decides(prepared(secret, integrity, false), integrity, false),
{
    lemma_prepared_parts(secret, integrity, false);
}

/// Decoding the picked streams from behind the records of the first `j`
/// chunks ends well and writes the chunks from `j` on.
pub proof fn lemma_decode_written(
    scheme: SchemeModel,
    chunks: Seq<Seq<u8>>,
    coefficients: Seq<Seq<u8>>,
    chosen: Seq<Seq<u8>>,
    picks: Seq<int>,
    j: nat,
    written: Seq<u8>,
    r: Result<(), ShamirError>,
    out: Seq<u8>,
)
    requires
        scheme.valid(),
        !scheme.config.compression,
        distinct_picks(picks, scheme.total_shares as nat),
        picks.len() >= scheme.threshold,
        j <= chunks.len(),
        coefficients.len() == chunks.len(),
        forall|i: int|
            0 <= i < chunks.len() ==> (#[trigger] coefficients[i]).len() == scheme.prepared(
                chunks[i],
            ).len() * (scheme.threshold - 1) && chunk_fits(
                scheme.prepared(chunks[i]).len(),
                scheme.threshold,
            ),
        chosen.len() == picks.len(),
        forall|k: int|
            0 <= k < picks.len() ==> #[trigger] chosen[k] == header(
                flags_byte(scheme.config.integrity_check, scheme.config.compression),
                (picks[k] + 1) as u8,
            ) + stream_records(chunks, coefficients, scheme, (picks[k] + 1) as u8, chunks.len()),
        decode_allows(
            chosen,
            stream_positions(chunks, coefficients, scheme, picks, j),
            picked_indices(picks),
            scheme.config.integrity_check,
            false,
            written,
            r,
            out,
        ),
    ensures
        r is Ok,
        out == written + concat_from(chunks, j),
    decreases chunks.len() - j,
{
    let m = chunks.len();
    let t = scheme.threshold;
    let integrity = scheme.config.integrity_check;
    let flags = flags_byte(integrity, scheme.config.compression);
    let xs = picked_indices(picks);
    let here = stream_positions(chunks, coefficients, scheme, picks, j);
    assert(chosen.len() > 0);
    if j == m {
        assert(chosen[0].len() - here[0] < 4);
        assert(any_exhausted(chosen, here));
        assert(concat_from(chunks, j) =~= Seq::<u8>::empty());
        assert(written + concat_from(chunks, j) =~= written);
    } else {
        let payload = scheme.prepared(chunks[j as int]);
        let c = coefficients[j as int];
        let len = payload.len();
        assert(chunk_fits(len, t));
        lemma_auto_spec_u32_to_from_le_bytes();
        let next = stream_positions(chunks, coefficients, scheme, picks, j + 1);
        let values = Seq::new(picks.len(), |k: int| evaluate_at(payload, c, t as nat, xs[k]));
        assert forall|k: int| 0 <= k < picks.len() implies (#[trigger] chosen[k]).len() - here[k]
            >= 4 && record_length(chosen[k], here[k]) == len && record_data(chosen[k], here[k])
            == values[k] && here[k] + 4 + len == next[k] && next[k] <= chosen[k].len() by {
            let x = (picks[k] + 1) as u8;
            let first = stream_records(chunks, coefficients, scheme, x, j);
            let data = evaluate_at(payload, c, t as nat, x);
            let rest = records_from(chunks, coefficients, scheme, x, j + 1, m);
            lemma_records_split(chunks, coefficients, scheme, x, j, m);
            let prefix = spec_u32_to_le_bytes(len as u32);
            assert(data.len() == len);
            assert(record(data) == prefix + data);
            assert(records_from(chunks, coefficients, scheme, x, j, m) == record(data) + rest);
            let whole = chosen[k];
            assert(whole == header(flags, x) + (first + (record(data) + rest)));
            let p = here[k];
            assert(p == 2 + first.len());
            assert(whole.subrange(p, p + 4) =~= prefix);
            assert(whole.subrange(p + 4, p + 4 + len) =~= data);
            assert(stream_records(chunks, coefficients, scheme, x, j + 1) == first + record(data));
        }
        assert(!any_exhausted(chosen, here));
        assert(!any_truncated(chosen, here));
        assert(records_at(chosen, here) =~= values);
        assert(after_records(chosen, here) =~= next);
        assert(usable_indices(xs)) by {
            assert forall|a: int, b: int| 0 <= a < b < xs.len() implies xs[a] != xs[b] by {
                assert(0 <= picks[a] < scheme.total_shares);
                assert(0 <= picks[b] < scheme.total_shares);
            }
            assert forall|a: int| 0 <= a < xs.len() implies xs[a] != 0 by {
                assert(0 <= picks[a] < scheme.total_shares);
            }
        }
        lemma_points_recover(payload, c, t, xs, values);
        assert(chunk_refusal(xs, values) is None);
        lemma_unpacked_prepared(chunks[j as int], integrity);
        lemma_decode_written(
            scheme,
            chunks,
            coefficients,
            chosen,
            picks,
            j + 1,
            written + chunks[j as int],
            r,
            out,
        );
        assert((written + chunks[j as int]) + concat_from(chunks, j + 1) =~= written
            + concat_from(chunks, j));
    }
}

/// Streaming round trip: what `split_stream` wrote to empty destinations,
/// `reconstruct_stream` reads back from any `threshold` or more of them:
/// it ends well and appends exactly the source, whatever the source's length
/// and the chunk size. Stated for schemes without compression.
pub proof fn law_stream_round_trip(
    scheme: SchemeModel,
    source: Seq<u8>,
    streams: Seq<Seq<u8>>,
    picks: Seq<int>,
    before: Seq<u8>,
    after: Seq<u8>,
    r: Result<(), ShamirError>,
)
    requires
        scheme.valid(),
        !scheme.config.compression,
        split_stream_allows(
            scheme,
            source,
            empties(scheme.total_shares as nat),
            streams,
            Ok::<(), ShamirError>(()),
        ),
        distinct_picks(picks, scheme.total_shares as nat),
        picks.len() >= scheme.threshold,
        reconstruct_stream_allows(select_streams(streams, picks), before, after, r),
    ensures
        r is Ok,
        after == before + source,
{
    let n = scheme.total_shares as nat;
    let chunks = chunked(source, scheme.config.chunk_size as nat);
    let m = choose|m: nat| #[trigger]
        stream_written(scheme, chunks, m, empties(n), streams) && m == chunks.len();
    let coefficients = choose|c: Seq<Seq<u8>>| #[trigger]
        is_stream_written(scheme, chunks, c, m, empties(n), streams);
    assert(stream_written(scheme, chunks, m, empties(n), streams) && m == chunks.len());
    assert(is_stream_written(scheme, chunks, coefficients, m, empties(n), streams));
    assert(coefficients.len() == chunks.len());
    assert forall|i: int| 0 <= i < chunks.len() implies (#[trigger] coefficients[i]).len()
        == scheme.prepared(chunks[i]).len() * (scheme.threshold - 1) && chunk_fits(
        scheme.prepared(chunks[i]).len(),
        scheme.threshold,
    ) by {}
    let chosen = select_streams(streams, picks);
    let flags = flags_byte(scheme.config.integrity_check, scheme.config.compression);
    lemma_flags_round_trip(scheme.config.integrity_check, scheme.config.compression);
    assert forall|k: int| 0 <= k < picks.len() implies #[trigger] chosen[k] == header(
        flags,
        (picks[k] + 1) as u8,
    ) + stream_records(chunks, coefficients, scheme, (picks[k] + 1) as u8, chunks.len()) by {
        let i = picks[k];
        assert(0 <= i < n);
        assert(streams[i] == empties(n)[i] + header(flags, (i + 1) as u8) + stream_records(
            chunks,
            coefficients,
            scheme,
            (i + 1) as u8,
            m,
        ));
        assert(empties(n)[i] + header(flags, (i + 1) as u8) =~= header(flags, (i + 1) as u8));
    }
    assert forall|k: int| 0 <= k < chosen.len() implies (#[trigger] chosen[k]).len() >= 2
        && chosen[k][0] == flags && chosen[k][1] == (picks[k] + 1) as u8 by {
        assert(chosen[k] == header(flags, (picks[k] + 1) as u8) + stream_records(
            chunks,
            coefficients,
            scheme,
            (picks[k] + 1) as u8,
            chunks.len(),
        ));
    }
    assert(chosen.len() > 0);
    assert(header_indices(chosen) =~= picked_indices(picks));
    assert(behind_headers(chosen) =~= stream_positions(chunks, coefficients, scheme, picks, 0));
    lemma_decode_written(scheme, chunks, coefficients, chosen, picks, 0, before, r, after);
    lemma_chunks_make_source(source, scheme.config.chunk_size as nat);
}

} // verus!
