//! What holds of the scheme as a whole: laws that relate splitting,
//! reconstructing and refreshing, each proved from the contracts of the
//! functions it speaks of.

use crate::error::ShamirError;
use crate::finite_field::{gf_mul, lemma_mul_zero, lemma_no_zero_divisors, lemma_xor_laws};
use crate::interpolation::{
    lemma_coefficient_nonzero, lemma_interpolation_recovers_constant, lemma_weighted_sum_linear,
    lemma_weighted_sum_single,
};
use crate::outside::{zstd_compressed, zstd_decompressed};
use crate::payload::{
    carried_body, carried_hash, digest, payload_body_of, prepared, unpack_allows, verified,
    COMPRESSION_LEVEL, HASH_SIZE,
};
use crate::polynomial::{eval_poly, interpolate_at_zero, lagrange_coefficients};
use crate::shamir::{
    is_refresh, reconstruct_allows, refresh_refusal, refreshed_share, refreshes_into, SchemeModel,
};
use crate::share::{
    column, consistent, data_of, indices_of, recovered_bytes, refusal, usable_indices, ShareModel,
};
use crate::sharing::{byte_polynomial, evaluate_at, zeros};
use crate::hsss::{
    count_before, flattened, lemma_count_before_grows, GroupModel, HsssModel, LevelModel,
};
use crate::sharing::dealt_share;
use vstd::prelude::*;

verus! {

/// The shares at the positions `picks`, in that order.
pub open spec fn select(shares: Seq<ShareModel>, picks: Seq<int>) -> Seq<ShareModel> {
    Seq::new(picks.len(), |i: int| shares[picks[i]])
}

/// `picks` names positions below `n`, none of them twice.
pub open spec fn distinct_picks(picks: Seq<int>, n: nat) -> bool {
    &&& forall|i: int| 0 <= i < picks.len() ==> 0 <= #[trigger] picks[i] < n
    &&& forall|i: int, j: int| 0 <= i < j < picks.len() ==> picks[i] != picks[j]
}

/// Any `threshold` or more of the shares of a split are accepted, and
/// interpolation recovers from them exactly the data that was split,
/// whatever coefficients were drawn.
pub proof fn law_split_recovers_data(
    scheme: SchemeModel,
    data: Seq<u8>,
    coefficients: Seq<u8>,
    shares: Seq<ShareModel>,
    picks: Seq<int>,
)
    requires
        scheme.valid(),
        scheme.is_split(shares, data, coefficients),
        distinct_picks(picks, scheme.total_shares as nat),
        picks.len() >= scheme.threshold,
    ensures
        refusal(select(shares, picks)) is None,
        recovered_bytes(select(shares, picks)) == data,
{
    let chosen = select(shares, picks);
    let xs = indices_of(chosen);
    assert forall|i: int| 0 <= i < chosen.len() implies (#[trigger] chosen[i]).index == picks[i]
        + 1 && chosen[i] == dealt_share(
        data,
        coefficients,
        scheme.threshold,
        scheme.total_shares,
        scheme.config.integrity_check,
        scheme.config.compression,
        chosen[i].index,
    ) by {
        assert(0 <= picks[i] < scheme.total_shares);
    }
    assert(usable_indices(xs)) by {
        assert forall|i: int, j: int| 0 <= i < j < xs.len() implies xs[i] != xs[j] by {
            assert(chosen[i].index == picks[i] + 1);
            assert(chosen[j].index == picks[j] + 1);
        }
        assert forall|i: int| 0 <= i < xs.len() implies xs[i] != 0 by {
            assert(chosen[i].index == picks[i] + 1);
        }
    }
    law_dealt_shares_recover(scheme, data, coefficients, chosen);
}

/// What a reconstruction gives when it recovers exactly what was split for
/// `secret`. Without compression: the secret. With compression the decoder has
/// a say: a decompression error, or what the decoder made of the compressed
/// secret, held against the secret's hash.
pub open spec fn round_trip_allows(
    secret: Seq<u8>,
    integrity: bool,
    compression: bool,
    r: Result<Seq<u8>, ShamirError>,
) -> bool {
    if compression {
        (r matches Err(ShamirError::DecompressionError(_))) || r == verified(
            if integrity {
                Some(digest(secret))
            } else {
                None
            },
            zstd_decompressed(zstd_compressed(secret, COMPRESSION_LEVEL as int)),
        )
    } else {
        r == Ok::<Seq<u8>, ShamirError>(secret)
    }
}

/// Unpacking what was prepared for a secret gives the secret back, as far as
/// the decoder lets it.
pub proof fn lemma_unpack_prepared(
    secret: Seq<u8>,
    integrity: bool,
    compression: bool,
    r: Result<Seq<u8>, ShamirError>,
)
    requires
        unpack_allows(prepared(secret, integrity, compression), integrity, compression, r),
    ensures
        round_trip_allows(secret, integrity, compression, r),
{
    lemma_prepared_parts(secret, integrity, compression);
}

/// Interpolation recovers the data of a split from its values at pairwise
/// distinct, nonzero points, when there are at least `t` of them.
pub proof fn lemma_points_recover(
    data: Seq<u8>,
    coefficients: Seq<u8>,
    t: u8,
    xs: Seq<u8>,
    values: Seq<Seq<u8>>,
)
    requires
        t >= 1,
        coefficients.len() == data.len() * (t - 1),
        xs.len() >= t,
        values.len() == xs.len(),
        usable_indices(xs),
        forall|i: int|
            0 <= i < xs.len() ==> #[trigger] values[i] == evaluate_at(
                data,
                coefficients,
                t as nat,
                xs[i],
            ),
    ensures
        crate::share::recovered(xs, values) == data,
        crate::share::same_length(values),
{
    assert(values[0].len() == data.len());
    assert forall|k: int| 0 <= k < data.len() implies interpolate_at_zero(xs, column(values, k))
        == data[k] by {
        let poly = byte_polynomial(data, coefficients, t as nat, k);
        let ys = column(values, k);
        assert forall|i: int| 0 <= i < xs.len() implies ys[i] == eval_poly(poly, xs[i]) by {
            assert(values[i] == evaluate_at(data, coefficients, t as nat, xs[i]));
        }
        lemma_interpolation_recovers_constant(xs, ys, poly);
    }
    assert(crate::share::recovered(xs, values) =~= data);
    assert forall|i: int| 0 <= i < values.len() implies (#[trigger] values[i]).len()
        == values[0].len() by {
        assert(values[i] == evaluate_at(data, coefficients, t as nat, xs[i]));
    }
}

/// Shares that are values of the polynomials of one split at pairwise
/// distinct, nonzero indices, at least `threshold` of them, are accepted, and
/// interpolation recovers from them exactly the data that was split.
pub proof fn law_dealt_shares_recover(
    scheme: SchemeModel,
    data: Seq<u8>,
    coefficients: Seq<u8>,
    shares: Seq<ShareModel>,
)
    requires
        scheme.valid(),
        coefficients.len() == data.len() * (scheme.threshold - 1),
        shares.len() >= scheme.threshold,
        usable_indices(indices_of(shares)),
        forall|i: int|
            0 <= i < shares.len() ==> #[trigger] shares[i] == dealt_share(
                data,
                coefficients,
                scheme.threshold,
                scheme.total_shares,
                scheme.config.integrity_check,
                scheme.config.compression,
                shares[i].index,
            ),
    ensures
        refusal(shares) is None,
        recovered_bytes(shares) == data,
        shares[0].integrity_check == scheme.config.integrity_check,
        shares[0].compression == scheme.config.compression,
{
    let xs = indices_of(shares);
    let t = scheme.threshold;
    assert forall|i: int| 0 <= i < shares.len() implies (#[trigger] shares[i]).data == evaluate_at(
        data,
        coefficients,
        t as nat,
        shares[i].index,
    ) && shares[i].threshold == t && shares[i].integrity_check == scheme.config.integrity_check
        && shares[i].compression == scheme.config.compression by {
        assert(shares[i] == dealt_share(
            data,
            coefficients,
            scheme.threshold,
            scheme.total_shares,
            scheme.config.integrity_check,
            scheme.config.compression,
            shares[i].index,
        ));
    }
    assert(consistent(shares));
    let values = data_of(shares);
    assert forall|i: int| 0 <= i < xs.len() implies #[trigger] values[i] == evaluate_at(
        data,
        coefficients,
        t as nat,
        xs[i],
    ) by {
        assert(shares[i].data == evaluate_at(data, coefficients, t as nat, shares[i].index));
    }
    lemma_points_recover(data, coefficients, t, xs, values);
}

/// Round trip: from any `threshold` or more shares of a split of `secret`,
/// reconstruction gives back `secret`, as far as the decoder lets it where
/// compression is on.
pub proof fn law_round_trip(
    scheme: SchemeModel,
    secret: Seq<u8>,
    shares: Seq<ShareModel>,
    picks: Seq<int>,
    r: Result<Seq<u8>, ShamirError>,
)
    requires
        scheme.valid(),
        scheme.splits_into(shares, scheme.prepared(secret)),
        distinct_picks(picks, scheme.total_shares as nat),
        picks.len() >= scheme.threshold,
        reconstruct_allows(select(shares, picks), r),
    ensures
        round_trip_allows(
            secret,
            scheme.config.integrity_check,
            scheme.config.compression,
            r,
        ),
        !scheme.config.compression ==> r == Ok::<Seq<u8>, ShamirError>(secret),
{
    let data = scheme.prepared(secret);
    let coefficients = choose|c: Seq<u8>| #[trigger] scheme.is_split(shares, data, c);
    law_split_recovers_data(scheme, data, coefficients, shares, picks);
    let chosen = select(shares, picks);
    assert(0 <= picks[0] < scheme.total_shares);
    assert(chosen[0].integrity_check == scheme.config.integrity_check);
    assert(chosen[0].compression == scheme.config.compression);
    lemma_unpack_prepared(
        secret,
        scheme.config.integrity_check,
        scheme.config.compression,
        r,
    );
}

/// A prepared payload comes apart into the hash and the body it was made of.
pub proof fn lemma_prepared_parts(secret: Seq<u8>, integrity: bool, compression: bool)
    ensures
        integrity ==> prepared(secret, integrity, compression).len() >= HASH_SIZE,
        carried_hash(prepared(secret, integrity, compression), integrity) == if integrity {
            Some(digest(secret))
        } else {
            None
        },
        carried_body(prepared(secret, integrity, compression), integrity) == payload_body_of(
            secret,
            compression,
        ),
{
    let body = payload_body_of(secret, compression);
    let raw = prepared(secret, integrity, compression);
    if integrity {
        assert(raw.subrange(0, HASH_SIZE as int) =~= digest(secret));
        assert(raw.subrange(HASH_SIZE as int, raw.len() as int) =~= body);
    }
}

/// Threshold enforcement: fewer shares than the first share's threshold, but
/// at least one, are refused as insufficient, with the threshold and the count.
pub proof fn law_threshold_enforced(shares: Seq<ShareModel>, r: Result<Seq<u8>, ShamirError>)
    requires
        0 < shares.len() < shares[0].threshold,
        reconstruct_allows(shares, r),
    ensures
        r == Err::<Seq<u8>, ShamirError>(
            ShamirError::InsufficientShares {
                needed: shares[0].threshold,
                got: shares.len() as u8,
            },
        ),
{
}

/// Subset independence: two selections of `threshold` or more shares of one
/// split recover the same bytes, so whatever one reconstruction may give, the
/// other may give too.
pub proof fn law_subset_independence(
    scheme: SchemeModel,
    data: Seq<u8>,
    shares: Seq<ShareModel>,
    picks_a: Seq<int>,
    picks_b: Seq<int>,
    r: Result<Seq<u8>, ShamirError>,
)
    requires
        scheme.valid(),
        scheme.splits_into(shares, data),
        distinct_picks(picks_a, scheme.total_shares as nat),
        distinct_picks(picks_b, scheme.total_shares as nat),
        picks_a.len() >= scheme.threshold,
        picks_b.len() >= scheme.threshold,
    ensures
        recovered_bytes(select(shares, picks_a)) == recovered_bytes(select(shares, picks_b)),
        reconstruct_allows(select(shares, picks_a), r) == reconstruct_allows(
            select(shares, picks_b),
            r,
        ),
{
    let coefficients = choose|c: Seq<u8>| #[trigger] scheme.is_split(shares, data, c);
    law_split_recovers_data(scheme, data, coefficients, shares, picks_a);
    law_split_recovers_data(scheme, data, coefficients, shares, picks_b);
    assert(0 <= picks_a[0] < scheme.total_shares);
    assert(0 <= picks_b[0] < scheme.total_shares);
}

/// Duplicate indices: shares that pass the checks on number, length and flags
/// and hold one index twice are refused as malformed.
pub proof fn law_duplicate_indices_refused(
    shares: Seq<ShareModel>,
    i: int,
    j: int,
    r: Result<Seq<u8>, ShamirError>,
)
    requires
        shares.len() >= shares[0].threshold,
        consistent(shares),
        0 <= i < j < shares.len(),
        shares[i].index == shares[j].index,
        reconstruct_allows(shares, r),
    ensures
        r == Err::<Seq<u8>, ShamirError>(ShamirError::InvalidShareFormat),
{
    let xs = indices_of(shares);
    assert(xs[i] == xs[j]);
}

/// Refresh invariance: refreshed shares recover the same bytes as the shares
/// they were made from, so whatever a reconstruction from the old shares may
/// give, one from the new shares may give too, and the other way round.
pub proof fn law_refresh_invariance(
    old: Seq<ShareModel>,
    new: Seq<ShareModel>,
    t: u8,
    r: Result<Seq<u8>, ShamirError>,
)
    requires
        t >= 1,
        refresh_refusal(old, t) is None,
        refreshes_into(new, old, t),
    ensures
        refusal(new) == refusal(old),
        refusal(old) is None ==> recovered_bytes(new) == recovered_bytes(old),
        reconstruct_allows(new, r) == reconstruct_allows(old, r),
{
    let coefficients = choose|c: Seq<u8>| #[trigger] is_refresh(new, old, c, t);
    let len = old[0].data.len();
    let zs = zeros(len);
    assert forall|i: int| 0 <= i < old.len() implies (#[trigger] new[i]).index == old[i].index
        && new[i].threshold == old[i].threshold && new[i].integrity_check
        == old[i].integrity_check && new[i].compression == old[i].compression
        && new[i].data.len() == old[i].data.len() by {
        assert(new[i] == refreshed_share(
            old[i],
            evaluate_at(zs, coefficients, t as nat, old[i].index),
        ));
    }
    assert(indices_of(new) =~= indices_of(old));
    assert(consistent(new) == consistent(old)) by {
        if consistent(old) {
            assert forall|i: int| 0 <= i < new.len() implies (#[trigger] new[i]).data.len()
                == new[0].data.len() && new[i].integrity_check == new[0].integrity_check
                && new[i].compression == new[0].compression by {
                assert(old[i].data.len() == old[0].data.len());
            }
        }
        if consistent(new) {
            assert forall|i: int| 0 <= i < old.len() implies (#[trigger] old[i]).data.len()
                == old[0].data.len() && old[i].integrity_check == old[0].integrity_check
                && old[i].compression == old[0].compression by {
                assert(new[i].data.len() == new[0].data.len());
            }
        }
    }
    assert(refusal(new) == refusal(old));
    if refusal(old) is None {
        let xs = indices_of(old);
        let ls = lagrange_coefficients(xs);
        assert forall|k: int| 0 <= k < len implies interpolate_at_zero(
            xs,
            column(data_of(new), k),
        ) == interpolate_at_zero(xs, column(data_of(old), k)) by {
            let poly = byte_polynomial(zs, coefficients, t as nat, k);
            let ys = column(data_of(old), k);
            let ws = column(data_of(new), k);
            let ds = Seq::new(old.len(), |i: int| eval_poly(poly, xs[i]));
            assert forall|i: int| 0 <= i < old.len() implies ws[i] == ys[i] ^ ds[i] by {
                assert(new[i] == refreshed_share(
                    old[i],
                    evaluate_at(zs, coefficients, t as nat, old[i].index),
                ));
                assert(old[i].data.len() == len);
            }
            lemma_weighted_sum_linear(ls, ys, ds, ws, xs.len());
            lemma_interpolation_recovers_constant(xs, ds, poly);
            lemma_xor_laws(interpolate_at_zero(xs, ys), 0, 0);
        }
        assert(recovered_bytes(new) =~= recovered_bytes(old));
    }
}

/// The groups at the positions `picks`, in that order.
pub open spec fn select_groups(groups: Seq<GroupModel>, picks: Seq<int>) -> Seq<GroupModel> {
    Seq::new(picks.len(), |i: int| groups[picks[i]])
}

/// The number of shares that the first `m` picked levels hold together.
pub open spec fn picked_count(levels: Seq<LevelModel>, picks: Seq<int>, m: nat) -> nat
    decreases m,
{
    if m == 0 {
        0
    } else {
        picked_count(levels, picks, (m - 1) as nat) + levels[picks[m - 1]].shares_count as nat
    }
}

/// Which of the first `m` picks the share at position `a` of the flattened
/// list comes from.
pub open spec fn owner(levels: Seq<LevelModel>, picks: Seq<int>, m: nat, a: int) -> int
    decreases m,
{
    if m == 0 {
        0
    } else if a >= picked_count(levels, picks, (m - 1) as nat) {
        m - 1
    } else {
        owner(levels, picks, (m - 1) as nat, a)
    }
}

/// The index of the share at position `a` of the flattened list: its level's
/// first index plus its place within the level.
pub open spec fn index_at(levels: Seq<LevelModel>, picks: Seq<int>, m: nat, a: int) -> int {
    let j = owner(levels, picks, m, a);
    1 + count_before(levels, picks[j] as nat) + (a - picked_count(levels, picks, j as nat))
}

/// The share at position `a` of the first `m` picked levels' shares is the
/// master split's share at the index that its level and place give it.
pub open spec fn placed(
    hsss: HsssModel,
    data: Seq<u8>,
    coefficients: Seq<u8>,
    picks: Seq<int>,
    m: nat,
    a: int,
    share: ShareModel,
) -> bool {
    let j = owner(hsss.levels, picks, m, a);
    &&& 0 <= j < m
    &&& picked_count(hsss.levels, picks, j as nat) <= a < picked_count(
        hsss.levels,
        picks,
        (j + 1) as nat,
    )
    &&& 1 <= index_at(hsss.levels, picks, m, a) <= 255
    &&& share == dealt_share(
        data,
        coefficients,
        hsss.scheme.threshold,
        hsss.scheme.total_shares,
        hsss.scheme.config.integrity_check,
        hsss.scheme.config.compression,
        index_at(hsss.levels, picks, m, a) as u8,
    )
}

/// The picked levels' shares, put in one list, are shares of the master
/// split, each at the index that its level and its place in the level give it.
pub proof fn lemma_flattened_structure(
    hsss: HsssModel,
    data: Seq<u8>,
    coefficients: Seq<u8>,
    groups: Seq<GroupModel>,
    picks: Seq<int>,
    m: nat,
)
    requires
        hsss.valid(),
        hsss.is_split(groups, data, coefficients),
        distinct_picks(picks, hsss.levels.len()),
        m <= picks.len(),
    ensures
        flattened(select_groups(groups, picks), m).len() == picked_count(hsss.levels, picks, m),
        forall|a: int|
            0 <= a < picked_count(hsss.levels, picks, m) ==> placed(
                hsss,
                data,
                coefficients,
                picks,
                m,
                a,
                #[trigger] flattened(select_groups(groups, picks), m)[a],
            ),
    decreases m,
{
    let levels = hsss.levels;
    let chosen = select_groups(groups, picks);
    if m > 0 {
        let p = (m - 1) as nat;
        lemma_flattened_structure(hsss, data, coefficients, groups, picks, p);
        let l = picks[m - 1];
        assert(0 <= l < levels.len());
        let group = chosen[m - 1];
        assert(group == groups[l]);
        let before = flattened(chosen, p);
        let now = flattened(chosen, m);
        assert(now == before + group.shares);
        assert(group.shares.len() == levels[l].shares_count);
        lemma_count_before_grows(levels, (l + 1) as nat, levels.len());
        assert(count_before(levels, (l + 1) as nat) == count_before(levels, l as nat)
            + levels[l].shares_count);
        assert forall|a: int| 0 <= a < picked_count(levels, picks, m) implies placed(
            hsss,
            data,
            coefficients,
            picks,
            m,
            a,
            #[trigger] now[a],
        ) by {
            if a < before.len() {
                assert(now[a] == before[a]);
                assert(placed(hsss, data, coefficients, picks, p, a, before[a]));
                assert(owner(levels, picks, m, a) == owner(levels, picks, p, a));
                assert(index_at(levels, picks, m, a) == index_at(levels, picks, p, a));
            } else {
                let k = a - before.len();
                assert(now[a] == group.shares[k]);
                assert(owner(levels, picks, m, a) == m - 1);
                assert(index_at(levels, picks, m, a) == 1 + count_before(levels, l as nat) + k);
            }
        }
    }
}

/// The shares of distinct levels, put in one list, have pairwise distinct indices.
pub proof fn lemma_flattened_indices_distinct(
    levels: Seq<LevelModel>,
    picks: Seq<int>,
    m: nat,
    a: int,
    b: int,
)
    requires
        distinct_picks(picks, levels.len()),
        m <= picks.len(),
        0 <= a < b,
        0 <= owner(levels, picks, m, a) < m,
        0 <= owner(levels, picks, m, b) < m,
        picked_count(levels, picks, owner(levels, picks, m, a) as nat) <= a < picked_count(
            levels,
            picks,
            (owner(levels, picks, m, a) + 1) as nat,
        ),
        picked_count(levels, picks, owner(levels, picks, m, b) as nat) <= b < picked_count(
            levels,
            picks,
            (owner(levels, picks, m, b) + 1) as nat,
        ),
    ensures
        index_at(levels, picks, m, a) != index_at(levels, picks, m, b),
{
    let ja = owner(levels, picks, m, a);
    let jb = owner(levels, picks, m, b);
    let la = picks[ja];
    let lb = picks[jb];
    assert(0 <= la < levels.len());
    assert(0 <= lb < levels.len());
    if ja != jb {
        assert(la != lb);
        assert(picked_count(levels, picks, (ja + 1) as nat) == picked_count(
            levels,
            picks,
            ja as nat,
        ) + levels[la].shares_count);
        assert(picked_count(levels, picks, (jb + 1) as nat) == picked_count(
            levels,
            picks,
            jb as nat,
        ) + levels[lb].shares_count);
        assert(count_before(levels, (la + 1) as nat) == count_before(levels, la as nat)
            + levels[la].shares_count);
        assert(count_before(levels, (lb + 1) as nat) == count_before(levels, lb as nat)
            + levels[lb].shares_count);
        if la < lb {
            lemma_count_before_grows(levels, (la + 1) as nat, lb as nat);
        } else {
            lemma_count_before_grows(levels, (lb + 1) as nat, la as nat);
        }
    }
}

/// Threshold semantics of the hierarchy: the shares of any distinct levels,
/// at least one, that together hold the master threshold or more reconstruct
/// the secret, as far as the decoder lets them where compression is on;
/// those that hold fewer are refused as insufficient, with the master
/// threshold and their number.
pub proof fn law_hsss_threshold(
    hsss: HsssModel,
    secret: Seq<u8>,
    groups: Seq<GroupModel>,
    picks: Seq<int>,
    r: Result<Seq<u8>, ShamirError>,
)
    requires
        hsss.valid(),
        hsss.splits_into(groups, hsss.scheme.prepared(secret)),
        distinct_picks(picks, hsss.levels.len()),
        picks.len() > 0,
        reconstruct_allows(flattened(select_groups(groups, picks), picks.len()), r),
    ensures
        picked_count(hsss.levels, picks, picks.len()) >= hsss.scheme.threshold
            ==> round_trip_allows(
            secret,
            hsss.scheme.config.integrity_check,
            hsss.scheme.config.compression,
            r,
        ),
        picked_count(hsss.levels, picks, picks.len()) < hsss.scheme.threshold ==> r == Err::<
            Seq<u8>,
            ShamirError,
        >(
            ShamirError::InsufficientShares {
                needed: hsss.scheme.threshold,
                got: picked_count(hsss.levels, picks, picks.len()) as u8,
            },
        ),
{
    let levels = hsss.levels;
    let m = picks.len();
    let data = hsss.scheme.prepared(secret);
    let coefficients = choose|c: Seq<u8>| #[trigger] hsss.is_split(groups, data, c);
    let shares = flattened(select_groups(groups, picks), m);
    lemma_flattened_structure(hsss, data, coefficients, groups, picks, m);
    // There is at least one share.
    assert(0 <= picks[0] < levels.len());
    assert(picked_count(levels, picks, 1) == picked_count(levels, picks, 0)
        + levels[picks[0]].shares_count);
    lemma_picked_count_grows(levels, picks, 1, m);
    assert(shares.len() >= 1);
    assert(placed(hsss, data, coefficients, picks, m, 0, shares[0]));
    assert(shares[0].threshold == hsss.scheme.threshold);
    if shares.len() >= hsss.scheme.threshold {
        let xs = indices_of(shares);
        assert forall|a: int| 0 <= a < shares.len() implies (#[trigger] shares[a]).index
            == index_at(levels, picks, m, a) && shares[a] == dealt_share(
            data,
            coefficients,
            hsss.scheme.threshold,
            hsss.scheme.total_shares,
            hsss.scheme.config.integrity_check,
            hsss.scheme.config.compression,
            shares[a].index,
        ) by {
            assert(placed(hsss, data, coefficients, picks, m, a, shares[a]));
        }
        assert(usable_indices(xs)) by {
            assert forall|a: int, b: int| 0 <= a < b < xs.len() implies xs[a] != xs[b] by {
                assert(placed(hsss, data, coefficients, picks, m, a, shares[a]));
                assert(placed(hsss, data, coefficients, picks, m, b, shares[b]));
                lemma_flattened_indices_distinct(levels, picks, m, a, b);
            }
            assert forall|a: int| 0 <= a < xs.len() implies xs[a] != 0 by {
                assert(placed(hsss, data, coefficients, picks, m, a, shares[a]));
            }
        }
        law_dealt_shares_recover(hsss.scheme, data, coefficients, shares);
        lemma_unpack_prepared(
            secret,
            hsss.scheme.config.integrity_check,
            hsss.scheme.config.compression,
            r,
        );
    }
}

/// Counts of picked levels grow with the number of picks.
pub proof fn lemma_picked_count_grows(levels: Seq<LevelModel>, picks: Seq<int>, a: nat, b: nat)
    requires
        a <= b <= picks.len(),
    ensures
        picked_count(levels, picks, a) <= picked_count(levels, picks, b),
    decreases b - a,
{
    if a < b {
        lemma_picked_count_grows(levels, picks, a, (b - 1) as nat);
    }
}

/// The shares with the data of share `i` replaced.
pub open spec fn replaced(shares: Seq<ShareModel>, i: int, data: Seq<u8>) -> Seq<ShareModel> {
    shares.update(i, ShareModel { data, ..shares[i] })
}

/// The shares with byte `k` of share `i` replaced by `byte`.
pub open spec fn tampered(shares: Seq<ShareModel>, i: int, k: int, byte: u8) -> Seq<ShareModel> {
    replaced(shares, i, shares[i].data.update(k, byte))
}

/// Every share has a say in every byte: when the data of one accepted share
/// is replaced by other data of the same length, what is recovered changes
/// at exactly the places where the share's data changed.
pub proof fn law_replaced_share_shows(shares: Seq<ShareModel>, i: int, data: Seq<u8>)
    requires
        refusal(shares) is None,
        0 <= i < shares.len(),
        data.len() == shares[i].data.len(),
    ensures
        refusal(replaced(shares, i, data)) is None,
        recovered_bytes(replaced(shares, i, data)).len() == recovered_bytes(shares).len(),
        forall|k: int|
            0 <= k < shares[0].data.len() ==> (#[trigger] recovered_bytes(
                replaced(shares, i, data),
            )[k] == recovered_bytes(shares)[k] <==> data[k] == shares[i].data[k]),
        replaced(shares, i, data)[0].integrity_check == shares[0].integrity_check,
        replaced(shares, i, data)[0].compression == shares[0].compression,
{
    let new = replaced(shares, i, data);
    let xs = indices_of(shares);
    let len = shares[0].data.len();
    assert(shares[i].data.len() == len);
    assert forall|a: int| 0 <= a < shares.len() implies (#[trigger] new[a]).index
        == shares[a].index && new[a].threshold == shares[a].threshold && new[a].integrity_check
        == shares[a].integrity_check && new[a].compression == shares[a].compression
        && new[a].data.len() == shares[a].data.len() by {}
    assert(indices_of(new) =~= xs);
    assert(consistent(new)) by {
        assert forall|a: int| 0 <= a < new.len() implies (#[trigger] new[a]).data.len()
            == new[0].data.len() && new[a].integrity_check == new[0].integrity_check
            && new[a].compression == new[0].compression by {
            assert(shares[a].data.len() == shares[0].data.len());
        }
    }
    let ls = lagrange_coefficients(xs);
    lemma_coefficient_nonzero(xs, i);
    assert forall|k: int| 0 <= k < len implies (#[trigger] recovered_bytes(new)[k]
        == recovered_bytes(shares)[k] <==> data[k] == shares[i].data[k]) by {
        let ys = column(data_of(shares), k);
        let ws = column(data_of(new), k);
        let byte = data[k];
        let delta = ys[i] ^ byte;
        let ds = Seq::new(shares.len(), |a: int| if a == i { delta } else { 0u8 });
        assert forall|a: int| 0 <= a < shares.len() implies ws[a] == ys[a] ^ ds[a] by {
            lemma_xor_laws(ys[a], byte, 0);
            if a == i {
                assert(ws[a] == byte);
                lemma_xor_laws(ys[a], ys[a], byte);
                lemma_xor_laws(byte, 0, 0);
            }
        }
        lemma_weighted_sum_linear(ls, ys, ds, ws, xs.len());
        lemma_weighted_sum_single(ls, ds, i, xs.len());
        let term = gf_mul(ls[i], delta);
        let was = interpolate_at_zero(xs, ys);
        assert(interpolate_at_zero(xs, ws) == was ^ term);
        lemma_xor_laws(ys[i], byte, 0);
        lemma_xor_laws(byte, byte, 0);
        if byte == ys[i] {
            lemma_mul_zero(ls[i]);
            lemma_xor_laws(was, 0, 0);
        } else {
            if term == 0 {
                lemma_no_zero_divisors(ls[i], delta);
            }
            if (was ^ term) == was {
                lemma_xor_laws(was, was, term);
                lemma_xor_laws(term, 0, 0);
            }
        }
    }
}

/// Tampering shows: changing one byte of one accepted share, be it by one
/// bit, changes the byte at the same place of what is recovered, and no other.
pub proof fn law_tamper_changes_recovered(shares: Seq<ShareModel>, i: int, k: int, byte: u8)
    requires
        refusal(shares) is None,
        0 <= i < shares.len(),
        0 <= k < shares[0].data.len(),
        byte != shares[i].data[k],
    ensures
        refusal(tampered(shares, i, k, byte)) is None,
        recovered_bytes(tampered(shares, i, k, byte)).len() == recovered_bytes(shares).len(),
        recovered_bytes(tampered(shares, i, k, byte))[k] != recovered_bytes(shares)[k],
        forall|j: int|
            0 <= j < shares[0].data.len() && j != k ==> recovered_bytes(
                tampered(shares, i, k, byte),
            )[j] == recovered_bytes(shares)[j],
        tampered(shares, i, k, byte)[0].integrity_check == shares[0].integrity_check,
        tampered(shares, i, k, byte)[0].compression == shares[0].compression,
{
    assert(shares[i].data.len() == shares[0].data.len());
    let data = shares[i].data.update(k, byte);
    law_replaced_share_shows(shares, i, data);
    let new = replaced(shares, i, data);
    assert(recovered_bytes(new)[k] == recovered_bytes(shares)[k] <==> data[k]
        == shares[i].data[k]);
    assert forall|j: int| 0 <= j < shares[0].data.len() && j != k implies recovered_bytes(new)[j]
        == recovered_bytes(shares)[j] by {
        assert(recovered_bytes(new)[j] == recovered_bytes(shares)[j] <==> data[j]
            == shares[i].data[j]);
    }
}

/// Generations do not mix: when one share of an accepted set is exchanged for
/// its refreshed counterpart, what is recovered differs from what the set
/// recovers at exactly the places where the refresh changed that share.
pub proof fn law_generations_do_not_mix(
    old: Seq<ShareModel>,
    new: Seq<ShareModel>,
    t: u8,
    i: int,
)
    requires
        refusal(old) is None,
        refresh_refusal(old, t) is None,
        refreshes_into(new, old, t),
        0 <= i < old.len(),
    ensures
        refusal(old.update(i, new[i])) is None,
        forall|k: int|
            0 <= k < old[0].data.len() ==> (#[trigger] recovered_bytes(old.update(i, new[i]))[k]
                == recovered_bytes(old)[k] <==> new[i].data[k] == old[i].data[k]),
{
    let coefficients = choose|c: Seq<u8>| #[trigger] is_refresh(new, old, c, t);
    let delta = evaluate_at(zeros(old[0].data.len()), coefficients, t as nat, old[i].index);
    assert(new[i] == refreshed_share(old[i], delta));
    assert(old.update(i, new[i]) == replaced(old, i, new[i].data));
    assert(old[i].data.len() == old[0].data.len());
    law_replaced_share_shows(old, i, new[i].data);
}

/// Tamper detection: with integrity checking and without compression, a
/// reconstruction from shares of a secret of which one byte was changed fails
/// the integrity check, unless what is recovered in place of the secret has
/// the secret's own hash.
pub proof fn law_tamper_detected(
    secret: Seq<u8>,
    shares: Seq<ShareModel>,
    i: int,
    k: int,
    byte: u8,
    r: Result<Seq<u8>, ShamirError>,
)
    requires
        refusal(shares) is None,
        shares[0].integrity_check,
        !shares[0].compression,
        recovered_bytes(shares) == prepared(secret, true, false),
        0 <= i < shares.len(),
        0 <= k < shares[0].data.len(),
        byte != shares[i].data[k],
        reconstruct_allows(tampered(shares, i, k, byte), r),
    ensures
        r == Err::<Seq<u8>, ShamirError>(ShamirError::IntegrityCheckFailed) || (k >= HASH_SIZE && (
        r matches Ok(other) && other != secret && digest(other) == digest(secret))),
{
    law_tamper_changes_recovered(shares, i, k, byte);
    lemma_prepared_parts(secret, true, false);
    let raw = recovered_bytes(shares);
    let new = recovered_bytes(tampered(shares, i, k, byte));
    let hash = new.subrange(0, HASH_SIZE as int);
    let body = new.subrange(HASH_SIZE as int, new.len() as int);
    assert(raw.len() == shares[0].data.len());
    if k < HASH_SIZE {
        assert(body =~= raw.subrange(HASH_SIZE as int, raw.len() as int));
        assert(hash[k] != raw.subrange(0, HASH_SIZE as int)[k]);
    } else {
        assert(hash =~= raw.subrange(0, HASH_SIZE as int));
        assert(body[k - HASH_SIZE] != raw.subrange(HASH_SIZE as int, raw.len() as int)[k
            - HASH_SIZE]);
    }
}

} // verus!
